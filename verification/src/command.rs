//! Commands and the body of a command.
use vstd::prelude::*;

use crate::arguments as args;
use crate::arguments::{
    optional, write_argument, write_list, write_optional_list, write_two, write_with_list,
    write_with_options, write_word_argument,
};
use crate::ascii;
use crate::ascii::{is_alpha, is_tag_char};
use crate::date;
use crate::date::{date_time, DateTime};
use crate::encode;
use crate::encode::{
    join_serializable, EncodeContext, EncodeIntoContext, LiteralMode, Token,
};
use crate::extensions::condstore_qresync as modseq;
use crate::extensions::condstore_qresync::{mod_sequence_valzer, mod_sequence_value};
use crate::extensions::rev2 as ext;
use crate::extensions::rev2::{
    charset_option, encode_list, encode_search, extended_search, list, message_set, number63,
    NUMBER63_MAX,
};
use crate::fetch;
use crate::fetch::{item_names, ItemNamesView, MacroOrMessageDataItemNames};
use crate::flag;
use crate::flag::{flag_list, write_flags, Flag, FlagView};
use crate::grammar as g;
use crate::grammar::{
    list1, parens0, parens1, tag, tag_no_case, take_while1, IMAPParseError, IMAPResult, Outcome,
    Rule,
};
use crate::mailbox;
use crate::mailbox::{list_mailbox, mailbox, ListMailbox, Mailbox, MailboxView};
use crate::number;
use crate::number::{number, nz_number, write_number};
use crate::reading;
use crate::response;
use crate::response::{nstring8, NString8, NString8View};
use crate::rev2::{
    ListReturn, ListReturnView, MessageSet, MessageSetView, SearchReturn, SearchReturnView,
};
use crate::search;
use crate::search::{criteria, write_criteria, KeyView, SearchKey};
use crate::sequence;
use crate::sequence::{sequence_set, Sequence, SequenceSet};
use crate::status;
use crate::status::{status_att, StatusDataItemName};
use crate::strings;
use crate::strings::{
    astring, atom, charset, literal, literal8, nstring, string, AString, Atom, Charset, IString,
    Literal, NString, StringView,
};

verus! {

/// A message that APPEND stores. Only a `literal8` may hold NUL.
#[derive(Debug, PartialEq, Eq, Hash)]
pub enum LiteralOrLiteral8 {
    Literal(Literal),
    Literal8(Literal),
}

pub struct MessageView {
    pub binary: bool,
    pub data: Seq<u8>,
    pub mode: LiteralMode,
}

impl DeepView for LiteralOrLiteral8 {
    type V = MessageView;

    open spec fn deep_view(&self) -> MessageView {
        match self {
            LiteralOrLiteral8::Literal(l) => MessageView {
                binary: false,
                data: l.bytes@,
                mode: l.mode,
            },
            LiteralOrLiteral8::Literal8(l) => MessageView {
                binary: true,
                data: l.bytes@,
                mode: l.mode,
            },
        }
    }
}

/// A parameter of SELECT and EXAMINE.
#[derive(Debug, PartialEq, Eq, Hash)]
pub enum SelectParameter {
    CondStore,
    QResync {
        uid_validity: u32,
        mod_sequence_value: u64,
        known_uids: Option<SequenceSet>,
        seq_match_data: Option<(SequenceSet, SequenceSet)>,
    },
}

pub enum SelectParameterView {
    CondStore,
    QResync {
        uid_validity: u32,
        mod_sequence_value: u64,
        known_uids: Option<Seq<Sequence>>,
        seq_match_data: Option<(Seq<Sequence>, Seq<Sequence>)>,
    },
}

impl DeepView for SelectParameter {
    type V = SelectParameterView;

    open spec fn deep_view(&self) -> SelectParameterView {
        match self {
            SelectParameter::CondStore => SelectParameterView::CondStore,
            SelectParameter::QResync {
                uid_validity,
                mod_sequence_value,
                known_uids,
                seq_match_data,
            } => SelectParameterView::QResync {
                uid_validity: *uid_validity,
                mod_sequence_value: *mod_sequence_value,
                known_uids: known_uids.deep_view(),
                seq_match_data: seq_match_data.deep_view(),
            },
        }
    }
}

#[derive(Clone, Copy, Debug, PartialEq, Eq, Hash, Structural)]
pub enum FetchModifier {
    ChangedSince(u64),
    Vanished,
}

impl DeepView for FetchModifier {
    type V = FetchModifier;

    open spec fn deep_view(&self) -> FetchModifier {
        *self
    }
}

#[derive(Clone, Copy, Debug, PartialEq, Eq, Hash, Structural)]
pub enum StoreModifier {
    UnchangedSince(u64),
}

impl DeepView for StoreModifier {
    type V = StoreModifier;

    open spec fn deep_view(&self) -> StoreModifier {
        *self
    }
}

/// How the flags of STORE combine with those of a message.
#[derive(Clone, Copy, Debug, PartialEq, Eq, Hash, Structural)]
pub enum StoreType {
    Replace,
    Add,
    Remove,
}

impl DeepView for StoreType {
    type V = StoreType;

    open spec fn deep_view(&self) -> StoreType {
        *self
    }
}

/// Whether the server answers STORE with the new flags.
#[derive(Clone, Copy, Debug, PartialEq, Eq, Hash, Structural)]
pub enum StoreResponse {
    Answer,
    Silent,
}

impl DeepView for StoreResponse {
    type V = StoreResponse;

    open spec fn deep_view(&self) -> StoreResponse {
        *self
    }
}

#[derive(Clone, Copy, Debug, PartialEq, Eq, Hash, Structural)]
pub enum CompressionAlgorithm {
    Deflate,
}

impl DeepView for CompressionAlgorithm {
    type V = CompressionAlgorithm;

    open spec fn deep_view(&self) -> CompressionAlgorithm {
        *self
    }
}

/// What SORT orders by.
#[derive(Clone, Copy, Debug, PartialEq, Eq, Hash, Structural)]
pub enum SortKey {
    Arrival,
    Cc,
    Date,
    DisplayFrom,
    DisplayTo,
    From,
    Size,
    Subject,
    To,
}

pub open spec fn sort_key_text(k: SortKey) -> Seq<u8> {
    match k {
        SortKey::Arrival => ascii::bytes_of("ARRIVAL"),
        SortKey::Cc => ascii::bytes_of("CC"),
        SortKey::Date => ascii::bytes_of("DATE"),
        SortKey::DisplayFrom => ascii::bytes_of("DISPLAYFROM"),
        SortKey::DisplayTo => ascii::bytes_of("DISPLAYTO"),
        SortKey::From => ascii::bytes_of("FROM"),
        SortKey::Size => ascii::bytes_of("SIZE"),
        SortKey::Subject => ascii::bytes_of("SUBJECT"),
        SortKey::To => ascii::bytes_of("TO"),
    }
}

/// The sort key of this name.
pub open spec fn sort_key_of(w: Seq<u8>) -> Option<SortKey> {
    if ascii::same_word(w, ascii::bytes_of("ARRIVAL")) {
        Some(SortKey::Arrival)
    } else if ascii::same_word(w, ascii::bytes_of("CC")) {
        Some(SortKey::Cc)
    } else if ascii::same_word(w, ascii::bytes_of("DATE")) {
        Some(SortKey::Date)
    } else if ascii::same_word(w, ascii::bytes_of("DISPLAYFROM")) {
        Some(SortKey::DisplayFrom)
    } else if ascii::same_word(w, ascii::bytes_of("DISPLAYTO")) {
        Some(SortKey::DisplayTo)
    } else if ascii::same_word(w, ascii::bytes_of("FROM")) {
        Some(SortKey::From)
    } else if ascii::same_word(w, ascii::bytes_of("SIZE")) {
        Some(SortKey::Size)
    } else if ascii::same_word(w, ascii::bytes_of("SUBJECT")) {
        Some(SortKey::Subject)
    } else if ascii::same_word(w, ascii::bytes_of("TO")) {
        Some(SortKey::To)
    } else {
        None
    }
}

impl DeepView for SortKey {
    type V = SortKey;

    open spec fn deep_view(&self) -> SortKey {
        *self
    }
}

impl EncodeIntoContext for SortKey {
    open spec fn tokens(v: SortKey) -> Seq<Token> {
        encode::plain(sort_key_text(v))
    }

    fn encode_ctx(&self, ctx: &mut EncodeContext) {
        match *self {
            SortKey::Arrival => ctx.write_text("ARRIVAL"),
            SortKey::Cc => ctx.write_text("CC"),
            SortKey::Date => ctx.write_text("DATE"),
            SortKey::DisplayFrom => ctx.write_text("DISPLAYFROM"),
            SortKey::DisplayTo => ctx.write_text("DISPLAYTO"),
            SortKey::From => ctx.write_text("FROM"),
            SortKey::Size => ctx.write_text("SIZE"),
            SortKey::Subject => ctx.write_text("SUBJECT"),
            SortKey::To => ctx.write_text("TO"),
        }
        assert(ctx@ =~= old(ctx)@ + Self::tokens(self.deep_view()));
    }
}

fn find_sort_key(w: &[u8]) -> (r: Option<SortKey>)
    ensures
        r == sort_key_of(w@),
{
    if ascii::is_word(w, "ARRIVAL") {
        Some(SortKey::Arrival)
    } else if ascii::is_word(w, "CC") {
        Some(SortKey::Cc)
    } else if ascii::is_word(w, "DATE") {
        Some(SortKey::Date)
    } else if ascii::is_word(w, "DISPLAYFROM") {
        Some(SortKey::DisplayFrom)
    } else if ascii::is_word(w, "DISPLAYTO") {
        Some(SortKey::DisplayTo)
    } else if ascii::is_word(w, "FROM") {
        Some(SortKey::From)
    } else if ascii::is_word(w, "SIZE") {
        Some(SortKey::Size)
    } else if ascii::is_word(w, "SUBJECT") {
        Some(SortKey::Subject)
    } else if ascii::is_word(w, "TO") {
        Some(SortKey::To)
    } else {
        None
    }
}

#[derive(Clone, Copy, Debug, PartialEq, Eq, Hash, Structural)]
pub struct SortCriterion {
    pub reverse: bool,
    pub key: SortKey,
}

impl DeepView for SortCriterion {
    type V = SortCriterion;

    open spec fn deep_view(&self) -> SortCriterion {
        *self
    }
}

/// A limit of a resource.
#[derive(Debug, PartialEq, Eq, Hash)]
pub struct QuotaSet {
    pub resource: Atom,
    pub limit: u64,
}

pub struct QuotaSetView {
    pub resource: Seq<u8>,
    pub limit: u64,
}

impl DeepView for QuotaSet {
    type V = QuotaSetView;

    open spec fn deep_view(&self) -> QuotaSetView {
        QuotaSetView { resource: self.resource.deep_view(), limit: self.limit }
    }
}

/// How deep below an entry its entries are asked for.
#[derive(Clone, Copy, Debug, PartialEq, Eq, Hash, Structural)]
pub enum Depth {
    Zero,
    One,
    Infinity,
}

/// An option of GETMETADATA.
#[derive(Clone, Copy, Debug, PartialEq, Eq, Hash, Structural)]
pub enum GetMetadataOption {
    /// The size of the largest value that is to be returned.
    MaxSize(u32),
    Depth(Depth),
}

impl DeepView for GetMetadataOption {
    type V = GetMetadataOption;

    open spec fn deep_view(&self) -> GetMetadataOption {
        *self
    }
}

/// A field of the ID command.
#[derive(Debug, PartialEq, Eq, Hash)]
pub struct IdField {
    pub name: IString,
    pub value: NString,
}

pub struct IdFieldView {
    pub name: StringView,
    pub value: Option<StringView>,
}

impl DeepView for IdField {
    type V = IdFieldView;

    open spec fn deep_view(&self) -> IdFieldView {
        IdFieldView { name: self.name.deep_view(), value: self.value.deep_view() }
    }
}

/// A metadata entry with its value.
#[derive(Debug, PartialEq, Eq, Hash)]
pub struct EntryValue {
    pub entry: AString,
    pub value: NString8,
}

pub struct EntryValueView {
    pub entry: StringView,
    pub value: NString8View,
}

impl DeepView for EntryValue {
    type V = EntryValueView;

    open spec fn deep_view(&self) -> EntryValueView {
        EntryValueView { entry: self.entry.deep_view(), value: self.value.deep_view() }
    }
}

/// The first words of commands, but for LIST.
#[derive(Clone, Copy, Debug, PartialEq, Eq, Hash, Structural)]
pub enum CommandName {
    Capability,
    Noop,
    Logout,
    Check,
    Close,
    Unselect,
    StartTls,
    Expunge,
    Idle,
    Namespace,
    Login,
    Select,
    Examine,
    Create,
    Delete,
    Subscribe,
    Unsubscribe,
    Rename,
    Lsub,
    Status,
    Append,
    Search,
    Sort,
    Thread,
    Fetch,
    Store,
    Copy,
    Move,
    Enable,
    Authenticate,
    Compress,
    GetQuota,
    GetQuotaRoot,
    SetQuota,
    Id,
    GetMetadata,
    SetMetadata,
    Uid,
}

pub open spec fn command_name_text(k: CommandName) -> Seq<u8> {
    match k {
        CommandName::Capability => ascii::bytes_of("CAPABILITY"),
        CommandName::Noop => ascii::bytes_of("NOOP"),
        CommandName::Logout => ascii::bytes_of("LOGOUT"),
        CommandName::Check => ascii::bytes_of("CHECK"),
        CommandName::Close => ascii::bytes_of("CLOSE"),
        CommandName::Unselect => ascii::bytes_of("UNSELECT"),
        CommandName::StartTls => ascii::bytes_of("STARTTLS"),
        CommandName::Expunge => ascii::bytes_of("EXPUNGE"),
        CommandName::Idle => ascii::bytes_of("IDLE"),
        CommandName::Namespace => ascii::bytes_of("NAMESPACE"),
        CommandName::Login => ascii::bytes_of("LOGIN"),
        CommandName::Select => ascii::bytes_of("SELECT"),
        CommandName::Examine => ascii::bytes_of("EXAMINE"),
        CommandName::Create => ascii::bytes_of("CREATE"),
        CommandName::Delete => ascii::bytes_of("DELETE"),
        CommandName::Subscribe => ascii::bytes_of("SUBSCRIBE"),
        CommandName::Unsubscribe => ascii::bytes_of("UNSUBSCRIBE"),
        CommandName::Rename => ascii::bytes_of("RENAME"),
        CommandName::Lsub => ascii::bytes_of("LSUB"),
        CommandName::Status => ascii::bytes_of("STATUS"),
        CommandName::Append => ascii::bytes_of("APPEND"),
        CommandName::Search => ascii::bytes_of("SEARCH"),
        CommandName::Sort => ascii::bytes_of("SORT"),
        CommandName::Thread => ascii::bytes_of("THREAD"),
        CommandName::Fetch => ascii::bytes_of("FETCH"),
        CommandName::Store => ascii::bytes_of("STORE"),
        CommandName::Copy => ascii::bytes_of("COPY"),
        CommandName::Move => ascii::bytes_of("MOVE"),
        CommandName::Enable => ascii::bytes_of("ENABLE"),
        CommandName::Authenticate => ascii::bytes_of("AUTHENTICATE"),
        CommandName::Compress => ascii::bytes_of("COMPRESS"),
        CommandName::GetQuota => ascii::bytes_of("GETQUOTA"),
        CommandName::GetQuotaRoot => ascii::bytes_of("GETQUOTAROOT"),
        CommandName::SetQuota => ascii::bytes_of("SETQUOTA"),
        CommandName::Id => ascii::bytes_of("ID"),
        CommandName::GetMetadata => ascii::bytes_of("GETMETADATA"),
        CommandName::SetMetadata => ascii::bytes_of("SETMETADATA"),
        CommandName::Uid => ascii::bytes_of("UID"),
    }
}

/// The command of this name.
pub open spec fn command_name_of(w: Seq<u8>) -> Option<CommandName> {
    if ascii::same_word(w, ascii::bytes_of("CAPABILITY")) {
        Some(CommandName::Capability)
    } else if ascii::same_word(w, ascii::bytes_of("NOOP")) {
        Some(CommandName::Noop)
    } else if ascii::same_word(w, ascii::bytes_of("LOGOUT")) {
        Some(CommandName::Logout)
    } else if ascii::same_word(w, ascii::bytes_of("CHECK")) {
        Some(CommandName::Check)
    } else if ascii::same_word(w, ascii::bytes_of("CLOSE")) {
        Some(CommandName::Close)
    } else if ascii::same_word(w, ascii::bytes_of("UNSELECT")) {
        Some(CommandName::Unselect)
    } else if ascii::same_word(w, ascii::bytes_of("STARTTLS")) {
        Some(CommandName::StartTls)
    } else if ascii::same_word(w, ascii::bytes_of("EXPUNGE")) {
        Some(CommandName::Expunge)
    } else if ascii::same_word(w, ascii::bytes_of("IDLE")) {
        Some(CommandName::Idle)
    } else if ascii::same_word(w, ascii::bytes_of("NAMESPACE")) {
        Some(CommandName::Namespace)
    } else if ascii::same_word(w, ascii::bytes_of("LOGIN")) {
        Some(CommandName::Login)
    } else if ascii::same_word(w, ascii::bytes_of("SELECT")) {
        Some(CommandName::Select)
    } else if ascii::same_word(w, ascii::bytes_of("EXAMINE")) {
        Some(CommandName::Examine)
    } else if ascii::same_word(w, ascii::bytes_of("CREATE")) {
        Some(CommandName::Create)
    } else if ascii::same_word(w, ascii::bytes_of("DELETE")) {
        Some(CommandName::Delete)
    } else if ascii::same_word(w, ascii::bytes_of("SUBSCRIBE")) {
        Some(CommandName::Subscribe)
    } else if ascii::same_word(w, ascii::bytes_of("UNSUBSCRIBE")) {
        Some(CommandName::Unsubscribe)
    } else if ascii::same_word(w, ascii::bytes_of("RENAME")) {
        Some(CommandName::Rename)
    } else if ascii::same_word(w, ascii::bytes_of("LSUB")) {
        Some(CommandName::Lsub)
    } else if ascii::same_word(w, ascii::bytes_of("STATUS")) {
        Some(CommandName::Status)
    } else if ascii::same_word(w, ascii::bytes_of("APPEND")) {
        Some(CommandName::Append)
    } else if ascii::same_word(w, ascii::bytes_of("SEARCH")) {
        Some(CommandName::Search)
    } else if ascii::same_word(w, ascii::bytes_of("SORT")) {
        Some(CommandName::Sort)
    } else if ascii::same_word(w, ascii::bytes_of("THREAD")) {
        Some(CommandName::Thread)
    } else if ascii::same_word(w, ascii::bytes_of("FETCH")) {
        Some(CommandName::Fetch)
    } else if ascii::same_word(w, ascii::bytes_of("STORE")) {
        Some(CommandName::Store)
    } else if ascii::same_word(w, ascii::bytes_of("COPY")) {
        Some(CommandName::Copy)
    } else if ascii::same_word(w, ascii::bytes_of("MOVE")) {
        Some(CommandName::Move)
    } else if ascii::same_word(w, ascii::bytes_of("ENABLE")) {
        Some(CommandName::Enable)
    } else if ascii::same_word(w, ascii::bytes_of("AUTHENTICATE")) {
        Some(CommandName::Authenticate)
    } else if ascii::same_word(w, ascii::bytes_of("COMPRESS")) {
        Some(CommandName::Compress)
    } else if ascii::same_word(w, ascii::bytes_of("GETQUOTA")) {
        Some(CommandName::GetQuota)
    } else if ascii::same_word(w, ascii::bytes_of("GETQUOTAROOT")) {
        Some(CommandName::GetQuotaRoot)
    } else if ascii::same_word(w, ascii::bytes_of("SETQUOTA")) {
        Some(CommandName::SetQuota)
    } else if ascii::same_word(w, ascii::bytes_of("ID")) {
        Some(CommandName::Id)
    } else if ascii::same_word(w, ascii::bytes_of("GETMETADATA")) {
        Some(CommandName::GetMetadata)
    } else if ascii::same_word(w, ascii::bytes_of("SETMETADATA")) {
        Some(CommandName::SetMetadata)
    } else if ascii::same_word(w, ascii::bytes_of("UID")) {
        Some(CommandName::Uid)
    } else {
        None
    }
}

impl DeepView for CommandName {
    type V = CommandName;

    open spec fn deep_view(&self) -> CommandName {
        *self
    }
}

impl EncodeIntoContext for CommandName {
    open spec fn tokens(v: CommandName) -> Seq<Token> {
        encode::plain(command_name_text(v))
    }

    fn encode_ctx(&self, ctx: &mut EncodeContext) {
        match *self {
            CommandName::Capability => ctx.write_text("CAPABILITY"),
            CommandName::Noop => ctx.write_text("NOOP"),
            CommandName::Logout => ctx.write_text("LOGOUT"),
            CommandName::Check => ctx.write_text("CHECK"),
            CommandName::Close => ctx.write_text("CLOSE"),
            CommandName::Unselect => ctx.write_text("UNSELECT"),
            CommandName::StartTls => ctx.write_text("STARTTLS"),
            CommandName::Expunge => ctx.write_text("EXPUNGE"),
            CommandName::Idle => ctx.write_text("IDLE"),
            CommandName::Namespace => ctx.write_text("NAMESPACE"),
            CommandName::Login => ctx.write_text("LOGIN"),
            CommandName::Select => ctx.write_text("SELECT"),
            CommandName::Examine => ctx.write_text("EXAMINE"),
            CommandName::Create => ctx.write_text("CREATE"),
            CommandName::Delete => ctx.write_text("DELETE"),
            CommandName::Subscribe => ctx.write_text("SUBSCRIBE"),
            CommandName::Unsubscribe => ctx.write_text("UNSUBSCRIBE"),
            CommandName::Rename => ctx.write_text("RENAME"),
            CommandName::Lsub => ctx.write_text("LSUB"),
            CommandName::Status => ctx.write_text("STATUS"),
            CommandName::Append => ctx.write_text("APPEND"),
            CommandName::Search => ctx.write_text("SEARCH"),
            CommandName::Sort => ctx.write_text("SORT"),
            CommandName::Thread => ctx.write_text("THREAD"),
            CommandName::Fetch => ctx.write_text("FETCH"),
            CommandName::Store => ctx.write_text("STORE"),
            CommandName::Copy => ctx.write_text("COPY"),
            CommandName::Move => ctx.write_text("MOVE"),
            CommandName::Enable => ctx.write_text("ENABLE"),
            CommandName::Authenticate => ctx.write_text("AUTHENTICATE"),
            CommandName::Compress => ctx.write_text("COMPRESS"),
            CommandName::GetQuota => ctx.write_text("GETQUOTA"),
            CommandName::GetQuotaRoot => ctx.write_text("GETQUOTAROOT"),
            CommandName::SetQuota => ctx.write_text("SETQUOTA"),
            CommandName::Id => ctx.write_text("ID"),
            CommandName::GetMetadata => ctx.write_text("GETMETADATA"),
            CommandName::SetMetadata => ctx.write_text("SETMETADATA"),
            CommandName::Uid => ctx.write_text("UID"),
        }
        assert(ctx@ =~= old(ctx)@ + Self::tokens(self.deep_view()));
    }
}

fn find_command_name(w: &[u8]) -> (r: Option<CommandName>)
    ensures
        r == command_name_of(w@),
{
    if ascii::is_word(w, "CAPABILITY") {
        Some(CommandName::Capability)
    } else if ascii::is_word(w, "NOOP") {
        Some(CommandName::Noop)
    } else if ascii::is_word(w, "LOGOUT") {
        Some(CommandName::Logout)
    } else if ascii::is_word(w, "CHECK") {
        Some(CommandName::Check)
    } else if ascii::is_word(w, "CLOSE") {
        Some(CommandName::Close)
    } else if ascii::is_word(w, "UNSELECT") {
        Some(CommandName::Unselect)
    } else if ascii::is_word(w, "STARTTLS") {
        Some(CommandName::StartTls)
    } else if ascii::is_word(w, "EXPUNGE") {
        Some(CommandName::Expunge)
    } else if ascii::is_word(w, "IDLE") {
        Some(CommandName::Idle)
    } else if ascii::is_word(w, "NAMESPACE") {
        Some(CommandName::Namespace)
    } else if ascii::is_word(w, "LOGIN") {
        Some(CommandName::Login)
    } else if ascii::is_word(w, "SELECT") {
        Some(CommandName::Select)
    } else if ascii::is_word(w, "EXAMINE") {
        Some(CommandName::Examine)
    } else if ascii::is_word(w, "CREATE") {
        Some(CommandName::Create)
    } else if ascii::is_word(w, "DELETE") {
        Some(CommandName::Delete)
    } else if ascii::is_word(w, "SUBSCRIBE") {
        Some(CommandName::Subscribe)
    } else if ascii::is_word(w, "UNSUBSCRIBE") {
        Some(CommandName::Unsubscribe)
    } else if ascii::is_word(w, "RENAME") {
        Some(CommandName::Rename)
    } else if ascii::is_word(w, "LSUB") {
        Some(CommandName::Lsub)
    } else if ascii::is_word(w, "STATUS") {
        Some(CommandName::Status)
    } else if ascii::is_word(w, "APPEND") {
        Some(CommandName::Append)
    } else if ascii::is_word(w, "SEARCH") {
        Some(CommandName::Search)
    } else if ascii::is_word(w, "SORT") {
        Some(CommandName::Sort)
    } else if ascii::is_word(w, "THREAD") {
        Some(CommandName::Thread)
    } else if ascii::is_word(w, "FETCH") {
        Some(CommandName::Fetch)
    } else if ascii::is_word(w, "STORE") {
        Some(CommandName::Store)
    } else if ascii::is_word(w, "COPY") {
        Some(CommandName::Copy)
    } else if ascii::is_word(w, "MOVE") {
        Some(CommandName::Move)
    } else if ascii::is_word(w, "ENABLE") {
        Some(CommandName::Enable)
    } else if ascii::is_word(w, "AUTHENTICATE") {
        Some(CommandName::Authenticate)
    } else if ascii::is_word(w, "COMPRESS") {
        Some(CommandName::Compress)
    } else if ascii::is_word(w, "GETQUOTA") {
        Some(CommandName::GetQuota)
    } else if ascii::is_word(w, "GETQUOTAROOT") {
        Some(CommandName::GetQuotaRoot)
    } else if ascii::is_word(w, "SETQUOTA") {
        Some(CommandName::SetQuota)
    } else if ascii::is_word(w, "ID") {
        Some(CommandName::Id)
    } else if ascii::is_word(w, "GETMETADATA") {
        Some(CommandName::GetMetadata)
    } else if ascii::is_word(w, "SETMETADATA") {
        Some(CommandName::SetMetadata)
    } else if ascii::is_word(w, "UID") {
        Some(CommandName::Uid)
    } else {
        None
    }
}

/// What a command asks for.
#[derive(Debug, PartialEq, Eq, Hash)]
pub enum CommandBody {
    Capability,
    Noop,
    Logout,
    Check,
    Close,
    Unselect,
    StartTls,
    Expunge,
    Idle,
    Namespace,
    Login { username: AString, password: AString },
    Select { mailbox: Mailbox, parameters: Vec<SelectParameter> },
    Examine { mailbox: Mailbox, parameters: Vec<SelectParameter> },
    Create { mailbox: Mailbox },
    Delete { mailbox: Mailbox },
    Subscribe { mailbox: Mailbox },
    Unsubscribe { mailbox: Mailbox },
    Rename { from: Mailbox, to: Mailbox },
    List { reference: Mailbox, mailbox_wildcard: ListMailbox },
    Lsub { reference: Mailbox, mailbox_wildcard: ListMailbox },
    /// LIST with selection options, several patterns or return options.
    ListExtended {
        selection: Vec<Atom>,
        reference: Mailbox,
        patterns: Vec<ListMailbox>,
        return_options: Option<Vec<ListReturn>>,
    },
    Status { mailbox: Mailbox, item_names: Vec<StatusDataItemName> },
    Append {
        mailbox: Mailbox,
        flags: Vec<Flag>,
        date: Option<DateTime>,
        message: LiteralOrLiteral8,
    },
    /// UID EXPUNGE.
    ExpungeUid { sequence_set: MessageSet },
    Search { charset: Option<Charset>, criteria: Vec<SearchKey>, uid: bool },
    /// SEARCH RETURN.
    SearchExtended {
        return_options: Vec<SearchReturn>,
        charset: Option<Charset>,
        criteria: Vec<SearchKey>,
        uid: bool,
    },
    Sort {
        sort_criteria: Vec<SortCriterion>,
        charset: Charset,
        search_criteria: Vec<SearchKey>,
        uid: bool,
    },
    Thread { algorithm: Atom, charset: Charset, search_criteria: Vec<SearchKey>, uid: bool },
    Fetch {
        sequence_set: MessageSet,
        macro_or_item_names: MacroOrMessageDataItemNames,
        uid: bool,
        modifiers: Vec<FetchModifier>,
    },
    Store {
        sequence_set: MessageSet,
        kind: StoreType,
        response: StoreResponse,
        flags: Vec<Flag>,
        uid: bool,
        modifiers: Vec<StoreModifier>,
    },
    Copy { sequence_set: MessageSet, mailbox: Mailbox, uid: bool },
    Move { sequence_set: MessageSet, mailbox: Mailbox, uid: bool },
    Enable { capabilities: Vec<Atom> },
    /// The initial response stands in base64, as it does on the wire.
    Authenticate { mechanism: Atom, initial_response: Option<Vec<u8>> },
    Compress { algorithm: CompressionAlgorithm },
    GetQuota { root: AString },
    GetQuotaRoot { mailbox: Mailbox },
    SetQuota { root: AString, quotas: Vec<QuotaSet> },
    Id { parameters: Option<Vec<IdField>> },
    GetMetadata { options: Vec<GetMetadataOption>, mailbox: Mailbox, entries: Vec<AString> },
    SetMetadata { mailbox: Mailbox, entry_values: Vec<EntryValue> },
}

pub enum BodyView {
    Capability,
    Noop,
    Logout,
    Check,
    Close,
    Unselect,
    StartTls,
    Expunge,
    Idle,
    Namespace,
    Login { username: StringView, password: StringView },
    Select { mailbox: MailboxView, parameters: Seq<SelectParameterView> },
    Examine { mailbox: MailboxView, parameters: Seq<SelectParameterView> },
    Create { mailbox: MailboxView },
    Delete { mailbox: MailboxView },
    Subscribe { mailbox: MailboxView },
    Unsubscribe { mailbox: MailboxView },
    Rename { from: MailboxView, to: MailboxView },
    List { reference: MailboxView, mailbox_wildcard: StringView },
    Lsub { reference: MailboxView, mailbox_wildcard: StringView },
    ListExtended {
        selection: Seq<Seq<u8>>,
        reference: MailboxView,
        patterns: Seq<StringView>,
        return_options: Option<Seq<ListReturnView>>,
    },
    Status { mailbox: MailboxView, item_names: Seq<StatusDataItemName> },
    Append {
        mailbox: MailboxView,
        flags: Seq<FlagView>,
        date: Option<Seq<u8>>,
        message: MessageView,
    },
    ExpungeUid { sequence_set: MessageSetView },
    Search { charset: Option<StringView>, criteria: Seq<KeyView>, uid: bool },
    SearchExtended {
        return_options: Seq<SearchReturnView>,
        charset: Option<StringView>,
        criteria: Seq<KeyView>,
        uid: bool,
    },
    Sort {
        sort_criteria: Seq<SortCriterion>,
        charset: StringView,
        search_criteria: Seq<KeyView>,
        uid: bool,
    },
    Thread { algorithm: Seq<u8>, charset: StringView, search_criteria: Seq<KeyView>, uid: bool },
    Fetch {
        sequence_set: MessageSetView,
        macro_or_item_names: ItemNamesView,
        uid: bool,
        modifiers: Seq<FetchModifier>,
    },
    Store {
        sequence_set: MessageSetView,
        kind: StoreType,
        response: StoreResponse,
        flags: Seq<FlagView>,
        uid: bool,
        modifiers: Seq<StoreModifier>,
    },
    Copy { sequence_set: MessageSetView, mailbox: MailboxView, uid: bool },
    Move { sequence_set: MessageSetView, mailbox: MailboxView, uid: bool },
    Enable { capabilities: Seq<Seq<u8>> },
    Authenticate { mechanism: Seq<u8>, initial_response: Option<Seq<u8>> },
    Compress { algorithm: CompressionAlgorithm },
    GetQuota { root: StringView },
    GetQuotaRoot { mailbox: MailboxView },
    SetQuota { root: StringView, quotas: Seq<QuotaSetView> },
    Id { parameters: Option<Seq<IdFieldView>> },
    GetMetadata {
        options: Seq<GetMetadataOption>,
        mailbox: MailboxView,
        entries: Seq<StringView>,
    },
    SetMetadata { mailbox: MailboxView, entry_values: Seq<EntryValueView> },
}

impl DeepView for CommandBody {
    type V = BodyView;

    open spec fn deep_view(&self) -> BodyView {
        match self {
            CommandBody::Capability => BodyView::Capability,
            CommandBody::Noop => BodyView::Noop,
            CommandBody::Logout => BodyView::Logout,
            CommandBody::Check => BodyView::Check,
            CommandBody::Close => BodyView::Close,
            CommandBody::Unselect => BodyView::Unselect,
            CommandBody::StartTls => BodyView::StartTls,
            CommandBody::Expunge => BodyView::Expunge,
            CommandBody::Idle => BodyView::Idle,
            CommandBody::Namespace => BodyView::Namespace,
            CommandBody::Login { username, password } => BodyView::Login {
                username: username.deep_view(),
                password: password.deep_view(),
            },
            CommandBody::Select { mailbox, parameters } => BodyView::Select {
                mailbox: mailbox.deep_view(),
                parameters: parameters.deep_view(),
            },
            CommandBody::Examine { mailbox, parameters } => BodyView::Examine {
                mailbox: mailbox.deep_view(),
                parameters: parameters.deep_view(),
            },
            CommandBody::Create { mailbox } => BodyView::Create {
                mailbox: mailbox.deep_view(),
            },
            CommandBody::Delete { mailbox } => BodyView::Delete {
                mailbox: mailbox.deep_view(),
            },
            CommandBody::Subscribe { mailbox } => BodyView::Subscribe {
                mailbox: mailbox.deep_view(),
            },
            CommandBody::Unsubscribe { mailbox } => BodyView::Unsubscribe {
                mailbox: mailbox.deep_view(),
            },
            CommandBody::Rename { from, to } => BodyView::Rename {
                from: from.deep_view(),
                to: to.deep_view(),
            },
            CommandBody::List { reference, mailbox_wildcard } => BodyView::List {
                reference: reference.deep_view(),
                mailbox_wildcard: mailbox_wildcard.deep_view(),
            },
            CommandBody::Lsub { reference, mailbox_wildcard } => BodyView::Lsub {
                reference: reference.deep_view(),
                mailbox_wildcard: mailbox_wildcard.deep_view(),
            },
            CommandBody::ListExtended { selection, reference, patterns, return_options } => BodyView::ListExtended {
                selection: selection.deep_view(),
                reference: reference.deep_view(),
                patterns: patterns.deep_view(),
                return_options: return_options.deep_view(),
            },
            CommandBody::Status { mailbox, item_names } => BodyView::Status {
                mailbox: mailbox.deep_view(),
                item_names: item_names.deep_view(),
            },
            CommandBody::Append { mailbox, flags, date, message } => BodyView::Append {
                mailbox: mailbox.deep_view(),
                flags: flags.deep_view(),
                date: date.deep_view(),
                message: message.deep_view(),
            },
            CommandBody::ExpungeUid { sequence_set } => BodyView::ExpungeUid {
                sequence_set: sequence_set.deep_view(),
            },
            CommandBody::Search { charset, criteria, uid } => BodyView::Search {
                charset: charset.deep_view(),
                criteria: criteria.deep_view(),
                uid: *uid,
            },
            CommandBody::SearchExtended { return_options, charset, criteria, uid } => BodyView::SearchExtended {
                return_options: return_options.deep_view(),
                charset: charset.deep_view(),
                criteria: criteria.deep_view(),
                uid: *uid,
            },
            CommandBody::Sort { sort_criteria, charset, search_criteria, uid } => BodyView::Sort {
                sort_criteria: sort_criteria.deep_view(),
                charset: charset.deep_view(),
                search_criteria: search_criteria.deep_view(),
                uid: *uid,
            },
            CommandBody::Thread { algorithm, charset, search_criteria, uid } => BodyView::Thread {
                algorithm: algorithm.deep_view(),
                charset: charset.deep_view(),
                search_criteria: search_criteria.deep_view(),
                uid: *uid,
            },
            CommandBody::Fetch { sequence_set, macro_or_item_names, uid, modifiers } => BodyView::Fetch {
                sequence_set: sequence_set.deep_view(),
                macro_or_item_names: macro_or_item_names.deep_view(),
                uid: *uid,
                modifiers: modifiers.deep_view(),
            },
            CommandBody::Store { sequence_set, kind, response, flags, uid, modifiers } => BodyView::Store {
                sequence_set: sequence_set.deep_view(),
                kind: *kind,
                response: *response,
                flags: flags.deep_view(),
                uid: *uid,
                modifiers: modifiers.deep_view(),
            },
            CommandBody::Copy { sequence_set, mailbox, uid } => BodyView::Copy {
                sequence_set: sequence_set.deep_view(),
                mailbox: mailbox.deep_view(),
                uid: *uid,
            },
            CommandBody::Move { sequence_set, mailbox, uid } => BodyView::Move {
                sequence_set: sequence_set.deep_view(),
                mailbox: mailbox.deep_view(),
                uid: *uid,
            },
            CommandBody::Enable { capabilities } => BodyView::Enable {
                capabilities: capabilities.deep_view(),
            },
            CommandBody::Authenticate { mechanism, initial_response } => BodyView::Authenticate {
                mechanism: mechanism.deep_view(),
                initial_response: match initial_response {
                    Some(b) => Some(b@),
                    None => None,
                },
            },
            CommandBody::Compress { algorithm } => BodyView::Compress {
                algorithm: *algorithm,
            },
            CommandBody::GetQuota { root } => BodyView::GetQuota {
                root: root.deep_view(),
            },
            CommandBody::GetQuotaRoot { mailbox } => BodyView::GetQuotaRoot {
                mailbox: mailbox.deep_view(),
            },
            CommandBody::SetQuota { root, quotas } => BodyView::SetQuota {
                root: root.deep_view(),
                quotas: quotas.deep_view(),
            },
            CommandBody::Id { parameters } => BodyView::Id {
                parameters: parameters.deep_view(),
            },
            CommandBody::GetMetadata { options, mailbox, entries } => BodyView::GetMetadata {
                options: options.deep_view(),
                mailbox: mailbox.deep_view(),
                entries: entries.deep_view(),
            },
            CommandBody::SetMetadata { mailbox, entry_values } => BodyView::SetMetadata {
                mailbox: mailbox.deep_view(),
                entry_values: entry_values.deep_view(),
            },
        }
    }
}

/// A command: a tag that the server repeats in its answer, and the body.
#[derive(Debug, PartialEq, Eq, Hash)]
pub struct Command {
    pub tag: Vec<u8>,
    pub body: CommandBody,
}

pub struct CommandView {
    pub tag: Seq<u8>,
    pub body: BodyView,
}

impl DeepView for Command {
    type V = CommandView;

    open spec fn deep_view(&self) -> CommandView {
        CommandView { tag: self.tag@, body: self.body.deep_view() }
    }
}

// ----------------------------------------------------------------------- rules

/// `"(" "UNCHANGEDSINCE" SP mod-sequence-valzer ")"`.
#[verifier::opaque]
pub open spec fn store_modifier_rule() -> Rule<StoreModifier> {
    g::mapped(
        g::preceded(g::word("UNCHANGEDSINCE "), modseq::mod_sequence_valzer_rule()),
        |n: u64| StoreModifier::UnchangedSince(n),
    )
}

#[verifier::opaque]
pub open spec fn fetch_modifier_rule() -> Rule<FetchModifier> {
    g::alt(
        g::mapped(
            g::preceded(g::word("CHANGEDSINCE "), modseq::mod_sequence_value_rule()),
            |n: u64| FetchModifier::ChangedSince(n),
        ),
        g::value(FetchModifier::Vanished, g::word("VANISHED")),
    )
}

/// Two sequence sets in parentheses.
#[verifier::opaque]
pub open spec fn match_data_rule() -> Rule<(Seq<Sequence>, Seq<Sequence>)> {
    g::delimited(
        g::text("("),
        g::pair(
            g::terminated(sequence::sequence_set_rule(), g::text(" ")),
            sequence::sequence_set_rule(),
        ),
        g::text(")"),
    )
}

/// `"QRESYNC" SP "(" uidvalidity SP mod-sequence-value [SP known-uids]
/// [SP seq-match-data] ")"`.
#[verifier::opaque]
pub open spec fn qresync_rule() -> Rule<SelectParameterView> {
    g::mapped(
        g::delimited(
            g::word("QRESYNC ("),
            g::pair(
                g::terminated(number::nz_number_rule(), g::text(" ")),
                g::pair(
                    modseq::mod_sequence_value_rule(),
                    g::pair(
                        g::opt(args::sp(sequence::sequence_set_rule())),
                        g::opt(args::sp(match_data_rule())),
                    ),
                ),
            ),
            g::text(")"),
        ),
        |p: (u32, (u64, (Option<Seq<Sequence>>, Option<(Seq<Sequence>, Seq<Sequence>)>)))|
            SelectParameterView::QResync {
                uid_validity: p.0,
                mod_sequence_value: p.1.0,
                known_uids: p.1.1.0,
                seq_match_data: p.1.1.1,
            },
    )
}

#[verifier::opaque]
pub open spec fn select_parameter_rule() -> Rule<SelectParameterView> {
    g::alt(g::value(SelectParameterView::CondStore, g::word("CONDSTORE")), qresync_rule())
}

/// `["REVERSE" SP] sort-key`.
#[verifier::opaque]
pub open spec fn sort_criterion_rule() -> Rule<SortCriterion> {
    g::mapped(
        g::pair(
            g::opt(g::word("REVERSE ")),
            g::map_opt(date::letters_rule(), |w: Seq<u8>| sort_key_of(w)),
        ),
        |p: (Option<()>, SortKey)| SortCriterion { reverse: p.0 is Some, key: p.1 },
    )
}

pub open spec fn message_of(binary: bool, s: StringView) -> MessageView {
    match s {
        StringView::Literal(data, mode) => MessageView { binary, data, mode },
        _ => MessageView { binary, data: seq![], mode: LiteralMode::Sync },
    }
}

/// `literal / literal8`.
#[verifier::opaque]
pub open spec fn message_rule() -> Rule<MessageView> {
    g::alt(
        g::mapped(strings::literal8_rule(), |s: StringView| message_of(true, s)),
        g::mapped(strings::literal_rule(), |s: StringView| message_of(false, s)),
    )
}

pub open spec fn store_type_rule() -> Rule<StoreType> {
    g::alt(
        g::value(StoreType::Add, g::text("+")),
        g::alt(g::value(StoreType::Remove, g::text("-")), g::success(StoreType::Replace)),
    )
}

/// `["+" / "-"] "FLAGS" [".SILENT"]`.
#[verifier::opaque]
pub open spec fn store_item_rule() -> Rule<(StoreType, StoreResponse)> {
    g::pair(
        store_type_rule(),
        g::preceded(
            g::word("FLAGS"),
            g::mapped(
                g::opt(g::word(".SILENT")),
                |o: Option<()>|
                    if o is Some {
                        StoreResponse::Silent
                    } else {
                        StoreResponse::Answer
                    },
            ),
        ),
    )
}

/// `flag-list / (flag *(SP flag))`.
pub open spec fn store_flags_rule() -> Rule<Seq<FlagView>> {
    g::alt(flag::flag_list_rule(), g::separated_list1(g::text(" "), flag::flag_rule()))
}

pub open spec fn search_rule(uid: bool) -> Rule<BodyView> {
    g::mapped(
        ext::search_tail_rule(),
        |p: (Option<StringView>, Seq<KeyView>)|
            BodyView::Search { charset: p.0, criteria: p.1, uid },
    )
}

pub open spec fn sort_rule(uid: bool) -> Rule<BodyView> {
    g::mapped(
        g::pair(
            args::sp(g::paren_list1(sort_criterion_rule())),
            g::pair(args::sp(strings::charset_rule()), args::sp(search::criteria_rule())),
        ),
        |p: (Seq<SortCriterion>, (StringView, Seq<KeyView>))|
            BodyView::Sort {
                sort_criteria: p.0,
                charset: p.1.0,
                search_criteria: p.1.1,
                uid,
            },
    )
}

pub open spec fn thread_rule(uid: bool) -> Rule<BodyView> {
    g::mapped(
        g::pair(
            args::sp(strings::atom_rule()),
            g::pair(args::sp(strings::charset_rule()), args::sp(search::criteria_rule())),
        ),
        |p: (Seq<u8>, (StringView, Seq<KeyView>))|
            BodyView::Thread { algorithm: p.0, charset: p.1.0, search_criteria: p.1.1, uid },
    )
}

pub open spec fn fetch_rule(uid: bool) -> Rule<BodyView> {
    g::mapped(
        g::pair(
            args::sp(ext::message_set_rule()),
            g::pair(
                args::sp(fetch::item_names_rule()),
                args::optional_list(fetch_modifier_rule()),
            ),
        ),
        |p: (MessageSetView, (ItemNamesView, Seq<FetchModifier>))|
            BodyView::Fetch {
                sequence_set: p.0,
                macro_or_item_names: p.1.0,
                uid,
                modifiers: p.1.1,
            },
    )
}

pub open spec fn store_rule(uid: bool) -> Rule<BodyView> {
    g::mapped(
        g::pair(
            args::sp(ext::message_set_rule()),
            g::pair(
                args::optional_list(store_modifier_rule()),
                g::pair(args::sp(store_item_rule()), args::sp(store_flags_rule())),
            ),
        ),
        |p: (
            MessageSetView,
            (Seq<StoreModifier>, ((StoreType, StoreResponse), Seq<FlagView>)),
        )|
            BodyView::Store {
                sequence_set: p.0,
                kind: p.1.1.0.0,
                response: p.1.1.0.1,
                flags: p.1.1.1,
                uid,
                modifiers: p.1.0,
            },
    )
}

pub open spec fn set_and_mailbox_rule() -> Rule<(MessageSetView, MailboxView)> {
    g::pair(args::sp(ext::message_set_rule()), args::sp(mailbox::mailbox_rule()))
}

pub open spec fn copy_rule(uid: bool) -> Rule<BodyView> {
    g::mapped(
        set_and_mailbox_rule(),
        |p: (MessageSetView, MailboxView)|
            BodyView::Copy { sequence_set: p.0, mailbox: p.1, uid },
    )
}

pub open spec fn move_rule(uid: bool) -> Rule<BodyView> {
    g::mapped(
        set_and_mailbox_rule(),
        |p: (MessageSetView, MailboxView)|
            BodyView::Move { sequence_set: p.0, mailbox: p.1, uid },
    )
}

pub open spec fn append_rule() -> Rule<BodyView> {
    g::mapped(
        g::pair(
            args::sp(mailbox::mailbox_rule()),
            g::pair(
                g::mapped(
                    g::opt(args::sp(flag::flag_list_rule())),
                    |o: Option<Seq<FlagView>>|
                        match o {
                            Some(v) => v,
                            None => seq![],
                        },
                ),
                g::pair(
                    g::opt(args::sp(date::date_time_rule())),
                    args::sp(message_rule()),
                ),
            ),
        ),
        |p: (MailboxView, (Seq<FlagView>, (Option<Seq<u8>>, MessageView)))|
            BodyView::Append {
                mailbox: p.0,
                flags: p.1.0,
                date: p.1.1.0,
                message: p.1.1.1,
            },
    )
}

#[verifier::opaque]
pub open spec fn quota_rule() -> Rule<QuotaSetView> {
    g::mapped(
        g::pair(strings::atom_rule(), args::sp(ext::number63_rule())),
        |p: (Seq<u8>, u64)| QuotaSetView { resource: p.0, limit: p.1 },
    )
}

#[verifier::opaque]
pub open spec fn id_field_rule() -> Rule<IdFieldView> {
    g::mapped(
        g::pair(strings::string_rule(), args::sp(strings::nstring_rule())),
        |p: (StringView, Option<StringView>)| IdFieldView { name: p.0, value: p.1 },
    )
}

pub open spec fn id_rule() -> Rule<Option<Seq<IdFieldView>>> {
    g::alt(
        g::mapped(g::paren_list0(id_field_rule()), |v: Seq<IdFieldView>| Some(v)),
        g::value(None, g::word("NIL")),
    )
}

#[verifier::opaque]
pub open spec fn entry_value_rule() -> Rule<EntryValueView> {
    g::mapped(
        g::pair(strings::astring_rule(), args::sp(response::nstring8_rule())),
        |p: (StringView, NString8View)| EntryValueView { entry: p.0, value: p.1 },
    )
}

#[verifier::opaque]
pub open spec fn get_metadata_option_rule() -> Rule<GetMetadataOption> {
    g::alt(
        g::mapped(
            g::preceded(g::word("MAXSIZE "), number::number_rule()),
            |n: u32| GetMetadataOption::MaxSize(n),
        ),
        g::alt(
            g::value(GetMetadataOption::Depth(Depth::Zero), g::word("DEPTH 0")),
            g::alt(
                g::value(GetMetadataOption::Depth(Depth::One), g::word("DEPTH 1")),
                g::value(GetMetadataOption::Depth(Depth::Infinity), g::word("DEPTH infinity")),
            ),
        ),
    )
}

pub open spec fn entries_rule() -> Rule<Seq<StringView>> {
    g::alt(
        g::paren_list1(strings::astring_rule()),
        g::mapped(strings::astring_rule(), |s: StringView| seq![s]),
    )
}

#[verifier::allow_in_spec]
pub fn is_base64_char(b: u8) -> bool
    returns
        is_alpha(b) || ascii::is_digit(b) || b == '+' as u8 || b == '/' as u8 || b == '=' as u8,
{
    is_alpha(b) || ascii::is_digit(b) || b == '+' as u8 || b == '/' as u8 || b == '=' as u8
}

/// `base64 / "="`: groups of four characters, the last of which may be padded,
/// or a single `=` for an empty response.
pub open spec fn is_base64(b: Seq<u8>) -> bool {
    let n = b.len() as int;
    ||| n == 1 && b[0] == '=' as u8
    ||| n > 0 && n % 4 == 0 && (forall|i: int|
        0 <= i < n - 2 ==> #[trigger] b[i] != '=' as u8) && (b[n - 2] == '=' as u8 ==> b[n - 1]
        == '=' as u8)
}

#[verifier::opaque]
pub open spec fn base64_rule() -> Rule<Seq<u8>> {
    g::verify(g::take_while1_rule(|b: u8| is_base64_char(b)), |b: Seq<u8>| is_base64(b))
}

/// `SP auth-type [SP initial-resp]`.
#[verifier::opaque]
pub open spec fn authenticate_rule() -> Rule<BodyView> {
    g::mapped(
        g::pair(args::sp(strings::atom_rule()), g::opt(args::sp(base64_rule()))),
        |p: (Seq<u8>, Option<Seq<u8>>)|
            BodyView::Authenticate { mechanism: p.0, initial_response: p.1 },
    )
}

/// What follows the name of a command.
pub open spec fn arguments_rule(n: CommandName) -> Rule<BodyView> {
    match n {
        CommandName::Capability => g::success(BodyView::Capability),
        CommandName::Noop => g::success(BodyView::Noop),
        CommandName::Logout => g::success(BodyView::Logout),
        CommandName::Check => g::success(BodyView::Check),
        CommandName::Close => g::success(BodyView::Close),
        CommandName::Unselect => g::success(BodyView::Unselect),
        CommandName::StartTls => g::success(BodyView::StartTls),
        CommandName::Expunge => g::success(BodyView::Expunge),
        CommandName::Idle => g::success(BodyView::Idle),
        CommandName::Namespace => g::success(BodyView::Namespace),
        CommandName::Login => g::mapped(
            g::pair(args::sp(strings::astring_rule()), args::sp(strings::astring_rule())),
            |p: (StringView, StringView)| BodyView::Login { username: p.0, password: p.1 },
        ),
        CommandName::Select => g::mapped(
            g::pair(args::sp(mailbox::mailbox_rule()), args::optional_list(select_parameter_rule())),
            |p: (MailboxView, Seq<SelectParameterView>)|
                BodyView::Select { mailbox: p.0, parameters: p.1 },
        ),
        CommandName::Examine => g::mapped(
            g::pair(args::sp(mailbox::mailbox_rule()), args::optional_list(select_parameter_rule())),
            |p: (MailboxView, Seq<SelectParameterView>)|
                BodyView::Examine { mailbox: p.0, parameters: p.1 },
        ),
        CommandName::Create => g::mapped(
            args::sp(mailbox::mailbox_rule()),
            |m: MailboxView| BodyView::Create { mailbox: m },
        ),
        CommandName::Delete => g::mapped(
            args::sp(mailbox::mailbox_rule()),
            |m: MailboxView| BodyView::Delete { mailbox: m },
        ),
        CommandName::Subscribe => g::mapped(
            args::sp(mailbox::mailbox_rule()),
            |m: MailboxView| BodyView::Subscribe { mailbox: m },
        ),
        CommandName::Unsubscribe => g::mapped(
            args::sp(mailbox::mailbox_rule()),
            |m: MailboxView| BodyView::Unsubscribe { mailbox: m },
        ),
        CommandName::GetQuotaRoot => g::mapped(
            args::sp(mailbox::mailbox_rule()),
            |m: MailboxView| BodyView::GetQuotaRoot { mailbox: m },
        ),
        CommandName::Rename => g::mapped(
            g::pair(args::sp(mailbox::mailbox_rule()), args::sp(mailbox::mailbox_rule())),
            |p: (MailboxView, MailboxView)| BodyView::Rename { from: p.0, to: p.1 },
        ),
        CommandName::Lsub => g::mapped(
            g::pair(
                args::sp(mailbox::mailbox_rule()),
                args::sp(mailbox::list_mailbox_rule()),
            ),
            |p: (MailboxView, StringView)|
                BodyView::Lsub { reference: p.0, mailbox_wildcard: p.1 },
        ),
        CommandName::Status => g::mapped(
            g::pair(
                args::sp(mailbox::mailbox_rule()),
                args::sp(g::paren_list0(status::status_att_rule())),
            ),
            |p: (MailboxView, Seq<StatusDataItemName>)|
                BodyView::Status { mailbox: p.0, item_names: p.1 },
        ),
        CommandName::Append => append_rule(),
        CommandName::Search => search_rule(false),
        CommandName::Sort => sort_rule(false),
        CommandName::Thread => thread_rule(false),
        CommandName::Fetch => fetch_rule(false),
        CommandName::Store => store_rule(false),
        CommandName::Copy => copy_rule(false),
        CommandName::Move => move_rule(false),
        CommandName::Enable => g::mapped(
            args::sp(g::separated_list1(g::text(" "), strings::atom_rule())),
            |v: Seq<Seq<u8>>| BodyView::Enable { capabilities: v },
        ),
        CommandName::Authenticate => authenticate_rule(),
        CommandName::Compress => g::value(
            BodyView::Compress { algorithm: CompressionAlgorithm::Deflate },
            args::sp(g::word("DEFLATE")),
        ),
        CommandName::GetQuota => g::mapped(
            args::sp(strings::astring_rule()),
            |s: StringView| BodyView::GetQuota { root: s },
        ),
        CommandName::SetQuota => g::mapped(
            g::pair(
                args::sp(strings::astring_rule()),
                args::sp(g::paren_list0(quota_rule())),
            ),
            |p: (StringView, Seq<QuotaSetView>)| BodyView::SetQuota { root: p.0, quotas: p.1 },
        ),
        CommandName::Id => g::mapped(
            args::sp(id_rule()),
            |v: Option<Seq<IdFieldView>>| BodyView::Id { parameters: v },
        ),
        CommandName::GetMetadata => g::mapped(
            g::pair(
                args::optional_list(get_metadata_option_rule()),
                g::pair(args::sp(mailbox::mailbox_rule()), args::sp(entries_rule())),
            ),
            |p: (Seq<GetMetadataOption>, (MailboxView, Seq<StringView>))|
                BodyView::GetMetadata { options: p.0, mailbox: p.1.0, entries: p.1.1 },
        ),
        CommandName::SetMetadata => g::mapped(
            g::pair(
                args::sp(mailbox::mailbox_rule()),
                args::sp(g::paren_list1(entry_value_rule())),
            ),
            |p: (MailboxView, Seq<EntryValueView>)|
                BodyView::SetMetadata { mailbox: p.0, entry_values: p.1 },
        ),
        CommandName::Uid => args::sp(uid_rule()),
    }
}

/// What follows `UID` and the name of a command.
pub open spec fn uid_arguments_rule(w: Seq<u8>) -> Rule<BodyView> {
    match command_name_of(w) {
        Some(CommandName::Search) => search_rule(true),
        Some(CommandName::Sort) => sort_rule(true),
        Some(CommandName::Thread) => thread_rule(true),
        Some(CommandName::Fetch) => fetch_rule(true),
        Some(CommandName::Store) => store_rule(true),
        Some(CommandName::Copy) => copy_rule(true),
        Some(CommandName::Move) => move_rule(true),
        Some(CommandName::Expunge) => g::mapped(
            args::sp(ext::message_set_rule()),
            |s: MessageSetView| BodyView::ExpungeUid { sequence_set: s },
        ),
        _ => g::never(),
    }
}

/// The same search by unique identifiers.
pub open spec fn with_uid(v: BodyView) -> BodyView {
    match v {
        BodyView::SearchExtended { return_options, charset, criteria, uid } => {
            BodyView::SearchExtended { return_options, charset, criteria, uid: true }
        },
        _ => v,
    }
}

#[verifier::opaque]
pub open spec fn uid_rule() -> Rule<BodyView> {
    g::alt(
        g::mapped(ext::extended_search_rule(), |v: BodyView| with_uid(v)),
        g::chain(date::letters_rule(), |w: Seq<u8>| uid_arguments_rule(w)),
    )
}

pub open spec fn named_arguments_rule(w: Seq<u8>) -> Rule<BodyView> {
    match command_name_of(w) {
        Some(n) => arguments_rule(n),
        None => g::never(),
    }
}

/// The body of a command.
#[verifier::opaque]
pub open spec fn body_rule() -> Rule<BodyView> {
    g::alt(
        ext::extended_search_rule(),
        g::alt(
            ext::list_rule(),
            g::chain(date::letters_rule(), |w: Seq<u8>| named_arguments_rule(w)),
        ),
    )
}

/// `command = tag SP body CRLF`.
#[verifier::opaque]
pub open spec fn command_rule() -> Rule<CommandView> {
    g::mapped(
        g::pair(
            g::terminated(g::take_while1_rule(|b: u8| is_tag_char(b)), g::text(" ")),
            g::terminated(body_rule(), g::text("\r\n")),
        ),
        |p: (Seq<u8>, BodyView)| CommandView { tag: p.0, body: p.1 },
    )
}

// ------------------------------------------------------------------- streaming

pub proof fn lemma_argument_rules_lawful()
    ensures
        g::lawful(store_modifier_rule()),
        g::lawful(fetch_modifier_rule()),
        g::lawful(select_parameter_rule()),
        g::lawful(sort_criterion_rule()),
        g::lawful(message_rule()),
        g::lawful(store_item_rule()),
        g::lawful(quota_rule()),
        g::lawful(id_field_rule()),
        g::lawful(entry_value_rule()),
        g::lawful(get_metadata_option_rule()),
        g::lawful(authenticate_rule()),
{
    broadcast use g::group_lawful;

    reveal(store_modifier_rule);
    reveal(fetch_modifier_rule);
    reveal(match_data_rule);
    reveal(qresync_rule);
    reveal(select_parameter_rule);
    reveal(sort_criterion_rule);
    reveal(message_rule);
    reveal(store_item_rule);
    reveal(quota_rule);
    reveal(id_field_rule);
    reveal(entry_value_rule);
    reveal(response::nstring8_rule);
    reveal(get_metadata_option_rule);
    reveal(base64_rule);
    reveal(authenticate_rule);
    modseq::lemma_modseq_lawful();
    sequence::lemma_sequences_lawful();
    number::lemma_numbers_lawful();
    strings::lemma_strings_lawful();
    ext::lemma_rev2_lawful();
}

proof fn lemma_uid_arguments_lawful(w: Seq<u8>)
    ensures
        g::lawful(uid_arguments_rule(w)),
{
    broadcast use g::group_lawful;

    lemma_argument_rules_lawful();
    strings::lemma_strings_lawful();
    mailbox::lemma_mailboxes_lawful();
    flag::lemma_flags_lawful();
    fetch::lemma_items_lawful();
    search::lemma_criteria_lawful();
    ext::lemma_rev2_lawful();
}

proof fn lemma_uid_lawful()
    ensures
        g::lawful(uid_rule()),
{
    broadcast use g::group_lawful;

    reveal(uid_rule);
    ext::lemma_rev2_commands_lawful();
    let f = |w: Seq<u8>| uid_arguments_rule(w);
    assert forall|w: Seq<u8>| g::lawful(#[trigger] f(w)) by {
        lemma_uid_arguments_lawful(w);
    }
}

proof fn lemma_arguments_lawful(n: CommandName)
    ensures
        g::lawful(arguments_rule(n)),
{
    broadcast use g::group_lawful;

    lemma_argument_rules_lawful();
    strings::lemma_strings_lawful();
    mailbox::lemma_mailboxes_lawful();
    flag::lemma_flags_lawful();
    fetch::lemma_items_lawful();
    search::lemma_criteria_lawful();
    ext::lemma_rev2_lawful();
    status::lemma_status_lawful();
    date::lemma_date_time_lawful();
    lemma_uid_lawful();
}

/// Commands are streaming rules: no further input changes what was read.
pub proof fn law_commands_stream()
    ensures
        g::lawful(body_rule()),
        g::lawful(command_rule()),
{
    broadcast use g::group_lawful;

    reveal(body_rule);
    reveal(command_rule);
    ext::lemma_rev2_commands_lawful();
    let f = |w: Seq<u8>| named_arguments_rule(w);
    assert forall|w: Seq<u8>| g::lawful(#[trigger] f(w)) by {
        if let Some(n) = command_name_of(w) {
            lemma_arguments_lawful(n);
        }
    }
}

// ------------------------------------------------------------------- encodings

pub open spec fn fetch_modifier_text(m: FetchModifier) -> Seq<u8> {
    match m {
        FetchModifier::ChangedSince(n) => ascii::bytes_of("CHANGEDSINCE ") + number::decimal(
            n as nat,
        ),
        FetchModifier::Vanished => ascii::bytes_of("VANISHED"),
    }
}

pub open spec fn store_modifier_text(m: StoreModifier) -> Seq<u8> {
    match m {
        StoreModifier::UnchangedSince(n) => ascii::bytes_of("UNCHANGEDSINCE ") + number::decimal(
            n as nat,
        ),
    }
}

pub open spec fn sort_criterion_text(c: SortCriterion) -> Seq<u8> {
    (if c.reverse {
        ascii::bytes_of("REVERSE ")
    } else {
        seq![]
    }) + sort_key_text(c.key)
}

pub open spec fn match_data_tokens(m: (Seq<Sequence>, Seq<Sequence>)) -> Seq<Token> {
    encode::word("(") + sequence::set_tokens(m.0) + encode::word(" ") + sequence::set_tokens(m.1)
        + encode::word(")")
}

pub open spec fn known_uids_tokens(v: Option<Seq<Sequence>>) -> Seq<Token> {
    match v {
        Some(s) => args::argument(sequence::set_tokens(s)),
        None => seq![],
    }
}

pub open spec fn seq_match_tokens(v: Option<(Seq<Sequence>, Seq<Sequence>)>) -> Seq<Token> {
    match v {
        Some(m) => args::argument(match_data_tokens(m)),
        None => seq![],
    }
}

pub open spec fn select_parameter_tokens(p: SelectParameterView) -> Seq<Token> {
    match p {
        SelectParameterView::CondStore => encode::word("CONDSTORE"),
        SelectParameterView::QResync {
            uid_validity,
            mod_sequence_value,
            known_uids,
            seq_match_data,
        } => encode::word("QRESYNC (") + encode::plain(number::decimal(uid_validity as nat))
            + encode::word(" ") + encode::plain(number::decimal(mod_sequence_value as nat))
            + known_uids_tokens(known_uids) + seq_match_tokens(seq_match_data) + encode::word(")"),
    }
}

pub open spec fn message_tokens(m: MessageView) -> Seq<Token> {
    (if m.binary {
        encode::word("~")
    } else {
        seq![]
    }) + strings::literal_tokens(m.data, m.mode)
}

pub open spec fn store_item_text(kind: StoreType, response: StoreResponse) -> Seq<u8> {
    (match kind {
        StoreType::Replace => seq![],
        StoreType::Add => ascii::bytes_of("+"),
        StoreType::Remove => ascii::bytes_of("-"),
    }) + ascii::bytes_of("FLAGS") + match response {
        StoreResponse::Answer => seq![],
        StoreResponse::Silent => ascii::bytes_of(".SILENT"),
    }
}

pub open spec fn quota_tokens(q: QuotaSetView) -> Seq<Token> {
    encode::plain(q.resource) + args::argument(encode::plain(number::decimal(q.limit as nat)))
}

pub open spec fn id_field_tokens(f: IdFieldView) -> Seq<Token> {
    strings::string_tokens(f.name) + args::argument(strings::nstring_tokens(f.value))
}

pub open spec fn id_tokens(parameters: Option<Seq<IdFieldView>>) -> Seq<Token> {
    match parameters {
        Some(v) => encode::paren_tokens(encode::parts::<IdField>(v)),
        None => encode::word("NIL"),
    }
}

pub open spec fn get_metadata_option_text(o: GetMetadataOption) -> Seq<u8> {
    match o {
        GetMetadataOption::MaxSize(n) => ascii::bytes_of("MAXSIZE ") + number::decimal(n as nat),
        GetMetadataOption::Depth(Depth::Zero) => ascii::bytes_of("DEPTH 0"),
        GetMetadataOption::Depth(Depth::One) => ascii::bytes_of("DEPTH 1"),
        GetMetadataOption::Depth(Depth::Infinity) => ascii::bytes_of("DEPTH infinity"),
    }
}

pub open spec fn entry_value_tokens(e: EntryValueView) -> Seq<Token> {
    strings::string_tokens(e.entry) + args::argument(response::nstring8_tokens(e.value))
}

pub open spec fn date_argument(d: Option<Seq<u8>>) -> Seq<Token> {
    match d {
        Some(b) => args::argument(encode::plain(strings::quoted_text(b))),
        None => seq![],
    }
}

/// Whether the command goes by unique identifiers.
pub open spec fn is_uid(v: BodyView) -> bool {
    match v {
        BodyView::ExpungeUid { .. } => true,
        BodyView::Search { uid, .. } => uid,
        BodyView::Sort { uid, .. } => uid,
        BodyView::Thread { uid, .. } => uid,
        BodyView::Fetch { uid, .. } => uid,
        BodyView::Store { uid, .. } => uid,
        BodyView::Copy { uid, .. } => uid,
        BodyView::Move { uid, .. } => uid,
        BodyView::SearchExtended { uid, .. } => uid,
        _ => false,
    }
}

/// The first word of a command, behind `UID`.
pub open spec fn body_name(v: BodyView) -> CommandName {
    match v {
        BodyView::Capability => CommandName::Capability,
        BodyView::Noop => CommandName::Noop,
        BodyView::Logout => CommandName::Logout,
        BodyView::Check => CommandName::Check,
        BodyView::Close => CommandName::Close,
        BodyView::Unselect => CommandName::Unselect,
        BodyView::StartTls => CommandName::StartTls,
        BodyView::Expunge => CommandName::Expunge,
        BodyView::Idle => CommandName::Idle,
        BodyView::Namespace => CommandName::Namespace,
        BodyView::Login { .. } => CommandName::Login,
        BodyView::Select { .. } => CommandName::Select,
        BodyView::Examine { .. } => CommandName::Examine,
        BodyView::Create { .. } => CommandName::Create,
        BodyView::Delete { .. } => CommandName::Delete,
        BodyView::Subscribe { .. } => CommandName::Subscribe,
        BodyView::Unsubscribe { .. } => CommandName::Unsubscribe,
        BodyView::Rename { .. } => CommandName::Rename,
        BodyView::Lsub { .. } => CommandName::Lsub,
        BodyView::Status { .. } => CommandName::Status,
        BodyView::Append { .. } => CommandName::Append,
        BodyView::ExpungeUid { .. } => CommandName::Expunge,
        BodyView::Search { .. } => CommandName::Search,
        BodyView::Sort { .. } => CommandName::Sort,
        BodyView::Thread { .. } => CommandName::Thread,
        BodyView::Fetch { .. } => CommandName::Fetch,
        BodyView::Store { .. } => CommandName::Store,
        BodyView::Copy { .. } => CommandName::Copy,
        BodyView::Move { .. } => CommandName::Move,
        BodyView::Enable { .. } => CommandName::Enable,
        BodyView::Authenticate { .. } => CommandName::Authenticate,
        BodyView::Compress { .. } => CommandName::Compress,
        BodyView::GetQuota { .. } => CommandName::GetQuota,
        BodyView::GetQuotaRoot { .. } => CommandName::GetQuotaRoot,
        BodyView::SetQuota { .. } => CommandName::SetQuota,
        BodyView::Id { .. } => CommandName::Id,
        BodyView::GetMetadata { .. } => CommandName::GetMetadata,
        BodyView::SetMetadata { .. } => CommandName::SetMetadata,
        BodyView::SearchExtended { .. } => CommandName::Search,
        BodyView::List { .. } | BodyView::ListExtended { .. } => CommandName::Lsub,
    }
}

/// What is written behind the first word of a command, but for LIST and
/// SEARCH RETURN.
pub open spec fn arguments_tokens(v: BodyView) -> Seq<Token> {
    match v {
        BodyView::Login { username, password } => args::argument(strings::string_tokens(username))
            + args::argument(strings::string_tokens(password)),
        BodyView::Select { mailbox, parameters } => args::argument(mailbox::mailbox_tokens(mailbox))
            + args::optional_parens(encode::parts::<SelectParameter>(parameters)),
        BodyView::Examine { mailbox, parameters } => args::argument(mailbox::mailbox_tokens(mailbox))
            + args::optional_parens(encode::parts::<SelectParameter>(parameters)),
        BodyView::Create { mailbox } => args::argument(mailbox::mailbox_tokens(mailbox)),
        BodyView::Delete { mailbox } => args::argument(mailbox::mailbox_tokens(mailbox)),
        BodyView::Subscribe { mailbox } => args::argument(mailbox::mailbox_tokens(mailbox)),
        BodyView::Unsubscribe { mailbox } => args::argument(mailbox::mailbox_tokens(mailbox)),
        BodyView::Rename { from, to } => args::argument(mailbox::mailbox_tokens(from)) + args::argument(
            mailbox::mailbox_tokens(to),
        ),
        BodyView::Lsub { reference, mailbox_wildcard } => args::argument(
            mailbox::mailbox_tokens(reference),
        ) + args::argument(strings::string_tokens(mailbox_wildcard)),
        BodyView::Status { mailbox, item_names } => args::argument(mailbox::mailbox_tokens(mailbox))
            + args::argument(encode::paren_tokens(encode::parts::<StatusDataItemName>(item_names))),
        BodyView::Append { mailbox, flags, date, message } => args::argument(
            mailbox::mailbox_tokens(mailbox),
        ) + args::optional_parens(encode::parts::<Flag>(flags)) + date_argument(date) + args::argument(
            message_tokens(message),
        ),
        BodyView::ExpungeUid { sequence_set } => args::argument(ext::message_set_tokens(sequence_set)),
        BodyView::Search { charset, criteria, .. } => ext::charset_tokens(charset) + args::argument(
            search::criteria_tokens(criteria),
        ),
        BodyView::Sort { sort_criteria, charset, search_criteria, .. } => args::argument(
            encode::paren_tokens(encode::parts::<SortCriterion>(sort_criteria)),
        ) + args::argument(strings::string_tokens(charset)) + args::argument(
            search::criteria_tokens(search_criteria),
        ),
        BodyView::Thread { algorithm, charset, search_criteria, .. } => args::argument(
            encode::plain(algorithm),
        ) + args::argument(strings::string_tokens(charset)) + args::argument(
            search::criteria_tokens(search_criteria),
        ),
        BodyView::Fetch { sequence_set, macro_or_item_names, modifiers, .. } => args::argument(
            ext::message_set_tokens(sequence_set),
        ) + args::argument(fetch::item_names_tokens(macro_or_item_names)) + args::optional_parens(
            encode::parts::<FetchModifier>(modifiers),
        ),
        BodyView::Store { sequence_set, kind, response, flags, modifiers, .. } => args::argument(
            ext::message_set_tokens(sequence_set),
        ) + args::optional_parens(encode::parts::<StoreModifier>(modifiers)) + args::argument(
            encode::plain(store_item_text(kind, response)),
        ) + args::argument(flag::flag_list_tokens(flags)),
        BodyView::Copy { sequence_set, mailbox, .. } => args::argument(
            ext::message_set_tokens(sequence_set),
        ) + args::argument(mailbox::mailbox_tokens(mailbox)),
        BodyView::Move { sequence_set, mailbox, .. } => args::argument(
            ext::message_set_tokens(sequence_set),
        ) + args::argument(mailbox::mailbox_tokens(mailbox)),
        BodyView::Enable { capabilities } => args::argument(
            encode::joined(encode::parts::<Atom>(capabilities), encode::word(" ")),
        ),
        BodyView::Authenticate { mechanism, initial_response } => args::argument(
            encode::plain(mechanism),
        ) + match initial_response {
            Some(b) => args::argument(encode::plain(b)),
            None => seq![],
        },
        BodyView::Compress { algorithm } => args::argument(encode::word("DEFLATE")),
        BodyView::GetQuota { root } => args::argument(strings::string_tokens(root)),
        BodyView::GetQuotaRoot { mailbox } => args::argument(mailbox::mailbox_tokens(mailbox)),
        BodyView::SetQuota { root, quotas } => args::argument(strings::string_tokens(root)) + args::argument(
            encode::paren_tokens(encode::parts::<QuotaSet>(quotas)),
        ),
        BodyView::Id { parameters } => args::argument(id_tokens(parameters)),
        BodyView::GetMetadata { options, mailbox, entries } => args::optional_parens(
            encode::parts::<GetMetadataOption>(options),
        ) + (args::argument(mailbox::mailbox_tokens(mailbox)) + args::argument(
            encode::paren_tokens(encode::parts::<AString>(entries)),
        )),
        BodyView::SetMetadata { mailbox, entry_values } => args::argument(
            mailbox::mailbox_tokens(mailbox),
        ) + args::argument(encode::paren_tokens(encode::parts::<EntryValue>(entry_values))),
        _ => seq![],
    }
}

pub open spec fn body_tokens(v: BodyView) -> Seq<Token> {
    match v {
        BodyView::List { reference, mailbox_wildcard } => encode::word("LIST ")
            + mailbox::mailbox_tokens(reference) + args::argument(
            strings::string_tokens(mailbox_wildcard),
        ),
        BodyView::ListExtended { selection, reference, patterns, return_options } => {
            ext::extended_list_tokens(selection, reference, patterns, return_options)
        },
        BodyView::SearchExtended { return_options, charset, criteria, uid } => {
            ext::extended_search_tokens(return_options, charset, criteria, uid)
        },
        _ => ext::uid_tokens(is_uid(v)) + encode::plain(command_name_text(body_name(v)))
            + arguments_tokens(v),
    }
}

pub open spec fn command_tokens(c: CommandView) -> Seq<Token> {
    encode::plain(c.tag) + encode::word(" ") + body_tokens(c.body) + encode::word("\r\n")
}

// ---------------------------------------------------------------- reading back

proof fn lemma_letters(b: Seq<u8>)
    requires
        b.len() <= 12,
        b.len() > 0 ==> is_alpha(b[0]),
        b.len() > 1 ==> is_alpha(b[1]),
        b.len() > 2 ==> is_alpha(b[2]),
        b.len() > 3 ==> is_alpha(b[3]),
        b.len() > 4 ==> is_alpha(b[4]),
        b.len() > 5 ==> is_alpha(b[5]),
        b.len() > 6 ==> is_alpha(b[6]),
        b.len() > 7 ==> is_alpha(b[7]),
        b.len() > 8 ==> is_alpha(b[8]),
        b.len() > 9 ==> is_alpha(b[9]),
        b.len() > 10 ==> is_alpha(b[10]),
        b.len() > 11 ==> is_alpha(b[11]),
    ensures
        ascii::all_bytes(b, |x: u8| is_alpha(x)),
{
}

/// A word that starts neither like SEARCH nor like LIST.
pub open spec fn plain_start(w: Seq<u8>) -> bool {
    &&& w.len() >= 2
    &&& ascii::upper(w[0]) == 'S' as u8 && ascii::upper(w[1]) == 'E' as u8 ==> w.len() >= 3
        && ascii::upper(w[2]) != 'A' as u8
    &&& ascii::upper(w[0]) == 'L' as u8 ==> ascii::upper(w[1]) != 'I' as u8
}

/// The names of commands are words of letters that are told apart.
proof fn lemma_command_name(n: CommandName)
    ensures
        command_name_of(command_name_text(n)) == Some(n),
        command_name_text(n).len() > 0,
        ascii::all_bytes(command_name_text(n), |b: u8| is_alpha(b)),
        n is Search || plain_start(command_name_text(n)),
{
    broadcast use ascii::lemma_same_word_head;

    reveal_strlit("CAPABILITY");
    reveal_strlit("NOOP");
    reveal_strlit("LOGOUT");
    reveal_strlit("CHECK");
    reveal_strlit("CLOSE");
    reveal_strlit("UNSELECT");
    reveal_strlit("STARTTLS");
    reveal_strlit("AUTHENTICATE");
    reveal_strlit("EXPUNGE");
    reveal_strlit("IDLE");
    reveal_strlit("NAMESPACE");
    reveal_strlit("LOGIN");
    reveal_strlit("SELECT");
    reveal_strlit("EXAMINE");
    reveal_strlit("CREATE");
    reveal_strlit("DELETE");
    reveal_strlit("SUBSCRIBE");
    reveal_strlit("UNSUBSCRIBE");
    reveal_strlit("RENAME");
    reveal_strlit("LSUB");
    reveal_strlit("STATUS");
    reveal_strlit("APPEND");
    reveal_strlit("SEARCH");
    reveal_strlit("SORT");
    reveal_strlit("THREAD");
    reveal_strlit("FETCH");
    reveal_strlit("STORE");
    reveal_strlit("COPY");
    reveal_strlit("MOVE");
    reveal_strlit("ENABLE");
    reveal_strlit("COMPRESS");
    reveal_strlit("GETQUOTA");
    reveal_strlit("GETQUOTAROOT");
    reveal_strlit("SETQUOTA");
    reveal_strlit("ID");
    reveal_strlit("GETMETADATA");
    reveal_strlit("SETMETADATA");
    reveal_strlit("UID");
    lemma_letters(command_name_text(n));
}

pub open spec fn select_parameter_wf(p: SelectParameterView) -> bool {
    match p {
        SelectParameterView::CondStore => true,
        SelectParameterView::QResync {
            uid_validity,
            mod_sequence_value,
            known_uids,
            seq_match_data,
        } => {
            &&& uid_validity > 0
            &&& 0 < mod_sequence_value <= NUMBER63_MAX
            &&& known_uids matches Some(s) ==> sequence::set_wf(s)
            &&& seq_match_data matches Some(m) ==> sequence::set_wf(m.0) && sequence::set_wf(m.1)
        },
    }
}

pub open spec fn fetch_modifier_wf(m: FetchModifier) -> bool {
    m matches FetchModifier::ChangedSince(n) ==> 0 < n <= NUMBER63_MAX
}

pub open spec fn store_modifier_wf(m: StoreModifier) -> bool {
    m matches StoreModifier::UnchangedSince(n) ==> n <= NUMBER63_MAX
}

pub open spec fn message_wf(m: MessageView) -> bool {
    m.data.len() <= u64::MAX && (!m.binary ==> !m.data.contains(0))
}

pub open spec fn quota_wf(q: QuotaSetView) -> bool {
    strings::atom_wf(q.resource) && q.limit <= NUMBER63_MAX
}

pub open spec fn id_field_wf(f: IdFieldView) -> bool {
    strings::istring_wf(f.name) && strings::nstring_wf(f.value)
}

pub open spec fn entry_value_wf(e: EntryValueView) -> bool {
    strings::string_wf(e.entry) && response::nstring8_wf(e.value)
}

/// A body that the grammar can express.
pub open spec fn body_wf(v: BodyView) -> bool {
    match v {
        BodyView::Login { username, password } => strings::string_wf(username)
            && strings::string_wf(password),
        BodyView::Select { mailbox, parameters } => mailbox::mailbox_wf(mailbox) && args::all_wf(
            parameters,
            |p: SelectParameterView| select_parameter_wf(p),
        ),
        BodyView::Examine { mailbox, parameters } => mailbox::mailbox_wf(mailbox) && args::all_wf(
            parameters,
            |p: SelectParameterView| select_parameter_wf(p),
        ),
        BodyView::Create { mailbox } => mailbox::mailbox_wf(mailbox),
        BodyView::Delete { mailbox } => mailbox::mailbox_wf(mailbox),
        BodyView::Subscribe { mailbox } => mailbox::mailbox_wf(mailbox),
        BodyView::Unsubscribe { mailbox } => mailbox::mailbox_wf(mailbox),
        BodyView::Rename { from, to } => mailbox::mailbox_wf(from) && mailbox::mailbox_wf(to),
        BodyView::List { reference, mailbox_wildcard } => mailbox::mailbox_wf(reference)
            && mailbox::list_mailbox_wf(mailbox_wildcard),
        BodyView::Lsub { reference, mailbox_wildcard } => mailbox::mailbox_wf(reference)
            && mailbox::list_mailbox_wf(mailbox_wildcard),
        BodyView::ListExtended { selection, reference, patterns, return_options } => {
            &&& ext::labels_wf(selection)
            &&& ext::selection_ok(selection)
            &&& mailbox::mailbox_wf(reference)
            &&& ext::patterns_wf(patterns)
            &&& return_options matches Some(x) ==> ext::list_returns_wf(x)
        },
        BodyView::Status { mailbox, .. } => mailbox::mailbox_wf(mailbox),
        BodyView::Append { mailbox, flags, date, message } => {
            &&& mailbox::mailbox_wf(mailbox)
            &&& flag::flags_wf(flags)
            &&& date matches Some(d) ==> date::date_time_wf(d)
            &&& message_wf(message)
        },
        BodyView::ExpungeUid { sequence_set } => ext::message_set_wf(sequence_set),
        BodyView::Search { charset, criteria, .. } => ext::charset_wf(charset)
            && search::criteria_wf(criteria),
        BodyView::SearchExtended { return_options, charset, criteria, .. } => {
            &&& ext::search_returns_wf(return_options)
            &&& ext::charset_wf(charset)
            &&& search::criteria_wf(criteria)
        },
        BodyView::Sort { sort_criteria, charset, search_criteria, .. } => {
            &&& sort_criteria.len() > 0
            &&& ext::charset_wf(Some(charset))
            &&& search::criteria_wf(search_criteria)
        },
        BodyView::Thread { algorithm, charset, search_criteria, .. } => {
            &&& strings::atom_wf(algorithm)
            &&& ext::charset_wf(Some(charset))
            &&& search::criteria_wf(search_criteria)
        },
        BodyView::Fetch { sequence_set, macro_or_item_names, modifiers, .. } => {
            &&& ext::message_set_wf(sequence_set)
            &&& fetch::item_names_wf(macro_or_item_names)
            &&& args::all_wf(modifiers, |m: FetchModifier| fetch_modifier_wf(m))
        },
        BodyView::Store { sequence_set, flags, modifiers, .. } => {
            &&& ext::message_set_wf(sequence_set)
            &&& flag::flags_wf(flags)
            &&& args::all_wf(modifiers, |m: StoreModifier| store_modifier_wf(m))
        },
        BodyView::Copy { sequence_set, mailbox, .. } => ext::message_set_wf(sequence_set)
            && mailbox::mailbox_wf(mailbox),
        BodyView::Move { sequence_set, mailbox, .. } => ext::message_set_wf(sequence_set)
            && mailbox::mailbox_wf(mailbox),
        BodyView::Enable { capabilities } => capabilities.len() > 0 && args::all_wf(
            capabilities,
            |b: Seq<u8>| strings::atom_wf(b),
        ),
        BodyView::Authenticate { mechanism, initial_response } => strings::atom_wf(mechanism) && (
        initial_response matches Some(b) ==> ascii::all_bytes(b, |x: u8| is_base64_char(x))
            && is_base64(b)),
        BodyView::GetQuota { root } => strings::string_wf(root),
        BodyView::GetQuotaRoot { mailbox } => mailbox::mailbox_wf(mailbox),
        BodyView::SetQuota { root, quotas } => strings::string_wf(root) && args::all_wf(
            quotas,
            |q: QuotaSetView| quota_wf(q),
        ),
        BodyView::Id { parameters } => parameters matches Some(v) ==> args::all_wf(
            v,
            |f: IdFieldView| id_field_wf(f),
        ),
        BodyView::GetMetadata { mailbox, entries, .. } => mailbox::mailbox_wf(mailbox) && entries.len()
            > 0 && args::all_wf(entries, |s: StringView| strings::string_wf(s)),
        BodyView::SetMetadata { mailbox, entry_values } => mailbox::mailbox_wf(mailbox)
            && entry_values.len() > 0 && args::all_wf(
            entry_values,
            |e: EntryValueView| entry_value_wf(e),
        ),
        _ => true,
    }
}

pub open spec fn command_wf(c: CommandView) -> bool {
    c.tag.len() > 0 && ascii::all_bytes(c.tag, |b: u8| is_tag_char(b)) && body_wf(c.body)
}

/// The arguments of a command are read back.
#[verifier::opaque]
pub open spec fn reads_arguments(v: BodyView, t: Seq<u8>) -> bool {
    rule_for(v)(encode::flat(arguments_tokens(v)) + t) == Outcome::Done(t, v)
}

pub open spec fn rule_for(v: BodyView) -> Rule<BodyView> {
    if is_uid(v) {
        uid_arguments_rule(command_name_text(body_name(v)))
    } else {
        arguments_rule(body_name(v))
    }
}

proof fn lemma_simple_reads(v: BodyView, t: Seq<u8>)
    requires
        v is Capability || v is Noop || v is Logout || v is Check || v is Close || v is Unselect || v is StartTls
            || v is Expunge || v is Idle || v is Namespace,
    ensures
        reads_arguments(v, t),
{
    reveal(reads_arguments);
    assert(encode::flat(arguments_tokens(v)) + t =~= t);
}

proof fn lemma_login_reads(username: StringView, password: StringView, t: Seq<u8>)
    requires
        strings::string_wf(username),
        strings::string_wf(password),
        args::line_end(t),
    ensures
        reads_arguments(BodyView::Login { username, password }, t),
{
    reveal(reads_arguments);
    let a = strings::string_tokens(username);
    let b = strings::string_tokens(password);
    let p = strings::astring_rule();
    strings::lemma_string_reads(username);
    strings::lemma_string_reads(password);
    args::lemma_delimited_argument(p, b, password, t);
    args::lemma_delimited_argument(p, a, username, encode::flat(args::argument(b)) + t);
    args::lemma_flat_then(args::argument(a), args::argument(b), t);
}

proof fn lemma_mailbox_argument(m: MailboxView, t: Seq<u8>)
    requires
        mailbox::mailbox_wf(m),
        reading::ends(t),
    ensures
        args::sp(mailbox::mailbox_rule())(encode::flat(args::argument(mailbox::mailbox_tokens(m))) + t)
            == Outcome::Done(t, m),
        reading::ends(encode::flat(args::argument(mailbox::mailbox_tokens(m))) + t),
{
    mailbox::lemma_mailbox_reads(m);
    args::lemma_delimited_argument(mailbox::mailbox_rule(), mailbox::mailbox_tokens(m), m, t);
}

proof fn lemma_set_argument(s: MessageSetView, t: Seq<u8>)
    requires
        ext::message_set_wf(s),
        reading::ends(t),
    ensures
        args::sp(ext::message_set_rule())(encode::flat(args::argument(ext::message_set_tokens(s))) + t)
            == Outcome::Done(t, s),
        reading::ends(encode::flat(args::argument(ext::message_set_tokens(s))) + t),
{
    ext::lemma_message_set_reads(s);
    args::lemma_delimited_argument(ext::message_set_rule(), ext::message_set_tokens(s), s, t);
}

proof fn lemma_mailbox_command_reads(v: BodyView, t: Seq<u8>)
    requires
        body_wf(v),
        v is Create || v is Delete || v is Subscribe || v is Unsubscribe || v is GetQuotaRoot,
        args::line_end(t),
    ensures
        reads_arguments(v, t),
{
    reveal(reads_arguments);
    let m = match v {
        BodyView::Create { mailbox } => mailbox,
        BodyView::Delete { mailbox } => mailbox,
        BodyView::Subscribe { mailbox } => mailbox,
        BodyView::Unsubscribe { mailbox } => mailbox,
        BodyView::GetQuotaRoot { mailbox } => mailbox,
        _ => MailboxView::Inbox,
    };
    lemma_mailbox_argument(m, t);
}

proof fn lemma_rename_reads(from: MailboxView, to: MailboxView, t: Seq<u8>)
    requires
        mailbox::mailbox_wf(from),
        mailbox::mailbox_wf(to),
        args::line_end(t),
    ensures
        reads_arguments(BodyView::Rename { from, to }, t),
{
    reveal(reads_arguments);
    let b = args::argument(mailbox::mailbox_tokens(to));
    lemma_mailbox_argument(to, t);
    lemma_mailbox_argument(from, encode::flat(b) + t);
    args::lemma_flat_then(args::argument(mailbox::mailbox_tokens(from)), b, t);
}

proof fn lemma_lsub_reads(reference: MailboxView, mailbox_wildcard: StringView, t: Seq<u8>)
    requires
        mailbox::mailbox_wf(reference),
        mailbox::list_mailbox_wf(mailbox_wildcard),
        args::line_end(t),
    ensures
        reads_arguments(BodyView::Lsub { reference, mailbox_wildcard }, t),
{
    reveal(reads_arguments);
    let w = strings::string_tokens(mailbox_wildcard);
    mailbox::lemma_list_mailbox_reads(mailbox_wildcard);
    args::lemma_delimited_argument(mailbox::list_mailbox_rule(), w, mailbox_wildcard, t);
    lemma_mailbox_argument(reference, encode::flat(args::argument(w)) + t);
    args::lemma_flat_then(args::argument(mailbox::mailbox_tokens(reference)), args::argument(w), t);
}

proof fn lemma_number_then(n: u64, word: Seq<u8>, t: Seq<u8>)
    requires
        n <= NUMBER63_MAX,
        t.len() > 0,
        !ascii::is_digit(t[0]),
    ensures
        g::preceded(g::tag_no_case_rule(word), modseq::mod_sequence_valzer_rule())(
            word + number::decimal(n as nat) + t,
        ) == Outcome::Done(t, n),
        n > 0 ==> g::preceded(g::tag_no_case_rule(word), modseq::mod_sequence_value_rule())(
            word + number::decimal(n as nat) + t,
        ) == Outcome::Done(t, n),
{
    let d = number::decimal(n as nat);
    encode::lemma_concat_assoc(word, d, t);
    reading::lemma_tag_no_case_reads(word, d + t);
    modseq::law_modseq_range(n, t);
}

proof fn lemma_fetch_modifier_reads(m: FetchModifier)
    requires
        fetch_modifier_wf(m),
    ensures
        reading::reads(fetch_modifier_rule(), encode::flat(FetchModifier::tokens(m)), m),
{
    reveal(fetch_modifier_rule);
    reveal_strlit("CHANGEDSINCE ");
    reveal_strlit("VANISHED");
    encode::lemma_flat_plain(fetch_modifier_text(m));
    let b = fetch_modifier_text(m);
    assert forall|t: Seq<u8>| reading::ends(t) implies #[trigger] fetch_modifier_rule()(b + t)
        == Outcome::Done(t, m) by {
        match m {
            FetchModifier::ChangedSince(n) => {
                lemma_number_then(n, ascii::bytes_of("CHANGEDSINCE "), t);
            },
            FetchModifier::Vanished => {
                assert((b + t)[0] == 'V' as u8);
                reading::lemma_tag_no_case_rejects(ascii::bytes_of("CHANGEDSINCE "), b + t, 0);
                reading::lemma_tag_no_case_reads(ascii::bytes_of("VANISHED"), t);
            },
        }
    }
}

proof fn lemma_store_modifier_reads(m: StoreModifier)
    requires
        store_modifier_wf(m),
    ensures
        reading::reads(store_modifier_rule(), encode::flat(StoreModifier::tokens(m)), m),
{
    reveal(store_modifier_rule);
    encode::lemma_flat_plain(store_modifier_text(m));
    let b = store_modifier_text(m);
    assert forall|t: Seq<u8>| reading::ends(t) implies #[trigger] store_modifier_rule()(b + t)
        == Outcome::Done(t, m) by {
        let StoreModifier::UnchangedSince(n) = m;
        lemma_number_then(n, ascii::bytes_of("UNCHANGEDSINCE "), t);
    }
}

proof fn lemma_set_text_reads(s: Seq<Sequence>, t: Seq<u8>)
    requires
        sequence::set_wf(s),
        reading::ends(t),
    ensures
        sequence::sequence_set_rule()(encode::flat(sequence::set_tokens(s)) + t) == Outcome::Done(
            t,
            s,
        ),
{
    sequence::lemma_sequence_set_reads(s, t);
}

proof fn lemma_match_data_reads(m: (Seq<Sequence>, Seq<Sequence>), t: Seq<u8>)
    requires
        sequence::set_wf(m.0),
        sequence::set_wf(m.1),
    ensures
        match_data_rule()(encode::flat(match_data_tokens(m)) + t) == Outcome::Done(t, m),
{
    reveal(match_data_rule);
    reveal_strlit("(");
    reveal_strlit(" ");
    reveal_strlit(")");
    let open = ascii::bytes_of("(");
    let space = ascii::bytes_of(" ");
    let close = ascii::bytes_of(")");
    let a = encode::flat(sequence::set_tokens(m.0));
    let b = encode::flat(sequence::set_tokens(m.1));
    let e = close + t;
    let d = space + (b + e);
    assert(encode::flat(match_data_tokens(m)) + t == open + (a + d)) by {
        broadcast use {encode::group_flat, encode::group_concat};

    }
    assert(e[0] == ')' as u8);
    assert(d[0] == 0x20);
    reading::lemma_tag_reads(open, a + d);
    lemma_set_text_reads(m.0, d);
    reading::lemma_tag_reads(space, b + e);
    lemma_set_text_reads(m.1, e);
    reading::lemma_tag_reads(close, t);
}

proof fn lemma_seq_match_reads(m: Option<(Seq<Sequence>, Seq<Sequence>)>, t: Seq<u8>)
    requires
        m matches Some(x) ==> sequence::set_wf(x.0) && sequence::set_wf(x.1),
        t.len() > 0,
        t[0] == ')' as u8,
    ensures
        g::opt(args::sp(match_data_rule()))(encode::flat(seq_match_tokens(m)) + t)
            == Outcome::Done(t, m),
        ({
            let s = encode::flat(seq_match_tokens(m)) + t;
            reading::ends(s) && (s[0] == 0x20 ==> s.len() > 1 && s[1] == '(' as u8)
        }),
{
    reveal_strlit(" ");
    reveal_strlit("(");
    match m {
        Some(x) => {
            lemma_match_data_reads(x, t);
            args::lemma_argument_reads(match_data_rule(), match_data_tokens(x), x, t);
            let s = encode::flat(seq_match_tokens(m)) + t;
            let inner = encode::flat(match_data_tokens(x)) + t;
            assert(inner[0] == '(' as u8) by {
                broadcast use {encode::group_flat, encode::group_concat};

            }
            assert(s.skip(1)[0] == s[1]);
        },
        None => {
            assert(encode::flat(seq_match_tokens(m)) + t =~= t);
            reading::lemma_tag_rejects(ascii::bytes_of(" "), t);
        },
    }
}

proof fn lemma_known_uids_reads(k: Option<Seq<Sequence>>, t: Seq<u8>)
    requires
        k matches Some(s) ==> sequence::set_wf(s),
        reading::ends(t),
        t[0] == 0x20 ==> t.len() > 1 && t[1] == '(' as u8,
    ensures
        g::opt(args::sp(sequence::sequence_set_rule()))(encode::flat(known_uids_tokens(k)) + t)
            == Outcome::Done(t, k),
        reading::ends(encode::flat(known_uids_tokens(k)) + t),
{
    reveal_strlit(" ");
    let space = ascii::bytes_of(" ");
    match k {
        Some(s) => {
            lemma_set_text_reads(s, t);
            args::lemma_argument_reads(sequence::sequence_set_rule(), sequence::set_tokens(s), s, t);
        },
        None => {
            assert(encode::flat(known_uids_tokens(k)) + t =~= t);
            if t[0] == 0x20 {
                assert(t =~= space + t.skip(1));
                reading::lemma_tag_reads(space, t.skip(1));
                assert(t.skip(1)[0] == t[1]);
                sequence::lemma_sequence_set_rejects(t.skip(1));
            } else {
                reading::lemma_tag_rejects(space, t);
            }
        },
    }
}

proof fn lemma_qresync_reads(p: SelectParameterView, t: Seq<u8>)
    requires
        p is QResync,
        select_parameter_wf(p),
    ensures
        qresync_rule()(encode::flat(select_parameter_tokens(p)) + t) == Outcome::Done(t, p),
{
    if let SelectParameterView::QResync {
        uid_validity,
        mod_sequence_value,
        known_uids,
        seq_match_data,
    } = p {
        let word = ascii::bytes_of("QRESYNC (");
        let space = ascii::bytes_of(" ");
        let close = ascii::bytes_of(")");
        let u = number::decimal(uid_validity as nat);
        let n = number::decimal(mod_sequence_value as nat);
        let k = encode::flat(known_uids_tokens(known_uids));
        let m = encode::flat(seq_match_tokens(seq_match_data));
        let e = close + t;
        let d = m + e;
        let c = k + d;
        let b = space + (n + c);
        assert(encode::flat(select_parameter_tokens(p)) + t == word + (u + b)) by {
            broadcast use encode::group_concat;

            let w0 = encode::word("QRESYNC (");
            let w1 = w0 + encode::plain(u);
            let w2 = w1 + encode::word(" ");
            let w3 = w2 + encode::plain(n);
            let w4 = w3 + known_uids_tokens(known_uids);
            let w5 = w4 + seq_match_tokens(seq_match_data);
            encode::lemma_flat_word("QRESYNC (");
            encode::lemma_flat_word(" ");
            encode::lemma_flat_word(")");
            encode::lemma_flat_plain(u);
            encode::lemma_flat_plain(n);
            encode::lemma_flat_add(w0, encode::plain(u));
            encode::lemma_flat_add(w1, encode::word(" "));
            encode::lemma_flat_add(w2, encode::plain(n));
            encode::lemma_flat_add(w3, known_uids_tokens(known_uids));
            encode::lemma_flat_add(w4, seq_match_tokens(seq_match_data));
            encode::lemma_flat_add(w5, encode::word(")"));
        }
        reveal_strlit(" ");
        reveal_strlit(")");
        assert(e[0] == ')' as u8);
        reading::lemma_tag_no_case_reads(word, u + b);
        assert(b[0] == 0x20);
        number::lemma_number_reads(uid_validity, b);
        reading::lemma_tag_reads(space, n + c);
        lemma_seq_match_reads(seq_match_data, e);
        lemma_known_uids_reads(known_uids, d);
        modseq::law_modseq_range(mod_sequence_value, c);
        reading::lemma_tag_reads(close, t);
        reveal(qresync_rule);
    }
}

proof fn lemma_select_parameter_reads(p: SelectParameterView)
    requires
        select_parameter_wf(p),
    ensures
        reading::reads(select_parameter_rule(), encode::flat(SelectParameter::tokens(p)), p),
{
    reveal(select_parameter_rule);
    let b = encode::flat(select_parameter_tokens(p));
    assert forall|t: Seq<u8>| reading::ends(t) implies #[trigger] select_parameter_rule()(b + t)
        == Outcome::Done(t, p) by {
        match p {
            SelectParameterView::CondStore => {
                encode::lemma_flat_word("CONDSTORE");
                reading::lemma_tag_no_case_reads(ascii::bytes_of("CONDSTORE"), t);
            },
            SelectParameterView::QResync { uid_validity, .. } => {
                lemma_qresync_reads(p, t);
                assert((b + t)[0] == 'Q' as u8) by {
                    broadcast use {encode::group_flat, encode::group_concat};

                    reveal_strlit("QRESYNC (");
                }
                reveal_strlit("CONDSTORE");
                reading::lemma_tag_no_case_rejects(ascii::bytes_of("CONDSTORE"), b + t, 0);
            },
        }
    }
}

proof fn lemma_select_reads(mailbox: MailboxView, parameters: Seq<SelectParameterView>, t: Seq<u8>)
    requires
        mailbox::mailbox_wf(mailbox),
        args::all_wf(parameters, |p: SelectParameterView| select_parameter_wf(p)),
        args::line_end(t),
    ensures
        reads_arguments(BodyView::Select { mailbox, parameters }, t),
        reads_arguments(BodyView::Examine { mailbox, parameters }, t),
{
    reveal(reads_arguments);
    let tokens = encode::parts::<SelectParameter>(parameters);
    assert forall|i: int| 0 <= i < parameters.len() implies reading::reads(
        select_parameter_rule(),
        encode::flat(#[trigger] tokens[i]),
        parameters[i],
    ) by {
        let wf = |p: SelectParameterView| select_parameter_wf(p);
        assert(wf(parameters[i]));
        lemma_select_parameter_reads(parameters[i]);
    }
    args::lemma_optional_reads(select_parameter_rule(), tokens, parameters, t);
    lemma_mailbox_argument(mailbox, encode::flat(args::optional_parens(tokens)) + t);
    args::lemma_flat_then(
        args::argument(mailbox::mailbox_tokens(mailbox)),
        args::optional_parens(tokens),
        t,
    );
}

proof fn lemma_status_reads(mailbox: MailboxView, item_names: Seq<StatusDataItemName>, t: Seq<u8>)
    requires
        mailbox::mailbox_wf(mailbox),
        args::line_end(t),
    ensures
        reads_arguments(BodyView::Status { mailbox, item_names }, t),
{
    reveal(reads_arguments);
    let p = status::status_att_rule();
    let tokens = encode::parts::<StatusDataItemName>(item_names);
    assert forall|i: int| 0 <= i < item_names.len() implies reading::reads(
        p,
        encode::flat(#[trigger] tokens[i]),
        item_names[i],
    ) by {
        encode::lemma_flat_plain(status::status_text(item_names[i]));
        status::lemma_status_att_reads(item_names[i]);
    }
    reveal_strlit(")");
    let end = ascii::bytes_of(")") + t;
    assert(end[0] == ')' as u8);
    status::lemma_status_att_rejects(end);
    args::lemma_list_argument(p, tokens, item_names, t);
    let list = args::argument(encode::paren_tokens(tokens));
    lemma_mailbox_argument(mailbox, encode::flat(list) + t);
    args::lemma_flat_then(args::argument(mailbox::mailbox_tokens(mailbox)), list, t);
}

proof fn lemma_message_reads(m: MessageView, t: Seq<u8>)
    requires
        message_wf(m),
        t.len() > 0,
    ensures
        message_rule()(encode::flat(message_tokens(m)) + t) == Outcome::Done(t, m),
        encode::flat(message_tokens(m)).len() > 0,
        encode::flat(message_tokens(m))[0] == '~' as u8 || encode::flat(message_tokens(m))[0]
            == '{' as u8,
{
    reveal(message_rule);
    reveal_strlit("~");
    reveal_strlit("{");
    strings::lemma_literal_reads(m.data, m.mode, t);
    let l = strings::literal_tokens(m.data, m.mode);
    strings::lemma_literal_first(m.data, m.mode);
    if m.binary {
        encode::lemma_flat_add(encode::word("~"), l);
        encode::lemma_flat_word("~");
    } else {
        assert(message_tokens(m) =~= l);
        let s = encode::flat(l) + t;
        assert(s[0] == '{' as u8);
        reveal(strings::literal8_rule);
        reading::lemma_tag_rejects(ascii::bytes_of("~"), s);
    }
}

proof fn lemma_append_date_reads(d: Option<Seq<u8>>, t: Seq<u8>)
    requires
        d matches Some(b) ==> date::date_time_wf(b),
        t.len() > 1,
        t[0] == 0x20,
        t[1] == '~' as u8 || t[1] == '{' as u8,
    ensures
        g::opt(args::sp(date::date_time_rule()))(encode::flat(date_argument(d)) + t)
            == Outcome::Done(t, d),
        ({
            let s = encode::flat(date_argument(d)) + t;
            reading::ends(s) && args::no_list_follows(s)
        }),
{
    reveal_strlit(" ");
    reveal_strlit("\"");
    let space = ascii::bytes_of(" ");
    match d {
        Some(b) => {
            let q = strings::quoted_text(b);
            encode::lemma_flat_plain(q);
            date::lemma_date_time_reads(b, t);
            args::lemma_argument_reads(date::date_time_rule(), encode::plain(q), b, t);
            let s = encode::flat(date_argument(d)) + t;
            assert(s.skip(1)[0] == s[1]);
            assert((q + t)[0] == '"' as u8);
        },
        None => {
            assert(encode::flat(date_argument(d)) + t =~= t);
            assert(t =~= space + t.skip(1));
            reading::lemma_tag_reads(space, t.skip(1));
            assert(t.skip(1)[0] == t[1]);
            reveal(date::date_time_rule);
            reveal(strings::quoted_rule);
            reading::lemma_tag_rejects(ascii::bytes_of("\""), t.skip(1));
        },
    }
}

proof fn lemma_append_flags_read(flags: Seq<FlagView>, t: Seq<u8>)
    requires
        flag::flags_wf(flags),
        reading::ends(t),
        args::no_list_follows(t),
    ensures
        g::mapped(
            g::opt(args::sp(flag::flag_list_rule())),
            |o: Option<Seq<FlagView>>|
                match o {
                    Some(v) => v,
                    None => seq![],
                },
        )(encode::flat(args::optional_parens(encode::parts::<Flag>(flags))) + t) == Outcome::Done(t, flags),
        reading::ends(encode::flat(args::optional_parens(encode::parts::<Flag>(flags))) + t),
{
    let tokens = encode::parts::<Flag>(flags);
    if flags.len() == 0 {
        assert(encode::flat(args::optional_parens(tokens)) + t =~= t);
        args::lemma_no_list(flag::flag_rule(), t);
        assert(flags =~= seq![]);
    } else {
        flag::lemma_flag_list_reads(flags, t);
        args::lemma_argument_reads(flag::flag_list_rule(), flag::flag_list_tokens(flags), flags, t);
    }
}

proof fn lemma_append_reads(
    mailbox: MailboxView,
    flags: Seq<FlagView>,
    date: Option<Seq<u8>>,
    message: MessageView,
    t: Seq<u8>,
)
    requires
        mailbox::mailbox_wf(mailbox),
        flag::flags_wf(flags),
        date matches Some(d) ==> date::date_time_wf(d),
        message_wf(message),
        args::line_end(t),
    ensures
        reads_arguments(BodyView::Append { mailbox, flags, date, message }, t),
{
    reveal(reads_arguments);
    let a = args::argument(mailbox::mailbox_tokens(mailbox));
    let f = args::optional_parens(encode::parts::<Flag>(flags));
    let d = date_argument(date);
    let m = args::argument(message_tokens(message));
    lemma_message_reads(message, t);
    args::lemma_argument_reads(message_rule(), message_tokens(message), message, t);
    let r3 = encode::flat(m) + t;
    assert(r3.skip(1)[0] == r3[1]);
    lemma_append_date_reads(date, r3);
    let r2 = encode::flat(d) + r3;
    lemma_append_flags_read(flags, r2);
    let r1 = encode::flat(f) + r2;
    lemma_mailbox_argument(mailbox, r1);
    args::lemma_flat_then(a + f + d, m, t);
    args::lemma_flat_then(a + f, d, r3);
    args::lemma_flat_then(a, f, r2);
}

proof fn lemma_expunge_uid_reads(sequence_set: MessageSetView, t: Seq<u8>)
    requires
        ext::message_set_wf(sequence_set),
        args::line_end(t),
    ensures
        reads_arguments(BodyView::ExpungeUid { sequence_set }, t),
{
    reveal(reads_arguments);
    lemma_command_name(CommandName::Expunge);
    lemma_set_argument(sequence_set, t);
}

proof fn lemma_search_reads(
    charset: Option<StringView>,
    criteria: Seq<KeyView>,
    uid: bool,
    t: Seq<u8>,
)
    requires
        ext::charset_wf(charset),
        search::criteria_wf(criteria),
        args::line_end(t),
    ensures
        reads_arguments(BodyView::Search { charset, criteria, uid }, t),
{
    reveal(reads_arguments);
    lemma_command_name(CommandName::Search);
    let v = BodyView::Search { charset, criteria, uid };
    lemma_search_text(charset, criteria);
    ext::lemma_search_tail_reads(charset, criteria, t);
}

proof fn lemma_search_text(charset: Option<StringView>, criteria: Seq<KeyView>)
    ensures
        encode::flat(ext::charset_tokens(charset) + args::argument(search::criteria_tokens(criteria)))
            == ext::search_tail_text(charset, criteria),
{
    let c = ext::charset_tokens(charset);
    let k = search::criteria_tokens(criteria);
    encode::lemma_flat_add(c, args::argument(k));
    encode::lemma_flat_add(encode::word(" "), k);
    encode::lemma_flat_word(" ");
    encode::lemma_concat_assoc(encode::flat(c), ascii::bytes_of(" "), encode::flat(k));
}

proof fn lemma_criteria_argument(v: Seq<KeyView>, t: Seq<u8>)
    requires
        search::criteria_wf(v),
        args::line_end(t),
    ensures
        args::sp(search::criteria_rule())(
            encode::flat(args::argument(search::criteria_tokens(v))) + t,
        ) == Outcome::Done(t, v),
        reading::ends(encode::flat(args::argument(search::criteria_tokens(v))) + t),
{
    search::lemma_criteria_reads(v, t);
    args::lemma_argument_reads(search::criteria_rule(), search::criteria_tokens(v), v, t);
    search::lemma_criteria_start(v);
}

proof fn lemma_charset_argument(c: StringView, t: Seq<u8>)
    requires
        ext::charset_wf(Some(c)),
        reading::ends(t),
    ensures
        args::sp(strings::charset_rule())(encode::flat(args::argument(strings::string_tokens(c))) + t)
            == Outcome::Done(t, c),
        reading::ends(encode::flat(args::argument(strings::string_tokens(c))) + t),
{
    strings::lemma_charset_reads(c);
    args::lemma_delimited_argument(strings::charset_rule(), strings::string_tokens(c), c, t);
}

proof fn lemma_sort_key(k: SortKey)
    ensures
        sort_key_of(sort_key_text(k)) == Some(k),
        sort_key_text(k).len() > 0,
        ascii::all_bytes(sort_key_text(k), |b: u8| is_alpha(b)),
        ascii::upper(sort_key_text(k)[0]) != 'R' as u8,
{
    broadcast use ascii::lemma_same_word_head;

    reveal_strlit("ARRIVAL");
    reveal_strlit("CC");
    reveal_strlit("DATE");
    reveal_strlit("DISPLAYFROM");
    reveal_strlit("DISPLAYTO");
    reveal_strlit("FROM");
    reveal_strlit("SIZE");
    reveal_strlit("SUBJECT");
    reveal_strlit("TO");
    lemma_letters(sort_key_text(k));
}

proof fn lemma_sort_criterion_reads(c: SortCriterion)
    ensures
        reading::reads(sort_criterion_rule(), encode::flat(SortCriterion::tokens(c)), c),
{
    reveal(sort_criterion_rule);
    lemma_sort_key(c.key);
    let b = sort_criterion_text(c);
    let w = sort_key_text(c.key);
    encode::lemma_flat_plain(b);
    reveal_strlit("REVERSE ");
    let r = ascii::bytes_of("REVERSE ");
    assert forall|t: Seq<u8>| reading::ends(t) implies #[trigger] sort_criterion_rule()(b + t)
        == Outcome::Done(t, c) by {
        reading::lemma_take_while1_reads(|x: u8| is_alpha(x), w, t);
        if c.reverse {
            assert(b + t =~= r + (w + t));
            reading::lemma_tag_no_case_reads(r, w + t);
        } else {
            assert(b + t =~= w + t);
            assert((w + t)[0] == w[0]);
            reading::lemma_tag_no_case_rejects(r, w + t, 0);
        }
    }
}

proof fn lemma_sort_reads(
    sort_criteria: Seq<SortCriterion>,
    charset: StringView,
    search_criteria: Seq<KeyView>,
    uid: bool,
    t: Seq<u8>,
)
    requires
        sort_criteria.len() > 0,
        ext::charset_wf(Some(charset)),
        search::criteria_wf(search_criteria),
        args::line_end(t),
    ensures
        reads_arguments(BodyView::Sort { sort_criteria, charset, search_criteria, uid }, t),
{
    reveal(reads_arguments);
    lemma_command_name(CommandName::Sort);
    let tokens = encode::parts::<SortCriterion>(sort_criteria);
    let a = args::argument(encode::paren_tokens(tokens));
    let c = args::argument(strings::string_tokens(charset));
    let k = args::argument(search::criteria_tokens(search_criteria));
    lemma_criteria_argument(search_criteria, t);
    let r2 = encode::flat(k) + t;
    lemma_charset_argument(charset, r2);
    let r1 = encode::flat(c) + r2;
    assert forall|i: int| 0 <= i < sort_criteria.len() implies reading::reads(
        sort_criterion_rule(),
        encode::flat(#[trigger] tokens[i]),
        sort_criteria[i],
    ) by {
        lemma_sort_criterion_reads(sort_criteria[i]);
    }
    args::lemma_list_argument(sort_criterion_rule(), tokens, sort_criteria, r1);
    args::lemma_flat_then(a + c, k, t);
    args::lemma_flat_then(a, c, r2);
}

proof fn lemma_thread_reads(
    algorithm: Seq<u8>,
    charset: StringView,
    search_criteria: Seq<KeyView>,
    uid: bool,
    t: Seq<u8>,
)
    requires
        strings::atom_wf(algorithm),
        ext::charset_wf(Some(charset)),
        search::criteria_wf(search_criteria),
        args::line_end(t),
    ensures
        reads_arguments(BodyView::Thread { algorithm, charset, search_criteria, uid }, t),
{
    reveal(reads_arguments);
    lemma_command_name(CommandName::Thread);
    let a = args::argument(encode::plain(algorithm));
    let c = args::argument(strings::string_tokens(charset));
    let k = args::argument(search::criteria_tokens(search_criteria));
    lemma_criteria_argument(search_criteria, t);
    let r2 = encode::flat(k) + t;
    lemma_charset_argument(charset, r2);
    let r1 = encode::flat(c) + r2;
    strings::lemma_atom_reads(algorithm);
    encode::lemma_flat_plain(algorithm);
    args::lemma_delimited_argument(strings::atom_rule(), encode::plain(algorithm), algorithm, r1);
    args::lemma_flat_then(a + c, k, t);
    args::lemma_flat_then(a, c, r2);
}

proof fn lemma_fetch_reads(
    sequence_set: MessageSetView,
    macro_or_item_names: ItemNamesView,
    uid: bool,
    modifiers: Seq<FetchModifier>,
    t: Seq<u8>,
)
    requires
        ext::message_set_wf(sequence_set),
        fetch::item_names_wf(macro_or_item_names),
        args::all_wf(modifiers, |m: FetchModifier| fetch_modifier_wf(m)),
        args::line_end(t),
    ensures
        reads_arguments(BodyView::Fetch { sequence_set, macro_or_item_names, uid, modifiers }, t),
{
    reveal(reads_arguments);
    lemma_command_name(CommandName::Fetch);
    let tokens = encode::parts::<FetchModifier>(modifiers);
    let a = args::argument(ext::message_set_tokens(sequence_set));
    let b = args::argument(fetch::item_names_tokens(macro_or_item_names));
    let c = args::optional_parens(tokens);
    assert forall|i: int| 0 <= i < modifiers.len() implies reading::reads(
        fetch_modifier_rule(),
        encode::flat(#[trigger] tokens[i]),
        modifiers[i],
    ) by {
        let wf = |m: FetchModifier| fetch_modifier_wf(m);
        assert(wf(modifiers[i]));
        lemma_fetch_modifier_reads(modifiers[i]);
    }
    args::lemma_optional_reads(fetch_modifier_rule(), tokens, modifiers, t);
    let r2 = encode::flat(c) + t;
    fetch::lemma_item_names_reads(macro_or_item_names);
    args::lemma_delimited_argument(
        fetch::item_names_rule(),
        fetch::item_names_tokens(macro_or_item_names),
        macro_or_item_names,
        r2,
    );
    let r1 = encode::flat(b) + r2;
    lemma_set_argument(sequence_set, r1);
    args::lemma_flat_then(a + b, c, t);
    args::lemma_flat_then(a, b, r2);
}

proof fn lemma_store_item_reads(kind: StoreType, response: StoreResponse, t: Seq<u8>)
    requires
        reading::ends(t),
    ensures
        store_item_rule()(store_item_text(kind, response) + t) == Outcome::Done(
            t,
            (kind, response),
        ),
        store_item_text(kind, response).len() > 0,
        store_item_text(kind, response)[0] != '(' as u8,
{
    reveal(store_item_rule);
    reveal_strlit("+");
    reveal_strlit("-");
    reveal_strlit("FLAGS");
    reveal_strlit(".SILENT");
    let w = ascii::bytes_of("FLAGS");
    let silent = ascii::bytes_of(".SILENT");
    let sign = match kind {
        StoreType::Replace => seq![],
        StoreType::Add => ascii::bytes_of("+"),
        StoreType::Remove => ascii::bytes_of("-"),
    };
    let tail = match response {
        StoreResponse::Answer => seq![],
        StoreResponse::Silent => silent,
    };
    let b = w + (tail + t);
    let s = store_item_text(kind, response) + t;
    assert(s =~= sign + b);
    assert(b[0] == 'F' as u8);
    match kind {
        StoreType::Replace => {
            assert(s =~= b);
            reading::lemma_tag_rejects(ascii::bytes_of("+"), s);
            reading::lemma_tag_rejects(ascii::bytes_of("-"), s);
        },
        StoreType::Add => {
            reading::lemma_tag_reads(ascii::bytes_of("+"), b);
        },
        StoreType::Remove => {
            assert(s[0] == '-' as u8);
            reading::lemma_tag_rejects(ascii::bytes_of("+"), s);
            reading::lemma_tag_reads(ascii::bytes_of("-"), b);
        },
    }
    reading::lemma_tag_no_case_reads(w, tail + t);
    match response {
        StoreResponse::Answer => {
            assert(tail + t =~= t);
            reading::lemma_tag_no_case_rejects(silent, t, 0);
        },
        StoreResponse::Silent => {
            reading::lemma_tag_no_case_reads(silent, t);
        },
    }
}

proof fn lemma_store_reads(
    sequence_set: MessageSetView,
    kind: StoreType,
    response: StoreResponse,
    flags: Seq<FlagView>,
    uid: bool,
    modifiers: Seq<StoreModifier>,
    t: Seq<u8>,
)
    requires
        ext::message_set_wf(sequence_set),
        flag::flags_wf(flags),
        args::all_wf(modifiers, |m: StoreModifier| store_modifier_wf(m)),
        args::line_end(t),
    ensures
        reads_arguments(
            BodyView::Store { sequence_set, kind, response, flags, uid, modifiers },
            t,
        ),
{
    reveal(reads_arguments);
    lemma_command_name(CommandName::Store);
    let tokens = encode::parts::<StoreModifier>(modifiers);
    let a = args::argument(ext::message_set_tokens(sequence_set));
    let m = args::optional_parens(tokens);
    let item = encode::plain(store_item_text(kind, response));
    let i = args::argument(item);
    let f = args::argument(flag::flag_list_tokens(flags));
    flag::lemma_flag_list_reads(flags, t);
    args::lemma_argument_reads(store_flags_rule(), flag::flag_list_tokens(flags), flags, t);
    let r3 = encode::flat(f) + t;
    lemma_store_item_reads(kind, response, r3);
    encode::lemma_flat_plain(store_item_text(kind, response));
    args::lemma_argument_reads(store_item_rule(), item, (kind, response), r3);
    let r2 = encode::flat(i) + r3;
    assert(r2.skip(1)[0] == r2[1]);
    assert forall|j: int| 0 <= j < modifiers.len() implies reading::reads(
        store_modifier_rule(),
        encode::flat(#[trigger] tokens[j]),
        modifiers[j],
    ) by {
        let wf = |x: StoreModifier| store_modifier_wf(x);
        assert(wf(modifiers[j]));
        lemma_store_modifier_reads(modifiers[j]);
    }
    args::lemma_optional_reads(store_modifier_rule(), tokens, modifiers, r2);
    let r1 = encode::flat(m) + r2;
    lemma_set_argument(sequence_set, r1);
    args::lemma_flat_then(a + m + i, f, t);
    args::lemma_flat_then(a + m, i, r3);
    args::lemma_flat_then(a, m, r2);
}

proof fn lemma_copy_reads(sequence_set: MessageSetView, mailbox: MailboxView, uid: bool, t: Seq<u8>)
    requires
        ext::message_set_wf(sequence_set),
        mailbox::mailbox_wf(mailbox),
        args::line_end(t),
    ensures
        reads_arguments(BodyView::Copy { sequence_set, mailbox, uid }, t),
        reads_arguments(BodyView::Move { sequence_set, mailbox, uid }, t),
{
    reveal(reads_arguments);
    lemma_command_name(CommandName::Copy);
    lemma_command_name(CommandName::Move);
    let m = args::argument(mailbox::mailbox_tokens(mailbox));
    lemma_mailbox_argument(mailbox, t);
    lemma_set_argument(sequence_set, encode::flat(m) + t);
    args::lemma_flat_then(args::argument(ext::message_set_tokens(sequence_set)), m, t);
}

proof fn lemma_enable_reads(capabilities: Seq<Seq<u8>>, t: Seq<u8>)
    requires
        capabilities.len() > 0,
        args::all_wf(capabilities, |b: Seq<u8>| strings::atom_wf(b)),
        args::line_end(t),
    ensures
        reads_arguments(BodyView::Enable { capabilities }, t),
{
    reveal(reads_arguments);
    let tokens = encode::parts::<Atom>(capabilities);
    let list = encode::joined(tokens, encode::word(" "));
    args::lemma_atoms_read(capabilities, t);
    args::lemma_argument_reads(
        g::separated_list1(g::text(" "), strings::atom_rule()),
        list,
        capabilities,
        t,
    );
}

proof fn lemma_authenticate_reads(
    mechanism: Seq<u8>,
    initial_response: Option<Seq<u8>>,
    t: Seq<u8>,
)
    requires
        strings::atom_wf(mechanism),
        initial_response matches Some(b) ==> ascii::all_bytes(b, |x: u8| is_base64_char(x))
            && is_base64(b),
        args::line_end(t),
    ensures
        reads_arguments(BodyView::Authenticate { mechanism, initial_response }, t),
{
    reveal(reads_arguments);
    reveal(authenticate_rule);
    let first = args::argument(encode::plain(mechanism));
    let last = match initial_response {
        Some(b) => args::argument(encode::plain(b)),
        None => seq![],
    };
    let r = encode::flat(last) + t;
    args::lemma_flat_then(first, last, t);
    encode::lemma_flat_plain(mechanism);
    reveal_strlit(" ");
    match initial_response {
        Some(b) => {
            reveal(base64_rule);
            encode::lemma_flat_plain(b);
            reading::lemma_take_while1_reads(|x: u8| is_base64_char(x), b, t);
            args::lemma_argument_reads(base64_rule(), encode::plain(b), b, t);
        },
        None => {
            assert(r =~= t);
            reading::lemma_tag_rejects(ascii::bytes_of(" "), t);
        },
    }
    assert(reading::ends(r));
    strings::lemma_atom_reads(mechanism);
    args::lemma_delimited_argument(strings::atom_rule(), encode::plain(mechanism), mechanism, r);
}

proof fn lemma_compress_reads(algorithm: CompressionAlgorithm, t: Seq<u8>)
    ensures
        reads_arguments(BodyView::Compress { algorithm }, t),
{
    reveal(reads_arguments);
    encode::lemma_flat_word("DEFLATE");
    reading::lemma_tag_no_case_reads(ascii::bytes_of("DEFLATE"), t);
    args::lemma_argument_reads(g::word("DEFLATE"), encode::word("DEFLATE"), (), t);
    assert(algorithm == CompressionAlgorithm::Deflate);
}

proof fn lemma_get_quota_reads(root: StringView, t: Seq<u8>)
    requires
        strings::string_wf(root),
        args::line_end(t),
    ensures
        reads_arguments(BodyView::GetQuota { root }, t),
{
    reveal(reads_arguments);
    strings::lemma_string_reads(root);
    args::lemma_delimited_argument(strings::astring_rule(), strings::string_tokens(root), root, t);
}

proof fn lemma_quota_reads(q: QuotaSetView)
    requires
        quota_wf(q),
    ensures
        reading::reads(quota_rule(), encode::flat(QuotaSet::tokens(q)), q),
{
    reveal(quota_rule);
    let n = encode::plain(number::decimal(q.limit as nat));
    let b = encode::flat(QuotaSet::tokens(q));
    encode::lemma_flat_plain(number::decimal(q.limit as nat));
    encode::lemma_flat_plain(q.resource);
    strings::lemma_atom_reads(q.resource);
    assert forall|t: Seq<u8>| reading::ends(t) implies #[trigger] quota_rule()(b + t)
        == Outcome::Done(t, q) by {
        search::lemma_number63_reads(q.limit, t);
        args::lemma_argument_reads(ext::number63_rule(), n, q.limit, t);
        let r = encode::flat(args::argument(n)) + t;
        args::lemma_flat_then(encode::plain(q.resource), args::argument(n), t);
        assert(strings::atom_rule()(q.resource + r) == Outcome::Done(r, q.resource));
    }
}

proof fn lemma_set_quota_reads(root: StringView, quotas: Seq<QuotaSetView>, t: Seq<u8>)
    requires
        strings::string_wf(root),
        args::all_wf(quotas, |q: QuotaSetView| quota_wf(q)),
        args::line_end(t),
    ensures
        reads_arguments(BodyView::SetQuota { root, quotas }, t),
{
    reveal(reads_arguments);
    let tokens = encode::parts::<QuotaSet>(quotas);
    let a = strings::string_tokens(root);
    assert forall|i: int| 0 <= i < quotas.len() implies reading::reads(
        quota_rule(),
        encode::flat(#[trigger] tokens[i]),
        quotas[i],
    ) by {
        let wf = |q: QuotaSetView| quota_wf(q);
        assert(wf(quotas[i]));
        lemma_quota_reads(quotas[i]);
    }
    reveal_strlit(")");
    let end = ascii::bytes_of(")") + t;
    assert(end[0] == ')' as u8);
    assert(quota_rule()(end) is Reject) by {
        reveal(quota_rule);
        reveal(strings::atom_rule);
        reading::lemma_take_while1_rejects(|x: u8| ascii::is_atom_char(x), end);
    }
    args::lemma_list_argument(quota_rule(), tokens, quotas, t);
    let list = args::argument(encode::paren_tokens(tokens));
    strings::lemma_string_reads(root);
    args::lemma_delimited_argument(strings::astring_rule(), a, root, encode::flat(list) + t);
    args::lemma_flat_then(args::argument(a), list, t);
}

proof fn lemma_id_field_reads(f: IdFieldView)
    requires
        id_field_wf(f),
    ensures
        reading::reads(id_field_rule(), encode::flat(IdField::tokens(f)), f),
{
    reveal(id_field_rule);
    let a = strings::string_tokens(f.name);
    let b = args::argument(strings::nstring_tokens(f.value));
    strings::lemma_string_reads(f.name);
    assert forall|t: Seq<u8>| reading::ends(t) implies #[trigger] id_field_rule()(
        encode::flat(IdField::tokens(f)) + t,
    ) == Outcome::Done(t, f) by {
        args::lemma_nstring_argument(f.value, t);
        let r = encode::flat(b) + t;
        args::lemma_flat_then(a, b, t);
        assert(strings::string_rule()(encode::flat(a) + r) == Outcome::Done(r, f.name));
    }
}

proof fn lemma_id_reads(parameters: Option<Seq<IdFieldView>>, t: Seq<u8>)
    requires
        parameters matches Some(v) ==> args::all_wf(v, |f: IdFieldView| id_field_wf(f)),
        args::line_end(t),
    ensures
        reads_arguments(BodyView::Id { parameters }, t),
{
    reveal(reads_arguments);
    lemma_id_parameters_read(parameters, t);
}

/// What a client or a server tells of itself is read back behind its space.
pub proof fn lemma_id_parameters_read(parameters: Option<Seq<IdFieldView>>, t: Seq<u8>)
    requires
        parameters matches Some(v) ==> args::all_wf(v, |f: IdFieldView| id_field_wf(f)),
    ensures
        args::sp(id_rule())(encode::flat(args::argument(id_tokens(parameters))) + t)
            == Outcome::Done(t, parameters),
        (encode::flat(args::argument(id_tokens(parameters))) + t).len() > 0,
        (encode::flat(args::argument(id_tokens(parameters))) + t)[0] == 0x20,
{
    args::lemma_flat_then(encode::word(" "), id_tokens(parameters), t);
    encode::lemma_flat_word(" ");
    reveal_strlit(" ");
    match parameters {
        Some(v) => {
            let tokens = encode::parts::<IdField>(v);
            assert forall|i: int| 0 <= i < v.len() implies reading::reads(
                id_field_rule(),
                encode::flat(#[trigger] tokens[i]),
                v[i],
            ) by {
                let wf = |f: IdFieldView| id_field_wf(f);
                assert(wf(v[i]));
                lemma_id_field_reads(v[i]);
            }
            reveal_strlit(")");
            let end = ascii::bytes_of(")") + t;
            assert(end[0] == ')' as u8);
            assert(id_field_rule()(end) is Reject) by {
                reveal(id_field_rule);
                strings::lemma_string_rejects(end);
            }
            args::lemma_list_argument(id_field_rule(), tokens, v, t);
            let s = encode::flat(args::argument(encode::paren_tokens(tokens))) + t;
            args::lemma_flat_then(encode::word(" "), encode::paren_tokens(tokens), t);
            encode::lemma_flat_word(" ");
            reading::lemma_tag_reads(
                ascii::bytes_of(" "),
                encode::flat(encode::paren_tokens(tokens)) + t,
            );
        },
        None => {
            let w = ascii::bytes_of("NIL");
            encode::lemma_flat_word("NIL");
            reveal_strlit("NIL");
            reveal_strlit("(");
            reading::lemma_tag_no_case_reads(w, t);
            assert((w + t)[0] == 'N' as u8);
            reading::lemma_tag_rejects(ascii::bytes_of("("), w + t);
            args::lemma_argument_reads(id_rule(), encode::word("NIL"), parameters, t);
        },
    }
}

proof fn lemma_entries_read(entries: Seq<StringView>, t: Seq<u8>)
    requires
        entries.len() > 0,
        args::all_wf(entries, |s: StringView| strings::string_wf(s)),
    ensures
        entries_rule()(encode::flat(encode::paren_tokens(encode::parts::<AString>(entries))) + t)
            == Outcome::Done(t, entries),
{
    let tokens = encode::parts::<AString>(entries);
    let parts = encode::flat_parts(tokens);
    let p = strings::astring_rule();
    encode::lemma_flat_paren(tokens);
    assert forall|i: int| 0 <= i < parts.len() implies reading::reads(
        p,
        #[trigger] parts[i],
        entries[i],
    ) by {
        let wf = |s: StringView| strings::string_wf(s);
        assert(wf(entries[i]));
        strings::lemma_string_reads(entries[i]);
    }
    reading::lemma_parens_reads(p, parts, entries, t);
}

proof fn lemma_get_metadata_option_reads(o: GetMetadataOption)
    ensures
        reading::reads(
            get_metadata_option_rule(),
            encode::flat(GetMetadataOption::tokens(o)),
            o,
        ),
{
    reveal(get_metadata_option_rule);
    reveal_strlit("MAXSIZE ");
    reveal_strlit("DEPTH 0");
    reveal_strlit("DEPTH 1");
    reveal_strlit("DEPTH infinity");
    let size = ascii::bytes_of("MAXSIZE ");
    let zero = ascii::bytes_of("DEPTH 0");
    let one = ascii::bytes_of("DEPTH 1");
    let b = get_metadata_option_text(o);
    encode::lemma_flat_plain(b);
    assert forall|t: Seq<u8>| reading::ends(t) implies #[trigger] get_metadata_option_rule()(b + t)
        == Outcome::Done(t, o) by {
        let s = b + t;
        match o {
            GetMetadataOption::MaxSize(n) => {
                let d = number::decimal(n as nat);
                encode::lemma_concat_assoc(size, d, t);
                reading::lemma_tag_no_case_reads(size, d + t);
                number::lemma_number_reads(n, t);
            },
            GetMetadataOption::Depth(Depth::Zero) => {
                assert(s[0] == 'D' as u8);
                reading::lemma_tag_no_case_rejects(size, s, 0);
                reading::lemma_tag_no_case_reads(zero, t);
            },
            GetMetadataOption::Depth(Depth::One) => {
                assert(s[0] == 'D' as u8);
                assert(s[6] == '1' as u8);
                reading::lemma_tag_no_case_rejects(size, s, 0);
                reading::lemma_tag_no_case_rejects(zero, s, 6);
                reading::lemma_tag_no_case_reads(one, t);
            },
            GetMetadataOption::Depth(Depth::Infinity) => {
                assert(s[0] == 'D' as u8);
                assert(s[6] == 'i' as u8);
                reading::lemma_tag_no_case_rejects(size, s, 0);
                reading::lemma_tag_no_case_rejects(zero, s, 6);
                reading::lemma_tag_no_case_rejects(one, s, 6);
                reading::lemma_tag_no_case_reads(ascii::bytes_of("DEPTH infinity"), t);
            },
        }
    }
}

proof fn lemma_get_metadata_reads(
    options: Seq<GetMetadataOption>,
    mailbox: MailboxView,
    entries: Seq<StringView>,
    t: Seq<u8>,
)
    requires
        mailbox::mailbox_wf(mailbox),
        entries.len() > 0,
        args::all_wf(entries, |s: StringView| strings::string_wf(s)),
        args::line_end(t),
    ensures
        reads_arguments(BodyView::GetMetadata { options, mailbox, entries }, t),
{
    reveal(reads_arguments);
    let tokens = encode::paren_tokens(encode::parts::<AString>(entries));
    let parts = encode::parts::<GetMetadataOption>(options);
    let name = mailbox::mailbox_tokens(mailbox);
    let rest = args::argument(name) + args::argument(tokens);
    lemma_entries_read(entries, t);
    args::lemma_argument_reads(entries_rule(), tokens, entries, t);
    let behind = encode::flat(args::argument(tokens)) + t;
    mailbox::lemma_mailbox_reads(mailbox);
    args::lemma_delimited_argument(mailbox::mailbox_rule(), name, mailbox, behind);
    args::lemma_flat_then(args::argument(name), args::argument(tokens), t);
    mailbox::lemma_mailbox_first(mailbox);
    let r = encode::flat(rest) + t;
    assert(r.skip(1) == encode::flat(name) + behind);
    assert(r[1] == r.skip(1)[0]);
    assert forall|i: int| 0 <= i < options.len() implies reading::reads(
        get_metadata_option_rule(),
        encode::flat(#[trigger] parts[i]),
        options[i],
    ) by {
        lemma_get_metadata_option_reads(options[i]);
    }
    args::lemma_optional_reads(get_metadata_option_rule(), parts, options, r);
    args::lemma_flat_then(args::optional_parens(parts), rest, t);
}

pub proof fn lemma_entry_value_reads(e: EntryValueView)
    requires
        entry_value_wf(e),
    ensures
        reading::reads(entry_value_rule(), encode::flat(EntryValue::tokens(e)), e),
{
    reveal(entry_value_rule);
    let a = strings::string_tokens(e.entry);
    let b = args::argument(response::nstring8_tokens(e.value));
    strings::lemma_string_reads(e.entry);
    assert forall|t: Seq<u8>| reading::ends(t) implies #[trigger] entry_value_rule()(
        encode::flat(EntryValue::tokens(e)) + t,
    ) == Outcome::Done(t, e) by {
        response::lemma_nstring8_argument(e.value, t);
        let r = encode::flat(b) + t;
        args::lemma_flat_then(a, b, t);
        assert(strings::astring_rule()(encode::flat(a) + r) == Outcome::Done(r, e.entry));
    }
}

proof fn lemma_set_metadata_reads(
    mailbox: MailboxView,
    entry_values: Seq<EntryValueView>,
    t: Seq<u8>,
)
    requires
        mailbox::mailbox_wf(mailbox),
        entry_values.len() > 0,
        args::all_wf(entry_values, |e: EntryValueView| entry_value_wf(e)),
        args::line_end(t),
    ensures
        reads_arguments(BodyView::SetMetadata { mailbox, entry_values }, t),
{
    reveal(reads_arguments);
    let tokens = encode::parts::<EntryValue>(entry_values);
    assert forall|i: int| 0 <= i < entry_values.len() implies reading::reads(
        entry_value_rule(),
        encode::flat(#[trigger] tokens[i]),
        entry_values[i],
    ) by {
        let wf = |e: EntryValueView| entry_value_wf(e);
        assert(wf(entry_values[i]));
        lemma_entry_value_reads(entry_values[i]);
    }
    args::lemma_list_argument(entry_value_rule(), tokens, entry_values, t);
    let list = args::argument(encode::paren_tokens(tokens));
    lemma_mailbox_argument(mailbox, encode::flat(list) + t);
    args::lemma_flat_then(args::argument(mailbox::mailbox_tokens(mailbox)), list, t);
}

proof fn lemma_arguments_read(v: BodyView, t: Seq<u8>)
    requires
        body_wf(v),
        !(v is List || v is ListExtended || v is SearchExtended),
        args::line_end(t),
    ensures
        reads_arguments(v, t),
{
    match v {
        BodyView::Login { username, password } => lemma_login_reads(username, password, t),
        BodyView::Select { mailbox, parameters } => lemma_select_reads(mailbox, parameters, t),
        BodyView::Examine { mailbox, parameters } => lemma_select_reads(mailbox, parameters, t),
        BodyView::Create { .. }
        | BodyView::Delete { .. }
        | BodyView::Subscribe { .. }
        | BodyView::Unsubscribe { .. }
        | BodyView::GetQuotaRoot { .. } => lemma_mailbox_command_reads(v, t),
        BodyView::Rename { from, to } => lemma_rename_reads(from, to, t),
        BodyView::Lsub { reference, mailbox_wildcard } => {
            lemma_lsub_reads(reference, mailbox_wildcard, t);
        },
        BodyView::Status { mailbox, item_names } => lemma_status_reads(mailbox, item_names, t),
        BodyView::Append { mailbox, flags, date, message } => {
            lemma_append_reads(mailbox, flags, date, message, t);
        },
        BodyView::ExpungeUid { sequence_set } => lemma_expunge_uid_reads(sequence_set, t),
        BodyView::Search { charset, criteria, uid } => {
            lemma_search_reads(charset, criteria, uid, t);
        },
        BodyView::Sort { sort_criteria, charset, search_criteria, uid } => {
            lemma_sort_reads(sort_criteria, charset, search_criteria, uid, t);
        },
        BodyView::Thread { algorithm, charset, search_criteria, uid } => {
            lemma_thread_reads(algorithm, charset, search_criteria, uid, t);
        },
        BodyView::Fetch { sequence_set, macro_or_item_names, uid, modifiers } => {
            lemma_fetch_reads(sequence_set, macro_or_item_names, uid, modifiers, t);
        },
        BodyView::Store { sequence_set, kind, response, flags, uid, modifiers } => {
            lemma_store_reads(sequence_set, kind, response, flags, uid, modifiers, t);
        },
        BodyView::Copy { sequence_set, mailbox, uid } => {
            lemma_copy_reads(sequence_set, mailbox, uid, t);
        },
        BodyView::Move { sequence_set, mailbox, uid } => {
            lemma_copy_reads(sequence_set, mailbox, uid, t);
        },
        BodyView::Enable { capabilities } => lemma_enable_reads(capabilities, t),
        BodyView::Authenticate { mechanism, initial_response } => {
            lemma_authenticate_reads(mechanism, initial_response, t);
        },
        BodyView::Compress { algorithm } => lemma_compress_reads(algorithm, t),
        BodyView::GetQuota { root } => lemma_get_quota_reads(root, t),
        BodyView::SetQuota { root, quotas } => lemma_set_quota_reads(root, quotas, t),
        BodyView::Id { parameters } => lemma_id_reads(parameters, t),
        BodyView::GetMetadata { options, mailbox, entries } => {
            lemma_get_metadata_reads(options, mailbox, entries, t);
        },
        BodyView::SetMetadata { mailbox, entry_values } => {
            lemma_set_metadata_reads(mailbox, entry_values, t);
        },
        _ => lemma_simple_reads(v, t),
    }
}

/// A search by its criteria is not taken for one with return options.
proof fn lemma_search_is_plain(charset: Option<StringView>, criteria: Seq<KeyView>, t: Seq<u8>)
    requires
        ext::charset_wf(charset),
        search::criteria_wf(criteria),
        args::line_end(t),
    ensures
        g::word("SEARCH RETURN ")(
            ascii::bytes_of("SEARCH") + (ext::search_tail_text(charset, criteria) + t),
        ) is Reject,
{
    reveal_strlit("SEARCH RETURN ");
    reveal_strlit("SEARCH");
    reveal_strlit(" ");
    reveal_strlit(" CHARSET ");
    let w = ascii::bytes_of("SEARCH RETURN ");
    let tail = ext::search_tail_text(charset, criteria);
    let keys = encode::flat(search::criteria_tokens(criteria));
    let s = ascii::bytes_of("SEARCH") + (tail + t);
    match charset {
        Some(c) => {
            encode::lemma_flat_add(encode::word(" CHARSET "), strings::string_tokens(c));
            encode::lemma_flat_word(" CHARSET ");
            assert(tail[1] == 'C' as u8);
            assert(s[7] == tail[1]);
            reading::lemma_tag_no_case_rejects(w, s, 7);
        },
        None => {
            search::lemma_criteria_start(criteria);
            assert(tail =~= ascii::bytes_of(" ") + keys);
            assert(s[7] == keys[0]);
            if ascii::upper(keys[0]) == 'R' as u8 {
                assert(s[9] == keys[2]);
                reading::lemma_tag_no_case_rejects(w, s, 9);
            } else {
                reading::lemma_tag_no_case_rejects(w, s, 7);
            }
        },
    }
}

/// A word that is neither LIST nor SEARCH is not taken for one of them.
proof fn lemma_word_is_plain(w: Seq<u8>, r: Seq<u8>)
    requires
        plain_start(w),
    ensures
        ext::extended_search_rule()(w + r) is Reject,
        ext::list_rule()(w + r) is Reject,
{
    reveal(ext::extended_search_rule);
    reveal(ext::list_rule);
    reveal_strlit("SEARCH RETURN ");
    reveal_strlit("LIST ");
    let s = w + r;
    let a = ascii::bytes_of("SEARCH RETURN ");
    let b = ascii::bytes_of("LIST ");
    assert(s[0] == w[0] && s[1] == w[1]);
    if ascii::upper(w[0]) != 'S' as u8 {
        reading::lemma_tag_no_case_rejects(a, s, 0);
    } else if ascii::upper(w[1]) != 'E' as u8 {
        reading::lemma_tag_no_case_rejects(a, s, 1);
    } else {
        assert(s[2] == w[2]);
        reading::lemma_tag_no_case_rejects(a, s, 2);
    }
    if ascii::upper(w[0]) != 'L' as u8 {
        reading::lemma_tag_no_case_rejects(b, s, 0);
    } else {
        reading::lemma_tag_no_case_rejects(b, s, 1);
    }
}

/// Arguments are written behind a space.
#[verifier::spinoff_prover]
#[verifier::rlimit(60)]
proof fn lemma_arguments_first(v: BodyView)
    requires
        !(v is List || v is ListExtended || v is SearchExtended || v is Search),
    ensures
        arguments_tokens(v).len() > 0 ==> arguments_tokens(v)[0] == encode::word(" ")[0],
{
    reveal_strlit(" ");
}

/// What stands behind the first word of a command starts with a space or ends
/// the line.
proof fn lemma_arguments_start(v: BodyView, t: Seq<u8>)
    requires
        !(v is List || v is ListExtended || v is SearchExtended),
        args::line_end(t),
    ensures
        ({
            let r = encode::flat(arguments_tokens(v)) + t;
            r.len() > 0 && !is_alpha(r[0])
        }),
{
    let r = encode::flat(arguments_tokens(v)) + t;
    reveal_strlit(" ");
    reveal_strlit(" CHARSET ");
    match v {
        BodyView::Search { charset, criteria, .. } => {
            lemma_search_text(charset, criteria);
            if let Some(c) = charset {
                encode::lemma_flat_add(encode::word(" CHARSET "), strings::string_tokens(c));
                encode::lemma_flat_word(" CHARSET ");
            }
        },
        _ => {
            let tokens = arguments_tokens(v);
            lemma_arguments_first(v);
            if tokens.len() > 0 {
                assert(tokens =~= encode::word(" ") + tokens.skip(1));
                encode::lemma_flat_add(encode::word(" "), tokens.skip(1));
                encode::lemma_flat_word(" ");
            } else {
                assert(tokens =~= seq![]);
            }
        },
    }
}

/// A word that is the name of a command selects what is read behind it.
proof fn lemma_named_reads(v: BodyView, t: Seq<u8>)
    requires
        body_wf(v),
        !(v is List || v is ListExtended || v is SearchExtended),
        args::line_end(t),
    ensures
        ({
            let s = command_name_text(body_name(v)) + (encode::flat(arguments_tokens(v)) + t);
            &&& ext::extended_search_rule()(s) is Reject
            &&& ext::list_rule()(s) is Reject
            &&& is_uid(v) ==> g::chain(
                date::letters_rule(),
                |w: Seq<u8>| uid_arguments_rule(w),
            )(s) == Outcome::Done(t, v)
            &&& !is_uid(v) ==> g::chain(
                date::letters_rule(),
                |w: Seq<u8>| named_arguments_rule(w),
            )(s) == Outcome::Done(t, v)
        }),
{
    let n = body_name(v);
    let w = command_name_text(n);
    let r = encode::flat(arguments_tokens(v)) + t;
    lemma_command_name(n);
    lemma_arguments_start(v, t);
    lemma_arguments_read(v, t);
    reading::lemma_take_while1_reads(|b: u8| is_alpha(b), w, r);
    if n is Search {
        lemma_search_start(v, t);
    } else {
        lemma_word_is_plain(w, r);
    }
    reveal(reads_arguments);
}

proof fn lemma_search_start(v: BodyView, t: Seq<u8>)
    requires
        body_wf(v),
        body_name(v) is Search,
        !(v is SearchExtended),
        args::line_end(t),
    ensures
        ({
            let s = command_name_text(body_name(v)) + (encode::flat(arguments_tokens(v)) + t);
            &&& ext::extended_search_rule()(s) is Reject
            &&& ext::list_rule()(s) is Reject
        }),
{
    if let BodyView::Search { charset, criteria, uid } = v {
        lemma_search_text(charset, criteria);
        lemma_search_is_plain(charset, criteria, t);
        reveal(ext::extended_search_rule);
        reveal(ext::list_rule);
        reveal_strlit("SEARCH");
        reveal_strlit("LIST ");
        let s = ascii::bytes_of("SEARCH") + (ext::search_tail_text(charset, criteria) + t);
        assert(s[0] == 'S' as u8);
        reading::lemma_tag_no_case_rejects(ascii::bytes_of("LIST "), s, 0);
    }
}

/// A command by unique identifiers is read behind `UID `.
proof fn lemma_uid_prefix(s: Seq<u8>, v: BodyView, t: Seq<u8>)
    requires
        uid_rule()(s) == Outcome::Done(t, v),
    ensures
        body_rule()(ascii::bytes_of("UID ") + s) == Outcome::Done(t, v),
{
    reveal(body_rule);
    reveal_strlit("UID ");
    reveal_strlit("UID");
    reveal_strlit(" ");
    let w = ascii::bytes_of("UID");
    let r = ascii::bytes_of(" ") + s;
    assert(ascii::bytes_of("UID ") + s =~= w + r);
    assert(r[0] == 0x20);
    lemma_command_name(CommandName::Uid);
    lemma_word_is_plain(w, r);
    reading::lemma_take_while1_reads(|b: u8| is_alpha(b), w, r);
    reading::lemma_tag_reads(ascii::bytes_of(" "), s);
}

proof fn lemma_extended_search_body_reads(
    return_options: Seq<SearchReturnView>,
    charset: Option<StringView>,
    criteria: Seq<KeyView>,
    uid: bool,
    t: Seq<u8>,
)
    requires
        ext::search_returns_wf(return_options),
        ext::charset_wf(charset),
        search::criteria_wf(criteria),
        args::line_end(t),
    ensures
        body_rule()(
            encode::flat(ext::extended_search_tokens(return_options, charset, criteria, uid)) + t,
        ) == Outcome::Done(
            t,
            BodyView::SearchExtended { return_options, charset, criteria, uid },
        ),
{
    ext::lemma_extended_search_reads(return_options, charset, criteria, t);
    let plain = ext::extended_search_tokens(return_options, charset, criteria, false);
    if uid {
        let all = ext::extended_search_tokens(return_options, charset, criteria, true);
        assert(all =~= encode::word("UID ") + plain);
        args::lemma_flat_then(encode::word("UID "), plain, t);
        encode::lemma_flat_word("UID ");
        reveal(uid_rule);
        lemma_uid_prefix(
            encode::flat(plain) + t,
            BodyView::SearchExtended { return_options, charset, criteria, uid },
            t,
        );
    } else {
        reveal(body_rule);
    }
}

proof fn lemma_list_body_reads(v: BodyView, t: Seq<u8>)
    requires
        v is List || v is ListExtended,
        body_wf(v),
        args::line_end(t),
    ensures
        body_rule()(encode::flat(body_tokens(v)) + t) == Outcome::Done(t, v),
{
    let s = encode::flat(body_tokens(v)) + t;
    match v {
        BodyView::List { reference, mailbox_wildcard } => {
            let w = encode::word("LIST ");
            let m = mailbox::mailbox_tokens(reference);
            let p = strings::string_tokens(mailbox_wildcard);
            ext::lemma_plain_list_reads(reference, mailbox_wildcard, t);
            encode::lemma_flat_word("LIST ");
            encode::lemma_flat_word(" ");
            args::lemma_flat_then(w + m, args::argument(p), t);
            args::lemma_flat_then(w, m, encode::flat(args::argument(p)) + t);
            args::lemma_flat_then(encode::word(" "), p, t);
            reveal_strlit("LIST ");
            assert(s[0] == 'L' as u8);
        },
        BodyView::ListExtended { selection, reference, patterns, return_options } => {
            ext::lemma_extended_list_reads(selection, reference, patterns, return_options, t);
            let tail = body_tokens(v).skip(6);
            reveal_strlit("LIST (");
            assert(body_tokens(v) =~= encode::word("LIST (") + tail);
            encode::lemma_flat_add(encode::word("LIST ("), tail);
            encode::lemma_flat_word("LIST (");
            assert(s[0] == 'L' as u8);
        },
        _ => {},
    }
    reveal(body_rule);
    assert(ext::extended_search_rule()(s) is Reject) by {
        reveal(ext::extended_search_rule);
        reveal_strlit("SEARCH RETURN ");
        reading::lemma_tag_no_case_rejects(ascii::bytes_of("SEARCH RETURN "), s, 0);
    }
}

/// The body of a command is read back.
pub proof fn lemma_body_reads(v: BodyView, t: Seq<u8>)
    requires
        body_wf(v),
        args::line_end(t),
    ensures
        body_rule()(encode::flat(body_tokens(v)) + t) == Outcome::Done(t, v),
{
    if v is List || v is ListExtended {
        lemma_list_body_reads(v, t);
    } else if let BodyView::SearchExtended { return_options, charset, criteria, uid } = v {
        lemma_extended_search_body_reads(return_options, charset, criteria, uid, t);
    } else {
        let name = encode::plain(command_name_text(body_name(v)));
        let args = arguments_tokens(v);
        let s = command_name_text(body_name(v)) + (encode::flat(args) + t);
        lemma_named_reads(v, t);
        encode::lemma_flat_plain(command_name_text(body_name(v)));
        args::lemma_flat_then(name, args, t);
        if is_uid(v) {
            let u = encode::word("UID ");
            encode::lemma_flat_word("UID ");
            encode::lemma_concat_assoc(u, name, args);
            args::lemma_flat_then(u, name + args, t);
            reveal(uid_rule);
            lemma_uid_prefix(s, v, t);
        } else {
            assert(body_tokens(v) =~= name + args);
            reveal(body_rule);
        }
    }
}

/// What a command was written from is what is read back, and nothing behind it
/// is touched.
pub proof fn law_command_is_read_back(c: CommandView, rest: Seq<u8>)
    requires
        command_wf(c),
    ensures
        command_rule()(encode::flat(command_tokens(c)) + rest) == Outcome::Done(rest, c),
{
    let space = ascii::bytes_of(" ");
    let crlf = ascii::bytes_of("\r\n");
    let name = encode::plain(c.tag);
    let body = body_tokens(c.body);
    let end = crlf + rest;
    let b = encode::flat(body) + end;
    encode::lemma_flat_plain(c.tag);
    encode::lemma_flat_word(" ");
    encode::lemma_flat_word("\r\n");
    args::lemma_flat_then(name + encode::word(" ") + body, encode::word("\r\n"), rest);
    args::lemma_flat_then(name + encode::word(" "), body, end);
    args::lemma_flat_then(name, encode::word(" "), b);
    reveal_strlit(" ");
    reveal_strlit("\r\n");
    assert(end[0] == 0x0d);
    lemma_body_reads(c.body, end);
    let r = space + b;
    assert(r[0] == 0x20);
    reading::lemma_take_while1_reads(|x: u8| is_tag_char(x), c.tag, r);
    reading::lemma_tag_reads(space, b);
    reading::lemma_tag_reads(crlf, rest);
    reveal(command_rule);
}

// ------------------------------------------------------------------ executable

fn store_modifier<'a>(input: &'a [u8]) -> (res: IMAPResult<'a, StoreModifier>)
    ensures
        g::agrees(res, store_modifier_rule()(input@)),
{
    proof {
        reveal(store_modifier_rule);
    }
    let (rest, _) = tag_no_case(input, "UNCHANGEDSINCE ")?;
    let (rest, n) = mod_sequence_valzer(rest)?;
    Ok((rest, StoreModifier::UnchangedSince(n)))
}

fn changed_since<'a>(input: &'a [u8]) -> (res: IMAPResult<'a, u64>)
    ensures
        g::agrees(
            res,
            g::preceded(g::word("CHANGEDSINCE "), modseq::mod_sequence_value_rule())(input@),
        ),
{
    let (rest, _) = tag_no_case(input, "CHANGEDSINCE ")?;
    mod_sequence_value(rest)
}

fn fetch_modifier<'a>(input: &'a [u8]) -> (res: IMAPResult<'a, FetchModifier>)
    ensures
        g::agrees(res, fetch_modifier_rule()(input@)),
{
    proof {
        reveal(fetch_modifier_rule);
    }
    match changed_since(input) {
        Ok((rest, n)) => Ok((rest, FetchModifier::ChangedSince(n))),
        Err(IMAPParseError::Error) => {
            let (rest, _) = tag_no_case(input, "VANISHED")?;
            Ok((rest, FetchModifier::Vanished))
        },
        Err(e) => Err(e),
    }
}

fn match_data<'a>(input: &'a [u8]) -> (res: IMAPResult<'a, (SequenceSet, SequenceSet)>)
    ensures
        g::agrees(res, match_data_rule()(input@)),
{
    proof {
        reveal(match_data_rule);
    }
    let (rest, _) = tag(input, "(")?;
    let (rest, a) = sequence_set(rest)?;
    let (rest, _) = tag(rest, " ")?;
    let (rest, b) = sequence_set(rest)?;
    let (rest, _) = tag(rest, ")")?;
    Ok((rest, (a, b)))
}

fn known_uids<'a>(input: &'a [u8]) -> (res: IMAPResult<'a, Option<SequenceSet>>)
    ensures
        g::agrees(res, g::opt(args::sp(sequence::sequence_set_rule()))(input@)),
{
    let behind: &[u8] = match tag(input, " ") {
        Ok((behind, _)) => behind,
        Err(IMAPParseError::Error) => return Ok((input, None)),
        Err(e) => return Err(e),
    };
    match sequence_set(behind) {
        Ok((rest, s)) => Ok((rest, Some(s))),
        Err(IMAPParseError::Error) => Ok((input, None)),
        Err(e) => Err(e),
    }
}

fn seq_match_data<'a>(input: &'a [u8]) -> (res: IMAPResult<
    'a,
    Option<(SequenceSet, SequenceSet)>,
>)
    ensures
        g::agrees(res, g::opt(args::sp(match_data_rule()))(input@)),
{
    let behind: &[u8] = match tag(input, " ") {
        Ok((behind, _)) => behind,
        Err(IMAPParseError::Error) => return Ok((input, None)),
        Err(e) => return Err(e),
    };
    match match_data(behind) {
        Ok((rest, m)) => Ok((rest, Some(m))),
        Err(IMAPParseError::Error) => Ok((input, None)),
        Err(e) => Err(e),
    }
}

fn qresync<'a>(input: &'a [u8]) -> (res: IMAPResult<'a, SelectParameter>)
    ensures
        g::agrees(res, qresync_rule()(input@)),
{
    proof {
        reveal(qresync_rule);
    }
    let (rest, _) = tag_no_case(input, "QRESYNC (")?;
    let (rest, uid_validity) = nz_number(rest)?;
    let (rest, _) = tag(rest, " ")?;
    let (rest, mod_sequence_value) = mod_sequence_value(rest)?;
    let (rest, known_uids) = known_uids(rest)?;
    let (rest, seq_match_data) = seq_match_data(rest)?;
    let (rest, _) = tag(rest, ")")?;
    Ok(
        (
            rest,
            SelectParameter::QResync {
                uid_validity,
                mod_sequence_value,
                known_uids,
                seq_match_data,
            },
        ),
    )
}

fn select_parameter<'a>(input: &'a [u8]) -> (res: IMAPResult<'a, SelectParameter>)
    ensures
        g::agrees(res, select_parameter_rule()(input@)),
{
    proof {
        reveal(select_parameter_rule);
    }
    match tag_no_case(input, "CONDSTORE") {
        Ok((rest, _)) => Ok((rest, SelectParameter::CondStore)),
        Err(IMAPParseError::Error) => qresync(input),
        Err(e) => Err(e),
    }
}

fn sort_criterion<'a>(input: &'a [u8]) -> (res: IMAPResult<'a, SortCriterion>)
    ensures
        g::agrees(res, sort_criterion_rule()(input@)),
{
    proof {
        reveal(sort_criterion_rule);
    }
    let (rest, reverse) = match tag_no_case(input, "REVERSE ") {
        Ok((rest, _)) => (rest, true),
        Err(IMAPParseError::Error) => (input, false),
        Err(e) => return Err(e),
    };
    let (rest, w) = take_while1(rest, is_alpha, Ghost(|b: u8| is_alpha(b)))?;
    assert(w.deep_view() =~= w@);
    match find_sort_key(w.as_slice()) {
        Some(key) => Ok((rest, SortCriterion { reverse, key })),
        None => Err(IMAPParseError::Error),
    }
}

/// The literal of a string that is one.
fn into_literal(s: IString) -> (r: Literal)
    ensures
        s.deep_view() matches StringView::Literal(b, mode) ==> r.bytes@ == b && r.mode == mode,
        s.deep_view() is Quoted ==> r.bytes@ == Seq::<u8>::empty() && r.mode == LiteralMode::Sync,
{
    match s {
        IString::Literal(l) => l,
        IString::Quoted(_) => {
            let l = Literal { bytes: Vec::new(), mode: LiteralMode::Sync };
            assert(l.bytes@ =~= seq![]);
            l
        },
    }
}

fn message<'a>(input: &'a [u8]) -> (res: IMAPResult<'a, LiteralOrLiteral8>)
    ensures
        g::agrees(res, message_rule()(input@)),
{
    proof {
        reveal(message_rule);
    }
    match literal8(input) {
        Ok((rest, s)) => Ok((rest, LiteralOrLiteral8::Literal8(into_literal(s)))),
        Err(IMAPParseError::Error) => {
            let (rest, s) = literal(input)?;
            Ok((rest, LiteralOrLiteral8::Literal(into_literal(s))))
        },
        Err(e) => Err(e),
    }
}

fn store_type<'a>(input: &'a [u8]) -> (res: IMAPResult<'a, StoreType>)
    ensures
        g::agrees(res, store_type_rule()(input@)),
{
    match tag(input, "+") {
        Ok((rest, _)) => return Ok((rest, StoreType::Add)),
        Err(IMAPParseError::Error) => {},
        Err(e) => return Err(e),
    }
    match tag(input, "-") {
        Ok((rest, _)) => return Ok((rest, StoreType::Remove)),
        Err(IMAPParseError::Error) => {},
        Err(e) => return Err(e),
    }
    Ok((input, StoreType::Replace))
}

fn store_item<'a>(input: &'a [u8]) -> (res: IMAPResult<'a, (StoreType, StoreResponse)>)
    ensures
        g::agrees(res, store_item_rule()(input@)),
{
    proof {
        reveal(store_item_rule);
    }
    let (rest, kind) = store_type(input)?;
    let (rest, _) = tag_no_case(rest, "FLAGS")?;
    match tag_no_case(rest, ".SILENT") {
        Ok((rest, _)) => Ok((rest, (kind, StoreResponse::Silent))),
        Err(IMAPParseError::Error) => Ok((rest, (kind, StoreResponse::Answer))),
        Err(e) => Err(e),
    }
}

fn store_flags<'a>(input: &'a [u8]) -> (res: IMAPResult<'a, Vec<Flag>>)
    ensures
        g::agrees(res, store_flags_rule()(input@)),
{
    match flag_list(input) {
        Err(IMAPParseError::Error) => list1(input, " ", flag::flag, Ghost(flag::flag_rule())),
        res => res,
    }
}

fn checks_as_base64(b: &[u8]) -> (r: bool)
    ensures
        r == is_base64(b@),
{
    let n: usize = b.len();
    if n == 1 {
        return b[0] == '=' as u8;
    }
    if n == 0 || n % 4 != 0 {
        return false;
    }
    let mut i: usize = 0;
    while i < n - 2
        invariant
            n == b@.len(),
            n >= 4,
            i <= n - 2,
            forall|j: int| 0 <= j < i ==> #[trigger] b@[j] != '=' as u8,
        decreases n - i,
    {
        if b[i] == '=' as u8 {
            return false;
        }
        i = i + 1;
    }
    b[n - 2] != '=' as u8 || b[n - 1] == '=' as u8
}

fn base64<'a>(input: &'a [u8]) -> (res: IMAPResult<'a, Vec<u8>>)
    ensures
        g::agrees(res, base64_rule()(input@)),
{
    proof {
        reveal(base64_rule);
    }
    let (rest, b) = take_while1(input, is_base64_char, Ghost(|b: u8| is_base64_char(b)))?;
    assert(b.deep_view() =~= b@);
    if checks_as_base64(b.as_slice()) {
        Ok((rest, b))
    } else {
        Err(IMAPParseError::Error)
    }
}

fn initial_response<'a>(input: &'a [u8]) -> (res: IMAPResult<'a, Option<Vec<u8>>>)
    ensures
        g::agrees(res, g::opt(args::sp(base64_rule()))(input@)),
{
    let behind: &[u8] = match tag(input, " ") {
        Ok((behind, _)) => behind,
        Err(IMAPParseError::Error) => return Ok((input, None)),
        Err(e) => return Err(e),
    };
    match base64(behind) {
        Ok((rest, b)) => Ok((rest, Some(b))),
        Err(IMAPParseError::Error) => Ok((input, None)),
        Err(e) => Err(e),
    }
}

fn authenticate<'a>(input: &'a [u8]) -> (res: IMAPResult<'a, CommandBody>)
    ensures
        g::agrees(res, authenticate_rule()(input@)),
{
    proof {
        reveal(authenticate_rule);
    }
    let (rest, _) = tag(input, " ")?;
    let (rest, mechanism) = atom(rest)?;
    let (rest, initial_response) = initial_response(rest)?;
    assert(initial_response matches Some(b) ==> b.deep_view() =~= b@);
    Ok((rest, CommandBody::Authenticate { mechanism, initial_response }))
}

fn quota<'a>(input: &'a [u8]) -> (res: IMAPResult<'a, QuotaSet>)
    ensures
        g::agrees(res, quota_rule()(input@)),
{
    proof {
        reveal(quota_rule);
    }
    let (rest, resource) = atom(input)?;
    let (rest, _) = tag(rest, " ")?;
    let (rest, limit) = number63(rest)?;
    Ok((rest, QuotaSet { resource, limit }))
}

fn id_field<'a>(input: &'a [u8]) -> (res: IMAPResult<'a, IdField>)
    ensures
        g::agrees(res, id_field_rule()(input@)),
{
    proof {
        reveal(id_field_rule);
    }
    let (rest, name) = string(input)?;
    let (rest, _) = tag(rest, " ")?;
    let (rest, value) = nstring(rest)?;
    Ok((rest, IdField { name, value }))
}

pub fn id_fields<'a>(input: &'a [u8]) -> (res: IMAPResult<'a, Option<Vec<IdField>>>)
    ensures
        g::agrees(res, id_rule()(input@)),
{
    match parens0(input, id_field, Ghost(id_field_rule())) {
        Ok((rest, v)) => Ok((rest, Some(v))),
        Err(IMAPParseError::Error) => {
            let (rest, _) = tag_no_case(input, "NIL")?;
            Ok((rest, None))
        },
        Err(e) => Err(e),
    }
}

pub fn entry_value<'a>(input: &'a [u8]) -> (res: IMAPResult<'a, EntryValue>)
    ensures
        g::agrees(res, entry_value_rule()(input@)),
{
    proof {
        reveal(entry_value_rule);
    }
    let (rest, entry) = astring(input)?;
    let (rest, _) = tag(rest, " ")?;
    let (rest, value) = nstring8(rest)?;
    Ok((rest, EntryValue { entry, value }))
}

fn max_size<'a>(input: &'a [u8]) -> (res: IMAPResult<'a, u32>)
    ensures
        g::agrees(res, g::preceded(g::word("MAXSIZE "), number::number_rule())(input@)),
{
    let (rest, _) = tag_no_case(input, "MAXSIZE ")?;
    number(rest)
}

fn get_metadata_option<'a>(input: &'a [u8]) -> (res: IMAPResult<'a, GetMetadataOption>)
    ensures
        g::agrees(res, get_metadata_option_rule()(input@)),
{
    proof {
        reveal(get_metadata_option_rule);
    }
    match max_size(input) {
        Ok((rest, n)) => return Ok((rest, GetMetadataOption::MaxSize(n))),
        Err(IMAPParseError::Error) => {},
        Err(e) => return Err(e),
    }
    match tag_no_case(input, "DEPTH 0") {
        Ok((rest, _)) => return Ok((rest, GetMetadataOption::Depth(Depth::Zero))),
        Err(IMAPParseError::Error) => {},
        Err(e) => return Err(e),
    }
    match tag_no_case(input, "DEPTH 1") {
        Ok((rest, _)) => return Ok((rest, GetMetadataOption::Depth(Depth::One))),
        Err(IMAPParseError::Error) => {},
        Err(e) => return Err(e),
    }
    let (rest, _) = tag_no_case(input, "DEPTH infinity")?;
    Ok((rest, GetMetadataOption::Depth(Depth::Infinity)))
}

fn entries<'a>(input: &'a [u8]) -> (res: IMAPResult<'a, Vec<AString>>)
    ensures
        g::agrees(res, entries_rule()(input@)),
{
    match parens1(input, astring, Ghost(strings::astring_rule())) {
        Err(IMAPParseError::Error) => {
            let (rest, s) = astring(input)?;
            let mut v: Vec<AString> = Vec::new();
            v.push(s);
            assert(v.deep_view() =~= seq![s.deep_view()]);
            Ok((rest, v))
        },
        res => res,
    }
}

fn mailbox_argument<'a>(input: &'a [u8]) -> (res: IMAPResult<'a, Mailbox>)
    ensures
        g::agrees(res, args::sp(mailbox::mailbox_rule())(input@)),
{
    let (rest, _) = tag(input, " ")?;
    mailbox(rest)
}

fn astring_argument<'a>(input: &'a [u8]) -> (res: IMAPResult<'a, AString>)
    ensures
        g::agrees(res, args::sp(strings::astring_rule())(input@)),
{
    let (rest, _) = tag(input, " ")?;
    astring(rest)
}

fn set_argument<'a>(input: &'a [u8]) -> (res: IMAPResult<'a, MessageSet>)
    ensures
        g::agrees(res, args::sp(ext::message_set_rule())(input@)),
{
    let (rest, _) = tag(input, " ")?;
    message_set(rest)
}

fn search_arguments<'a>(input: &'a [u8], uid: bool) -> (res: IMAPResult<'a, CommandBody>)
    ensures
        g::agrees(res, search_rule(uid)(input@)),
{
    let (rest, charset) = charset_option(input)?;
    let (rest, _) = tag(rest, " ")?;
    let (rest, criteria) = criteria(rest)?;
    Ok((rest, CommandBody::Search { charset, criteria, uid }))
}

fn sort_arguments<'a>(input: &'a [u8], uid: bool) -> (res: IMAPResult<'a, CommandBody>)
    ensures
        g::agrees(res, sort_rule(uid)(input@)),
{
    let (rest, _) = tag(input, " ")?;
    let (rest, sort_criteria) = parens1(rest, sort_criterion, Ghost(sort_criterion_rule()))?;
    let (rest, _) = tag(rest, " ")?;
    let (rest, charset) = charset(rest)?;
    let (rest, _) = tag(rest, " ")?;
    let (rest, search_criteria) = criteria(rest)?;
    Ok((rest, CommandBody::Sort { sort_criteria, charset, search_criteria, uid }))
}

fn thread_arguments<'a>(input: &'a [u8], uid: bool) -> (res: IMAPResult<'a, CommandBody>)
    ensures
        g::agrees(res, thread_rule(uid)(input@)),
{
    let (rest, _) = tag(input, " ")?;
    let (rest, algorithm) = atom(rest)?;
    let (rest, _) = tag(rest, " ")?;
    let (rest, charset) = charset(rest)?;
    let (rest, _) = tag(rest, " ")?;
    let (rest, search_criteria) = criteria(rest)?;
    Ok((rest, CommandBody::Thread { algorithm, charset, search_criteria, uid }))
}

fn fetch_arguments<'a>(input: &'a [u8], uid: bool) -> (res: IMAPResult<'a, CommandBody>)
    ensures
        g::agrees(res, fetch_rule(uid)(input@)),
{
    let (rest, sequence_set) = set_argument(input)?;
    let (rest, _) = tag(rest, " ")?;
    let (rest, macro_or_item_names) = item_names(rest)?;
    let (rest, modifiers) = optional(rest, fetch_modifier, Ghost(fetch_modifier_rule()))?;
    Ok((rest, CommandBody::Fetch { sequence_set, macro_or_item_names, uid, modifiers }))
}

fn store_arguments<'a>(input: &'a [u8], uid: bool) -> (res: IMAPResult<'a, CommandBody>)
    ensures
        g::agrees(res, store_rule(uid)(input@)),
{
    let (rest, sequence_set) = set_argument(input)?;
    let (rest, modifiers) = optional(rest, store_modifier, Ghost(store_modifier_rule()))?;
    let (rest, _) = tag(rest, " ")?;
    let (rest, (kind, response)) = store_item(rest)?;
    let (rest, _) = tag(rest, " ")?;
    let (rest, flags) = store_flags(rest)?;
    Ok((rest, CommandBody::Store { sequence_set, kind, response, flags, uid, modifiers }))
}

fn copy_arguments<'a>(input: &'a [u8]) -> (res: IMAPResult<'a, (MessageSet, Mailbox)>)
    ensures
        g::agrees(res, set_and_mailbox_rule()(input@)),
{
    let (rest, set) = set_argument(input)?;
    let (rest, m) = mailbox_argument(rest)?;
    Ok((rest, (set, m)))
}

fn append_flags<'a>(input: &'a [u8]) -> (res: IMAPResult<'a, Vec<Flag>>)
    ensures
        g::agrees(
            res,
            g::mapped(
                g::opt(args::sp(flag::flag_list_rule())),
                |o: Option<Seq<FlagView>>|
                    match o {
                        Some(v) => v,
                        None => seq![],
                    },
            )(input@),
        ),
{
    let none: Vec<Flag> = Vec::new();
    assert(none.deep_view() =~= seq![]);
    let behind: &[u8] = match tag(input, " ") {
        Ok((behind, _)) => behind,
        Err(IMAPParseError::Error) => return Ok((input, none)),
        Err(e) => return Err(e),
    };
    match flag_list(behind) {
        Ok((rest, v)) => Ok((rest, v)),
        Err(IMAPParseError::Error) => Ok((input, none)),
        Err(e) => Err(e),
    }
}

fn append_date<'a>(input: &'a [u8]) -> (res: IMAPResult<'a, Option<DateTime>>)
    ensures
        g::agrees(res, g::opt(args::sp(date::date_time_rule()))(input@)),
{
    let behind: &[u8] = match tag(input, " ") {
        Ok((behind, _)) => behind,
        Err(IMAPParseError::Error) => return Ok((input, None)),
        Err(e) => return Err(e),
    };
    match date_time(behind) {
        Ok((rest, d)) => Ok((rest, Some(d))),
        Err(IMAPParseError::Error) => Ok((input, None)),
        Err(e) => Err(e),
    }
}

fn append_arguments<'a>(input: &'a [u8]) -> (res: IMAPResult<'a, CommandBody>)
    ensures
        g::agrees(res, append_rule()(input@)),
{
    let (rest, mailbox) = mailbox_argument(input)?;
    let (rest, flags) = append_flags(rest)?;
    let (rest, date) = append_date(rest)?;
    let (rest, _) = tag(rest, " ")?;
    let (rest, message) = message(rest)?;
    Ok((rest, CommandBody::Append { mailbox, flags, date, message }))
}

fn uid_arguments<'a>(input: &'a [u8], w: &[u8]) -> (res: IMAPResult<'a, CommandBody>)
    ensures
        g::agrees(res, uid_arguments_rule(w@)(input@)),
{
    match find_command_name(w) {
        Some(CommandName::Search) => search_arguments(input, true),
        Some(CommandName::Sort) => sort_arguments(input, true),
        Some(CommandName::Thread) => thread_arguments(input, true),
        Some(CommandName::Fetch) => fetch_arguments(input, true),
        Some(CommandName::Store) => store_arguments(input, true),
        Some(CommandName::Copy) => {
            let (rest, (sequence_set, mailbox)) = copy_arguments(input)?;
            Ok((rest, CommandBody::Copy { sequence_set, mailbox, uid: true }))
        },
        Some(CommandName::Move) => {
            let (rest, (sequence_set, mailbox)) = copy_arguments(input)?;
            Ok((rest, CommandBody::Move { sequence_set, mailbox, uid: true }))
        },
        Some(CommandName::Expunge) => {
            let (rest, sequence_set) = set_argument(input)?;
            Ok((rest, CommandBody::ExpungeUid { sequence_set }))
        },
        _ => Err(IMAPParseError::Error),
    }
}

fn uid_command<'a>(input: &'a [u8]) -> (res: IMAPResult<'a, CommandBody>)
    ensures
        g::agrees(res, uid_rule()(input@)),
{
    proof {
        reveal(uid_rule);
    }
    match extended_search(input) {
        Ok((rest, body)) => {
            return match body {
                CommandBody::SearchExtended { return_options, charset, criteria, .. } => Ok(
                    (
                        rest,
                        CommandBody::SearchExtended { return_options, charset, criteria, uid: true },
                    ),
                ),
                other => Ok((rest, other)),
            };
        },
        Err(IMAPParseError::Error) => {},
        Err(e) => return Err(e),
    }
    let (rest, w) = take_while1(input, is_alpha, Ghost(|b: u8| is_alpha(b)))?;
    assert(w.deep_view() =~= w@);
    uid_arguments(rest, w.as_slice())
}

fn arguments<'a>(input: &'a [u8], n: CommandName) -> (res: IMAPResult<'a, CommandBody>)
    ensures
        g::agrees(res, arguments_rule(n)(input@)),
{
    match n {
        CommandName::Capability => Ok((input, CommandBody::Capability)),
        CommandName::Noop => Ok((input, CommandBody::Noop)),
        CommandName::Logout => Ok((input, CommandBody::Logout)),
        CommandName::Check => Ok((input, CommandBody::Check)),
        CommandName::Close => Ok((input, CommandBody::Close)),
        CommandName::Unselect => Ok((input, CommandBody::Unselect)),
        CommandName::StartTls => Ok((input, CommandBody::StartTls)),
        CommandName::Expunge => Ok((input, CommandBody::Expunge)),
        CommandName::Idle => Ok((input, CommandBody::Idle)),
        CommandName::Namespace => Ok((input, CommandBody::Namespace)),
        CommandName::Login => {
            let (rest, username) = astring_argument(input)?;
            let (rest, password) = astring_argument(rest)?;
            Ok((rest, CommandBody::Login { username, password }))
        },
        CommandName::Select => {
            let (rest, mailbox) = mailbox_argument(input)?;
            let (rest, parameters) = optional(
                rest,
                select_parameter,
                Ghost(select_parameter_rule()),
            )?;
            Ok((rest, CommandBody::Select { mailbox, parameters }))
        },
        CommandName::Examine => {
            let (rest, mailbox) = mailbox_argument(input)?;
            let (rest, parameters) = optional(
                rest,
                select_parameter,
                Ghost(select_parameter_rule()),
            )?;
            Ok((rest, CommandBody::Examine { mailbox, parameters }))
        },
        CommandName::Create => {
            let (rest, mailbox) = mailbox_argument(input)?;
            Ok((rest, CommandBody::Create { mailbox }))
        },
        CommandName::Delete => {
            let (rest, mailbox) = mailbox_argument(input)?;
            Ok((rest, CommandBody::Delete { mailbox }))
        },
        CommandName::Subscribe => {
            let (rest, mailbox) = mailbox_argument(input)?;
            Ok((rest, CommandBody::Subscribe { mailbox }))
        },
        CommandName::Unsubscribe => {
            let (rest, mailbox) = mailbox_argument(input)?;
            Ok((rest, CommandBody::Unsubscribe { mailbox }))
        },
        CommandName::GetQuotaRoot => {
            let (rest, mailbox) = mailbox_argument(input)?;
            Ok((rest, CommandBody::GetQuotaRoot { mailbox }))
        },
        CommandName::Rename => {
            let (rest, from) = mailbox_argument(input)?;
            let (rest, to) = mailbox_argument(rest)?;
            Ok((rest, CommandBody::Rename { from, to }))
        },
        CommandName::Lsub => {
            let (rest, reference) = mailbox_argument(input)?;
            let (rest, _) = tag(rest, " ")?;
            let (rest, mailbox_wildcard) = list_mailbox(rest)?;
            Ok((rest, CommandBody::Lsub { reference, mailbox_wildcard }))
        },
        CommandName::Status => {
            let (rest, mailbox) = mailbox_argument(input)?;
            let (rest, _) = tag(rest, " ")?;
            let (rest, item_names) = parens0(rest, status_att, Ghost(status::status_att_rule()))?;
            Ok((rest, CommandBody::Status { mailbox, item_names }))
        },
        CommandName::Append => append_arguments(input),
        CommandName::Search => search_arguments(input, false),
        CommandName::Sort => sort_arguments(input, false),
        CommandName::Thread => thread_arguments(input, false),
        CommandName::Fetch => fetch_arguments(input, false),
        CommandName::Store => store_arguments(input, false),
        CommandName::Copy => {
            let (rest, (sequence_set, mailbox)) = copy_arguments(input)?;
            Ok((rest, CommandBody::Copy { sequence_set, mailbox, uid: false }))
        },
        CommandName::Move => {
            let (rest, (sequence_set, mailbox)) = copy_arguments(input)?;
            Ok((rest, CommandBody::Move { sequence_set, mailbox, uid: false }))
        },
        CommandName::Enable => {
            let (rest, _) = tag(input, " ")?;
            let (rest, capabilities) = list1(rest, " ", atom, Ghost(strings::atom_rule()))?;
            Ok((rest, CommandBody::Enable { capabilities }))
        },
        CommandName::Authenticate => authenticate(input),
        CommandName::Compress => {
            let (rest, _) = tag(input, " ")?;
            let (rest, _) = tag_no_case(rest, "DEFLATE")?;
            Ok((rest, CommandBody::Compress { algorithm: CompressionAlgorithm::Deflate }))
        },
        CommandName::GetQuota => {
            let (rest, root) = astring_argument(input)?;
            Ok((rest, CommandBody::GetQuota { root }))
        },
        CommandName::SetQuota => {
            let (rest, root) = astring_argument(input)?;
            let (rest, _) = tag(rest, " ")?;
            let (rest, quotas) = parens0(rest, quota, Ghost(quota_rule()))?;
            Ok((rest, CommandBody::SetQuota { root, quotas }))
        },
        CommandName::Id => {
            let (rest, _) = tag(input, " ")?;
            let (rest, parameters) = id_fields(rest)?;
            Ok((rest, CommandBody::Id { parameters }))
        },
        CommandName::GetMetadata => {
            let (rest, options) = optional(
                input,
                get_metadata_option,
                Ghost(get_metadata_option_rule()),
            )?;
            let (rest, mailbox) = mailbox_argument(rest)?;
            let (rest, _) = tag(rest, " ")?;
            let (rest, entries) = entries(rest)?;
            Ok((rest, CommandBody::GetMetadata { options, mailbox, entries }))
        },
        CommandName::SetMetadata => {
            let (rest, mailbox) = mailbox_argument(input)?;
            let (rest, _) = tag(rest, " ")?;
            let (rest, entry_values) = parens1(rest, entry_value, Ghost(entry_value_rule()))?;
            Ok((rest, CommandBody::SetMetadata { mailbox, entry_values }))
        },
        CommandName::Uid => {
            let (rest, _) = tag(input, " ")?;
            uid_command(rest)
        },
    }
}

fn body<'a>(input: &'a [u8]) -> (res: IMAPResult<'a, CommandBody>)
    ensures
        g::agrees(res, body_rule()(input@)),
{
    proof {
        reveal(body_rule);
    }
    match extended_search(input) {
        Err(IMAPParseError::Error) => {},
        res => return res,
    }
    match list(input) {
        Err(IMAPParseError::Error) => {},
        res => return res,
    }
    let (rest, w) = take_while1(input, is_alpha, Ghost(|b: u8| is_alpha(b)))?;
    assert(w.deep_view() =~= w@);
    match find_command_name(w.as_slice()) {
        Some(n) => arguments(rest, n),
        None => Err(IMAPParseError::Error),
    }
}

pub fn command<'a>(input: &'a [u8]) -> (res: IMAPResult<'a, Command>)
    ensures
        g::agrees(res, command_rule()(input@)),
{
    proof {
        reveal(command_rule);
    }
    let (rest, name) = take_while1(input, is_tag_char, Ghost(|b: u8| is_tag_char(b)))?;
    assert(name.deep_view() =~= name@);
    let (rest, _) = tag(rest, " ")?;
    let (rest, body) = body(rest)?;
    let (rest, _) = tag(rest, "\r\n")?;
    Ok((rest, Command { tag: name, body }))
}

impl EncodeIntoContext for FetchModifier {
    open spec fn tokens(v: FetchModifier) -> Seq<Token> {
        encode::plain(fetch_modifier_text(v))
    }

    fn encode_ctx(&self, ctx: &mut EncodeContext) {
        broadcast use encode::lemma_plain_add;

        match *self {
            FetchModifier::ChangedSince(n) => {
                ctx.write_text("CHANGEDSINCE ");
                write_number(ctx, n);
            },
            FetchModifier::Vanished => ctx.write_text("VANISHED"),
        }
        assert(ctx@ =~= old(ctx)@ + Self::tokens(self.deep_view()));
    }
}

impl EncodeIntoContext for StoreModifier {
    open spec fn tokens(v: StoreModifier) -> Seq<Token> {
        encode::plain(store_modifier_text(v))
    }

    fn encode_ctx(&self, ctx: &mut EncodeContext) {
        broadcast use encode::lemma_plain_add;

        match *self {
            StoreModifier::UnchangedSince(n) => {
                ctx.write_text("UNCHANGEDSINCE ");
                write_number(ctx, n);
            },
        }
        assert(ctx@ =~= old(ctx)@ + Self::tokens(self.deep_view()));
    }
}

impl EncodeIntoContext for SortCriterion {
    open spec fn tokens(v: SortCriterion) -> Seq<Token> {
        encode::plain(sort_criterion_text(v))
    }

    fn encode_ctx(&self, ctx: &mut EncodeContext) {
        broadcast use encode::lemma_plain_add;

        if self.reverse {
            ctx.write_text("REVERSE ");
        }
        self.key.encode_ctx(ctx);
        assert(encode::plain(seq![]) =~= seq![]);
        assert(ctx@ =~= old(ctx)@ + Self::tokens(self.deep_view()));
    }
}

fn write_known_uids(v: &Option<SequenceSet>, ctx: &mut EncodeContext)
    ensures
        final(ctx)@ == old(ctx)@ + known_uids_tokens(v.deep_view()),
{
    if let Some(s) = v {
        write_argument(s, ctx);
    }
    assert(ctx@ =~= old(ctx)@ + known_uids_tokens(v.deep_view()));
}

fn write_seq_match(v: &Option<(SequenceSet, SequenceSet)>, ctx: &mut EncodeContext)
    ensures
        final(ctx)@ == old(ctx)@ + seq_match_tokens(v.deep_view()),
{
    if let Some((a, b)) = v {
        ctx.write_text(" ");
        ctx.write_text("(");
        a.encode_ctx(ctx);
        ctx.write_text(" ");
        b.encode_ctx(ctx);
        ctx.write_text(")");
    }
    assert(ctx@ =~= old(ctx)@ + seq_match_tokens(v.deep_view()));
}

impl EncodeIntoContext for SelectParameter {
    open spec fn tokens(v: SelectParameterView) -> Seq<Token> {
        select_parameter_tokens(v)
    }

    fn encode_ctx(&self, ctx: &mut EncodeContext) {
        match self {
            SelectParameter::CondStore => ctx.write_text("CONDSTORE"),
            SelectParameter::QResync {
                uid_validity,
                mod_sequence_value,
                known_uids,
                seq_match_data,
            } => {
                ctx.write_text("QRESYNC (");
                write_number(ctx, *uid_validity as u64);
                ctx.write_text(" ");
                write_number(ctx, *mod_sequence_value);
                write_known_uids(known_uids, ctx);
                write_seq_match(seq_match_data, ctx);
                ctx.write_text(")");
            },
        }
        assert(ctx@ =~= old(ctx)@ + Self::tokens(self.deep_view()));
    }
}

impl EncodeIntoContext for LiteralOrLiteral8 {
    open spec fn tokens(v: MessageView) -> Seq<Token> {
        message_tokens(v)
    }

    fn encode_ctx(&self, ctx: &mut EncodeContext) {
        match self {
            LiteralOrLiteral8::Literal(l) => {
                strings::write_literal(ctx, l.bytes.as_slice(), l.mode);
            },
            LiteralOrLiteral8::Literal8(l) => {
                ctx.write_text("~");
                strings::write_literal(ctx, l.bytes.as_slice(), l.mode);
            },
        }
        assert(ctx@ =~= old(ctx)@ + Self::tokens(self.deep_view()));
    }
}

impl EncodeIntoContext for QuotaSet {
    open spec fn tokens(v: QuotaSetView) -> Seq<Token> {
        quota_tokens(v)
    }

    fn encode_ctx(&self, ctx: &mut EncodeContext) {
        self.resource.encode_ctx(ctx);
        ctx.write_text(" ");
        write_number(ctx, self.limit);
        assert(ctx@ =~= old(ctx)@ + Self::tokens(self.deep_view()));
    }
}

impl EncodeIntoContext for IdField {
    open spec fn tokens(v: IdFieldView) -> Seq<Token> {
        id_field_tokens(v)
    }

    fn encode_ctx(&self, ctx: &mut EncodeContext) {
        self.name.encode_ctx(ctx);
        ctx.write_text(" ");
        self.value.encode_ctx(ctx);
        assert(ctx@ =~= old(ctx)@ + Self::tokens(self.deep_view()));
    }
}

impl EncodeIntoContext for GetMetadataOption {
    open spec fn tokens(v: GetMetadataOption) -> Seq<Token> {
        encode::plain(get_metadata_option_text(v))
    }

    fn encode_ctx(&self, ctx: &mut EncodeContext) {
        broadcast use encode::lemma_plain_add;

        match *self {
            GetMetadataOption::MaxSize(n) => {
                ctx.write_text("MAXSIZE ");
                write_number(ctx, n as u64);
            },
            GetMetadataOption::Depth(Depth::Zero) => ctx.write_text("DEPTH 0"),
            GetMetadataOption::Depth(Depth::One) => ctx.write_text("DEPTH 1"),
            GetMetadataOption::Depth(Depth::Infinity) => ctx.write_text("DEPTH infinity"),
        }
        assert(ctx@ =~= old(ctx)@ + Self::tokens(self.deep_view()));
    }
}

impl EncodeIntoContext for EntryValue {
    open spec fn tokens(v: EntryValueView) -> Seq<Token> {
        entry_value_tokens(v)
    }

    fn encode_ctx(&self, ctx: &mut EncodeContext) {
        self.entry.encode_ctx(ctx);
        ctx.write_text(" ");
        self.value.encode_ctx(ctx);
        assert(ctx@ =~= old(ctx)@ + Self::tokens(self.deep_view()));
    }
}

/// Writes what a client or a server tells of itself, behind a space.
pub fn write_id(parameters: &Option<Vec<IdField>>, ctx: &mut EncodeContext)
    ensures
        final(ctx)@ == old(ctx)@ + args::argument(id_tokens(parameters.deep_view())),
{
    match parameters {
        Some(v) => write_list(v, ctx),
        None => write_word_argument("NIL", ctx),
    }
}

fn write_store_item(kind: StoreType, response: StoreResponse, ctx: &mut EncodeContext)
    ensures
        final(ctx)@ == old(ctx)@ + encode::plain(store_item_text(kind, response)),
{
    broadcast use encode::lemma_plain_add;

    match kind {
        StoreType::Replace => {},
        StoreType::Add => ctx.write_text("+"),
        StoreType::Remove => ctx.write_text("-"),
    }
    ctx.write_text("FLAGS");
    match response {
        StoreResponse::Answer => {},
        StoreResponse::Silent => ctx.write_text(".SILENT"),
    }
    proof {
        assert(encode::plain(seq![]) =~= seq![]);
        assert(ctx@ =~= old(ctx)@ + encode::plain(store_item_text(kind, response)));
    }
}

fn write_criteria_argument(v: &Vec<SearchKey>, ctx: &mut EncodeContext)
    ensures
        final(ctx)@ == old(ctx)@ + args::argument(search::criteria_tokens(v.deep_view())),
{
    ctx.write_text(" ");
    write_criteria(v, ctx);
    assert(ctx@ =~= old(ctx)@ + args::argument(search::criteria_tokens(v.deep_view())));
}

/// The first word of a command.
fn name_of(body: &CommandBody) -> (r: CommandName)
    ensures
        r == body_name(body.deep_view()),
{
    match body {
        CommandBody::Capability => CommandName::Capability,
        CommandBody::Noop => CommandName::Noop,
        CommandBody::Logout => CommandName::Logout,
        CommandBody::Check => CommandName::Check,
        CommandBody::Close => CommandName::Close,
        CommandBody::Unselect => CommandName::Unselect,
        CommandBody::StartTls => CommandName::StartTls,
        CommandBody::Expunge => CommandName::Expunge,
        CommandBody::Idle => CommandName::Idle,
        CommandBody::Namespace => CommandName::Namespace,
        CommandBody::Login { .. } => CommandName::Login,
        CommandBody::Select { .. } => CommandName::Select,
        CommandBody::Examine { .. } => CommandName::Examine,
        CommandBody::Create { .. } => CommandName::Create,
        CommandBody::Delete { .. } => CommandName::Delete,
        CommandBody::Subscribe { .. } => CommandName::Subscribe,
        CommandBody::Unsubscribe { .. } => CommandName::Unsubscribe,
        CommandBody::Rename { .. } => CommandName::Rename,
        CommandBody::Lsub { .. } => CommandName::Lsub,
        CommandBody::Status { .. } => CommandName::Status,
        CommandBody::Append { .. } => CommandName::Append,
        CommandBody::ExpungeUid { .. } => CommandName::Expunge,
        CommandBody::Search { .. } => CommandName::Search,
        CommandBody::Sort { .. } => CommandName::Sort,
        CommandBody::Thread { .. } => CommandName::Thread,
        CommandBody::Fetch { .. } => CommandName::Fetch,
        CommandBody::Store { .. } => CommandName::Store,
        CommandBody::Copy { .. } => CommandName::Copy,
        CommandBody::Move { .. } => CommandName::Move,
        CommandBody::Enable { .. } => CommandName::Enable,
        CommandBody::Authenticate { .. } => CommandName::Authenticate,
        CommandBody::Compress { .. } => CommandName::Compress,
        CommandBody::GetQuota { .. } => CommandName::GetQuota,
        CommandBody::GetQuotaRoot { .. } => CommandName::GetQuotaRoot,
        CommandBody::SetQuota { .. } => CommandName::SetQuota,
        CommandBody::Id { .. } => CommandName::Id,
        CommandBody::GetMetadata { .. } => CommandName::GetMetadata,
        CommandBody::SetMetadata { .. } => CommandName::SetMetadata,
        CommandBody::SearchExtended { .. } => CommandName::Search,
        CommandBody::List { .. } | CommandBody::ListExtended { .. } => CommandName::Lsub,
    }
}

fn goes_by_uid(body: &CommandBody) -> (r: bool)
    ensures
        r == is_uid(body.deep_view()),
{
    match body {
        CommandBody::ExpungeUid { .. } => true,
        CommandBody::Search { uid, .. } => *uid,
        CommandBody::Sort { uid, .. } => *uid,
        CommandBody::Thread { uid, .. } => *uid,
        CommandBody::Fetch { uid, .. } => *uid,
        CommandBody::Store { uid, .. } => *uid,
        CommandBody::Copy { uid, .. } => *uid,
        CommandBody::Move { uid, .. } => *uid,
        CommandBody::SearchExtended { uid, .. } => *uid,
        _ => false,
    }
}

fn write_append(
    mailbox: &Mailbox,
    flags: &Vec<Flag>,
    date: &Option<DateTime>,
    message: &LiteralOrLiteral8,
    ctx: &mut EncodeContext,
)
    ensures
        final(ctx)@ == old(ctx)@ + (args::argument(mailbox::mailbox_tokens(mailbox.deep_view()))
            + args::optional_parens(encode::parts::<Flag>(flags.deep_view())) + date_argument(
            date.deep_view(),
        ) + args::argument(message_tokens(message.deep_view()))),
{
    write_argument(mailbox, ctx);
    write_optional_list(flags, ctx);
    let ghost before = ctx@;
    if let Some(d) = date {
        write_argument(d, ctx);
    }
    assert(ctx@ =~= before + date_argument(date.deep_view()));
    write_argument(message, ctx);
    assert(ctx@ =~= old(ctx)@ + (args::argument(mailbox::mailbox_tokens(mailbox.deep_view()))
        + args::optional_parens(encode::parts::<Flag>(flags.deep_view())) + date_argument(
        date.deep_view(),
    ) + args::argument(message_tokens(message.deep_view()))));
}

fn write_search(charset: &Option<Charset>, criteria: &Vec<SearchKey>, ctx: &mut EncodeContext)
    ensures
        final(ctx)@ == old(ctx)@ + (ext::charset_tokens(charset.deep_view()) + args::argument(
            search::criteria_tokens(criteria.deep_view()),
        )),
{
    if let Some(c) = charset {
        ctx.write_text(" CHARSET ");
        c.encode_ctx(ctx);
    }
    write_criteria_argument(criteria, ctx);
    assert(ctx@ =~= old(ctx)@ + (ext::charset_tokens(charset.deep_view()) + args::argument(
        search::criteria_tokens(criteria.deep_view()),
    )));
}

fn write_sort(
    sort_criteria: &Vec<SortCriterion>,
    charset: &Charset,
    criteria: &Vec<SearchKey>,
    ctx: &mut EncodeContext,
)
    ensures
        final(ctx)@ == old(ctx)@ + (args::argument(
            encode::paren_tokens(encode::parts::<SortCriterion>(sort_criteria.deep_view())),
        ) + args::argument(strings::string_tokens(charset.deep_view())) + args::argument(
            search::criteria_tokens(criteria.deep_view()),
        )),
{
    write_list(sort_criteria, ctx);
    write_argument(charset, ctx);
    write_criteria_argument(criteria, ctx);
    assert(ctx@ =~= old(ctx)@ + (args::argument(
        encode::paren_tokens(encode::parts::<SortCriterion>(sort_criteria.deep_view())),
    ) + args::argument(strings::string_tokens(charset.deep_view())) + args::argument(
        search::criteria_tokens(criteria.deep_view()),
    )));
}

fn write_thread(
    algorithm: &Atom,
    charset: &Charset,
    criteria: &Vec<SearchKey>,
    ctx: &mut EncodeContext,
)
    ensures
        final(ctx)@ == old(ctx)@ + (args::argument(encode::plain(algorithm.deep_view())) + args::argument(
            strings::string_tokens(charset.deep_view()),
        ) + args::argument(search::criteria_tokens(criteria.deep_view()))),
{
    write_argument(algorithm, ctx);
    write_argument(charset, ctx);
    write_criteria_argument(criteria, ctx);
    assert(ctx@ =~= old(ctx)@ + (args::argument(encode::plain(algorithm.deep_view())) + args::argument(
        strings::string_tokens(charset.deep_view()),
    ) + args::argument(search::criteria_tokens(criteria.deep_view()))));
}

fn write_fetch(
    sequence_set: &MessageSet,
    names: &MacroOrMessageDataItemNames,
    modifiers: &Vec<FetchModifier>,
    ctx: &mut EncodeContext,
)
    ensures
        final(ctx)@ == old(ctx)@ + (args::argument(ext::message_set_tokens(sequence_set.deep_view()))
            + args::argument(fetch::item_names_tokens(names.deep_view())) + args::optional_parens(
            encode::parts::<FetchModifier>(modifiers.deep_view()),
        )),
{
    write_argument(sequence_set, ctx);
    write_argument(names, ctx);
    write_optional_list(modifiers, ctx);
    assert(ctx@ =~= old(ctx)@ + (args::argument(ext::message_set_tokens(sequence_set.deep_view()))
        + args::argument(fetch::item_names_tokens(names.deep_view())) + args::optional_parens(
        encode::parts::<FetchModifier>(modifiers.deep_view()),
    )));
}

fn write_store(
    sequence_set: &MessageSet,
    kind: StoreType,
    response: StoreResponse,
    flags: &Vec<Flag>,
    modifiers: &Vec<StoreModifier>,
    ctx: &mut EncodeContext,
)
    ensures
        final(ctx)@ == old(ctx)@ + (args::argument(ext::message_set_tokens(sequence_set.deep_view()))
            + args::optional_parens(encode::parts::<StoreModifier>(modifiers.deep_view())) + args::argument(
            encode::plain(store_item_text(kind, response)),
        ) + args::argument(flag::flag_list_tokens(flags.deep_view()))),
{
    write_argument(sequence_set, ctx);
    write_optional_list(modifiers, ctx);
    ctx.write_text(" ");
    write_store_item(kind, response, ctx);
    ctx.write_text(" ");
    write_flags(flags, ctx);
    assert(ctx@ =~= old(ctx)@ + (args::argument(ext::message_set_tokens(sequence_set.deep_view()))
        + args::optional_parens(encode::parts::<StoreModifier>(modifiers.deep_view())) + args::argument(
        encode::plain(store_item_text(kind, response)),
    ) + args::argument(flag::flag_list_tokens(flags.deep_view()))));
}

fn write_enable(capabilities: &Vec<Atom>, ctx: &mut EncodeContext)
    ensures
        final(ctx)@ == old(ctx)@ + args::argument(
            encode::joined(encode::parts::<Atom>(capabilities.deep_view()), encode::word(" ")),
        ),
{
    ctx.write_text(" ");
    join_serializable(capabilities.as_slice(), " ", ctx);
    assert(ctx@ =~= old(ctx)@ + args::argument(
        encode::joined(encode::parts::<Atom>(capabilities.deep_view()), encode::word(" ")),
    ));
}

fn write_authenticate(
    mechanism: &Atom,
    initial_response: &Option<Vec<u8>>,
    ctx: &mut EncodeContext,
)
    ensures
        final(ctx)@ == old(ctx)@ + (args::argument(encode::plain(mechanism.deep_view()))
            + match initial_response {
            Some(b) => args::argument(encode::plain(b@)),
            None => seq![],
        }),
{
    write_argument(mechanism, ctx);
    if let Some(b) = initial_response {
        ctx.write_text(" ");
        ctx.write_bytes(b.as_slice());
    }
    assert(ctx@ =~= old(ctx)@ + (args::argument(encode::plain(mechanism.deep_view()))
        + match initial_response {
        Some(b) => args::argument(encode::plain(b@)),
        None => seq![],
    }));
}

/// Writes the arguments of a command that names a mailbox.
fn write_mailbox_arguments(body: &CommandBody, ctx: &mut EncodeContext)
    requires
        body is Select || body is Examine || body is Create || body is Delete || body is Subscribe
            || body is Unsubscribe,
    ensures
        encode::wrote(old(ctx)@, final(ctx)@, arguments_tokens(body.deep_view())),
{
    match body {
        CommandBody::Select { mailbox, parameters } => write_with_options(mailbox, parameters, ctx),
        CommandBody::Examine { mailbox, parameters } => write_with_options(mailbox, parameters, ctx),
        CommandBody::Create { mailbox } => write_argument(mailbox, ctx),
        CommandBody::Delete { mailbox } => write_argument(mailbox, ctx),
        CommandBody::Subscribe { mailbox } => write_argument(mailbox, ctx),
        CommandBody::Unsubscribe { mailbox } => write_argument(mailbox, ctx),
        _ => {},
    }
}

/// Writes the arguments of a command on names.
fn write_names_arguments(body: &CommandBody, ctx: &mut EncodeContext)
    requires
        body is Login || body is Rename || body is Lsub || body is Status || body is GetQuota
            || body is GetQuotaRoot,
    ensures
        encode::wrote(old(ctx)@, final(ctx)@, arguments_tokens(body.deep_view())),
{
    match body {
        CommandBody::Login { username, password } => write_two(username, password, ctx),
        CommandBody::Rename { from, to } => write_two(from, to, ctx),
        CommandBody::Lsub { reference, mailbox_wildcard } => {
            write_two(reference, mailbox_wildcard, ctx);
        },
        CommandBody::Status { mailbox, item_names } => write_with_list(mailbox, item_names, ctx),
        CommandBody::GetQuota { root } => write_argument(root, ctx),
        CommandBody::GetQuotaRoot { mailbox } => write_argument(mailbox, ctx),
        _ => {},
    }
}

/// Writes the arguments of a command that searches.
fn write_search_arguments(body: &CommandBody, ctx: &mut EncodeContext)
    requires
        body is Search || body is Sort || body is Thread || body is ExpungeUid,
    ensures
        encode::wrote(old(ctx)@, final(ctx)@, arguments_tokens(body.deep_view())),
{
    match body {
        CommandBody::Search { charset, criteria, .. } => write_search(charset, criteria, ctx),
        CommandBody::Sort { sort_criteria, charset, search_criteria, .. } => {
            write_sort(sort_criteria, charset, search_criteria, ctx);
        },
        CommandBody::Thread { algorithm, charset, search_criteria, .. } => {
            write_thread(algorithm, charset, search_criteria, ctx);
        },
        CommandBody::ExpungeUid { sequence_set } => write_argument(sequence_set, ctx),
        _ => {},
    }
}

/// Writes the arguments of a command on messages.
fn write_message_arguments(body: &CommandBody, ctx: &mut EncodeContext)
    requires
        body is Fetch || body is Store || body is Copy || body is Move || body is Append,
    ensures
        encode::wrote(old(ctx)@, final(ctx)@, arguments_tokens(body.deep_view())),
{
    match body {
        CommandBody::Fetch { sequence_set, macro_or_item_names, modifiers, .. } => {
            write_fetch(sequence_set, macro_or_item_names, modifiers, ctx);
        },
        CommandBody::Store { sequence_set, kind, response, flags, modifiers, .. } => {
            write_store(sequence_set, *kind, *response, flags, modifiers, ctx);
        },
        CommandBody::Copy { sequence_set, mailbox, .. } => write_two(sequence_set, mailbox, ctx),
        CommandBody::Move { sequence_set, mailbox, .. } => write_two(sequence_set, mailbox, ctx),
        CommandBody::Append { mailbox, flags, date, message } => {
            write_append(mailbox, flags, date, message, ctx);
        },
        _ => {},
    }
}

/// Writes the arguments of a command of an extension.
fn write_extension_arguments(body: &CommandBody, ctx: &mut EncodeContext)
    requires
        body is Enable || body is Authenticate || body is Compress || body is SetQuota || body is Id
            || body is GetMetadata || body is SetMetadata,
    ensures
        encode::wrote(old(ctx)@, final(ctx)@, arguments_tokens(body.deep_view())),
{
    match body {
        CommandBody::Enable { capabilities } => write_enable(capabilities, ctx),
        CommandBody::Authenticate { mechanism, initial_response } => {
            write_authenticate(mechanism, initial_response, ctx);
        },
        CommandBody::Compress { algorithm: CompressionAlgorithm::Deflate } => {
            write_word_argument("DEFLATE", ctx);
        },
        CommandBody::SetQuota { root, quotas } => write_with_list(root, quotas, ctx),
        CommandBody::Id { parameters } => write_id(parameters, ctx),
        CommandBody::GetMetadata { options, mailbox, entries } => {
            write_optional_list(options, ctx);
            write_with_list(mailbox, entries, ctx);
            assert(ctx@ =~= old(ctx)@ + arguments_tokens(body.deep_view()));
        },
        CommandBody::SetMetadata { mailbox, entry_values } => {
            write_with_list(mailbox, entry_values, ctx);
        },
        _ => {},
    }
}

fn write_arguments(body: &CommandBody, ctx: &mut EncodeContext)
    ensures
        encode::wrote(old(ctx)@, final(ctx)@, arguments_tokens(body.deep_view())),
{
    match body {
        CommandBody::Select { .. }
        | CommandBody::Examine { .. }
        | CommandBody::Create { .. }
        | CommandBody::Delete { .. }
        | CommandBody::Subscribe { .. }
        | CommandBody::Unsubscribe { .. } => write_mailbox_arguments(body, ctx),
        CommandBody::Login { .. }
        | CommandBody::Rename { .. }
        | CommandBody::Lsub { .. }
        | CommandBody::Status { .. }
        | CommandBody::GetQuota { .. }
        | CommandBody::GetQuotaRoot { .. } => write_names_arguments(body, ctx),
        CommandBody::Search { .. }
        | CommandBody::Sort { .. }
        | CommandBody::Thread { .. }
        | CommandBody::ExpungeUid { .. } => write_search_arguments(body, ctx),
        CommandBody::Fetch { .. }
        | CommandBody::Store { .. }
        | CommandBody::Copy { .. }
        | CommandBody::Move { .. }
        | CommandBody::Append { .. } => write_message_arguments(body, ctx),
        CommandBody::Enable { .. }
        | CommandBody::Authenticate { .. }
        | CommandBody::Compress { .. }
        | CommandBody::SetQuota { .. }
        | CommandBody::Id { .. }
        | CommandBody::GetMetadata { .. }
        | CommandBody::SetMetadata { .. } => write_extension_arguments(body, ctx),
        _ => {
            proof {
                encode::lemma_concat_empty(ctx@);
            }
        },
    }
}

fn write_plain_list(reference: &Mailbox, mailbox_wildcard: &ListMailbox, ctx: &mut EncodeContext)
    ensures
        final(ctx)@ == old(ctx)@ + (encode::word("LIST ") + mailbox::mailbox_tokens(
            reference.deep_view(),
        ) + args::argument(strings::string_tokens(mailbox_wildcard.deep_view()))),
{
    ctx.write_text("LIST ");
    reference.encode_ctx(ctx);
    write_argument(mailbox_wildcard, ctx);
    assert(ctx@ =~= old(ctx)@ + (encode::word("LIST ") + mailbox::mailbox_tokens(
        reference.deep_view(),
    ) + args::argument(strings::string_tokens(mailbox_wildcard.deep_view()))));
}

/// Writes a command that starts with its name, or with `UID` and its name.
fn write_named(body: &CommandBody, ctx: &mut EncodeContext)
    ensures
        ({
            let v = body.deep_view();
            encode::wrote(
                old(ctx)@,
                final(ctx)@,
                ext::uid_tokens(is_uid(v)) + encode::plain(command_name_text(body_name(v)))
                    + arguments_tokens(v),
            )
        }),
{
    let ghost v = body.deep_view();
    let ghost uid = ext::uid_tokens(is_uid(v));
    let ghost name = encode::plain(command_name_text(body_name(v)));
    if goes_by_uid(body) {
        ctx.write_text("UID ");
    } else {
        proof {
            encode::lemma_concat_empty(ctx@);
        }
    }
    assert(ctx@ == old(ctx)@ + uid);
    name_of(body).encode_ctx(ctx);
    assert(ctx@ == old(ctx)@ + uid + name);
    write_arguments(body, ctx);
    proof {
        encode::lemma_concat_assoc(old(ctx)@, uid, name);
        encode::lemma_concat_assoc(old(ctx)@, uid + name, arguments_tokens(v));
    }
}

impl EncodeIntoContext for CommandBody {
    open spec fn tokens(v: BodyView) -> Seq<Token> {
        body_tokens(v)
    }

    fn encode_ctx(&self, ctx: &mut EncodeContext) {
        match self {
            CommandBody::List { reference, mailbox_wildcard } => {
                write_plain_list(reference, mailbox_wildcard, ctx);
            },
            CommandBody::ListExtended { selection, reference, patterns, return_options } => {
                encode_list(selection, reference, patterns, return_options, ctx);
            },
            CommandBody::SearchExtended { return_options, charset, criteria, uid } => {
                encode_search(return_options, charset, criteria, *uid, ctx);
            },
            _ => write_named(self, ctx),
        }
    }
}

/// Writes a command with the given tag.
pub fn write_command(name: &[u8], body: &CommandBody, ctx: &mut EncodeContext)
    ensures
        final(ctx)@ == old(ctx)@ + command_tokens(
            (CommandView { tag: name@, body: body.deep_view() }),
        ),
{
    ctx.write_bytes(name);
    ctx.write_text(" ");
    body.encode_ctx(ctx);
    ctx.write_text("\r\n");
    assert(ctx@ =~= old(ctx)@ + command_tokens(
        (CommandView { tag: name@, body: body.deep_view() }),
    ));
}

impl EncodeIntoContext for Command {
    open spec fn tokens(v: CommandView) -> Seq<Token> {
        command_tokens(v)
    }

    fn encode_ctx(&self, ctx: &mut EncodeContext) {
        write_command(self.tag.as_slice(), &self.body, ctx);
        assert(ctx@ =~= old(ctx)@ + Self::tokens(self.deep_view()));
    }
}

} // verus!
