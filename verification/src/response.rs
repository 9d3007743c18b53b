//! Responses of a server.
use vstd::prelude::*;

use crate::answers;
use crate::answers::{
    answer, find_answer_name, search_numbers, write_search_numbers, Answer, AnswerName, AnswerView,
};
use crate::arguments as args;
use crate::arguments::{write_argument, write_list, write_with_list};
use crate::ascii;
use crate::ascii::{is_alpha, is_atom_char, is_tag_char, is_text_byte};
use crate::body;
use crate::body::{body, BodyStructure, StructureView};
use crate::date;
use crate::date::{date_time, DateTime};
use crate::encode;
use crate::encode::{
    join_serializable, write_parens, write_spread, EncodeContext, EncodeIntoContext, Token,
};
use crate::extensions::condstore_qresync as modseq;
use crate::extensions::condstore_qresync::mod_sequence_value;
use crate::extensions::rev2 as ext;
use crate::extensions::rev2::{
    encode_esearch, encode_list_data, esearch, list_data, number63, NUMBER63_MAX,
};
use crate::fetch;
use crate::fetch::{
    binary_section, body_section, find_plain_item, is_item_char, write_binary_section,
    write_body_section, PlainItem, Section, SectionView,
};
use crate::flag;
use crate::flag::{flag_list, write_flags, Flag, FlagNameAttribute, FlagView};
use crate::grammar as g;
use crate::grammar::{
    list1, parens0, parens1, repeat, tag, tag_no_case, take_while, take_while1, IMAPParseError,
    IMAPResult, Outcome, Rule,
};
use crate::mailbox;
use crate::mailbox::{
    mailbox, mailbox_list, write_delimiter, Mailbox, MailboxListView, MailboxView, QuotedChar,
};
use crate::number;
use crate::number::{number, number64, nz_number, write_number};
use crate::reading;
use crate::rev2::{ListExtension, ListExtensionView, SearchReturnData, SearchReturnDataView};
use crate::sequence;
use crate::sequence::{sequence_set, Sequence, SequenceSet};
use crate::status;
use crate::status::{status_att, StatusDataItemName};
use crate::strings;
use crate::strings::{
    atom, literal8, nstring, AString, Atom, IString, NString, StringView,
};
use crate::structure;
use crate::structure::{envelope, Envelope, EnvelopeView};
use crate::utf8;

verus! {

/// An item of a STATUS response.
#[derive(Clone, Copy, Debug, PartialEq, Eq, Hash, Structural)]
pub struct StatusDataItem {
    pub name: StatusDataItemName,
    pub value: u64,
}

impl DeepView for StatusDataItem {
    type V = StatusDataItem;

    open spec fn deep_view(&self) -> StatusDataItem {
        *self
    }
}

/// The value of a BINARY item. Only a `literal8` may hold NUL.
#[derive(Debug, PartialEq, Eq, Hash)]
pub enum NString8 {
    NString(NString),
    Literal8(IString),
}

pub enum NString8View {
    NString(Option<StringView>),
    Literal8(StringView),
}

impl DeepView for NString8 {
    type V = NString8View;

    open spec fn deep_view(&self) -> NString8View {
        match self {
            NString8::NString(s) => NString8View::NString(s.deep_view()),
            NString8::Literal8(s) => NString8View::Literal8(s.deep_view()),
        }
    }
}

/// An item of a FETCH response.
#[derive(Debug, PartialEq, Eq, Hash)]
pub enum MessageDataItem {
    Flags(Vec<Flag>),
    InternalDate(DateTime),
    Rfc822(NString),
    Rfc822Header(NString),
    Rfc822Text(NString),
    Rfc822Size(u64),
    Uid(u32),
    BodyExt { section: Option<Section>, origin: Option<u64>, data: NString },
    Binary { section: Vec<u32>, value: NString8 },
    BinarySize { section: Vec<u32>, size: u64 },
    ModSeq(u64),
    Envelope(Envelope),
    /// The structure of the message, asked for by either of two names.
    Body(BodyStructure),
    BodyStructure(BodyStructure),
}

pub enum ItemView {
    Flags(Seq<FlagView>),
    InternalDate(Seq<u8>),
    Rfc822(Option<StringView>),
    Rfc822Header(Option<StringView>),
    Rfc822Text(Option<StringView>),
    Rfc822Size(u64),
    Uid(u32),
    BodyExt { section: Option<SectionView>, origin: Option<u64>, data: Option<StringView> },
    Binary { section: Seq<u32>, value: NString8View },
    BinarySize { section: Seq<u32>, size: u64 },
    ModSeq(u64),
    Envelope(EnvelopeView),
    Body(StructureView),
    BodyStructure(StructureView),
}

impl DeepView for MessageDataItem {
    type V = ItemView;

    open spec fn deep_view(&self) -> ItemView {
        match self {
            MessageDataItem::Flags(v) => ItemView::Flags(v.deep_view()),
            MessageDataItem::InternalDate(d) => ItemView::InternalDate(d.deep_view()),
            MessageDataItem::Rfc822(s) => ItemView::Rfc822(s.deep_view()),
            MessageDataItem::Rfc822Header(s) => ItemView::Rfc822Header(s.deep_view()),
            MessageDataItem::Rfc822Text(s) => ItemView::Rfc822Text(s.deep_view()),
            MessageDataItem::Rfc822Size(n) => ItemView::Rfc822Size(*n),
            MessageDataItem::Uid(n) => ItemView::Uid(*n),
            MessageDataItem::BodyExt { section, origin, data } => ItemView::BodyExt {
                section: section.deep_view(),
                origin: *origin,
                data: data.deep_view(),
            },
            MessageDataItem::Binary { section, value } => ItemView::Binary {
                section: section@,
                value: value.deep_view(),
            },
            MessageDataItem::BinarySize { section, size } => ItemView::BinarySize {
                section: section@,
                size: *size,
            },
            MessageDataItem::ModSeq(n) => ItemView::ModSeq(*n),
            MessageDataItem::Envelope(e) => ItemView::Envelope(e.deep_view()),
            MessageDataItem::Body(b) => ItemView::Body(b.deep_view()),
            MessageDataItem::BodyStructure(b) => ItemView::BodyStructure(b.deep_view()),
        }
    }
}

/// Data that a server sends without being asked, or before the end of a command.
#[derive(Debug, PartialEq, Eq, Hash)]
pub enum Data {
    Capability(Vec<Atom>),
    List { items: Vec<FlagNameAttribute>, delimiter: Option<QuotedChar>, mailbox: Mailbox },
    Lsub { items: Vec<FlagNameAttribute>, delimiter: Option<QuotedChar>, mailbox: Mailbox },
    /// LIST with extension data.
    ListExtended {
        items: Vec<FlagNameAttribute>,
        delimiter: Option<QuotedChar>,
        mailbox: Mailbox,
        extensions: Vec<ListExtension>,
    },
    Status { mailbox: Mailbox, items: Vec<StatusDataItem> },
    /// The numbers found and their highest modification sequence.
    Search(Vec<u32>, Option<u64>),
    ESearch { tag: Option<AString>, uid: bool, items: Vec<SearchReturnData> },
    Flags(Vec<Flag>),
    Exists(u32),
    Recent(u32),
    Expunge(u32),
    Fetch { seq: u32, items: Vec<MessageDataItem> },
    Enabled { capabilities: Vec<Atom> },
    Vanished { earlier: bool, known_uids: SequenceSet },
    Answer(Answer),
}

pub enum DataView {
    Capability(Seq<Seq<u8>>),
    List { items: Seq<Seq<u8>>, delimiter: Option<u8>, mailbox: MailboxView },
    Lsub { items: Seq<Seq<u8>>, delimiter: Option<u8>, mailbox: MailboxView },
    ListExtended {
        items: Seq<Seq<u8>>,
        delimiter: Option<u8>,
        mailbox: MailboxView,
        extensions: Seq<ListExtensionView>,
    },
    Status { mailbox: MailboxView, items: Seq<StatusDataItem> },
    Search(Seq<u32>, Option<u64>),
    ESearch { tag: Option<StringView>, uid: bool, items: Seq<SearchReturnDataView> },
    Flags(Seq<FlagView>),
    Exists(u32),
    Recent(u32),
    Expunge(u32),
    Fetch { seq: u32, items: Seq<ItemView> },
    Enabled { capabilities: Seq<Seq<u8>> },
    Vanished { earlier: bool, known_uids: Seq<Sequence> },
    Answer(AnswerView),
}

impl DeepView for Data {
    type V = DataView;

    open spec fn deep_view(&self) -> DataView {
        match self {
            Data::Capability(v) => DataView::Capability(v.deep_view()),
            Data::List { items, delimiter, mailbox } => DataView::List {
                items: items.deep_view(),
                delimiter: delimiter.deep_view(),
                mailbox: mailbox.deep_view(),
            },
            Data::Lsub { items, delimiter, mailbox } => DataView::Lsub {
                items: items.deep_view(),
                delimiter: delimiter.deep_view(),
                mailbox: mailbox.deep_view(),
            },
            Data::ListExtended { items, delimiter, mailbox, extensions } => DataView::ListExtended {
                items: items.deep_view(),
                delimiter: delimiter.deep_view(),
                mailbox: mailbox.deep_view(),
                extensions: extensions.deep_view(),
            },
            Data::Status { mailbox, items } => DataView::Status {
                mailbox: mailbox.deep_view(),
                items: items.deep_view(),
            },
            Data::Search(v, n) => DataView::Search(v.deep_view(), *n),
            Data::ESearch { tag, uid, items } => DataView::ESearch {
                tag: tag.deep_view(),
                uid: *uid,
                items: items.deep_view(),
            },
            Data::Flags(v) => DataView::Flags(v.deep_view()),
            Data::Exists(n) => DataView::Exists(*n),
            Data::Recent(n) => DataView::Recent(*n),
            Data::Expunge(n) => DataView::Expunge(*n),
            Data::Fetch { seq, items } => DataView::Fetch { seq: *seq, items: items.deep_view() },
            Data::Enabled { capabilities } => DataView::Enabled {
                capabilities: capabilities.deep_view(),
            },
            Data::Vanished { earlier, known_uids } => DataView::Vanished {
                earlier: *earlier,
                known_uids: known_uids.deep_view(),
            },
            Data::Answer(a) => DataView::Answer(a.deep_view()),
        }
    }
}

/// A machine readable part of a status response.
#[derive(Debug, PartialEq, Eq, Hash)]
pub enum Code {
    Alert,
    Capability(Vec<Atom>),
    Closed,
    HighestModSeq(u64),
    Modified(SequenceSet),
    NoModSeq,
    Parse,
    ReadOnly,
    ReadWrite,
    TryCreate,
    UidNext(u32),
    UidValidity(u32),
    Unseen(u32),
    Other { name: Atom, text: Option<Vec<u8>> },
}

pub enum CodeView {
    Alert,
    Capability(Seq<Seq<u8>>),
    Closed,
    HighestModSeq(u64),
    Modified(Seq<Sequence>),
    NoModSeq,
    Parse,
    ReadOnly,
    ReadWrite,
    TryCreate,
    UidNext(u32),
    UidValidity(u32),
    Unseen(u32),
    Other { name: Seq<u8>, text: Option<Seq<u8>> },
}

impl DeepView for Code {
    type V = CodeView;

    open spec fn deep_view(&self) -> CodeView {
        match self {
            Code::Alert => CodeView::Alert,
            Code::Capability(v) => CodeView::Capability(v.deep_view()),
            Code::Closed => CodeView::Closed,
            Code::HighestModSeq(n) => CodeView::HighestModSeq(*n),
            Code::Modified(s) => CodeView::Modified(s.deep_view()),
            Code::NoModSeq => CodeView::NoModSeq,
            Code::Parse => CodeView::Parse,
            Code::ReadOnly => CodeView::ReadOnly,
            Code::ReadWrite => CodeView::ReadWrite,
            Code::TryCreate => CodeView::TryCreate,
            Code::UidNext(n) => CodeView::UidNext(*n),
            Code::UidValidity(n) => CodeView::UidValidity(*n),
            Code::Unseen(n) => CodeView::Unseen(*n),
            Code::Other { name, text } => CodeView::Other {
                name: name.deep_view(),
                text: match text {
                    Some(b) => Some(b@),
                    None => None,
                },
            },
        }
    }
}

#[derive(Clone, Copy, Debug, PartialEq, Eq, Hash, Structural)]
pub enum StatusKind {
    Okay,
    No,
    Bad,
}

/// Code and text of a status response. The text is UTF-8 and may be empty.
#[derive(Debug, PartialEq, Eq, Hash)]
pub struct RespText {
    pub code: Option<Code>,
    pub text: Vec<u8>,
}

pub struct RespTextView {
    pub code: Option<CodeView>,
    pub text: Seq<u8>,
}

impl DeepView for RespText {
    type V = RespTextView;

    open spec fn deep_view(&self) -> RespTextView {
        RespTextView { code: self.code.deep_view(), text: self.text@ }
    }
}

#[derive(Debug, PartialEq, Eq, Hash)]
pub struct StatusBody {
    pub kind: StatusKind,
    pub code: Option<Code>,
    pub text: Vec<u8>,
}

pub struct StatusBodyView {
    pub kind: StatusKind,
    pub code: Option<CodeView>,
    pub text: Seq<u8>,
}

impl DeepView for StatusBody {
    type V = StatusBodyView;

    open spec fn deep_view(&self) -> StatusBodyView {
        StatusBodyView { kind: self.kind, code: self.code.deep_view(), text: self.text@ }
    }
}

/// The end of a command.
#[derive(Debug, PartialEq, Eq, Hash)]
pub struct Tagged {
    pub tag: Vec<u8>,
    pub body: StatusBody,
}

#[derive(Debug, PartialEq, Eq, Hash)]
pub enum Status {
    Untagged(StatusBody),
    Tagged(Tagged),
    Bye(RespText),
}

pub enum StatusView {
    Untagged(StatusBodyView),
    Tagged { tag: Seq<u8>, body: StatusBodyView },
    Bye(RespTextView),
}

impl DeepView for Status {
    type V = StatusView;

    open spec fn deep_view(&self) -> StatusView {
        match self {
            Status::Untagged(b) => StatusView::Untagged(b.deep_view()),
            Status::Tagged(t) => StatusView::Tagged { tag: t.tag@, body: t.body.deep_view() },
            Status::Bye(x) => StatusView::Bye(x.deep_view()),
        }
    }
}

#[derive(Debug, PartialEq, Eq, Hash)]
pub enum Response {
    Data(Data),
    Status(Status),
    /// The server asks for the rest of a command.
    CommandContinuationRequest(RespText),
}

pub enum ResponseView {
    Data(DataView),
    Status(StatusView),
    CommandContinuationRequest(RespTextView),
}

impl DeepView for Response {
    type V = ResponseView;

    open spec fn deep_view(&self) -> ResponseView {
        match self {
            Response::Data(d) => ResponseView::Data(d.deep_view()),
            Response::Status(s) => ResponseView::Status(s.deep_view()),
            Response::CommandContinuationRequest(x) => ResponseView::CommandContinuationRequest(
                x.deep_view(),
            ),
        }
    }
}

/// The names of response codes.
#[derive(Clone, Copy, Debug, PartialEq, Eq, Hash, Structural)]
pub enum CodeName {
    Alert,
    Capability,
    Closed,
    HighestModSeq,
    Modified,
    NoModSeq,
    Parse,
    ReadOnly,
    ReadWrite,
    TryCreate,
    UidNext,
    UidValidity,
    Unseen,
}

pub open spec fn code_name_text(k: CodeName) -> Seq<u8> {
    match k {
        CodeName::Alert => ascii::bytes_of("ALERT"),
        CodeName::Capability => ascii::bytes_of("CAPABILITY"),
        CodeName::Closed => ascii::bytes_of("CLOSED"),
        CodeName::HighestModSeq => ascii::bytes_of("HIGHESTMODSEQ"),
        CodeName::Modified => ascii::bytes_of("MODIFIED"),
        CodeName::NoModSeq => ascii::bytes_of("NOMODSEQ"),
        CodeName::Parse => ascii::bytes_of("PARSE"),
        CodeName::ReadOnly => ascii::bytes_of("READ-ONLY"),
        CodeName::ReadWrite => ascii::bytes_of("READ-WRITE"),
        CodeName::TryCreate => ascii::bytes_of("TRYCREATE"),
        CodeName::UidNext => ascii::bytes_of("UIDNEXT"),
        CodeName::UidValidity => ascii::bytes_of("UIDVALIDITY"),
        CodeName::Unseen => ascii::bytes_of("UNSEEN"),
    }
}

/// The response code of this name.
pub open spec fn code_name_of(w: Seq<u8>) -> Option<CodeName> {
    if ascii::same_word(w, ascii::bytes_of("ALERT")) {
        Some(CodeName::Alert)
    } else if ascii::same_word(w, ascii::bytes_of("CAPABILITY")) {
        Some(CodeName::Capability)
    } else if ascii::same_word(w, ascii::bytes_of("CLOSED")) {
        Some(CodeName::Closed)
    } else if ascii::same_word(w, ascii::bytes_of("HIGHESTMODSEQ")) {
        Some(CodeName::HighestModSeq)
    } else if ascii::same_word(w, ascii::bytes_of("MODIFIED")) {
        Some(CodeName::Modified)
    } else if ascii::same_word(w, ascii::bytes_of("NOMODSEQ")) {
        Some(CodeName::NoModSeq)
    } else if ascii::same_word(w, ascii::bytes_of("PARSE")) {
        Some(CodeName::Parse)
    } else if ascii::same_word(w, ascii::bytes_of("READ-ONLY")) {
        Some(CodeName::ReadOnly)
    } else if ascii::same_word(w, ascii::bytes_of("READ-WRITE")) {
        Some(CodeName::ReadWrite)
    } else if ascii::same_word(w, ascii::bytes_of("TRYCREATE")) {
        Some(CodeName::TryCreate)
    } else if ascii::same_word(w, ascii::bytes_of("UIDNEXT")) {
        Some(CodeName::UidNext)
    } else if ascii::same_word(w, ascii::bytes_of("UIDVALIDITY")) {
        Some(CodeName::UidValidity)
    } else if ascii::same_word(w, ascii::bytes_of("UNSEEN")) {
        Some(CodeName::Unseen)
    } else {
        None
    }
}

fn find_code_name(w: &[u8]) -> (r: Option<CodeName>)
    ensures
        r == code_name_of(w@),
{
    if ascii::is_word(w, "ALERT") {
        Some(CodeName::Alert)
    } else if ascii::is_word(w, "CAPABILITY") {
        Some(CodeName::Capability)
    } else if ascii::is_word(w, "CLOSED") {
        Some(CodeName::Closed)
    } else if ascii::is_word(w, "HIGHESTMODSEQ") {
        Some(CodeName::HighestModSeq)
    } else if ascii::is_word(w, "MODIFIED") {
        Some(CodeName::Modified)
    } else if ascii::is_word(w, "NOMODSEQ") {
        Some(CodeName::NoModSeq)
    } else if ascii::is_word(w, "PARSE") {
        Some(CodeName::Parse)
    } else if ascii::is_word(w, "READ-ONLY") {
        Some(CodeName::ReadOnly)
    } else if ascii::is_word(w, "READ-WRITE") {
        Some(CodeName::ReadWrite)
    } else if ascii::is_word(w, "TRYCREATE") {
        Some(CodeName::TryCreate)
    } else if ascii::is_word(w, "UIDNEXT") {
        Some(CodeName::UidNext)
    } else if ascii::is_word(w, "UIDVALIDITY") {
        Some(CodeName::UidValidity)
    } else if ascii::is_word(w, "UNSEEN") {
        Some(CodeName::Unseen)
    } else {
        None
    }
}

/// The first words of untagged responses.
#[derive(Clone, Copy, Debug, PartialEq, Eq, Hash, Structural)]
pub enum DataName {
    Okay,
    No,
    Bad,
    Bye,
    Capability,
    List,
    Lsub,
    Status,
    Search,
    Flags,
    Enabled,
    Vanished,
    Answer(AnswerName),
}

pub open spec fn data_name_text(k: DataName) -> Seq<u8> {
    match k {
        DataName::Okay => ascii::bytes_of("OK"),
        DataName::No => ascii::bytes_of("NO"),
        DataName::Bad => ascii::bytes_of("BAD"),
        DataName::Bye => ascii::bytes_of("BYE"),
        DataName::Capability => ascii::bytes_of("CAPABILITY"),
        DataName::List => ascii::bytes_of("LIST"),
        DataName::Lsub => ascii::bytes_of("LSUB"),
        DataName::Status => ascii::bytes_of("STATUS"),
        DataName::Search => ascii::bytes_of("SEARCH"),
        DataName::Flags => ascii::bytes_of("FLAGS"),
        DataName::Enabled => ascii::bytes_of("ENABLED"),
        DataName::Vanished => ascii::bytes_of("VANISHED"),
        DataName::Answer(n) => answers::answer_name_text(n),
    }
}

/// The untagged response of this name.
pub open spec fn data_name_of(w: Seq<u8>) -> Option<DataName> {
    if ascii::same_word(w, ascii::bytes_of("OK")) {
        Some(DataName::Okay)
    } else if ascii::same_word(w, ascii::bytes_of("NO")) {
        Some(DataName::No)
    } else if ascii::same_word(w, ascii::bytes_of("BAD")) {
        Some(DataName::Bad)
    } else if ascii::same_word(w, ascii::bytes_of("BYE")) {
        Some(DataName::Bye)
    } else if ascii::same_word(w, ascii::bytes_of("CAPABILITY")) {
        Some(DataName::Capability)
    } else if ascii::same_word(w, ascii::bytes_of("LIST")) {
        Some(DataName::List)
    } else if ascii::same_word(w, ascii::bytes_of("LSUB")) {
        Some(DataName::Lsub)
    } else if ascii::same_word(w, ascii::bytes_of("STATUS")) {
        Some(DataName::Status)
    } else if ascii::same_word(w, ascii::bytes_of("SEARCH")) {
        Some(DataName::Search)
    } else if ascii::same_word(w, ascii::bytes_of("FLAGS")) {
        Some(DataName::Flags)
    } else if ascii::same_word(w, ascii::bytes_of("ENABLED")) {
        Some(DataName::Enabled)
    } else if ascii::same_word(w, ascii::bytes_of("VANISHED")) {
        Some(DataName::Vanished)
    } else {
        match answers::answer_name_of(w) {
            Some(n) => Some(DataName::Answer(n)),
            None => None,
        }
    }
}

fn find_data_name(w: &[u8]) -> (r: Option<DataName>)
    ensures
        r == data_name_of(w@),
{
    if ascii::is_word(w, "OK") {
        Some(DataName::Okay)
    } else if ascii::is_word(w, "NO") {
        Some(DataName::No)
    } else if ascii::is_word(w, "BAD") {
        Some(DataName::Bad)
    } else if ascii::is_word(w, "BYE") {
        Some(DataName::Bye)
    } else if ascii::is_word(w, "CAPABILITY") {
        Some(DataName::Capability)
    } else if ascii::is_word(w, "LIST") {
        Some(DataName::List)
    } else if ascii::is_word(w, "LSUB") {
        Some(DataName::Lsub)
    } else if ascii::is_word(w, "STATUS") {
        Some(DataName::Status)
    } else if ascii::is_word(w, "SEARCH") {
        Some(DataName::Search)
    } else if ascii::is_word(w, "FLAGS") {
        Some(DataName::Flags)
    } else if ascii::is_word(w, "ENABLED") {
        Some(DataName::Enabled)
    } else if ascii::is_word(w, "VANISHED") {
        Some(DataName::Vanished)
    } else {
        match find_answer_name(w) {
            Some(n) => Some(DataName::Answer(n)),
            None => None,
        }
    }
}

// ----------------------------------------------------------------------- rules

/// The values that a status item can have.
#[verifier::allow_in_spec]
pub fn status_value_ok(name: StatusDataItemName, n: u64) -> bool
    returns
        (match name {
            StatusDataItemName::Messages
            | StatusDataItemName::Recent
            | StatusDataItemName::Unseen
            | StatusDataItemName::Deleted => n <= 0xffff_ffff,
            StatusDataItemName::UidNext | StatusDataItemName::UidValidity => 0 < n && n
                <= 0xffff_ffff,
            StatusDataItemName::DeletedStorage
            | StatusDataItemName::Size
            | StatusDataItemName::HighestModSeq => n <= NUMBER63_MAX,
        }),
{
    match name {
        StatusDataItemName::Messages
        | StatusDataItemName::Recent
        | StatusDataItemName::Unseen
        | StatusDataItemName::Deleted => n <= 0xffff_ffff,
        StatusDataItemName::UidNext | StatusDataItemName::UidValidity => 0 < n && n <= 0xffff_ffff,
        StatusDataItemName::DeletedStorage
        | StatusDataItemName::Size
        | StatusDataItemName::HighestModSeq => n <= NUMBER63_MAX,
    }
}

#[verifier::opaque]
pub open spec fn status_item_rule() -> Rule<StatusDataItem> {
    g::verify(
        g::mapped(
            g::pair(status::status_att_rule(), args::sp(number::number64_rule())),
            |p: (StatusDataItemName, u64)| StatusDataItem { name: p.0, value: p.1 },
        ),
        |i: StatusDataItem| status_value_ok(i.name, i.value),
    )
}

/// `literal8 / nstring`.
#[verifier::opaque]
pub open spec fn nstring8_rule() -> Rule<NString8View> {
    g::alt(
        g::mapped(strings::literal8_rule(), |s: StringView| NString8View::Literal8(s)),
        g::mapped(strings::nstring_rule(), |s: Option<StringView>| NString8View::NString(s)),
    )
}

/// `"<" number64 ">"`.
pub open spec fn origin_rule() -> Rule<u64> {
    g::delimited(g::text("<"), ext::number63_rule(), g::text(">"))
}

#[verifier::opaque]
pub open spec fn body_item_rule() -> Rule<ItemView> {
    g::mapped(
        g::pair(
            fetch::body_section_rule(),
            g::pair(g::opt(origin_rule()), args::sp(strings::nstring_rule())),
        ),
        |p: (Option<SectionView>, (Option<u64>, Option<StringView>))|
            ItemView::BodyExt { section: p.0, origin: p.1.0, data: p.1.1 },
    )
}

#[verifier::opaque]
pub open spec fn modseq_item_rule() -> Rule<u64> {
    g::delimited(g::text("("), modseq::mod_sequence_value_rule(), g::text(")"))
}

/// The value of an item without a section.
pub open spec fn plain_item_rule(n: PlainItem) -> Rule<ItemView> {
    match n {
        PlainItem::Flags => g::mapped(
            args::sp(flag::flag_list_rule()),
            |v: Seq<FlagView>| ItemView::Flags(v),
        ),
        PlainItem::InternalDate => g::mapped(
            args::sp(date::date_time_rule()),
            |b: Seq<u8>| ItemView::InternalDate(b),
        ),
        PlainItem::Rfc822 => g::mapped(
            args::sp(strings::nstring_rule()),
            |s: Option<StringView>| ItemView::Rfc822(s),
        ),
        PlainItem::Rfc822Header => g::mapped(
            args::sp(strings::nstring_rule()),
            |s: Option<StringView>| ItemView::Rfc822Header(s),
        ),
        PlainItem::Rfc822Text => g::mapped(
            args::sp(strings::nstring_rule()),
            |s: Option<StringView>| ItemView::Rfc822Text(s),
        ),
        PlainItem::Rfc822Size => g::mapped(
            args::sp(ext::number63_rule()),
            |n: u64| ItemView::Rfc822Size(n),
        ),
        PlainItem::Uid => g::mapped(args::sp(number::nz_number_rule()), |n: u32| ItemView::Uid(n)),
        PlainItem::ModSeq => g::mapped(args::sp(modseq_item_rule()), |n: u64| ItemView::ModSeq(n)),
        PlainItem::Body => g::alt(
            body_item_rule(),
            g::mapped(args::sp(body::body_rule()), |b: StructureView| ItemView::Body(b)),
        ),
        PlainItem::Envelope => g::mapped(
            args::sp(structure::envelope_rule()),
            |e: EnvelopeView| ItemView::Envelope(e),
        ),
        PlainItem::BodyStructure => g::mapped(
            args::sp(body::body_rule()),
            |b: StructureView| ItemView::BodyStructure(b),
        ),
    }
}

/// What follows the name of an item of a FETCH response.
pub open spec fn item_value_rule(w: Seq<u8>) -> Rule<ItemView> {
    if fetch::plain_item_of(w) is Some {
        plain_item_rule(fetch::plain_item_of(w)->Some_0)
    } else if ascii::same_word(w, ascii::bytes_of("BINARY")) {
        g::mapped(
            g::pair(fetch::binary_section_rule(), args::sp(nstring8_rule())),
            |p: (Seq<u32>, NString8View)| ItemView::Binary { section: p.0, value: p.1 },
        )
    } else if ascii::same_word(w, ascii::bytes_of("BINARY.SIZE")) {
        g::mapped(
            g::pair(fetch::binary_section_rule(), args::sp(ext::number63_rule())),
            |p: (Seq<u32>, u64)| ItemView::BinarySize { section: p.0, size: p.1 },
        )
    } else {
        g::never()
    }
}

/// An item of a FETCH response.
#[verifier::opaque]
pub open spec fn item_rule() -> Rule<ItemView> {
    g::chain(fetch::item_word_rule(), |w: Seq<u8>| item_value_rule(w))
}

/// Atoms with a space in front of each.
pub open spec fn atoms_rule() -> Rule<Seq<Seq<u8>>> {
    args::sp(g::separated_list1(g::text(" "), strings::atom_rule()))
}

#[verifier::allow_in_spec]
pub fn is_code_char(b: u8) -> bool
    returns
        is_text_byte(b) && b != ']' as u8,
{
    is_text_byte(b) && b != ']' as u8
}

/// What follows the name of a response code.
pub open spec fn code_arguments_rule(w: Seq<u8>) -> Rule<CodeView> {
    match code_name_of(w) {
        Some(CodeName::Alert) => g::success(CodeView::Alert),
        Some(CodeName::Capability) => g::mapped(
            atoms_rule(),
            |v: Seq<Seq<u8>>| CodeView::Capability(v),
        ),
        Some(CodeName::Closed) => g::success(CodeView::Closed),
        Some(CodeName::HighestModSeq) => g::mapped(
            args::sp(modseq::mod_sequence_value_rule()),
            |n: u64| CodeView::HighestModSeq(n),
        ),
        Some(CodeName::Modified) => g::mapped(
            args::sp(sequence::sequence_set_rule()),
            |s: Seq<Sequence>| CodeView::Modified(s),
        ),
        Some(CodeName::NoModSeq) => g::success(CodeView::NoModSeq),
        Some(CodeName::Parse) => g::success(CodeView::Parse),
        Some(CodeName::ReadOnly) => g::success(CodeView::ReadOnly),
        Some(CodeName::ReadWrite) => g::success(CodeView::ReadWrite),
        Some(CodeName::TryCreate) => g::success(CodeView::TryCreate),
        Some(CodeName::UidNext) => g::mapped(
            args::sp(number::nz_number_rule()),
            |n: u32| CodeView::UidNext(n),
        ),
        Some(CodeName::UidValidity) => g::mapped(
            args::sp(number::nz_number_rule()),
            |n: u32| CodeView::UidValidity(n),
        ),
        Some(CodeName::Unseen) => g::mapped(
            args::sp(number::nz_number_rule()),
            |n: u32| CodeView::Unseen(n),
        ),
        None => g::mapped(
            g::opt(args::sp(g::take_while1_rule(|b: u8| is_code_char(b)))),
            |t: Option<Seq<u8>>| CodeView::Other { name: w, text: t },
        ),
    }
}

/// `resp-text-code`, without the brackets.
#[verifier::opaque]
pub open spec fn resp_text_code_rule() -> Rule<CodeView> {
    g::chain(strings::atom_rule(), |w: Seq<u8>| code_arguments_rule(w))
}

/// The rest of a line, well-formed UTF-8 and possibly empty.
#[verifier::opaque]
pub open spec fn text_rule() -> Rule<Seq<u8>> {
    g::verify(
        g::take_while_rule(|b: u8| is_text_byte(b)),
        |b: Seq<u8>| vstd::utf8::valid_utf8(b),
    )
}

/// `resp-text = "[" resp-text-code "]" [SP text] / text`. A text that starts
/// with a bracket has to be a code.
#[verifier::opaque]
pub open spec fn resp_text_rule() -> Rule<RespTextView> {
    g::alt(
        g::mapped(
            g::pair(
                g::delimited(g::text("["), resp_text_code_rule(), g::text("]")),
                g::alt(args::sp(text_rule()), g::success(seq![])),
            ),
            |p: (CodeView, Seq<u8>)| RespTextView { code: Some(p.0), text: p.1 },
        ),
        g::mapped(
            g::verify(text_rule(), |b: Seq<u8>| b.len() == 0 || b[0] != '[' as u8),
            |b: Seq<u8>| RespTextView { code: None, text: b },
        ),
    )
}

pub open spec fn kind_text(k: StatusKind) -> Seq<u8> {
    match k {
        StatusKind::Okay => ascii::bytes_of("OK"),
        StatusKind::No => ascii::bytes_of("NO"),
        StatusKind::Bad => ascii::bytes_of("BAD"),
    }
}

pub open spec fn status_body_of(kind: StatusKind, x: RespTextView) -> StatusBodyView {
    StatusBodyView { kind, code: x.code, text: x.text }
}

pub open spec fn kind_rule() -> Rule<StatusKind> {
    g::alt(
        g::value(StatusKind::Okay, g::word("OK")),
        g::alt(g::value(StatusKind::No, g::word("NO")), g::value(StatusKind::Bad, g::word("BAD"))),
    )
}

/// `resp-cond-state = ("OK" / "NO" / "BAD") SP resp-text`.
#[verifier::opaque]
pub open spec fn status_body_rule() -> Rule<StatusBodyView> {
    g::mapped(
        g::pair(kind_rule(), args::sp(resp_text_rule())),
        |p: (StatusKind, RespTextView)| status_body_of(p.0, p.1),
    )
}

pub open spec fn untagged_status_rule(kind: StatusKind) -> Rule<ResponseView> {
    g::mapped(
        args::sp(resp_text_rule()),
        |x: RespTextView|
            ResponseView::Status(StatusView::Untagged(status_body_of(kind, x))),
    )
}

/// What follows the first word of an untagged response.
pub open spec fn data_arguments_rule(n: DataName) -> Rule<ResponseView> {
    match n {
        DataName::Okay => untagged_status_rule(StatusKind::Okay),
        DataName::No => untagged_status_rule(StatusKind::No),
        DataName::Bad => untagged_status_rule(StatusKind::Bad),
        DataName::Bye => g::mapped(
            args::sp(resp_text_rule()),
            |x: RespTextView| ResponseView::Status(StatusView::Bye(x)),
        ),
        DataName::Capability => g::mapped(
            atoms_rule(),
            |v: Seq<Seq<u8>>| ResponseView::Data(DataView::Capability(v)),
        ),
        DataName::List => g::mapped(
            args::sp(mailbox::mailbox_list_rule()),
            |p: MailboxListView|
                ResponseView::Data(DataView::List { items: p.0, delimiter: p.1, mailbox: p.2 }),
        ),
        DataName::Lsub => g::mapped(
            args::sp(mailbox::mailbox_list_rule()),
            |p: MailboxListView|
                ResponseView::Data(DataView::Lsub { items: p.0, delimiter: p.1, mailbox: p.2 }),
        ),
        DataName::Status => g::mapped(
            g::pair(
                args::sp(mailbox::mailbox_rule()),
                args::sp(g::paren_list0(status_item_rule())),
            ),
            |p: (MailboxView, Seq<StatusDataItem>)|
                ResponseView::Data(DataView::Status { mailbox: p.0, items: p.1 }),
        ),
        DataName::Search => g::mapped(
            answers::search_data_rule(),
            |p: (Seq<u32>, Option<u64>)| ResponseView::Data(DataView::Search(p.0, p.1)),
        ),
        DataName::Flags => g::mapped(
            args::sp(flag::flag_list_rule()),
            |v: Seq<FlagView>| ResponseView::Data(DataView::Flags(v)),
        ),
        DataName::Enabled => g::mapped(
            g::repeated(g::text(" "), strings::atom_rule()),
            |v: Seq<Seq<u8>>| ResponseView::Data(DataView::Enabled { capabilities: v }),
        ),
        DataName::Vanished => g::mapped(
            g::pair(g::opt(g::word(" (EARLIER)")), args::sp(sequence::sequence_set_rule())),
            |p: (Option<()>, Seq<Sequence>)|
                ResponseView::Data(DataView::Vanished { earlier: p.0 is Some, known_uids: p.1 }),
        ),
        DataName::Answer(n) => g::mapped(
            answers::answer_rule(n),
            |a: AnswerView| ResponseView::Data(DataView::Answer(a)),
        ),
    }
}

pub open spec fn named_data_rule(w: Seq<u8>) -> Rule<ResponseView> {
    match data_name_of(w) {
        Some(n) => data_arguments_rule(n),
        None => g::never(),
    }
}

/// What follows a number and a space.
pub open spec fn numbered_rule(n: u32) -> Rule<ResponseView> {
    g::alt(
        g::value(ResponseView::Data(DataView::Exists(n)), g::word("EXISTS")),
        g::alt(
            g::value(ResponseView::Data(DataView::Recent(n)), g::word("RECENT")),
            if n == 0 {
                g::never()
            } else {
                g::alt(
                    g::value(ResponseView::Data(DataView::Expunge(n)), g::word("EXPUNGE")),
                    g::mapped(
                        g::preceded(g::word("FETCH "), g::paren_list1(item_rule())),
                        |v: Seq<ItemView>|
                            ResponseView::Data(DataView::Fetch { seq: n, items: v }),
                    ),
                )
            },
        ),
    )
}

/// A response behind `* `.
#[verifier::opaque]
pub open spec fn untagged_rule() -> Rule<ResponseView> {
    g::alt(
        g::chain(
            g::terminated(number::number_rule(), g::text(" ")),
            |n: u32| numbered_rule(n),
        ),
        g::alt(
            g::mapped(ext::list_data_rule(), |d: DataView| ResponseView::Data(d)),
            g::alt(
                g::mapped(ext::esearch_rule(), |d: DataView| ResponseView::Data(d)),
                g::chain(date::letters_rule(), |w: Seq<u8>| named_data_rule(w)),
            ),
        ),
    )
}

/// `response`, up to the end of its last line.
#[verifier::opaque]
pub open spec fn response_rule() -> Rule<ResponseView> {
    g::alt(
        g::mapped(
            g::delimited(g::text("+ "), resp_text_rule(), g::text("\r\n")),
            |x: RespTextView| ResponseView::CommandContinuationRequest(x),
        ),
        g::alt(
            g::delimited(g::text("* "), untagged_rule(), g::text("\r\n")),
            g::mapped(
                g::pair(
                    g::terminated(g::take_while1_rule(|b: u8| is_tag_char(b)), g::text(" ")),
                    g::terminated(status_body_rule(), g::text("\r\n")),
                ),
                |p: (Seq<u8>, StatusBodyView)|
                    ResponseView::Status(StatusView::Tagged { tag: p.0, body: p.1 }),
            ),
        ),
    )
}

// ------------------------------------------------------------------- streaming

proof fn lemma_item_lawful()
    ensures
        g::lawful(item_rule()),
{
    broadcast use g::group_lawful;

    reveal(nstring8_rule);
    reveal(body_item_rule);
    reveal(modseq_item_rule);
    reveal(item_rule);
    strings::lemma_strings_lawful();
    flag::lemma_flags_lawful();
    date::lemma_date_time_lawful();
    number::lemma_numbers_lawful();
    ext::lemma_rev2_lawful();
    modseq::lemma_modseq_lawful();
    fetch::lemma_sections_lawful();
    structure::lemma_envelope_lawful();
    body::lemma_body_lawful();
    assert(g::lawful(body_item_rule()));
    assert(g::lawful(nstring8_rule()));
    assert(g::lawful(modseq_item_rule()));
    let f = |w: Seq<u8>| item_value_rule(w);
    assert forall|w: Seq<u8>| g::lawful(#[trigger] f(w)) by {}
}

proof fn lemma_resp_text_lawful()
    ensures
        g::lawful(resp_text_code_rule()),
        g::lawful(resp_text_rule()),
        g::lawful(status_body_rule()),
{
    broadcast use g::group_lawful;

    reveal(resp_text_code_rule);
    reveal(text_rule);
    reveal(resp_text_rule);
    reveal(status_body_rule);
    strings::lemma_strings_lawful();
    number::lemma_numbers_lawful();
    sequence::lemma_sequences_lawful();
    modseq::lemma_modseq_lawful();
    let f = |w: Seq<u8>| code_arguments_rule(w);
    assert forall|w: Seq<u8>| g::lawful(#[trigger] f(w)) by {}
}

proof fn lemma_data_arguments_lawful(n: DataName)
    ensures
        g::lawful(data_arguments_rule(n)),
{
    broadcast use g::group_lawful;

    reveal(status_item_rule);
    if let DataName::Answer(k) = n {
        answers::lemma_answer_lawful(k);
    }
    lemma_resp_text_lawful();
    strings::lemma_strings_lawful();
    number::lemma_numbers_lawful();
    sequence::lemma_sequences_lawful();
    modseq::lemma_modseq_lawful();
    mailbox::lemma_mailboxes_lawful();
    flag::lemma_flags_lawful();
    status::lemma_status_lawful();
}

proof fn lemma_untagged_lawful()
    ensures
        g::lawful(untagged_rule()),
{
    broadcast use g::group_lawful;

    reveal(untagged_rule);
    number::lemma_numbers_lawful();
    ext::lemma_rev2_commands_lawful();
    let f = |n: u32| numbered_rule(n);
    assert forall|n: u32| g::lawful(#[trigger] f(n)) by {
        lemma_item_lawful();
    }
    let h = |w: Seq<u8>| named_data_rule(w);
    assert forall|w: Seq<u8>| g::lawful(#[trigger] h(w)) by {
        if let Some(n) = data_name_of(w) {
            lemma_data_arguments_lawful(n);
        }
    }
}

/// Responses are streaming rules: no further input changes what was read.
pub proof fn law_responses_stream()
    ensures
        g::lawful(response_rule()),
        g::lawful(resp_text_rule()),
{
    broadcast use g::group_lawful;

    reveal(response_rule);
    lemma_resp_text_lawful();
    lemma_untagged_lawful();
}

// ------------------------------------------------------------------- encodings

pub open spec fn status_item_tokens(i: StatusDataItem) -> Seq<Token> {
    encode::plain(status::status_text(i.name)) + encode::word(" ") + encode::plain(
        number::decimal(i.value as nat),
    )
}

pub open spec fn nstring8_tokens(v: NString8View) -> Seq<Token> {
    match v {
        NString8View::NString(s) => strings::nstring_tokens(s),
        NString8View::Literal8(s) => encode::word("~") + strings::string_tokens(s),
    }
}

pub open spec fn origin_tokens(origin: Option<u64>) -> Seq<Token> {
    match origin {
        Some(n) => encode::word("<") + encode::plain(number::decimal(n as nat)) + encode::word(">"),
        None => seq![],
    }
}

pub open spec fn number_tokens(n: u64) -> Seq<Token> {
    encode::plain(number::decimal(n as nat))
}

pub open spec fn item_name_tokens(i: ItemView) -> Seq<Token> {
    match i {
        ItemView::Flags(_) => encode::word("FLAGS"),
        ItemView::InternalDate(_) => encode::word("INTERNALDATE"),
        ItemView::Rfc822(_) => encode::word("RFC822"),
        ItemView::Rfc822Header(_) => encode::word("RFC822.HEADER"),
        ItemView::Rfc822Text(_) => encode::word("RFC822.TEXT"),
        ItemView::Rfc822Size(_) => encode::word("RFC822.SIZE"),
        ItemView::Uid(_) => encode::word("UID"),
        ItemView::BodyExt { section, origin, .. } => encode::word("BODY") + (
        fetch::body_section_tokens(section) + origin_tokens(origin)),
        ItemView::Binary { section, .. } => encode::word("BINARY") + fetch::binary_section_tokens(
            section,
        ),
        ItemView::BinarySize { section, .. } => encode::word("BINARY.SIZE")
            + fetch::binary_section_tokens(section),
        ItemView::ModSeq(_) => encode::word("MODSEQ"),
        ItemView::Envelope(_) => encode::word("ENVELOPE"),
        ItemView::Body(_) => encode::word("BODY"),
        ItemView::BodyStructure(_) => encode::word("BODYSTRUCTURE"),
    }
}

pub open spec fn item_value_tokens(i: ItemView) -> Seq<Token> {
    match i {
        ItemView::Flags(v) => flag::flag_list_tokens(v),
        ItemView::InternalDate(b) => encode::plain(strings::quoted_text(b)),
        ItemView::Rfc822(s) => strings::nstring_tokens(s),
        ItemView::Rfc822Header(s) => strings::nstring_tokens(s),
        ItemView::Rfc822Text(s) => strings::nstring_tokens(s),
        ItemView::Rfc822Size(n) => number_tokens(n),
        ItemView::Uid(n) => number_tokens(n as u64),
        ItemView::BodyExt { data, .. } => strings::nstring_tokens(data),
        ItemView::Binary { value, .. } => nstring8_tokens(value),
        ItemView::BinarySize { size, .. } => number_tokens(size),
        ItemView::ModSeq(n) => encode::word("(") + number_tokens(n) + encode::word(")"),
        ItemView::Envelope(e) => structure::envelope_tokens(e),
        ItemView::Body(b) => body::body_tokens(b),
        ItemView::BodyStructure(b) => body::body_tokens(b),
    }
}

pub open spec fn item_tokens(i: ItemView) -> Seq<Token> {
    item_name_tokens(i) + args::argument(item_value_tokens(i))
}

pub open spec fn atoms_tokens(v: Seq<Seq<u8>>) -> Seq<Token> {
    args::argument(encode::joined(encode::parts::<Atom>(v), encode::word(" ")))
}

pub open spec fn code_name_tokens(c: CodeView) -> Seq<Token> {
    match c {
        CodeView::Alert => encode::word("ALERT"),
        CodeView::Capability(_) => encode::word("CAPABILITY"),
        CodeView::Closed => encode::word("CLOSED"),
        CodeView::HighestModSeq(_) => encode::word("HIGHESTMODSEQ"),
        CodeView::Modified(_) => encode::word("MODIFIED"),
        CodeView::NoModSeq => encode::word("NOMODSEQ"),
        CodeView::Parse => encode::word("PARSE"),
        CodeView::ReadOnly => encode::word("READ-ONLY"),
        CodeView::ReadWrite => encode::word("READ-WRITE"),
        CodeView::TryCreate => encode::word("TRYCREATE"),
        CodeView::UidNext(_) => encode::word("UIDNEXT"),
        CodeView::UidValidity(_) => encode::word("UIDVALIDITY"),
        CodeView::Unseen(_) => encode::word("UNSEEN"),
        CodeView::Other { name, .. } => encode::plain(name),
    }
}

pub open spec fn code_value_tokens(c: CodeView) -> Seq<Token> {
    match c {
        CodeView::Capability(v) => atoms_tokens(v),
        CodeView::HighestModSeq(n) => args::argument(number_tokens(n)),
        CodeView::Modified(s) => args::argument(sequence::set_tokens(s)),
        CodeView::UidNext(n) => args::argument(number_tokens(n as u64)),
        CodeView::UidValidity(n) => args::argument(number_tokens(n as u64)),
        CodeView::Unseen(n) => args::argument(number_tokens(n as u64)),
        CodeView::Other { text: Some(t), .. } => args::argument(encode::plain(t)),
        _ => seq![],
    }
}

pub open spec fn code_tokens(c: CodeView) -> Seq<Token> {
    code_name_tokens(c) + code_value_tokens(c)
}

pub open spec fn resp_text_tokens(x: RespTextView) -> Seq<Token> {
    match x.code {
        Some(c) => encode::word("[") + code_tokens(c) + encode::word("]") + if x.text.len() > 0 {
            args::argument(encode::plain(x.text))
        } else {
            seq![]
        },
        None => encode::plain(x.text),
    }
}

pub open spec fn status_body_tokens(b: StatusBodyView) -> Seq<Token> {
    encode::plain(kind_text(b.kind)) + args::argument(
        resp_text_tokens(RespTextView { code: b.code, text: b.text }),
    )
}

/// Data, from `* ` to the end of the line.
pub open spec fn data_tokens(d: DataView) -> Seq<Token> {
    match d {
        DataView::Capability(v) => encode::word("* CAPABILITY") + atoms_tokens(v),
        DataView::List { items, delimiter, mailbox } => encode::word("* LIST") + args::argument(
            mailbox::mailbox_list_tokens((items, delimiter, mailbox)),
        ),
        DataView::Lsub { items, delimiter, mailbox } => encode::word("* LSUB") + args::argument(
            mailbox::mailbox_list_tokens((items, delimiter, mailbox)),
        ),
        DataView::ListExtended { items, delimiter, mailbox, extensions } => ext::list_data_tokens(
            items,
            delimiter,
            mailbox,
            extensions,
        ),
        DataView::Status { mailbox, items } => encode::word("* STATUS") + (args::argument(
            mailbox::mailbox_tokens(mailbox),
        ) + args::argument(encode::paren_tokens(encode::parts::<StatusDataItem>(items)))),
        DataView::Search(v, n) => encode::word("* SEARCH") + answers::search_tokens(v, n),
        DataView::ESearch { tag, uid, items } => ext::esearch_tokens(tag, uid, items),
        DataView::Flags(v) => encode::word("* FLAGS") + args::argument(flag::flag_list_tokens(v)),
        DataView::Exists(n) => encode::word("* ") + number_tokens(n as u64) + encode::word(
            " EXISTS",
        ),
        DataView::Recent(n) => encode::word("* ") + number_tokens(n as u64) + encode::word(
            " RECENT",
        ),
        DataView::Expunge(n) => encode::word("* ") + number_tokens(n as u64) + encode::word(
            " EXPUNGE",
        ),
        DataView::Fetch { seq, items } => encode::word("* ") + number_tokens(seq as u64)
            + encode::word(" FETCH ") + encode::paren_tokens(
            encode::parts::<MessageDataItem>(items),
        ),
        DataView::Enabled { capabilities } => encode::word("* ENABLED") + encode::spread(
            encode::parts::<Atom>(capabilities),
            encode::word(" "),
        ),
        DataView::Vanished { earlier, known_uids } => encode::word("* VANISHED") + (if earlier {
            encode::word(" (EARLIER)")
        } else {
            seq![]
        }) + args::argument(sequence::set_tokens(known_uids)),
        DataView::Answer(a) => answers::answer_tokens(a),
    }
}

/// A response without the end of its line.
pub open spec fn line_tokens(r: ResponseView) -> Seq<Token> {
    match r {
        ResponseView::Data(d) => data_tokens(d),
        ResponseView::Status(StatusView::Untagged(b)) => encode::word("* ") + status_body_tokens(b),
        ResponseView::Status(StatusView::Tagged { tag, body }) => encode::plain(tag)
            + encode::word(" ") + status_body_tokens(body),
        ResponseView::Status(StatusView::Bye(x)) => encode::word("* BYE") + args::argument(
            resp_text_tokens(x),
        ),
        ResponseView::CommandContinuationRequest(x) => encode::word("+ ") + resp_text_tokens(x),
    }
}

pub open spec fn response_tokens(r: ResponseView) -> Seq<Token> {
    line_tokens(r) + encode::word("\r\n")
}

// -------------------------------------------------------------- well-formedness

pub open spec fn nstring8_wf(v: NString8View) -> bool {
    match v {
        NString8View::NString(s) => strings::nstring_wf(s),
        NString8View::Literal8(s) => s matches StringView::Literal(b, _) && b.len() <= u64::MAX,
    }
}

pub open spec fn item_wf(i: ItemView) -> bool {
    match i {
        ItemView::Flags(v) => flag::flags_wf(v),
        ItemView::InternalDate(b) => date::date_time_wf(b),
        ItemView::Rfc822(s) => strings::nstring_wf(s),
        ItemView::Rfc822Header(s) => strings::nstring_wf(s),
        ItemView::Rfc822Text(s) => strings::nstring_wf(s),
        ItemView::Rfc822Size(n) => n <= NUMBER63_MAX,
        ItemView::Uid(n) => n > 0,
        ItemView::BodyExt { section, origin, data } => (section matches Some(x)
            ==> fetch::section_wf(x)) && (origin matches Some(n) ==> n <= NUMBER63_MAX)
            && strings::nstring_wf(data),
        ItemView::Binary { section, value } => fetch::part_wf(section) && nstring8_wf(value),
        ItemView::BinarySize { section, size } => fetch::part_wf(section) && size <= NUMBER63_MAX,
        ItemView::ModSeq(n) => 0 < n <= NUMBER63_MAX,
        ItemView::Envelope(e) => structure::envelope_wf(e),
        ItemView::Body(b) => body::body_wf(b),
        ItemView::BodyStructure(b) => body::body_wf(b),
    }
}

pub open spec fn atoms_wf(v: Seq<Seq<u8>>) -> bool {
    args::all_wf(v, |b: Seq<u8>| strings::atom_wf(b))
}

pub open spec fn code_wf(c: CodeView) -> bool {
    match c {
        CodeView::Capability(v) => v.len() > 0 && atoms_wf(v),
        CodeView::HighestModSeq(n) => 0 < n <= NUMBER63_MAX,
        CodeView::Modified(s) => sequence::set_wf(s),
        CodeView::UidNext(n) => n > 0,
        CodeView::UidValidity(n) => n > 0,
        CodeView::Unseen(n) => n > 0,
        CodeView::Other { name, text } => strings::atom_wf(name) && code_name_of(name) is None && (
        text matches Some(t) ==> t.len() > 0 && ascii::all_bytes(t, |b: u8| is_code_char(b))),
        _ => true,
    }
}

pub open spec fn text_wf(b: Seq<u8>) -> bool {
    ascii::all_bytes(b, |x: u8| is_text_byte(x)) && vstd::utf8::valid_utf8(b)
}

/// A text without a code does not start like one.
pub open spec fn resp_text_wf(x: RespTextView) -> bool {
    &&& text_wf(x.text)
    &&& x.code matches Some(c) ==> code_wf(c)
    &&& x.code is None && x.text.len() > 0 ==> x.text[0] != '[' as u8
}

pub open spec fn status_body_wf(b: StatusBodyView) -> bool {
    resp_text_wf(RespTextView { code: b.code, text: b.text })
}

pub open spec fn data_wf(d: DataView) -> bool {
    match d {
        DataView::Capability(v) => v.len() > 0 && atoms_wf(v),
        DataView::List { items, delimiter, mailbox } => mailbox::mailbox_list_wf(
            (items, delimiter, mailbox),
        ),
        DataView::Lsub { items, delimiter, mailbox } => mailbox::mailbox_list_wf(
            (items, delimiter, mailbox),
        ),
        DataView::ListExtended { items, delimiter, mailbox, extensions } =>
            mailbox::mailbox_list_wf((items, delimiter, mailbox)) && ext::list_extensions_wf(
            extensions,
        ),
        DataView::Status { mailbox, items } => mailbox::mailbox_wf(mailbox) && args::all_wf(
            items,
            |i: StatusDataItem| status_value_ok(i.name, i.value),
        ),
        DataView::Search(v, n) => args::all_wf(v, |x: u32| x > 0) && (n matches Some(n) ==> 0 < n
            <= NUMBER63_MAX),
        DataView::ESearch { tag, uid, items } => ext::esearch_wf(tag, uid, items),
        DataView::Flags(v) => flag::flags_wf(v),
        DataView::Exists(_) | DataView::Recent(_) => true,
        DataView::Expunge(n) => n > 0,
        DataView::Fetch { seq, items } => seq > 0 && items.len() > 0 && args::all_wf(
            items,
            |i: ItemView| item_wf(i),
        ),
        DataView::Enabled { capabilities } => atoms_wf(capabilities),
        DataView::Vanished { known_uids, .. } => sequence::set_wf(known_uids),
        DataView::Answer(a) => answers::answer_wf(a),
    }
}

/// A response that the grammar can express.
pub open spec fn response_wf(r: ResponseView) -> bool {
    match r {
        ResponseView::Data(d) => data_wf(d),
        ResponseView::Status(StatusView::Untagged(b)) => status_body_wf(b),
        ResponseView::Status(StatusView::Tagged { tag, body }) => tag.len() > 0 && ascii::all_bytes(
            tag,
            |b: u8| is_tag_char(b),
        ) && status_body_wf(body),
        ResponseView::Status(StatusView::Bye(x)) => resp_text_wf(x),
        ResponseView::CommandContinuationRequest(x) => resp_text_wf(x),
    }
}

// --------------------------------------------------------------------- reading

/// A number of 63 bits is read back behind its space.
proof fn lemma_number63_argument(n: u64, t: Seq<u8>)
    requires
        n <= NUMBER63_MAX,
        t.len() > 0,
        !ascii::is_digit(t[0]),
    ensures
        args::sp(ext::number63_rule())(encode::flat(args::argument(number_tokens(n))) + t)
            == Outcome::Done(t, n),
        (encode::flat(args::argument(number_tokens(n))) + t).len() > 0,
        (encode::flat(args::argument(number_tokens(n))) + t)[0] == 0x20,
{
    reveal(ext::number63_rule);
    number::lemma_number64_reads(n, t);
    encode::lemma_flat_plain(number::decimal(n as nat));
    args::lemma_argument_reads(ext::number63_rule(), number_tokens(n), n, t);
}

proof fn lemma_nz_number_argument(n: u32, t: Seq<u8>)
    requires
        n > 0,
        t.len() > 0,
        !ascii::is_digit(t[0]),
    ensures
        args::sp(number::nz_number_rule())(encode::flat(args::argument(number_tokens(n as u64))) + t)
            == Outcome::Done(t, n),
        (encode::flat(args::argument(number_tokens(n as u64))) + t).len() > 0,
        (encode::flat(args::argument(number_tokens(n as u64))) + t)[0] == 0x20,
{
    number::lemma_number_reads(n, t);
    encode::lemma_flat_plain(number::decimal(n as nat));
    args::lemma_argument_reads(number::nz_number_rule(), number_tokens(n as u64), n, t);
}

proof fn lemma_status_item_reads(i: StatusDataItem)
    requires
        status_value_ok(i.name, i.value),
    ensures
        reading::reads(status_item_rule(), encode::flat(status_item_tokens(i)), i),
{
    let name = encode::plain(status::status_text(i.name));
    let n = encode::plain(number::decimal(i.value as nat));
    assert forall|t: Seq<u8>| reading::ends(t) implies #[trigger] status_item_rule()(
        encode::flat(status_item_tokens(i)) + t,
    ) == Outcome::Done(t, i) by {
        encode::lemma_concat_assoc(name, encode::word(" "), n);
        args::lemma_flat_then(name, args::argument(n), t);
        encode::lemma_flat_plain(status::status_text(i.name));
        encode::lemma_flat_plain(number::decimal(i.value as nat));
        number::lemma_number64_reads(i.value, t);
        args::lemma_argument_reads(number::number64_rule(), n, i.value, t);
        let r = encode::flat(args::argument(n)) + t;
        status::lemma_status_att_reads(i.name);
        assert(reading::ends(r));
        assert(status::status_att_rule()(status::status_text(i.name) + r) == Outcome::Done(
            r,
            i.name,
        ));
        reveal(status_item_rule);
    }
}

/// A value that may hold any byte is read back behind its space.
pub proof fn lemma_nstring8_argument(v: NString8View, t: Seq<u8>)
    requires
        nstring8_wf(v),
        reading::ends(t),
    ensures
        args::sp(nstring8_rule())(encode::flat(args::argument(nstring8_tokens(v))) + t)
            == Outcome::Done(t, v),
        reading::ends(encode::flat(args::argument(nstring8_tokens(v))) + t),
{
    args::lemma_flat_then(encode::word(" "), nstring8_tokens(v), t);
    encode::lemma_flat_word(" ");
    reveal_strlit(" ");
    reveal(nstring8_rule);
    let s = encode::flat(nstring8_tokens(v)) + t;
    match v {
        NString8View::Literal8(x) => {
            let b = x->Literal_0;
            let mode = x->Literal_1;
            reveal(strings::string_tokens);
            encode::lemma_flat_add(encode::word("~"), strings::string_tokens(x));
            encode::lemma_flat_word("~");
            strings::lemma_literal_reads(b, mode, t);
        },
        NString8View::NString(n) => {
            args::lemma_nstring_argument(n, t);
            reveal(strings::literal8_rule);
            reveal_strlit("~");
            reveal_strlit("NIL");
            encode::lemma_flat_word("NIL");
            if let Some(x) = n {
                strings::lemma_string_first(x);
                strings::lemma_string_reads(x);
            } else {
                strings::lemma_nil_reads();
            }
            assert(s[0] != '~' as u8);
            reading::lemma_tag_rejects(ascii::bytes_of("~"), s);
            assert(strings::nstring_rule()(s) == Outcome::Done(t, n));
        },
    }
    args::lemma_argument_reads(nstring8_rule(), nstring8_tokens(v), v, t);
}

proof fn lemma_modseq_argument(n: u64, t: Seq<u8>)
    requires
        0 < n <= NUMBER63_MAX,
    ensures
        args::sp(modseq_item_rule())(
            encode::flat(
                args::argument(encode::word("(") + number_tokens(n) + encode::word(")")),
            ) + t,
        ) == Outcome::Done(t, n),
{
    let a = encode::word("(") + number_tokens(n) + encode::word(")");
    let close = ascii::bytes_of(")") + t;
    encode::lemma_flat_word("(");
    encode::lemma_flat_word(")");
    encode::lemma_flat_plain(number::decimal(n as nat));
    args::lemma_flat_then(encode::word("(") + number_tokens(n), encode::word(")"), t);
    args::lemma_flat_then(encode::word("("), number_tokens(n), close);
    reveal_strlit(")");
    assert(close[0] == ')' as u8);
    modseq::law_modseq_range(n, close);
    reading::lemma_tag_reads(ascii::bytes_of("("), number::decimal(n as nat) + close);
    reading::lemma_tag_reads(ascii::bytes_of(")"), t);
    reveal(modseq_item_rule);
    args::lemma_argument_reads(modseq_item_rule(), a, n, t);
}

/// The origin of a partial body is read back, before a space.
proof fn lemma_origin_reads(origin: Option<u64>, t: Seq<u8>)
    requires
        origin matches Some(n) ==> n <= NUMBER63_MAX,
        t.len() > 0,
        t[0] == 0x20,
    ensures
        g::opt(origin_rule())(encode::flat(origin_tokens(origin)) + t) == Outcome::Done(t, origin),
        (encode::flat(origin_tokens(origin)) + t).len() > 0,
{
    reveal_strlit("<");
    match origin {
        Some(n) => {
            let close = ascii::bytes_of(">") + t;
            reveal_strlit(">");
            encode::lemma_flat_word("<");
            encode::lemma_flat_word(">");
            encode::lemma_flat_plain(number::decimal(n as nat));
            args::lemma_flat_then(encode::word("<") + number_tokens(n), encode::word(">"), t);
            args::lemma_flat_then(encode::word("<"), number_tokens(n), close);
            assert(close[0] == '>' as u8);
            number::lemma_number64_reads(n, close);
            reveal(ext::number63_rule);
            reading::lemma_tag_reads(ascii::bytes_of("<"), number::decimal(n as nat) + close);
            reading::lemma_tag_reads(ascii::bytes_of(">"), t);
        },
        None => {
            assert(encode::flat(origin_tokens(origin)) + t =~= t);
            reading::lemma_tag_rejects(ascii::bytes_of("<"), t);
        },
    }
}

proof fn lemma_body_item_reads(
    section: Option<SectionView>,
    origin: Option<u64>,
    data: Option<StringView>,
    t: Seq<u8>,
)
    requires
        section matches Some(x) ==> fetch::section_wf(x),
        origin matches Some(n) ==> n <= NUMBER63_MAX,
        strings::nstring_wf(data),
        reading::ends(t),
    ensures
        ({
            let s = encode::flat(fetch::body_section_tokens(section) + origin_tokens(origin)) + (
            encode::flat(args::argument(strings::nstring_tokens(data))) + t);
            &&& body_item_rule()(s) == Outcome::Done(t, ItemView::BodyExt { section, origin, data })
            &&& s.len() > 0
            &&& s[0] == '[' as u8
        }),
{
    let value = encode::flat(args::argument(strings::nstring_tokens(data))) + t;
    args::lemma_nstring_argument(data, t);
    encode::lemma_flat_word(" ");
    reveal_strlit(" ");
    args::lemma_flat_then(encode::word(" "), strings::nstring_tokens(data), t);
    assert(value[0] == 0x20);
    lemma_origin_reads(origin, value);
    args::lemma_flat_then(fetch::body_section_tokens(section), origin_tokens(origin), value);
    fetch::lemma_body_section_reads(section, encode::flat(origin_tokens(origin)) + value);
    reveal(body_item_rule);
}

/// The word of an item, and how its value is read behind it.
pub open spec fn item_word(i: ItemView) -> Seq<u8> {
    match i {
        ItemView::Flags(_) => ascii::bytes_of("FLAGS"),
        ItemView::InternalDate(_) => ascii::bytes_of("INTERNALDATE"),
        ItemView::Rfc822(_) => ascii::bytes_of("RFC822"),
        ItemView::Rfc822Header(_) => ascii::bytes_of("RFC822.HEADER"),
        ItemView::Rfc822Text(_) => ascii::bytes_of("RFC822.TEXT"),
        ItemView::Rfc822Size(_) => ascii::bytes_of("RFC822.SIZE"),
        ItemView::Uid(_) => ascii::bytes_of("UID"),
        ItemView::BodyExt { .. } => ascii::bytes_of("BODY"),
        ItemView::Binary { .. } => ascii::bytes_of("BINARY"),
        ItemView::BinarySize { .. } => ascii::bytes_of("BINARY.SIZE"),
        ItemView::ModSeq(_) => ascii::bytes_of("MODSEQ"),
        ItemView::Envelope(_) => ascii::bytes_of("ENVELOPE"),
        ItemView::Body(_) => ascii::bytes_of("BODY"),
        ItemView::BodyStructure(_) => ascii::bytes_of("BODYSTRUCTURE"),
    }
}

pub open spec fn item_section_tokens(i: ItemView) -> Seq<Token> {
    match i {
        ItemView::BodyExt { section, origin, .. } => fetch::body_section_tokens(section)
            + origin_tokens(origin),
        ItemView::Binary { section, .. } => fetch::binary_section_tokens(section),
        ItemView::BinarySize { section, .. } => fetch::binary_section_tokens(section),
        _ => seq![],
    }
}

/// What stands behind the word of an item.
pub open spec fn item_tail(i: ItemView, t: Seq<u8>) -> Seq<u8> {
    encode::flat(item_section_tokens(i)) + (encode::flat(args::argument(item_value_tokens(i))) + t)
}

proof fn lemma_item_text(i: ItemView, t: Seq<u8>)
    ensures
        encode::flat(item_tokens(i)) + t == item_word(i) + item_tail(i, t),
{
    let name = encode::plain(item_word(i));
    let value = args::argument(item_value_tokens(i));
    encode::lemma_flat_plain(item_word(i));
    args::lemma_flat_then(item_name_tokens(i), value, t);
    args::lemma_flat_then(name, item_section_tokens(i), encode::flat(value) + t);
    assert(item_name_tokens(i) =~= name + item_section_tokens(i));
}

/// A section starts with a bracket.
proof fn lemma_no_section(s: Seq<u8>)
    requires
        s.len() > 0,
        s[0] == 0x20,
    ensures
        body_item_rule()(s) is Reject,
{
    reveal(body_item_rule);
    reveal_strlit("[");
    reading::lemma_tag_rejects(ascii::bytes_of("["), s);
}

proof fn lemma_plain_value_reads(i: ItemView, p: PlainItem, t: Seq<u8>)
    requires
        item_wf(i),
        !(i is BodyExt || i is Binary || i is BinarySize),
        item_word(i) == fetch::plain_item_text(p),
        reading::ends(t),
    ensures
        fetch::plain_item_of(item_word(i)) == Some(p),
        plain_item_rule(p)(encode::flat(args::argument(item_value_tokens(i))) + t)
            == Outcome::Done(t, i),
{
    fetch::lemma_plain_item(p);
    let a = item_value_tokens(i);
    fetch::lemma_plain_item(item_kind(i));
    assert(p == item_kind(i));
    match i {
        ItemView::Flags(v) => {
            flag::lemma_flag_list_reads(v, t);
            args::lemma_argument_reads(flag::flag_list_rule(), a, v, t);
        },
        ItemView::InternalDate(b) => {
            date::lemma_date_time_reads(b, t);
            encode::lemma_flat_plain(strings::quoted_text(b));
            args::lemma_argument_reads(date::date_time_rule(), a, b, t);
        },
        ItemView::Rfc822(s) => {
            args::lemma_nstring_argument(s, t);
        },
        ItemView::Rfc822Header(s) => {
            args::lemma_nstring_argument(s, t);
        },
        ItemView::Rfc822Text(s) => {
            args::lemma_nstring_argument(s, t);
        },
        ItemView::Rfc822Size(n) => {
            lemma_number63_argument(n, t);
        },
        ItemView::Uid(n) => {
            lemma_nz_number_argument(n, t);
        },
        ItemView::ModSeq(n) => {
            lemma_modseq_argument(n, t);
        },
        ItemView::Envelope(e) => {
            structure::lemma_envelope_reads(e);
            args::lemma_delimited_argument(structure::envelope_rule(), a, e, t);
        },
        ItemView::Body(b) => {
            body::lemma_body_reads(b);
            args::lemma_delimited_argument(body::body_rule(), a, b, t);
            lemma_no_section(encode::flat(args::argument(a)) + t);
        },
        ItemView::BodyStructure(b) => {
            body::lemma_body_reads(b);
            args::lemma_delimited_argument(body::body_rule(), a, b, t);
        },
        _ => {},
    }
}

pub open spec fn item_kind(i: ItemView) -> PlainItem {
    match i {
        ItemView::Flags(_) => PlainItem::Flags,
        ItemView::InternalDate(_) => PlainItem::InternalDate,
        ItemView::Rfc822(_) => PlainItem::Rfc822,
        ItemView::Rfc822Header(_) => PlainItem::Rfc822Header,
        ItemView::Rfc822Text(_) => PlainItem::Rfc822Text,
        ItemView::Rfc822Size(_) => PlainItem::Rfc822Size,
        ItemView::Uid(_) => PlainItem::Uid,
        ItemView::ModSeq(_) => PlainItem::ModSeq,
        ItemView::Envelope(_) => PlainItem::Envelope,
        ItemView::BodyStructure(_) => PlainItem::BodyStructure,
        _ => PlainItem::Body,
    }
}

proof fn lemma_item_value_reads(i: ItemView, t: Seq<u8>)
    requires
        item_wf(i),
        reading::ends(t),
    ensures
        item_value_rule(item_word(i))(item_tail(i, t)) == Outcome::Done(t, i),
        fetch::word_wf(item_word(i)),
        item_tail(i, t).len() > 0,
        item_tail(i, t)[0] == 0x20 || item_tail(i, t)[0] == '[' as u8,
{
    let value = encode::flat(args::argument(item_value_tokens(i))) + t;
    args::lemma_flat_then(encode::word(" "), item_value_tokens(i), t);
    encode::lemma_flat_word(" ");
    reveal_strlit(" ");
    assert(value[0] == 0x20);
    match i {
        ItemView::BodyExt { section, origin, data } => {
            fetch::lemma_plain_item(PlainItem::Body);
            lemma_body_item_reads(section, origin, data, t);
        },
        ItemView::Binary { section, value: v } => {
            fetch::lemma_special_items();
            fetch::lemma_binary_section_reads(section, value);
            lemma_nstring8_argument(v, t);
        },
        ItemView::BinarySize { section, size } => {
            fetch::lemma_special_items();
            fetch::lemma_binary_section_reads(section, value);
            lemma_number63_argument(size, t);
        },
        _ => {
            fetch::lemma_plain_item(item_kind(i));
            lemma_plain_value_reads(i, item_kind(i), t);
            assert(item_tail(i, t) =~= value);
        },
    }
}

proof fn lemma_item_reads(i: ItemView)
    requires
        item_wf(i),
    ensures
        reading::reads(item_rule(), encode::flat(item_tokens(i)), i),
{
    assert forall|t: Seq<u8>| reading::ends(t) implies #[trigger] item_rule()(
        encode::flat(item_tokens(i)) + t,
    ) == Outcome::Done(t, i) by {
        lemma_item_text(i, t);
        lemma_item_value_reads(i, t);
        reading::lemma_take_while1_reads(
            |b: u8| is_item_char(b),
            item_word(i),
            item_tail(i, t),
        );
        reveal(item_rule);
    }
}

/// The names of the codes are told apart.
proof fn lemma_code_name(k: CodeName)
    ensures
        code_name_of(code_name_text(k)) == Some(k),
        strings::atom_wf(code_name_text(k)),
{
    broadcast use ascii::lemma_same_word_head;

    reveal_strlit("ALERT");
    reveal_strlit("CAPABILITY");
    reveal_strlit("CLOSED");
    reveal_strlit("HIGHESTMODSEQ");
    reveal_strlit("MODIFIED");
    reveal_strlit("NOMODSEQ");
    reveal_strlit("PARSE");
    reveal_strlit("READ-ONLY");
    reveal_strlit("READ-WRITE");
    reveal_strlit("TRYCREATE");
    reveal_strlit("UIDNEXT");
    reveal_strlit("UIDVALIDITY");
    reveal_strlit("UNSEEN");
    lemma_code_chars(code_name_text(k));
}

proof fn lemma_code_chars(b: Seq<u8>)
    requires
        b.len() <= 13,
        b.len() > 0 ==> is_atom_char(b[0]),
        b.len() > 1 ==> is_atom_char(b[1]),
        b.len() > 2 ==> is_atom_char(b[2]),
        b.len() > 3 ==> is_atom_char(b[3]),
        b.len() > 4 ==> is_atom_char(b[4]),
        b.len() > 5 ==> is_atom_char(b[5]),
        b.len() > 6 ==> is_atom_char(b[6]),
        b.len() > 7 ==> is_atom_char(b[7]),
        b.len() > 8 ==> is_atom_char(b[8]),
        b.len() > 9 ==> is_atom_char(b[9]),
        b.len() > 10 ==> is_atom_char(b[10]),
        b.len() > 11 ==> is_atom_char(b[11]),
        b.len() > 12 ==> is_atom_char(b[12]),
    ensures
        ascii::all_bytes(b, |x: u8| is_atom_char(x)),
{
}

pub open spec fn code_word(c: CodeView) -> Seq<u8> {
    match c {
        CodeView::Alert => ascii::bytes_of("ALERT"),
        CodeView::Capability(_) => ascii::bytes_of("CAPABILITY"),
        CodeView::Closed => ascii::bytes_of("CLOSED"),
        CodeView::HighestModSeq(_) => ascii::bytes_of("HIGHESTMODSEQ"),
        CodeView::Modified(_) => ascii::bytes_of("MODIFIED"),
        CodeView::NoModSeq => ascii::bytes_of("NOMODSEQ"),
        CodeView::Parse => ascii::bytes_of("PARSE"),
        CodeView::ReadOnly => ascii::bytes_of("READ-ONLY"),
        CodeView::ReadWrite => ascii::bytes_of("READ-WRITE"),
        CodeView::TryCreate => ascii::bytes_of("TRYCREATE"),
        CodeView::UidNext(_) => ascii::bytes_of("UIDNEXT"),
        CodeView::UidValidity(_) => ascii::bytes_of("UIDVALIDITY"),
        CodeView::Unseen(_) => ascii::bytes_of("UNSEEN"),
        CodeView::Other { name, .. } => name,
    }
}

/// The name of a code that has one of the known names.
pub open spec fn code_kind(c: CodeView) -> Option<CodeName> {
    match c {
        CodeView::Alert => Some(CodeName::Alert),
        CodeView::Capability(_) => Some(CodeName::Capability),
        CodeView::Closed => Some(CodeName::Closed),
        CodeView::HighestModSeq(_) => Some(CodeName::HighestModSeq),
        CodeView::Modified(_) => Some(CodeName::Modified),
        CodeView::NoModSeq => Some(CodeName::NoModSeq),
        CodeView::Parse => Some(CodeName::Parse),
        CodeView::ReadOnly => Some(CodeName::ReadOnly),
        CodeView::ReadWrite => Some(CodeName::ReadWrite),
        CodeView::TryCreate => Some(CodeName::TryCreate),
        CodeView::UidNext(_) => Some(CodeName::UidNext),
        CodeView::UidValidity(_) => Some(CodeName::UidValidity),
        CodeView::Unseen(_) => Some(CodeName::Unseen),
        CodeView::Other { .. } => None,
    }
}

/// Atoms are read back behind a space.
proof fn lemma_atoms_argument(v: Seq<Seq<u8>>, t: Seq<u8>)
    requires
        v.len() > 0,
        atoms_wf(v),
        t.len() > 0,
        t[0] == 0x0d || t[0] == ']' as u8,
    ensures
        atoms_rule()(encode::flat(atoms_tokens(v)) + t) == Outcome::Done(t, v),
        (encode::flat(atoms_tokens(v)) + t).len() > 0,
        (encode::flat(atoms_tokens(v)) + t)[0] == 0x20,
{
    args::lemma_atoms_read(v, t);
    args::lemma_argument_reads(
        g::separated_list1(g::text(" "), strings::atom_rule()),
        encode::joined(encode::parts::<Atom>(v), encode::word(" ")),
        v,
        t,
    );
}

proof fn lemma_set_argument(s: Seq<Sequence>, t: Seq<u8>)
    requires
        sequence::set_wf(s),
        sequence::after_sequence(t),
        t[0] != ',' as u8,
    ensures
        args::sp(sequence::sequence_set_rule())(
            encode::flat(args::argument(sequence::set_tokens(s))) + t,
        ) == Outcome::Done(t, s),
        (encode::flat(args::argument(sequence::set_tokens(s))) + t).len() > 1,
        (encode::flat(args::argument(sequence::set_tokens(s))) + t)[0] == 0x20,
        (encode::flat(args::argument(sequence::set_tokens(s))) + t)[1] != '(' as u8,
{
    sequence::lemma_sequence_set_reads(s, t);
    args::lemma_argument_reads(sequence::sequence_set_rule(), sequence::set_tokens(s), s, t);
    sequence::lemma_set_first(s);
    let b = encode::flat(sequence::set_tokens(s));
    let all = encode::flat(args::argument(sequence::set_tokens(s))) + t;
    assert((b + t).len() > 0);
    assert((b + t)[0] == b[0]);
    assert(all.len() > 1);
    assert(all.skip(1)[0] == all[1]);
}

proof fn lemma_code_arguments_read(c: CodeView, t: Seq<u8>)
    requires
        code_wf(c),
        t.len() > 0,
        t[0] == ']' as u8,
    ensures
        code_arguments_rule(code_word(c))(encode::flat(code_value_tokens(c)) + t) == Outcome::Done(
            t,
            c,
        ),
        (encode::flat(code_value_tokens(c)) + t).len() > 0,
        !is_atom_char((encode::flat(code_value_tokens(c)) + t)[0]),
{
    if let Some(k) = code_kind(c) {
        lemma_code_name(k);
    }
    let r = encode::flat(code_value_tokens(c)) + t;
    match c {
        CodeView::Capability(v) => {
            lemma_atoms_argument(v, t);
        },
        CodeView::HighestModSeq(n) => {
            modseq::law_modseq_range(n, t);
            encode::lemma_flat_plain(number::decimal(n as nat));
            args::lemma_argument_reads(modseq::mod_sequence_value_rule(), number_tokens(n), n, t);
        },
        CodeView::Modified(s) => {
            lemma_set_argument(s, t);
        },
        CodeView::UidNext(n) => {
            lemma_nz_number_argument(n, t);
        },
        CodeView::UidValidity(n) => {
            lemma_nz_number_argument(n, t);
        },
        CodeView::Unseen(n) => {
            lemma_nz_number_argument(n, t);
        },
        CodeView::Other { name, text } => {
            match text {
                Some(x) => {
                    let p = g::take_while1_rule(|b: u8| is_code_char(b));
                    encode::lemma_flat_plain(x);
                    reading::lemma_take_while1_reads(|b: u8| is_code_char(b), x, t);
                    args::lemma_argument_reads(p, encode::plain(x), x, t);
                },
                None => {
                    assert(r =~= t);
                    reveal_strlit(" ");
                    reading::lemma_tag_rejects(ascii::bytes_of(" "), t);
                },
            }
        },
        _ => {
            assert(r =~= t);
        },
    }
}

proof fn lemma_code_reads(c: CodeView, t: Seq<u8>)
    requires
        code_wf(c),
        t.len() > 0,
        t[0] == ']' as u8,
    ensures
        resp_text_code_rule()(encode::flat(code_tokens(c)) + t) == Outcome::Done(t, c),
{
    let w = code_word(c);
    let r = encode::flat(code_value_tokens(c)) + t;
    if let Some(k) = code_kind(c) {
        lemma_code_name(k);
    }
    assert(code_name_tokens(c) == encode::plain(w));
    encode::lemma_flat_plain(w);
    args::lemma_flat_then(code_name_tokens(c), code_value_tokens(c), t);
    lemma_code_arguments_read(c, t);
    reading::lemma_take_while1_reads(|b: u8| is_atom_char(b), w, r);
    reveal(strings::atom_rule);
    reveal(resp_text_code_rule);
}

proof fn lemma_text_reads(b: Seq<u8>, t: Seq<u8>)
    requires
        text_wf(b),
        args::line_end(t),
    ensures
        text_rule()(b + t) == Outcome::Done(t, b),
{
    reading::lemma_take_while_reads(|x: u8| is_text_byte(x), b, t);
    reveal(text_rule);
}

proof fn lemma_resp_text_reads(x: RespTextView, t: Seq<u8>)
    requires
        resp_text_wf(x),
        args::line_end(t),
    ensures
        resp_text_rule()(encode::flat(resp_text_tokens(x)) + t) == Outcome::Done(t, x),
{
    let s = encode::flat(resp_text_tokens(x)) + t;
    reveal_strlit("[");
    reveal_strlit("]");
    reveal_strlit(" ");
    match x.code {
        Some(c) => {
            let tail = if x.text.len() > 0 {
                args::argument(encode::plain(x.text))
            } else {
                seq![]
            };
            let open = encode::word("[");
            let close = encode::word("]");
            let r = encode::flat(tail) + t;
            let behind = ascii::bytes_of("]") + r;
            encode::lemma_flat_word("[");
            encode::lemma_flat_word("]");
            args::lemma_flat_then(open + code_tokens(c) + close, tail, t);
            args::lemma_flat_then(open + code_tokens(c), close, r);
            args::lemma_flat_then(open, code_tokens(c), behind);
            assert(behind[0] == ']' as u8);
            lemma_code_reads(c, behind);
            reading::lemma_tag_reads(
                ascii::bytes_of("["),
                encode::flat(code_tokens(c)) + behind,
            );
            reading::lemma_tag_reads(ascii::bytes_of("]"), r);
            if x.text.len() > 0 {
                encode::lemma_flat_plain(x.text);
                lemma_text_reads(x.text, t);
                args::lemma_argument_reads(text_rule(), encode::plain(x.text), x.text, t);
            } else {
                assert(r =~= t);
                assert(x.text =~= seq![]);
                reading::lemma_tag_rejects(ascii::bytes_of(" "), t);
            }
        },
        None => {
            encode::lemma_flat_plain(x.text);
            lemma_text_reads(x.text, t);
            assert(s[0] != '[' as u8);
            reading::lemma_tag_rejects(ascii::bytes_of("["), s);
        },
    }
    reveal(resp_text_rule);
}

proof fn lemma_resp_text_argument(x: RespTextView, t: Seq<u8>)
    requires
        resp_text_wf(x),
        args::line_end(t),
    ensures
        args::sp(resp_text_rule())(encode::flat(args::argument(resp_text_tokens(x))) + t)
            == Outcome::Done(t, x),
        (encode::flat(args::argument(resp_text_tokens(x))) + t).len() > 0,
        (encode::flat(args::argument(resp_text_tokens(x))) + t)[0] == 0x20,
{
    lemma_resp_text_reads(x, t);
    args::lemma_argument_reads(resp_text_rule(), resp_text_tokens(x), x, t);
}

proof fn lemma_status_body_reads(b: StatusBodyView, t: Seq<u8>)
    requires
        status_body_wf(b),
        args::line_end(t),
    ensures
        status_body_rule()(encode::flat(status_body_tokens(b)) + t) == Outcome::Done(t, b),
{
    let x = RespTextView { code: b.code, text: b.text };
    let w = kind_text(b.kind);
    let r = encode::flat(args::argument(resp_text_tokens(x))) + t;
    lemma_resp_text_argument(x, t);
    encode::lemma_flat_plain(w);
    args::lemma_flat_then(encode::plain(w), args::argument(resp_text_tokens(x)), t);
    reveal_strlit("OK");
    reveal_strlit("NO");
    reveal_strlit("BAD");
    reading::lemma_tag_no_case_reads(w, r);
    let s = w + r;
    assert(s[0] == w[0]);
    if b.kind != StatusKind::Okay {
        reading::lemma_tag_no_case_rejects(ascii::bytes_of("OK"), s, 0);
    }
    if b.kind == StatusKind::Bad {
        reading::lemma_tag_no_case_rejects(ascii::bytes_of("NO"), s, 0);
    }
    reveal(status_body_rule);
}

// ------------------------------------------------------------------------ data

/// The first words of responses are told apart.
proof fn lemma_data_name(k: DataName)
    ensures
        data_name_of(data_name_text(k)) == Some(k),
        data_name_text(k).len() > 1,
        data_name_text(k).len() <= 10,
        ascii::all_bytes(data_name_text(k), |b: u8| is_alpha(b)),
        !(k is List) ==> ascii::upper(data_name_text(k)[0]) != 'L' as u8 || ascii::upper(
            data_name_text(k)[1],
        ) != 'I' as u8,
        ascii::upper(data_name_text(k)[0]) != 'E' as u8 || ascii::upper(data_name_text(k)[1])
            != 'S' as u8,
{
    broadcast use ascii::lemma_same_word_head;

    reveal_strlit("OK");
    reveal_strlit("NO");
    reveal_strlit("BAD");
    reveal_strlit("BYE");
    reveal_strlit("CAPABILITY");
    reveal_strlit("LIST");
    reveal_strlit("LSUB");
    reveal_strlit("STATUS");
    reveal_strlit("SEARCH");
    reveal_strlit("FLAGS");
    reveal_strlit("ENABLED");
    reveal_strlit("VANISHED");
    reveal_strlit("SORT");
    reveal_strlit("THREAD");
    reveal_strlit("QUOTA");
    reveal_strlit("QUOTAROOT");
    reveal_strlit("ID");
    reveal_strlit("METADATA");
    reveal_strlit("NAMESPACE");
    let w = data_name_text(k);
    assert forall|i: int| 0 <= i < w.len() implies is_alpha(#[trigger] w[i]) by {
        assert(i == 0 || i == 1 || i == 2 || i == 3 || i == 4 || i == 5 || i == 6 || i == 7 || i
            == 8 || i == 9);
    }
}

/// What the words of a response lead to, where neither LIST nor ESEARCH data
/// is read.
proof fn lemma_named_reads(k: DataName, r: Seq<u8>, t: Seq<u8>, v: ResponseView)
    requires
        data_arguments_rule(k)(r) == Outcome::Done(t, v),
        r.len() > 0,
        r[0] == 0x20 || r[0] == 0x0d,
        k is List ==> ext::list_data_rule()(data_name_text(k) + r) is Reject,
    ensures
        untagged_rule()(data_name_text(k) + r) == Outcome::Done(t, v),
{
    let w = data_name_text(k);
    let s = w + r;
    lemma_data_name(k);
    reading::lemma_take_while1_reads(|b: u8| is_alpha(b), w, r);
    assert(s[0] == w[0]);
    assert(s[1] == w[1]);
    let alpha = |b: u8| is_alpha(b);
    assert(alpha(w[0]));
    number::lemma_number_rejects(s);
    reveal_strlit("LIST ");
    reveal_strlit("ESEARCH");
    reveal(ext::list_data_rule);
    reveal(ext::esearch_rule);
    if !(k is List) {
        if ascii::upper(s[0]) != 'L' as u8 {
            reading::lemma_tag_no_case_rejects(ascii::bytes_of("LIST "), s, 0);
        } else {
            reading::lemma_tag_no_case_rejects(ascii::bytes_of("LIST "), s, 1);
        }
    }
    if ascii::upper(s[0]) != 'E' as u8 {
        reading::lemma_tag_no_case_rejects(ascii::bytes_of("ESEARCH"), s, 0);
    } else {
        reading::lemma_tag_no_case_rejects(ascii::bytes_of("ESEARCH"), s, 1);
    }
    reveal(untagged_rule);
}

/// A response that starts with a number.
proof fn lemma_numbered_reads(n: u32, word: Seq<u8>, r: Seq<u8>, t: Seq<u8>, v: ResponseView)
    requires
        numbered_rule(n)(word + r) == Outcome::Done(t, v),
    ensures
        untagged_rule()(number::decimal(n as nat) + (ascii::bytes_of(" ") + (word + r)))
            == Outcome::Done(t, v),
{
    let space = ascii::bytes_of(" ");
    reveal_strlit(" ");
    let s = space + (word + r);
    assert(s[0] == 0x20);
    number::lemma_number_reads(n, s);
    reading::lemma_tag_reads(space, word + r);
    reveal(untagged_rule);
}

/// The line of untagged data behind `* `.
pub open spec fn reads_line(d: DataView, t: Seq<u8>) -> bool {
    exists|s: Seq<u8>|
        #![trigger untagged_rule()(s)]
        encode::flat(data_tokens(d)) + t == ascii::bytes_of("* ") + s && untagged_rule()(s)
            == Outcome::Done(t, ResponseView::Data(d))
}

/// Data of the form `* NAME arguments`.
proof fn lemma_named_line(d: DataView, k: DataName, head: Seq<Token>, args: Seq<Token>, t: Seq<u8>)
    requires
        data_tokens(d) == head + args,
        encode::flat(head) == ascii::bytes_of("* ") + data_name_text(k),
        data_arguments_rule(k)(encode::flat(args) + t) == Outcome::Done(t, ResponseView::Data(d)),
        (encode::flat(args) + t).len() > 0,
        (encode::flat(args) + t)[0] == 0x20 || (encode::flat(args) + t)[0] == 0x0d,
        k is List ==> ext::list_data_rule()(data_name_text(k) + (encode::flat(args) + t)) is Reject,
    ensures
        reads_line(d, t),
{
    let r = encode::flat(args) + t;
    args::lemma_flat_then(head, args, t);
    encode::lemma_concat_assoc(ascii::bytes_of("* "), data_name_text(k), r);
    lemma_named_reads(k, r, t, ResponseView::Data(d));
    assert(untagged_rule()(data_name_text(k) + r) == Outcome::Done(t, ResponseView::Data(d)));
}

proof fn lemma_head(whole: &str, name: &str)
    requires
        ascii::bytes_of(whole) =~= ascii::bytes_of("* ") + ascii::bytes_of(name),
    ensures
        encode::flat(encode::word(whole)) == ascii::bytes_of("* ") + ascii::bytes_of(name),
{
    encode::lemma_flat_word(whole);
}

proof fn lemma_capability_line(v: Seq<Seq<u8>>, t: Seq<u8>)
    requires
        v.len() > 0,
        atoms_wf(v),
        args::line_end(t),
    ensures
        reads_line(DataView::Capability(v), t),
{
    reveal_strlit("* ");
    reveal_strlit("CAPABILITY");
    reveal_strlit("* CAPABILITY");
    lemma_head("* CAPABILITY", "CAPABILITY");
    lemma_atoms_argument(v, t);
    lemma_named_line(
        DataView::Capability(v),
        DataName::Capability,
        encode::word("* CAPABILITY"),
        atoms_tokens(v),
        t,
    );
}

proof fn lemma_mailbox_line(p: MailboxListView, lsub: bool, t: Seq<u8>)
    requires
        mailbox::mailbox_list_wf(p),
        args::line_end(t),
    ensures
        lsub ==> reads_line(DataView::Lsub { items: p.0, delimiter: p.1, mailbox: p.2 }, t),
        !lsub ==> reads_line(DataView::List { items: p.0, delimiter: p.1, mailbox: p.2 }, t),
{
    let a = args::argument(mailbox::mailbox_list_tokens(p));
    let r = encode::flat(a) + t;
    reveal_strlit("* ");
    reveal_strlit(" ");
    mailbox::lemma_mailbox_list_reads(p);
    args::lemma_delimited_argument(
        mailbox::mailbox_list_rule(),
        mailbox::mailbox_list_tokens(p),
        p,
        t,
    );
    if lsub {
        reveal_strlit("LSUB");
        reveal_strlit("* LSUB");
        lemma_head("* LSUB", "LSUB");
        let d = DataView::Lsub { items: p.0, delimiter: p.1, mailbox: p.2 };
        lemma_named_line(d, DataName::Lsub, encode::word("* LSUB"), a, t);
    } else {
        reveal_strlit("LIST");
        reveal_strlit("LIST ");
        reveal_strlit("* LIST");
        lemma_head("* LIST", "LIST");
        let d = DataView::List { items: p.0, delimiter: p.1, mailbox: p.2 };
        let b = encode::flat(mailbox::mailbox_list_tokens(p)) + t;
        args::lemma_flat_then(encode::word(" "), mailbox::mailbox_list_tokens(p), t);
        encode::lemma_flat_word(" ");
        assert(ascii::bytes_of("LIST") + (ascii::bytes_of(" ") + b) =~= ascii::bytes_of("LIST ")
            + b);
        reading::lemma_tag_no_case_reads(ascii::bytes_of("LIST "), b);
        reading::lemma_tag_rejects(ascii::bytes_of(" "), t);
        reveal(ext::list_data_rule);
        lemma_named_line(d, DataName::List, encode::word("* LIST"), a, t);
    }
}

proof fn lemma_status_line(mailbox: MailboxView, items: Seq<StatusDataItem>, t: Seq<u8>)
    requires
        mailbox::mailbox_wf(mailbox),
        args::all_wf(items, |i: StatusDataItem| status_value_ok(i.name, i.value)),
        args::line_end(t),
    ensures
        reads_line(DataView::Status { mailbox, items }, t),
{
    let tokens = encode::parts::<StatusDataItem>(items);
    let m = args::argument(mailbox::mailbox_tokens(mailbox));
    let list = args::argument(encode::paren_tokens(tokens));
    reveal_strlit("* ");
    reveal_strlit("STATUS");
    reveal_strlit("* STATUS");
    lemma_head("* STATUS", "STATUS");
    assert forall|i: int| 0 <= i < items.len() implies reading::reads(
        status_item_rule(),
        encode::flat(#[trigger] tokens[i]),
        items[i],
    ) by {
        let wf = |i: StatusDataItem| status_value_ok(i.name, i.value);
        assert(wf(items[i]));
        lemma_status_item_reads(items[i]);
    }
    let close = ascii::bytes_of(")") + t;
    reveal_strlit(")");
    assert(close[0] == ')' as u8);
    assert(status_item_rule()(close) is Reject) by {
        status::lemma_status_att_rejects(close);
        reveal(status_item_rule);
    }
    args::lemma_list_argument(status_item_rule(), tokens, items, t);
    let r = encode::flat(list) + t;
    mailbox::lemma_mailbox_reads(mailbox);
    args::lemma_delimited_argument(
        mailbox::mailbox_rule(),
        mailbox::mailbox_tokens(mailbox),
        mailbox,
        r,
    );
    args::lemma_flat_then(m, list, t);
    lemma_named_line(
        DataView::Status { mailbox, items },
        DataName::Status,
        encode::word("* STATUS"),
        m + list,
        t,
    );
}

proof fn lemma_flags_line(v: Seq<FlagView>, t: Seq<u8>)
    requires
        flag::flags_wf(v),
        args::line_end(t),
    ensures
        reads_line(DataView::Flags(v), t),
{
    reveal_strlit("* ");
    reveal_strlit("FLAGS");
    reveal_strlit("* FLAGS");
    lemma_head("* FLAGS", "FLAGS");
    flag::lemma_flag_list_reads(v, t);
    args::lemma_argument_reads(flag::flag_list_rule(), flag::flag_list_tokens(v), v, t);
    lemma_named_line(
        DataView::Flags(v),
        DataName::Flags,
        encode::word("* FLAGS"),
        args::argument(flag::flag_list_tokens(v)),
        t,
    );
}

proof fn lemma_enabled_line(v: Seq<Seq<u8>>, t: Seq<u8>)
    requires
        atoms_wf(v),
        args::line_end(t),
    ensures
        reads_line(DataView::Enabled { capabilities: v }, t),
{
    let tokens = encode::parts::<Atom>(v);
    let parts = encode::flat_parts(tokens);
    let space = ascii::bytes_of(" ");
    reveal_strlit(" ");
    reveal_strlit("* ");
    reveal_strlit("ENABLED");
    reveal_strlit("* ENABLED");
    lemma_head("* ENABLED", "ENABLED");
    encode::lemma_flat_spread(tokens, encode::word(" "));
    encode::lemma_flat_word(" ");
    let follow = |x: Seq<u8>| reading::ends(x);
    assert forall|i: int| 0 <= i < parts.len() implies reading::reads_before(
        strings::atom_rule(),
        #[trigger] parts[i],
        v[i],
        follow,
    ) by {
        let wf = |b: Seq<u8>| strings::atom_wf(b);
        assert(wf(v[i]));
        encode::lemma_flat_plain(v[i]);
        strings::lemma_atom_reads(v[i]);
    }
    assert forall|r: Seq<u8>| follow(#[trigger] (space + r)) by {
        assert((space + r)[0] == 0x20);
    }
    reading::lemma_tag_rejects(space, t);
    reading::lemma_list_reads(space, strings::atom_rule(), follow, parts, v, t);
    let r = encode::spread(parts, space) + t;
    assert(r.len() > 0 && (r[0] == 0x20 || r[0] == 0x0d)) by {
        if parts.len() == 0 {
            assert(r =~= t);
        }
    }
    lemma_named_line(
        DataView::Enabled { capabilities: v },
        DataName::Enabled,
        encode::word("* ENABLED"),
        encode::spread(tokens, encode::word(" ")),
        t,
    );
}

proof fn lemma_vanished_line(earlier: bool, known_uids: Seq<Sequence>, t: Seq<u8>)
    requires
        sequence::set_wf(known_uids),
        args::line_end(t),
    ensures
        reads_line(DataView::Vanished { earlier, known_uids }, t),
{
    let set = args::argument(sequence::set_tokens(known_uids));
    let first = if earlier {
        encode::word(" (EARLIER)")
    } else {
        seq![]
    };
    reveal_strlit("* ");
    reveal_strlit("VANISHED");
    reveal_strlit("* VANISHED");
    reveal_strlit(" (EARLIER)");
    lemma_head("* VANISHED", "VANISHED");
    lemma_set_argument(known_uids, t);
    let r = encode::flat(set) + t;
    args::lemma_flat_then(first, set, t);
    encode::lemma_flat_word(" (EARLIER)");
    if earlier {
        reading::lemma_tag_no_case_reads(ascii::bytes_of(" (EARLIER)"), r);
    } else {
        assert(encode::flat(first) + r =~= r);
        reading::lemma_tag_no_case_rejects(ascii::bytes_of(" (EARLIER)"), r, 1);
    }
    encode::lemma_concat_assoc(encode::word("* VANISHED"), first, set);
    lemma_named_line(
        DataView::Vanished { earlier, known_uids },
        DataName::Vanished,
        encode::word("* VANISHED"),
        first + set,
        t,
    );
}

proof fn lemma_search_line(v: Seq<u32>, n: Option<u64>, t: Seq<u8>)
    requires
        args::all_wf(v, |x: u32| x > 0),
        n matches Some(n) ==> 0 < n <= NUMBER63_MAX,
        args::line_end(t),
    ensures
        reads_line(DataView::Search(v, n), t),
{
    reveal_strlit("* ");
    reveal_strlit("SEARCH");
    reveal_strlit("* SEARCH");
    lemma_head("* SEARCH", "SEARCH");
    answers::lemma_search_numbers_read(v, n, t);
    lemma_named_line(
        DataView::Search(v, n),
        DataName::Search,
        encode::word("* SEARCH"),
        answers::search_tokens(v, n),
        t,
    );
}

proof fn lemma_answer_line(a: AnswerView, t: Seq<u8>)
    requires
        answers::answer_wf(a),
        args::line_end(t),
    ensures
        reads_line(DataView::Answer(a), t),
{
    let n = answers::answer_name(a);
    let name = encode::plain(answers::answer_name_text(n));
    answers::lemma_arguments_read(a, t);
    encode::lemma_flat_add(encode::word("* "), name);
    encode::lemma_flat_word("* ");
    encode::lemma_flat_plain(answers::answer_name_text(n));
    lemma_named_line(
        DataView::Answer(a),
        DataName::Answer(n),
        encode::word("* ") + name,
        answers::arguments_tokens(a),
        t,
    );
}

/// Data of the form `* number NAME rest`.
proof fn lemma_numbered_line(d: DataView, n: u32, word: &str, rest: Seq<Token>, t: Seq<u8>)
    requires
        data_tokens(d) == encode::word("* ") + number_tokens(n as u64) + encode::word(word) + rest,
        word@.len() > 0,
        word@[0] == ' ',
        numbered_rule(n)(ascii::bytes_of(word).skip(1) + (encode::flat(rest) + t))
            == Outcome::Done(t, ResponseView::Data(d)),
    ensures
        reads_line(d, t),
{
    let space = ascii::bytes_of(" ");
    reveal_strlit(" ");
    let w = ascii::bytes_of(word).skip(1);
    let r = encode::flat(rest) + t;
    let star = encode::word("* ");
    let number = number_tokens(n as u64);
    encode::lemma_flat_word("* ");
    encode::lemma_flat_word(word);
    encode::lemma_flat_plain(number::decimal(n as nat));
    args::lemma_flat_then(star + number + encode::word(word), rest, t);
    args::lemma_flat_then(star + number, encode::word(word), r);
    args::lemma_flat_then(star, number, ascii::bytes_of(word) + r);
    assert(ascii::bytes_of(word) + r =~= space + (w + r));
    lemma_numbered_reads(n, w, r, t, ResponseView::Data(d));
}

proof fn lemma_count_line(d: DataView, t: Seq<u8>)
    requires
        data_wf(d),
        d is Exists || d is Recent || d is Expunge,
        args::line_end(t),
    ensures
        reads_line(d, t),
{
    reveal_strlit(" EXISTS");
    reveal_strlit(" RECENT");
    reveal_strlit(" EXPUNGE");
    reveal_strlit("EXISTS");
    reveal_strlit("RECENT");
    reveal_strlit("EXPUNGE");
    let none: Seq<Token> = seq![];
    assert(encode::flat(none) + t =~= t);
    encode::lemma_concat_empty(data_tokens(d));
    match d {
        DataView::Exists(n) => {
            assert(ascii::bytes_of(" EXISTS").skip(1) =~= ascii::bytes_of("EXISTS"));
            reading::lemma_tag_no_case_reads(ascii::bytes_of("EXISTS"), t);
            lemma_numbered_line(d, n, " EXISTS", none, t);
        },
        DataView::Recent(n) => {
            assert(ascii::bytes_of(" RECENT").skip(1) =~= ascii::bytes_of("RECENT"));
            let s = ascii::bytes_of("RECENT") + t;
            assert(s[0] == 'R' as u8);
            reading::lemma_tag_no_case_rejects(ascii::bytes_of("EXISTS"), s, 0);
            reading::lemma_tag_no_case_reads(ascii::bytes_of("RECENT"), t);
            lemma_numbered_line(d, n, " RECENT", none, t);
        },
        DataView::Expunge(n) => {
            assert(ascii::bytes_of(" EXPUNGE").skip(1) =~= ascii::bytes_of("EXPUNGE"));
            let s = ascii::bytes_of("EXPUNGE") + t;
            assert(s[0] == 'E' as u8 && s[2] == 'P' as u8);
            reading::lemma_tag_no_case_rejects(ascii::bytes_of("EXISTS"), s, 2);
            reading::lemma_tag_no_case_rejects(ascii::bytes_of("RECENT"), s, 0);
            reading::lemma_tag_no_case_reads(ascii::bytes_of("EXPUNGE"), t);
            lemma_numbered_line(d, n, " EXPUNGE", none, t);
        },
        _ => {},
    }
}

proof fn lemma_fetch_line(seq: u32, items: Seq<ItemView>, t: Seq<u8>)
    requires
        seq > 0,
        items.len() > 0,
        args::all_wf(items, |i: ItemView| item_wf(i)),
        args::line_end(t),
    ensures
        reads_line(DataView::Fetch { seq, items }, t),
{
    let tokens = encode::parts::<MessageDataItem>(items);
    let parts = encode::flat_parts(tokens);
    let list = encode::paren_tokens(tokens);
    reveal_strlit(" FETCH ");
    reveal_strlit("FETCH ");
    reveal_strlit("EXISTS");
    reveal_strlit("RECENT");
    reveal_strlit("EXPUNGE");
    encode::lemma_flat_paren(tokens);
    assert forall|i: int| 0 <= i < parts.len() implies reading::reads(
        item_rule(),
        #[trigger] parts[i],
        items[i],
    ) by {
        let wf = |i: ItemView| item_wf(i);
        assert(wf(items[i]));
        assert(parts[i] == encode::flat(tokens[i]));
        lemma_item_reads(items[i]);
    }
    reading::lemma_parens_reads(item_rule(), parts, items, t);
    let r = encode::flat(list) + t;
    let w = ascii::bytes_of("FETCH ");
    assert(ascii::bytes_of(" FETCH ").skip(1) =~= w);
    let s = w + r;
    assert(s[0] == 'F' as u8);
    reading::lemma_tag_no_case_rejects(ascii::bytes_of("EXISTS"), s, 0);
    reading::lemma_tag_no_case_rejects(ascii::bytes_of("RECENT"), s, 0);
    reading::lemma_tag_no_case_rejects(ascii::bytes_of("EXPUNGE"), s, 0);
    reading::lemma_tag_no_case_reads(w, r);
    lemma_numbered_line(DataView::Fetch { seq, items }, seq, " FETCH ", list, t);
}

proof fn lemma_list_line(d: DataView, t: Seq<u8>)
    requires
        data_wf(d),
        d is ListExtended,
        args::line_end(t),
    ensures
        reads_line(d, t),
{
    if let DataView::ListExtended { items, delimiter, mailbox, extensions } = d {
        let all = encode::flat(ext::list_data_tokens(items, delimiter, mailbox, extensions));
        ext::lemma_list_data_text(items, delimiter, mailbox, extensions);
        let s = ascii::bytes_of("LIST ") + (encode::flat(
            mailbox::mailbox_list_tokens((items, delimiter, mailbox)),
        ) + (ascii::bytes_of(" ") + encode::flat(
            encode::paren_tokens(encode::parts::<ListExtension>(extensions)),
        )));
        reveal_strlit("LIST ");
        encode::lemma_concat_assoc(ascii::bytes_of("* "), s, t);
        ext::lemma_list_data_reads(items, delimiter, mailbox, extensions, s, t);
        assert(s[0] == 'L' as u8);
        assert((s + t)[0] == 'L' as u8);
        number::lemma_number_rejects(s + t);
        reveal(untagged_rule);
        assert(untagged_rule()(s + t) == Outcome::Done(t, ResponseView::Data(d)));
    }
}

proof fn lemma_esearch_line(d: DataView, t: Seq<u8>)
    requires
        data_wf(d),
        d is ESearch,
        args::line_end(t),
    ensures
        reads_line(d, t),
{
    if let DataView::ESearch { tag, uid, items } = d {
        ext::lemma_esearch_text(tag, uid, items);
        let s = ascii::bytes_of("ESEARCH") + ext::esearch_tail(tag, uid, items);
        encode::lemma_concat_assoc(ascii::bytes_of("* "), s, t);
        ext::lemma_esearch_reads(tag, uid, items, t);
        reveal_strlit("ESEARCH");
        reveal_strlit("LIST ");
        assert((s + t)[0] == 'E' as u8);
        number::lemma_number_rejects(s + t);
        reading::lemma_tag_no_case_rejects(ascii::bytes_of("LIST "), s + t, 0);
        reveal(ext::list_data_rule);
        reveal(untagged_rule);
        assert(untagged_rule()(s + t) == Outcome::Done(t, ResponseView::Data(d)));
    }
}

proof fn lemma_data_line(d: DataView, t: Seq<u8>)
    requires
        data_wf(d),
        args::line_end(t),
    ensures
        reads_line(d, t),
{
    match d {
        DataView::Capability(v) => lemma_capability_line(v, t),
        DataView::List { items, delimiter, mailbox } => {
            lemma_mailbox_line((items, delimiter, mailbox), false, t);
        },
        DataView::Lsub { items, delimiter, mailbox } => {
            lemma_mailbox_line((items, delimiter, mailbox), true, t);
        },
        DataView::ListExtended { .. } => lemma_list_line(d, t),
        DataView::Status { mailbox, items } => lemma_status_line(mailbox, items, t),
        DataView::Search(v, n) => lemma_search_line(v, n, t),
        DataView::ESearch { .. } => lemma_esearch_line(d, t),
        DataView::Flags(v) => lemma_flags_line(v, t),
        DataView::Exists(_) | DataView::Recent(_) | DataView::Expunge(_) => lemma_count_line(d, t),
        DataView::Fetch { seq, items } => lemma_fetch_line(seq, items, t),
        DataView::Enabled { capabilities } => lemma_enabled_line(capabilities, t),
        DataView::Vanished { earlier, known_uids } => {
            lemma_vanished_line(earlier, known_uids, t);
        },
        DataView::Answer(a) => lemma_answer_line(a, t),
    }
}

/// A status response without a tag, behind `* `.
proof fn lemma_untagged_status_reads(r: ResponseView, t: Seq<u8>)
    requires
        response_wf(r),
        r matches ResponseView::Status(s) && !(s is Tagged),
        args::line_end(t),
    ensures
        exists|s: Seq<u8>|
            #![trigger untagged_rule()(s)]
            encode::flat(line_tokens(r)) + t == ascii::bytes_of("* ") + s && untagged_rule()(s)
                == Outcome::Done(t, r),
{
    let star = encode::word("* ");
    encode::lemma_flat_word("* ");
    reveal_strlit("* ");
    match r {
        ResponseView::Status(StatusView::Untagged(b)) => {
            let x = RespTextView { code: b.code, text: b.text };
            let w = kind_text(b.kind);
            let a = args::argument(resp_text_tokens(x));
            let k = match b.kind {
                StatusKind::Okay => DataName::Okay,
                StatusKind::No => DataName::No,
                StatusKind::Bad => DataName::Bad,
            };
            lemma_resp_text_argument(x, t);
            encode::lemma_flat_plain(w);
            args::lemma_flat_then(star, status_body_tokens(b), t);
            args::lemma_flat_then(encode::plain(w), a, t);
            assert(w == data_name_text(k));
            lemma_named_reads(k, encode::flat(a) + t, t, r);
        },
        ResponseView::Status(StatusView::Bye(x)) => {
            let a = args::argument(resp_text_tokens(x));
            reveal_strlit("BYE");
            reveal_strlit("* BYE");
            lemma_head("* BYE", "BYE");
            lemma_resp_text_argument(x, t);
            args::lemma_flat_then(encode::word("* BYE"), a, t);
            encode::lemma_concat_assoc(
                ascii::bytes_of("* "),
                ascii::bytes_of("BYE"),
                encode::flat(a) + t,
            );
            lemma_named_reads(DataName::Bye, encode::flat(a) + t, t, r);
        },
        _ => {},
    }
}

/// What is written of a response is read back as that response, whatever
/// follows.
pub proof fn law_response_is_read_back(r: ResponseView, rest: Seq<u8>)
    requires
        response_wf(r),
    ensures
        response_rule()(encode::flat(response_tokens(r)) + rest) == Outcome::Done(rest, r),
{
    let crlf = ascii::bytes_of("\r\n");
    let star = ascii::bytes_of("* ");
    let plus = ascii::bytes_of("+ ");
    let end = crlf + rest;
    encode::lemma_flat_word("\r\n");
    reveal_strlit("\r\n");
    reveal_strlit("* ");
    reveal_strlit("+ ");
    reveal_strlit(" ");
    args::lemma_flat_then(line_tokens(r), encode::word("\r\n"), rest);
    assert(end[0] == 0x0d);
    reading::lemma_tag_reads(crlf, rest);
    let all = encode::flat(line_tokens(r)) + end;
    reveal(response_rule);
    match r {
        ResponseView::CommandContinuationRequest(x) => {
            encode::lemma_flat_word("+ ");
            args::lemma_flat_then(encode::word("+ "), resp_text_tokens(x), end);
            lemma_resp_text_reads(x, end);
            reading::lemma_tag_reads(plus, encode::flat(resp_text_tokens(x)) + end);
        },
        ResponseView::Status(StatusView::Tagged { tag, body }) => {
            let space = encode::word(" ");
            let s = encode::flat(status_body_tokens(body)) + end;
            encode::lemma_flat_word(" ");
            encode::lemma_flat_plain(tag);
            args::lemma_flat_then(encode::plain(tag) + space, status_body_tokens(body), end);
            args::lemma_flat_then(encode::plain(tag), space, s);
            let behind = ascii::bytes_of(" ") + s;
            assert(behind[0] == 0x20);
            reading::lemma_take_while1_reads(|b: u8| is_tag_char(b), tag, behind);
            reading::lemma_tag_reads(ascii::bytes_of(" "), s);
            lemma_status_body_reads(body, end);
            let class = |b: u8| is_tag_char(b);
            assert(class(tag[0]));
            assert(all[0] == tag[0]);
            reading::lemma_tag_rejects(plus, all);
            reading::lemma_tag_rejects(star, all);
        },
        _ => {
            if let ResponseView::Data(d) = r {
                lemma_data_line(d, end);
            } else {
                lemma_untagged_status_reads(r, end);
            }
            let s = choose|s: Seq<u8>|
                #![trigger untagged_rule()(s)]
                all == star + s && untagged_rule()(s) == Outcome::Done(end, r);
            assert((star + s)[0] == '*' as u8);
            reading::lemma_tag_rejects(plus, star + s);
            reading::lemma_tag_reads(star, s);
        },
    }
}

// ------------------------------------------------------------------ executable

fn status_item<'a>(input: &'a [u8]) -> (res: IMAPResult<'a, StatusDataItem>)
    ensures
        g::agrees(res, status_item_rule()(input@)),
{
    proof {
        reveal(status_item_rule);
    }
    let (rest, name) = status_att(input)?;
    let (rest, _) = tag(rest, " ")?;
    let (rest, value) = number64(rest)?;
    if status_value_ok(name, value) {
        Ok((rest, StatusDataItem { name, value }))
    } else {
        Err(IMAPParseError::Error)
    }
}

pub fn nstring8<'a>(input: &'a [u8]) -> (res: IMAPResult<'a, NString8>)
    ensures
        g::agrees(res, nstring8_rule()(input@)),
{
    proof {
        reveal(nstring8_rule);
    }
    match literal8(input) {
        Ok((rest, s)) => return Ok((rest, NString8::Literal8(s))),
        Err(IMAPParseError::Error) => {},
        Err(e) => return Err(e),
    }
    let (rest, s) = nstring(input)?;
    Ok((rest, NString8::NString(s)))
}

fn origin<'a>(input: &'a [u8]) -> (res: IMAPResult<'a, u64>)
    ensures
        g::agrees(res, origin_rule()(input@)),
{
    let (rest, _) = tag(input, "<")?;
    let (rest, n) = number63(rest)?;
    let (rest, _) = tag(rest, ">")?;
    Ok((rest, n))
}

fn nstring_argument<'a>(input: &'a [u8]) -> (res: IMAPResult<'a, NString>)
    ensures
        g::agrees(res, args::sp(strings::nstring_rule())(input@)),
{
    let (rest, _) = tag(input, " ")?;
    nstring(rest)
}

fn number63_argument<'a>(input: &'a [u8]) -> (res: IMAPResult<'a, u64>)
    ensures
        g::agrees(res, args::sp(ext::number63_rule())(input@)),
{
    let (rest, _) = tag(input, " ")?;
    number63(rest)
}

fn nz_number_argument<'a>(input: &'a [u8]) -> (res: IMAPResult<'a, u32>)
    ensures
        g::agrees(res, args::sp(number::nz_number_rule())(input@)),
{
    let (rest, _) = tag(input, " ")?;
    nz_number(rest)
}

fn sequence_set_argument<'a>(input: &'a [u8]) -> (res: IMAPResult<'a, SequenceSet>)
    ensures
        g::agrees(res, args::sp(sequence::sequence_set_rule())(input@)),
{
    let (rest, _) = tag(input, " ")?;
    sequence_set(rest)
}

fn flags_argument<'a>(input: &'a [u8]) -> (res: IMAPResult<'a, Vec<Flag>>)
    ensures
        g::agrees(res, args::sp(flag::flag_list_rule())(input@)),
{
    let (rest, _) = tag(input, " ")?;
    flag_list(rest)
}

fn atoms<'a>(input: &'a [u8]) -> (res: IMAPResult<'a, Vec<Atom>>)
    ensures
        g::agrees(res, atoms_rule()(input@)),
{
    let (rest, _) = tag(input, " ")?;
    list1(rest, " ", atom, Ghost(strings::atom_rule()))
}

fn body_item<'a>(input: &'a [u8]) -> (res: IMAPResult<'a, MessageDataItem>)
    ensures
        g::agrees(res, body_item_rule()(input@)),
{
    proof {
        reveal(body_item_rule);
    }
    let (rest, section) = body_section(input)?;
    let (rest, origin) = match origin(rest) {
        Ok((behind, n)) => (behind, Some(n)),
        Err(IMAPParseError::Error) => (rest, None),
        Err(e) => return Err(e),
    };
    let (rest, data) = nstring_argument(rest)?;
    Ok((rest, MessageDataItem::BodyExt { section, origin, data }))
}

fn modseq_item<'a>(input: &'a [u8]) -> (res: IMAPResult<'a, u64>)
    ensures
        g::agrees(res, modseq_item_rule()(input@)),
{
    proof {
        reveal(modseq_item_rule);
    }
    let (rest, _) = tag(input, "(")?;
    let (rest, n) = mod_sequence_value(rest)?;
    let (rest, _) = tag(rest, ")")?;
    Ok((rest, n))
}

fn plain_item<'a>(input: &'a [u8], n: PlainItem) -> (res: IMAPResult<'a, MessageDataItem>)
    ensures
        g::agrees(res, plain_item_rule(n)(input@)),
{
    match n {
        PlainItem::Flags => {
            let (rest, v) = flags_argument(input)?;
            Ok((rest, MessageDataItem::Flags(v)))
        },
        PlainItem::InternalDate => {
            let (rest, _) = tag(input, " ")?;
            let (rest, d) = date_time(rest)?;
            Ok((rest, MessageDataItem::InternalDate(d)))
        },
        PlainItem::Rfc822 => {
            let (rest, s) = nstring_argument(input)?;
            Ok((rest, MessageDataItem::Rfc822(s)))
        },
        PlainItem::Rfc822Header => {
            let (rest, s) = nstring_argument(input)?;
            Ok((rest, MessageDataItem::Rfc822Header(s)))
        },
        PlainItem::Rfc822Text => {
            let (rest, s) = nstring_argument(input)?;
            Ok((rest, MessageDataItem::Rfc822Text(s)))
        },
        PlainItem::Rfc822Size => {
            let (rest, n) = number63_argument(input)?;
            Ok((rest, MessageDataItem::Rfc822Size(n)))
        },
        PlainItem::Uid => {
            let (rest, n) = nz_number_argument(input)?;
            Ok((rest, MessageDataItem::Uid(n)))
        },
        PlainItem::ModSeq => {
            let (rest, _) = tag(input, " ")?;
            let (rest, n) = modseq_item(rest)?;
            Ok((rest, MessageDataItem::ModSeq(n)))
        },
        PlainItem::Body => match body_item(input) {
            Err(IMAPParseError::Error) => {
                let (rest, _) = tag(input, " ")?;
                let (rest, b) = body(rest)?;
                Ok((rest, MessageDataItem::Body(b)))
            },
            res => res,
        },
        PlainItem::Envelope => {
            let (rest, _) = tag(input, " ")?;
            let (rest, e) = envelope(rest)?;
            Ok((rest, MessageDataItem::Envelope(e)))
        },
        PlainItem::BodyStructure => {
            let (rest, _) = tag(input, " ")?;
            let (rest, b) = body(rest)?;
            Ok((rest, MessageDataItem::BodyStructure(b)))
        },
    }
}

fn item_value<'a>(input: &'a [u8], w: &[u8]) -> (res: IMAPResult<'a, MessageDataItem>)
    ensures
        g::agrees(res, item_value_rule(w@)(input@)),
{
    if let Some(n) = find_plain_item(w) {
        return plain_item(input, n);
    }
    if ascii::is_word(w, "BINARY") {
        let (rest, section) = binary_section(input)?;
        let (rest, _) = tag(rest, " ")?;
        let (rest, value) = nstring8(rest)?;
        assert(section.deep_view() =~= section@);
        return Ok((rest, MessageDataItem::Binary { section, value }));
    }
    if ascii::is_word(w, "BINARY.SIZE") {
        let (rest, section) = binary_section(input)?;
        let (rest, size) = number63_argument(rest)?;
        assert(section.deep_view() =~= section@);
        return Ok((rest, MessageDataItem::BinarySize { section, size }));
    }
    Err(IMAPParseError::Error)
}

fn item<'a>(input: &'a [u8]) -> (res: IMAPResult<'a, MessageDataItem>)
    ensures
        g::agrees(res, item_rule()(input@)),
{
    proof {
        reveal(item_rule);
    }
    let (rest, w) = take_while1(input, is_item_char, Ghost(|b: u8| is_item_char(b)))?;
    assert(w.deep_view() =~= w@);
    item_value(rest, w.as_slice())
}

fn code_text<'a>(input: &'a [u8]) -> (res: IMAPResult<'a, Option<Vec<u8>>>)
    ensures
        g::agrees(res, g::opt(args::sp(g::take_while1_rule(|b: u8| is_code_char(b))))(input@)),
{
    let behind: &[u8] = match tag(input, " ") {
        Ok((behind, _)) => behind,
        Err(IMAPParseError::Error) => return Ok((input, None)),
        Err(e) => return Err(e),
    };
    match take_while1(behind, is_code_char, Ghost(|b: u8| is_code_char(b))) {
        Ok((rest, t)) => Ok((rest, Some(t))),
        Err(IMAPParseError::Error) => Ok((input, None)),
        Err(e) => Err(e),
    }
}

fn code_arguments<'a>(input: &'a [u8], name: Atom) -> (res: IMAPResult<'a, Code>)
    ensures
        g::agrees(res, code_arguments_rule(name.deep_view())(input@)),
{
    match find_code_name(name.bytes.as_slice()) {
        Some(CodeName::Alert) => Ok((input, Code::Alert)),
        Some(CodeName::Capability) => {
            let (rest, v) = atoms(input)?;
            Ok((rest, Code::Capability(v)))
        },
        Some(CodeName::Closed) => Ok((input, Code::Closed)),
        Some(CodeName::HighestModSeq) => {
            let (rest, _) = tag(input, " ")?;
            let (rest, n) = mod_sequence_value(rest)?;
            Ok((rest, Code::HighestModSeq(n)))
        },
        Some(CodeName::Modified) => {
            let (rest, s) = sequence_set_argument(input)?;
            Ok((rest, Code::Modified(s)))
        },
        Some(CodeName::NoModSeq) => Ok((input, Code::NoModSeq)),
        Some(CodeName::Parse) => Ok((input, Code::Parse)),
        Some(CodeName::ReadOnly) => Ok((input, Code::ReadOnly)),
        Some(CodeName::ReadWrite) => Ok((input, Code::ReadWrite)),
        Some(CodeName::TryCreate) => Ok((input, Code::TryCreate)),
        Some(CodeName::UidNext) => {
            let (rest, n) = nz_number_argument(input)?;
            Ok((rest, Code::UidNext(n)))
        },
        Some(CodeName::UidValidity) => {
            let (rest, n) = nz_number_argument(input)?;
            Ok((rest, Code::UidValidity(n)))
        },
        Some(CodeName::Unseen) => {
            let (rest, n) = nz_number_argument(input)?;
            Ok((rest, Code::Unseen(n)))
        },
        None => {
            let (rest, text) = code_text(input)?;
            assert(text matches Some(t) ==> t.deep_view() =~= t@);
            Ok((rest, Code::Other { name, text }))
        },
    }
}

pub fn resp_text_code<'a>(input: &'a [u8]) -> (res: IMAPResult<'a, Code>)
    ensures
        g::agrees(res, resp_text_code_rule()(input@)),
{
    proof {
        reveal(resp_text_code_rule);
    }
    let (rest, name) = atom(input)?;
    code_arguments(rest, name)
}

fn text<'a>(input: &'a [u8]) -> (res: IMAPResult<'a, Vec<u8>>)
    ensures
        g::agrees(res, text_rule()(input@)),
{
    proof {
        reveal(text_rule);
    }
    let (rest, b) = take_while(input, is_text_byte, Ghost(|b: u8| is_text_byte(b)))?;
    assert(b.deep_view() =~= b@);
    if utf8::is_utf8(b.as_slice()) {
        Ok((rest, b))
    } else {
        Err(IMAPParseError::Error)
    }
}

fn bracketed_code<'a>(input: &'a [u8]) -> (res: IMAPResult<'a, Code>)
    ensures
        g::agrees(
            res,
            g::delimited(g::text("["), resp_text_code_rule(), g::text("]"))(input@),
        ),
{
    let (rest, _) = tag(input, "[")?;
    let (rest, code) = resp_text_code(rest)?;
    let (rest, _) = tag(rest, "]")?;
    Ok((rest, code))
}

fn text_behind_code<'a>(input: &'a [u8]) -> (res: IMAPResult<'a, Vec<u8>>)
    ensures
        g::agrees(res, g::alt(args::sp(text_rule()), g::success(seq![]))(input@)),
{
    let none: Vec<u8> = Vec::new();
    assert(none.deep_view() =~= seq![]);
    let behind: &[u8] = match tag(input, " ") {
        Ok((behind, _)) => behind,
        Err(IMAPParseError::Error) => return Ok((input, none)),
        Err(e) => return Err(e),
    };
    match text(behind) {
        Err(IMAPParseError::Error) => Ok((input, none)),
        res => res,
    }
}

fn coded_text<'a>(input: &'a [u8]) -> (res: IMAPResult<'a, RespText>)
    ensures
        g::agrees(
            res,
            g::mapped(
                g::pair(
                    g::delimited(g::text("["), resp_text_code_rule(), g::text("]")),
                    g::alt(args::sp(text_rule()), g::success(seq![])),
                ),
                |p: (CodeView, Seq<u8>)| RespTextView { code: Some(p.0), text: p.1 },
            )(input@),
        ),
{
    let (rest, code) = bracketed_code(input)?;
    let (rest, text) = text_behind_code(rest)?;
    assert(text.deep_view() =~= text@);
    Ok((rest, RespText { code: Some(code), text }))
}

pub fn resp_text<'a>(input: &'a [u8]) -> (res: IMAPResult<'a, RespText>)
    ensures
        g::agrees(res, resp_text_rule()(input@)),
{
    proof {
        reveal(resp_text_rule);
    }
    match coded_text(input) {
        Err(IMAPParseError::Error) => {},
        res => return res,
    }
    let (rest, text) = text(input)?;
    assert(text.deep_view() =~= text@);
    if text.len() == 0 || text[0] != '[' as u8 {
        Ok((rest, RespText { code: None, text }))
    } else {
        Err(IMAPParseError::Error)
    }
}

fn kind<'a>(input: &'a [u8]) -> (res: IMAPResult<'a, StatusKind>)
    ensures
        match res {
            Ok((rest, k)) => kind_rule()(input@) == Outcome::Done(rest@, k),
            Err(e) => kind_rule()(input@) == g::error_outcome::<StatusKind>(e),
        },
{
    match tag_no_case(input, "OK") {
        Ok((rest, _)) => return Ok((rest, StatusKind::Okay)),
        Err(IMAPParseError::Error) => {},
        Err(e) => return Err(e),
    }
    match tag_no_case(input, "NO") {
        Ok((rest, _)) => return Ok((rest, StatusKind::No)),
        Err(IMAPParseError::Error) => {},
        Err(e) => return Err(e),
    }
    let (rest, _) = tag_no_case(input, "BAD")?;
    Ok((rest, StatusKind::Bad))
}

fn status_body<'a>(input: &'a [u8]) -> (res: IMAPResult<'a, StatusBody>)
    ensures
        g::agrees(res, status_body_rule()(input@)),
{
    proof {
        reveal(status_body_rule);
    }
    let (rest, kind) = kind(input)?;
    let (rest, _) = tag(rest, " ")?;
    let (rest, x) = resp_text(rest)?;
    Ok((rest, StatusBody { kind, code: x.code, text: x.text }))
}

fn untagged_status<'a>(input: &'a [u8], kind: StatusKind) -> (res: IMAPResult<'a, Response>)
    ensures
        g::agrees(res, untagged_status_rule(kind)(input@)),
{
    let (rest, _) = tag(input, " ")?;
    let (rest, x) = resp_text(rest)?;
    Ok((rest, Response::Status(Status::Untagged(StatusBody { kind, code: x.code, text: x.text }))))
}

fn mailbox_data<'a>(input: &'a [u8], lsub: bool) -> (res: IMAPResult<'a, Response>)
    ensures
        g::agrees(
            res,
            data_arguments_rule(
                if lsub {
                    DataName::Lsub
                } else {
                    DataName::List
                },
            )(input@),
        ),
{
    let (rest, _) = tag(input, " ")?;
    let (rest, (items, delimiter, mailbox)) = mailbox_list(rest)?;
    if lsub {
        Ok((rest, Response::Data(Data::Lsub { items, delimiter, mailbox })))
    } else {
        Ok((rest, Response::Data(Data::List { items, delimiter, mailbox })))
    }
}

fn status_data<'a>(input: &'a [u8]) -> (res: IMAPResult<'a, Response>)
    ensures
        g::agrees(res, data_arguments_rule(DataName::Status)(input@)),
{
    let (rest, _) = tag(input, " ")?;
    let (rest, mailbox) = mailbox(rest)?;
    let (rest, _) = tag(rest, " ")?;
    let (rest, items) = parens0(rest, status_item, Ghost(status_item_rule()))?;
    Ok((rest, Response::Data(Data::Status { mailbox, items })))
}

fn vanished<'a>(input: &'a [u8]) -> (res: IMAPResult<'a, Response>)
    ensures
        g::agrees(res, data_arguments_rule(DataName::Vanished)(input@)),
{
    let (rest, earlier) = match tag_no_case(input, " (EARLIER)") {
        Ok((behind, _)) => (behind, true),
        Err(IMAPParseError::Error) => (input, false),
        Err(e) => return Err(e),
    };
    let (rest, known_uids) = sequence_set_argument(rest)?;
    Ok((rest, Response::Data(Data::Vanished { earlier, known_uids })))
}

fn data_arguments<'a>(input: &'a [u8], n: DataName) -> (res: IMAPResult<'a, Response>)
    ensures
        g::agrees(res, data_arguments_rule(n)(input@)),
{
    match n {
        DataName::Okay => untagged_status(input, StatusKind::Okay),
        DataName::No => untagged_status(input, StatusKind::No),
        DataName::Bad => untagged_status(input, StatusKind::Bad),
        DataName::Bye => {
            let (rest, _) = tag(input, " ")?;
            let (rest, x) = resp_text(rest)?;
            Ok((rest, Response::Status(Status::Bye(x))))
        },
        DataName::Capability => {
            let (rest, v) = atoms(input)?;
            Ok((rest, Response::Data(Data::Capability(v))))
        },
        DataName::List => mailbox_data(input, false),
        DataName::Lsub => mailbox_data(input, true),
        DataName::Status => status_data(input),
        DataName::Search => {
            let (rest, (v, n)) = search_numbers(input)?;
            Ok((rest, Response::Data(Data::Search(v, n))))
        },
        DataName::Flags => {
            let (rest, v) = flags_argument(input)?;
            Ok((rest, Response::Data(Data::Flags(v))))
        },
        DataName::Enabled => {
            let (rest, capabilities) = repeat(input, " ", atom, Ghost(strings::atom_rule()))?;
            Ok((rest, Response::Data(Data::Enabled { capabilities })))
        },
        DataName::Vanished => vanished(input),
        DataName::Answer(n) => {
            let (rest, a) = answer(input, n)?;
            Ok((rest, Response::Data(Data::Answer(a))))
        },
    }
}

fn numbered<'a>(input: &'a [u8], n: u32) -> (res: IMAPResult<'a, Response>)
    ensures
        g::agrees(res, numbered_rule(n)(input@)),
{
    match tag_no_case(input, "EXISTS") {
        Ok((rest, _)) => return Ok((rest, Response::Data(Data::Exists(n)))),
        Err(IMAPParseError::Error) => {},
        Err(e) => return Err(e),
    }
    match tag_no_case(input, "RECENT") {
        Ok((rest, _)) => return Ok((rest, Response::Data(Data::Recent(n)))),
        Err(IMAPParseError::Error) => {},
        Err(e) => return Err(e),
    }
    if n == 0 {
        return Err(IMAPParseError::Error);
    }
    match tag_no_case(input, "EXPUNGE") {
        Ok((rest, _)) => return Ok((rest, Response::Data(Data::Expunge(n)))),
        Err(IMAPParseError::Error) => {},
        Err(e) => return Err(e),
    }
    let (rest, _) = tag_no_case(input, "FETCH ")?;
    let (rest, items) = parens1(rest, item, Ghost(item_rule()))?;
    Ok((rest, Response::Data(Data::Fetch { seq: n, items })))
}

fn numbered_data<'a>(input: &'a [u8]) -> (res: IMAPResult<'a, Response>)
    ensures
        g::agrees(
            res,
            g::chain(
                g::terminated(number::number_rule(), g::text(" ")),
                |n: u32| numbered_rule(n),
            )(input@),
        ),
{
    let (rest, n) = number(input)?;
    let (rest, _) = tag(rest, " ")?;
    numbered(rest, n)
}

fn untagged<'a>(input: &'a [u8]) -> (res: IMAPResult<'a, Response>)
    ensures
        g::agrees(res, untagged_rule()(input@)),
{
    proof {
        reveal(untagged_rule);
    }
    match numbered_data(input) {
        Err(IMAPParseError::Error) => {},
        res => return res,
    }
    match list_data(input) {
        Ok((rest, d)) => return Ok((rest, Response::Data(d))),
        Err(IMAPParseError::Error) => {},
        Err(e) => return Err(e),
    }
    match esearch(input) {
        Ok((rest, d)) => return Ok((rest, Response::Data(d))),
        Err(IMAPParseError::Error) => {},
        Err(e) => return Err(e),
    }
    let (rest, w) = take_while1(input, is_alpha, Ghost(|b: u8| is_alpha(b)))?;
    assert(w.deep_view() =~= w@);
    match find_data_name(w.as_slice()) {
        Some(n) => data_arguments(rest, n),
        None => Err(IMAPParseError::Error),
    }
}

fn continuation<'a>(input: &'a [u8]) -> (res: IMAPResult<'a, RespText>)
    ensures
        g::agrees(
            res,
            g::delimited(g::text("+ "), resp_text_rule(), g::text("\r\n"))(input@),
        ),
{
    let (rest, _) = tag(input, "+ ")?;
    let (rest, x) = resp_text(rest)?;
    let (rest, _) = tag(rest, "\r\n")?;
    Ok((rest, x))
}

fn untagged_line<'a>(input: &'a [u8]) -> (res: IMAPResult<'a, Response>)
    ensures
        g::agrees(
            res,
            g::delimited(g::text("* "), untagged_rule(), g::text("\r\n"))(input@),
        ),
{
    let (rest, _) = tag(input, "* ")?;
    let (rest, r) = untagged(rest)?;
    let (rest, _) = tag(rest, "\r\n")?;
    Ok((rest, r))
}

pub fn response<'a>(input: &'a [u8]) -> (res: IMAPResult<'a, Response>)
    ensures
        g::agrees(res, response_rule()(input@)),
{
    proof {
        reveal(response_rule);
    }
    match continuation(input) {
        Ok((rest, x)) => return Ok((rest, Response::CommandContinuationRequest(x))),
        Err(IMAPParseError::Error) => {},
        Err(e) => return Err(e),
    }
    match untagged_line(input) {
        Err(IMAPParseError::Error) => {},
        res => return res,
    }
    let (rest, name) = take_while1(input, is_tag_char, Ghost(|b: u8| is_tag_char(b)))?;
    assert(name.deep_view() =~= name@);
    let (rest, _) = tag(rest, " ")?;
    let (rest, body) = status_body(rest)?;
    let (rest, _) = tag(rest, "\r\n")?;
    Ok((rest, Response::Status(Status::Tagged(Tagged { tag: name, body }))))
}

impl EncodeIntoContext for StatusDataItem {
    open spec fn tokens(v: StatusDataItem) -> Seq<Token> {
        status_item_tokens(v)
    }

    fn encode_ctx(&self, ctx: &mut EncodeContext) {
        self.name.encode_ctx(ctx);
        ctx.write_text(" ");
        write_number(ctx, self.value);
        assert(ctx@ =~= old(ctx)@ + Self::tokens(self.deep_view()));
    }
}

impl EncodeIntoContext for NString8 {
    open spec fn tokens(v: NString8View) -> Seq<Token> {
        nstring8_tokens(v)
    }

    fn encode_ctx(&self, ctx: &mut EncodeContext) {
        match self {
            NString8::NString(s) => s.encode_ctx(ctx),
            NString8::Literal8(s) => {
                ctx.write_text("~");
                s.encode_ctx(ctx);
            },
        }
        assert(ctx@ =~= old(ctx)@ + Self::tokens(self.deep_view()));
    }
}

fn write_number_argument(n: u64, ctx: &mut EncodeContext)
    ensures
        final(ctx)@ == old(ctx)@ + args::argument(number_tokens(n)),
{
    ctx.write_text(" ");
    write_number(ctx, n);
}

fn write_origin(origin: Option<u64>, ctx: &mut EncodeContext)
    ensures
        final(ctx)@ == old(ctx)@ + origin_tokens(origin),
{
    if let Some(n) = origin {
        ctx.write_text("<");
        write_number(ctx, n);
        ctx.write_text(">");
    }
    assert(ctx@ =~= old(ctx)@ + origin_tokens(origin));
}

fn write_modseq(n: u64, ctx: &mut EncodeContext)
    ensures
        final(ctx)@ == old(ctx)@ + args::argument(
            encode::word("(") + number_tokens(n) + encode::word(")"),
        ),
{
    ctx.write_text(" ");
    ctx.write_text("(");
    write_number(ctx, n);
    ctx.write_text(")");
    assert(ctx@ =~= old(ctx)@ + args::argument(
        encode::word("(") + number_tokens(n) + encode::word(")"),
    ));
}

fn write_item_name(i: &MessageDataItem, ctx: &mut EncodeContext)
    ensures
        encode::wrote(old(ctx)@, final(ctx)@, item_name_tokens(i.deep_view())),
{
    match i {
        MessageDataItem::Flags(_) => ctx.write_text("FLAGS"),
        MessageDataItem::InternalDate(_) => ctx.write_text("INTERNALDATE"),
        MessageDataItem::Rfc822(_) => ctx.write_text("RFC822"),
        MessageDataItem::Rfc822Header(_) => ctx.write_text("RFC822.HEADER"),
        MessageDataItem::Rfc822Text(_) => ctx.write_text("RFC822.TEXT"),
        MessageDataItem::Rfc822Size(_) => ctx.write_text("RFC822.SIZE"),
        MessageDataItem::Uid(_) => ctx.write_text("UID"),
        MessageDataItem::BodyExt { section, origin, .. } => {
            ctx.write_text("BODY");
            write_body_section(section, ctx);
            write_origin(*origin, ctx);
            assert(ctx@ =~= old(ctx)@ + item_name_tokens(i.deep_view()));
        },
        MessageDataItem::Binary { section, .. } => {
            ctx.write_text("BINARY");
            write_binary_section(section, ctx);
            assert(ctx@ =~= old(ctx)@ + item_name_tokens(i.deep_view()));
        },
        MessageDataItem::BinarySize { section, .. } => {
            ctx.write_text("BINARY.SIZE");
            write_binary_section(section, ctx);
            assert(ctx@ =~= old(ctx)@ + item_name_tokens(i.deep_view()));
        },
        MessageDataItem::ModSeq(_) => ctx.write_text("MODSEQ"),
        MessageDataItem::Envelope(_) => ctx.write_text("ENVELOPE"),
        MessageDataItem::Body(_) => ctx.write_text("BODY"),
        MessageDataItem::BodyStructure(_) => ctx.write_text("BODYSTRUCTURE"),
    }
}

fn write_item_value(i: &MessageDataItem, ctx: &mut EncodeContext)
    ensures
        encode::wrote(old(ctx)@, final(ctx)@, args::argument(item_value_tokens(i.deep_view()))),
{
    match i {
        MessageDataItem::Flags(v) => {
            ctx.write_text(" ");
            write_flags(v, ctx);
            assert(ctx@ =~= old(ctx)@ + args::argument(item_value_tokens(i.deep_view())));
        },
        MessageDataItem::InternalDate(d) => write_argument(d, ctx),
        MessageDataItem::Rfc822(s) => write_argument(s, ctx),
        MessageDataItem::Rfc822Header(s) => write_argument(s, ctx),
        MessageDataItem::Rfc822Text(s) => write_argument(s, ctx),
        MessageDataItem::Rfc822Size(n) => write_number_argument(*n, ctx),
        MessageDataItem::Uid(n) => write_number_argument(*n as u64, ctx),
        MessageDataItem::BodyExt { data, .. } => write_argument(data, ctx),
        MessageDataItem::Binary { value, .. } => write_argument(value, ctx),
        MessageDataItem::BinarySize { size, .. } => write_number_argument(*size, ctx),
        MessageDataItem::ModSeq(n) => write_modseq(*n, ctx),
        MessageDataItem::Envelope(e) => write_argument(e, ctx),
        MessageDataItem::Body(b) => write_argument(b, ctx),
        MessageDataItem::BodyStructure(b) => write_argument(b, ctx),
    }
}

impl EncodeIntoContext for MessageDataItem {
    open spec fn tokens(v: ItemView) -> Seq<Token> {
        item_tokens(v)
    }

    fn encode_ctx(&self, ctx: &mut EncodeContext) {
        write_item_name(self, ctx);
        write_item_value(self, ctx);
        assert(ctx@ =~= old(ctx)@ + Self::tokens(self.deep_view()));
    }
}

fn write_atoms(v: &Vec<Atom>, ctx: &mut EncodeContext)
    ensures
        final(ctx)@ == old(ctx)@ + atoms_tokens(v.deep_view()),
{
    ctx.write_text(" ");
    join_serializable(v.as_slice(), " ", ctx);
    assert(ctx@ =~= old(ctx)@ + atoms_tokens(v.deep_view()));
}

fn write_code_name(c: &Code, ctx: &mut EncodeContext)
    ensures
        encode::wrote(old(ctx)@, final(ctx)@, code_name_tokens(c.deep_view())),
{
    match c {
        Code::Alert => ctx.write_text("ALERT"),
        Code::Capability(_) => ctx.write_text("CAPABILITY"),
        Code::Closed => ctx.write_text("CLOSED"),
        Code::HighestModSeq(_) => ctx.write_text("HIGHESTMODSEQ"),
        Code::Modified(_) => ctx.write_text("MODIFIED"),
        Code::NoModSeq => ctx.write_text("NOMODSEQ"),
        Code::Parse => ctx.write_text("PARSE"),
        Code::ReadOnly => ctx.write_text("READ-ONLY"),
        Code::ReadWrite => ctx.write_text("READ-WRITE"),
        Code::TryCreate => ctx.write_text("TRYCREATE"),
        Code::UidNext(_) => ctx.write_text("UIDNEXT"),
        Code::UidValidity(_) => ctx.write_text("UIDVALIDITY"),
        Code::Unseen(_) => ctx.write_text("UNSEEN"),
        Code::Other { name, .. } => name.encode_ctx(ctx),
    }
}

fn write_code_value(c: &Code, ctx: &mut EncodeContext)
    ensures
        encode::wrote(old(ctx)@, final(ctx)@, code_value_tokens(c.deep_view())),
{
    match c {
        Code::Capability(v) => write_atoms(v, ctx),
        Code::HighestModSeq(n) => write_number_argument(*n, ctx),
        Code::Modified(s) => write_argument(s, ctx),
        Code::UidNext(n) => write_number_argument(*n as u64, ctx),
        Code::UidValidity(n) => write_number_argument(*n as u64, ctx),
        Code::Unseen(n) => write_number_argument(*n as u64, ctx),
        Code::Other { text: Some(t), .. } => {
            ctx.write_text(" ");
            ctx.write_bytes(t.as_slice());
            assert(ctx@ =~= old(ctx)@ + code_value_tokens(c.deep_view()));
        },
        _ => {
            proof {
                encode::lemma_concat_empty(ctx@);
            }
        },
    }
}

impl EncodeIntoContext for Code {
    open spec fn tokens(v: CodeView) -> Seq<Token> {
        code_tokens(v)
    }

    fn encode_ctx(&self, ctx: &mut EncodeContext) {
        write_code_name(self, ctx);
        write_code_value(self, ctx);
        assert(ctx@ =~= old(ctx)@ + Self::tokens(self.deep_view()));
    }
}

fn write_text_of(code: &Option<Code>, text: &Vec<u8>, ctx: &mut EncodeContext)
    ensures
        final(ctx)@ == old(ctx)@ + resp_text_tokens(
            (RespTextView { code: code.deep_view(), text: text@ }),
        ),
{
    match code {
        Some(c) => {
            ctx.write_text("[");
            c.encode_ctx(ctx);
            ctx.write_text("]");
            if text.len() > 0 {
                ctx.write_text(" ");
                ctx.write_bytes(text.as_slice());
            }
        },
        None => ctx.write_bytes(text.as_slice()),
    }
    assert(ctx@ =~= old(ctx)@ + resp_text_tokens(
        (RespTextView { code: code.deep_view(), text: text@ }),
    ));
}

impl EncodeIntoContext for RespText {
    open spec fn tokens(v: RespTextView) -> Seq<Token> {
        resp_text_tokens(v)
    }

    fn encode_ctx(&self, ctx: &mut EncodeContext) {
        write_text_of(&self.code, &self.text, ctx);
        assert(ctx@ =~= old(ctx)@ + Self::tokens(self.deep_view()));
    }
}

impl EncodeIntoContext for StatusBody {
    open spec fn tokens(v: StatusBodyView) -> Seq<Token> {
        status_body_tokens(v)
    }

    fn encode_ctx(&self, ctx: &mut EncodeContext) {
        match self.kind {
            StatusKind::Okay => ctx.write_text("OK"),
            StatusKind::No => ctx.write_text("NO"),
            StatusKind::Bad => ctx.write_text("BAD"),
        }
        ctx.write_text(" ");
        write_text_of(&self.code, &self.text, ctx);
        assert(ctx@ =~= old(ctx)@ + Self::tokens(self.deep_view()));
    }
}

fn write_mailbox_list(
    items: &Vec<FlagNameAttribute>,
    delimiter: &Option<QuotedChar>,
    mailbox: &Mailbox,
    ctx: &mut EncodeContext,
)
    ensures
        final(ctx)@ == old(ctx)@ + args::argument(
            mailbox::mailbox_list_tokens(
                (items.deep_view(), delimiter.deep_view(), mailbox.deep_view()),
            ),
        ),
{
    write_list(items, ctx);
    ctx.write_text(" ");
    write_delimiter(delimiter, ctx);
    write_argument(mailbox, ctx);
    assert(ctx@ =~= old(ctx)@ + args::argument(
        mailbox::mailbox_list_tokens(
            (items.deep_view(), delimiter.deep_view(), mailbox.deep_view()),
        ),
    ));
}

fn write_numbered(n: u32, word: &str, ctx: &mut EncodeContext)
    ensures
        encode::wrote(
            old(ctx)@,
            final(ctx)@,
            encode::word("* ") + number_tokens(n as u64) + encode::word(word),
        ),
{
    ctx.write_text("* ");
    write_number(ctx, n as u64);
    ctx.write_text(word);
    assert(ctx@ =~= old(ctx)@ + (encode::word("* ") + number_tokens(n as u64) + encode::word(
        word,
    )));
}

fn write_mailbox_data(d: &Data, ctx: &mut EncodeContext)
    requires
        d is List || d is Lsub || d is ListExtended || d is Status || d is ESearch || d is Vanished,
    ensures
        encode::wrote(old(ctx)@, final(ctx)@, data_tokens(d.deep_view())),
{
    match d {
        Data::List { items, delimiter, mailbox } => {
            ctx.write_text("* LIST");
            write_mailbox_list(items, delimiter, mailbox, ctx);
            assert(ctx@ =~= old(ctx)@ + data_tokens(d.deep_view()));
        },
        Data::Lsub { items, delimiter, mailbox } => {
            ctx.write_text("* LSUB");
            write_mailbox_list(items, delimiter, mailbox, ctx);
            assert(ctx@ =~= old(ctx)@ + data_tokens(d.deep_view()));
        },
        Data::ListExtended { items, delimiter, mailbox, extensions } => encode_list_data(
            items,
            delimiter,
            mailbox,
            extensions,
            ctx,
        ),
        Data::Status { mailbox, items } => {
            ctx.write_text("* STATUS");
            write_with_list(mailbox, items, ctx);
            assert(ctx@ =~= old(ctx)@ + data_tokens(d.deep_view()));
        },
        Data::ESearch { tag, uid, items } => encode_esearch(tag, *uid, items, ctx),
        Data::Vanished { earlier, known_uids } => {
            ctx.write_text("* VANISHED");
            if *earlier {
                ctx.write_text(" (EARLIER)");
            }
            write_argument(known_uids, ctx);
            assert(ctx@ =~= old(ctx)@ + data_tokens(d.deep_view()));
        },
        _ => {},
    }
}

fn write_other_data(d: &Data, ctx: &mut EncodeContext)
    requires
        !(d is List || d is Lsub || d is ListExtended || d is Status || d is ESearch
            || d is Vanished),
    ensures
        encode::wrote(old(ctx)@, final(ctx)@, data_tokens(d.deep_view())),
{
    match d {
        Data::Capability(v) => {
            ctx.write_text("* CAPABILITY");
            write_atoms(v, ctx);
            assert(ctx@ =~= old(ctx)@ + data_tokens(d.deep_view()));
        },
        Data::Search(v, n) => {
            ctx.write_text("* SEARCH");
            write_search_numbers(v, n, ctx);
            assert(ctx@ =~= old(ctx)@ + data_tokens(d.deep_view()));
        },
        Data::Flags(v) => {
            ctx.write_text("* FLAGS");
            ctx.write_text(" ");
            write_flags(v, ctx);
            assert(ctx@ =~= old(ctx)@ + data_tokens(d.deep_view()));
        },
        Data::Exists(n) => write_numbered(*n, " EXISTS", ctx),
        Data::Recent(n) => write_numbered(*n, " RECENT", ctx),
        Data::Expunge(n) => write_numbered(*n, " EXPUNGE", ctx),
        Data::Fetch { seq, items } => {
            write_numbered(*seq, " FETCH ", ctx);
            write_parens(items.as_slice(), ctx);
            assert(ctx@ =~= old(ctx)@ + data_tokens(d.deep_view()));
        },
        Data::Enabled { capabilities } => {
            ctx.write_text("* ENABLED");
            write_spread(capabilities.as_slice(), " ", ctx);
            assert(ctx@ =~= old(ctx)@ + data_tokens(d.deep_view()));
        },
        Data::Answer(a) => a.encode_ctx(ctx),
        _ => {},
    }
}

impl EncodeIntoContext for Data {
    open spec fn tokens(v: DataView) -> Seq<Token> {
        data_tokens(v)
    }

    fn encode_ctx(&self, ctx: &mut EncodeContext) {
        match self {
            Data::List { .. }
            | Data::Lsub { .. }
            | Data::ListExtended { .. }
            | Data::Status { .. }
            | Data::ESearch { .. }
            | Data::Vanished { .. } => write_mailbox_data(self, ctx),
            _ => write_other_data(self, ctx),
        }
        assert(ctx@ =~= old(ctx)@ + Self::tokens(self.deep_view()));
    }
}

impl EncodeIntoContext for Response {
    open spec fn tokens(v: ResponseView) -> Seq<Token> {
        response_tokens(v)
    }

    fn encode_ctx(&self, ctx: &mut EncodeContext) {
        match self {
            Response::Data(d) => d.encode_ctx(ctx),
            Response::Status(Status::Untagged(b)) => {
                ctx.write_text("* ");
                b.encode_ctx(ctx);
            },
            Response::Status(Status::Tagged(t)) => {
                ctx.write_bytes(t.tag.as_slice());
                ctx.write_text(" ");
                t.body.encode_ctx(ctx);
            },
            Response::Status(Status::Bye(x)) => {
                ctx.write_text("* BYE");
                write_argument(x, ctx);
            },
            Response::CommandContinuationRequest(x) => {
                ctx.write_text("+ ");
                x.encode_ctx(ctx);
            },
        }
        ctx.write_text("\r\n");
        assert(ctx@ =~= old(ctx)@ + Self::tokens(self.deep_view()));
    }
}

} // verus!
