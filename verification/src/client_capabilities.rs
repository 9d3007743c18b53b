//! Client-side capability and ENABLE state. Advertising an extension never
//! silently enables it. A new transport starts with a new instance.
use vstd::prelude::*;

use crate::append;
use crate::append::{StreamedAppend, StreamedAppendView};
use crate::ascii;
use crate::capability_set::CapabilitySet;
use crate::codec::ResponseCodec;
use crate::command;
use crate::command::{
    write_command, BodyView, CommandBody, CommandView, CompressionAlgorithm, FetchModifier,
    LiteralOrLiteral8, SelectParameter, SelectParameterView,
};
use crate::encode;
use crate::encode::{EncodeContext, Encoded, Fragment, LiteralMode, Token};
use crate::fetch::{
    ItemNameView, ItemNamesView, MacroOrMessageDataItemNames, MessageDataItemName, PlainItem,
};
use crate::response;
use crate::response::{Code, CodeView, Data, DataView, Response, ResponseView, Status, StatusView};
use crate::rev2::{
    ListReturn, ListReturnView, MessageSet, MessageSetView, SearchReturn, SearchReturnView,
};
use crate::search;
use crate::search::{FlagKey, KeyView, SearchKey};
use crate::sequence::{SeqOrUid, Sequence, SequenceSet};
use crate::status::StatusDataItemName;
use crate::strings::{Atom, Charset, StringView};
use crate::utf8;

verus! {

/// The version of IMAP that the client has declared to speak.
#[derive(Clone, Copy, Debug, PartialEq, Eq, Structural)]
pub enum Version {
    Rev1,
    Rev2,
}

/// What the server has advertised and what has been enabled since.
#[derive(Debug)]
pub struct ClientCapabilities {
    advertised: CapabilitySet,
    enabled: CapabilitySet,
    version: Version,
}

pub struct CapabilitiesView {
    pub advertised: Set<Seq<char>>,
    pub enabled: Set<Seq<char>>,
    pub version: Version,
}

impl View for ClientCapabilities {
    type V = CapabilitiesView;

    closed spec fn view(&self) -> CapabilitiesView {
        CapabilitiesView {
            advertised: self.advertised@,
            enabled: self.enabled@,
            version: self.version,
        }
    }
}

// ---------------------------------------------------------------- capabilities

/// IMAP4rev2 is in force: it was declared and advertised, and a server that
/// also speaks IMAP4rev1 was told to enable it.
pub open spec fn rev2_is_active(c: CapabilitiesView) -> bool {
    c.version == Version::Rev2 && c.advertised.contains("IMAP4REV2"@) && (!c.advertised.contains(
        "IMAP4REV1"@,
    ) || c.enabled.contains("IMAP4REV2"@))
}

pub open spec fn utf8_is_active(c: CapabilitiesView) -> bool {
    rev2_is_active(c) || c.enabled.contains("UTF8=ACCEPT"@) || c.enabled.contains("UTF8=ONLY"@)
}

/// The capabilities that IMAP4rev2 brings with it.
pub open spec fn is_intrinsic(name: Seq<char>) -> bool {
    ||| name == "NAMESPACE"@
    ||| name == "UNSELECT"@
    ||| name == "UIDPLUS"@
    ||| name == "ESEARCH"@
    ||| name == "SEARCHRES"@
    ||| name == "ENABLE"@
    ||| name == "IDLE"@
    ||| name == "SASL-IR"@
    ||| name == "LIST-EXTENDED"@
    ||| name == "LIST-STATUS"@
    ||| name == "MOVE"@
    ||| name == "LITERAL-"@
    ||| name == "BINARY-FETCH"@
    ||| name == "STATUS=SIZE"@
}

pub open spec fn is_supported(c: CapabilitiesView, name: Seq<char>) -> bool {
    ||| c.advertised.contains(name)
    ||| rev2_is_active(c) && is_intrinsic(name)
    ||| name == "BINARY-FETCH"@ && c.advertised.contains("BINARY"@)
}

/// The name of a capability: its text in upper case.
pub open spec fn capability_name(b: Seq<u8>) -> Seq<char> {
    ascii::chars(ascii::uppercase(b))
}

pub open spec fn capability_names(v: Seq<Seq<u8>>) -> Set<Seq<char>> {
    v.map_values(|b: Seq<u8>| capability_name(b)).to_set()
}

pub open spec fn advertised_in(r: ResponseView) -> Option<Seq<Seq<u8>>> {
    match r {
        ResponseView::Data(DataView::Capability(v)) => Some(v),
        ResponseView::Status(StatusView::Tagged { body, .. }) => match body.code {
            Some(CodeView::Capability(v)) => Some(v),
            _ => None,
        },
        ResponseView::Status(StatusView::Untagged(body)) => match body.code {
            Some(CodeView::Capability(v)) => Some(v),
            _ => None,
        },
        _ => None,
    }
}

/// QRESYNC is never enabled without CONDSTORE.
pub open spec fn with_condstore(enabled: Set<Seq<char>>) -> Set<Seq<char>> {
    if enabled.contains("QRESYNC"@) {
        enabled.insert("CONDSTORE"@)
    } else {
        enabled
    }
}

/// The state after a response: a list of capabilities replaces what was
/// advertised, ENABLED adds to what is enabled.
pub open spec fn observed(c: CapabilitiesView, r: ResponseView) -> CapabilitiesView {
    CapabilitiesView {
        advertised: match advertised_in(r) {
            Some(v) => capability_names(v),
            None => c.advertised,
        },
        enabled: match r {
            ResponseView::Data(DataView::Enabled { capabilities }) => with_condstore(
                c.enabled.union(capability_names(capabilities)),
            ),
            _ => c.enabled,
        },
        version: c.version,
    }
}

// ---------------------------------------------------------------------- checks

/// The reason of the first check, or that of the second.
pub open spec fn either(a: Option<Seq<char>>, b: Option<Seq<char>>) -> Option<Seq<char>> {
    if a is Some {
        a
    } else {
        b
    }
}

/// The reason of the first item that has one.
pub open spec fn first_error<T>(v: Seq<T>, check: spec_fn(T) -> Option<Seq<char>>) -> Option<
    Seq<char>,
>
    decreases v.len(),
{
    if v.len() == 0 {
        None
    } else {
        either(first_error(v.drop_last(), check), check(v.last()))
    }
}

/// Why a result is none.
pub open spec fn error_of(r: Result<(), String>) -> Option<Seq<char>> {
    match r {
        Ok(_) => None,
        Err(e) => Some(e@),
    }
}

pub open spec fn require_error(c: CapabilitiesView, name: Seq<char>) -> Option<Seq<char>> {
    if is_supported(c, name) {
        None
    } else {
        Some("IMAP capability "@ + name + " is required"@)
    }
}

pub open spec fn require_enabled_error(c: CapabilitiesView, name: Seq<char>) -> Option<Seq<char>> {
    if c.enabled.contains(name) {
        None
    } else {
        Some("IMAP capability "@ + name + " has not been enabled"@)
    }
}

pub open spec fn set_error(c: CapabilitiesView, s: MessageSetView) -> Option<Seq<char>> {
    match s {
        MessageSetView::SearchResult => require_error(c, "SEARCHRES"@),
        MessageSetView::SequenceSet(_) => None,
    }
}

/// The reason of the first search key that has one, depth first.
pub open spec fn key_error(c: CapabilitiesView, k: KeyView) -> Option<Seq<char>>
    decreases k,
{
    match k {
        KeyView::SearchResult | KeyView::UidSearchResult => require_error(c, "SEARCHRES"@),
        KeyView::And(v) => keys_error(c, v),
        KeyView::Not(k) => key_error(c, *k),
        KeyView::Or(a, b) => either(key_error(c, *a), key_error(c, *b)),
        KeyView::ModSequence { .. } => require_error(c, "CONDSTORE"@),
        KeyView::Flag(FlagKey::New) | KeyView::Flag(FlagKey::Old) | KeyView::Flag(
            FlagKey::Recent,
        ) => if rev2_is_active(c) {
            Some("IMAP4rev2 does not define RECENT, NEW or OLD search keys"@)
        } else {
            None
        },
        _ => None,
    }
}

pub open spec fn keys_error(c: CapabilitiesView, v: Seq<KeyView>) -> Option<Seq<char>>
    decreases v,
{
    if v.len() == 0 {
        None
    } else {
        either(keys_error(c, v.drop_last()), key_error(c, v[v.len() - 1]))
    }
}

pub open spec fn search_error(
    c: CapabilitiesView,
    charset: Option<StringView>,
    criteria: Seq<KeyView>,
) -> Option<Seq<char>> {
    if !rev2_is_active(c) && utf8_is_active(c) && charset is Some {
        Some("IMAP UTF-8 mode prohibits an explicit SEARCH CHARSET"@)
    } else {
        keys_error(c, criteria)
    }
}

pub open spec fn status_error(c: CapabilitiesView, n: StatusDataItemName) -> Option<Seq<char>> {
    match n {
        StatusDataItemName::Size => require_error(c, "STATUS=SIZE"@),
        StatusDataItemName::Deleted => if rev2_is_active(c) {
            None
        } else {
            require_error(c, "QUOTA=RES-MESSAGE"@)
        },
        StatusDataItemName::DeletedStorage => require_error(c, "QUOTA=RES-STORAGE"@),
        StatusDataItemName::Recent => if rev2_is_active(c) {
            Some("RECENT status was removed from IMAP4rev2"@)
        } else {
            None
        },
        StatusDataItemName::HighestModSeq => require_error(c, "CONDSTORE"@),
        _ => None,
    }
}

pub open spec fn status_names_error(
    c: CapabilitiesView,
    names: Seq<StatusDataItemName>,
) -> Option<Seq<char>> {
    first_error(names, |n: StatusDataItemName| status_error(c, n))
}

pub open spec fn enable_error(c: CapabilitiesView, b: Seq<u8>) -> Option<Seq<char>> {
    if capability_name(b) == "IMAP4REV2"@ && c.version != Version::Rev2 {
        Some("IMAP version was declared as 4rev1"@)
    } else {
        require_error(c, capability_name(b))
    }
}

pub open spec fn list_return_error(c: CapabilitiesView, r: ListReturnView) -> Option<Seq<char>> {
    match r {
        ListReturnView::Status(names) => either(
            require_error(c, "LIST-STATUS"@),
            status_names_error(c, names),
        ),
        ListReturnView::SpecialUse => require_error(c, "SPECIAL-USE"@),
        _ => None,
    }
}

pub open spec fn asks_for_special_use(selection: Seq<Seq<u8>>) -> bool {
    exists|i: int|
        0 <= i < selection.len() && ascii::same_word(
            #[trigger] selection[i],
            ascii::bytes_of("SPECIAL-USE"),
        )
}

pub open spec fn asks_to_save(options: Seq<SearchReturnView>) -> bool {
    exists|i: int| 0 <= i < options.len() && (#[trigger] options[i]) is Save
}

pub open spec fn fetch_item_error(c: CapabilitiesView, i: ItemNameView) -> Option<Seq<char>> {
    match i {
        ItemNameView::Binary { .. } | ItemNameView::BinarySize { .. } => require_error(
            c,
            "BINARY-FETCH"@,
        ),
        ItemNameView::Plain(PlainItem::ModSeq) => require_error(c, "CONDSTORE"@),
        ItemNameView::Plain(PlainItem::Rfc822)
        | ItemNameView::Plain(PlainItem::Rfc822Header)
        | ItemNameView::Plain(PlainItem::Rfc822Text) => if rev2_is_active(c) {
            Some("Use BODY sections for IMAP4rev2 FETCH"@)
        } else {
            None
        },
        _ => None,
    }
}

pub open spec fn fetch_items_error(c: CapabilitiesView, v: ItemNamesView) -> Option<Seq<char>> {
    match v {
        ItemNamesView::Items(names) => first_error(
            names,
            |i: ItemNameView| fetch_item_error(c, i),
        ),
        ItemNamesView::Macro(_) => None,
    }
}

pub open spec fn asks_for_changes(modifiers: Seq<FetchModifier>) -> bool {
    exists|i: int| 0 <= i < modifiers.len() && (#[trigger] modifiers[i]) is ChangedSince
}

pub open spec fn fetch_modifier_error(
    c: CapabilitiesView,
    uid: bool,
    modifiers: Seq<FetchModifier>,
    m: FetchModifier,
) -> Option<Seq<char>> {
    match m {
        FetchModifier::ChangedSince(_) => require_error(c, "CONDSTORE"@),
        FetchModifier::Vanished => either(
            require_enabled_error(c, "QRESYNC"@),
            if !uid || !asks_for_changes(modifiers) {
                Some("VANISHED requires UID FETCH with CHANGEDSINCE"@)
            } else {
                None
            },
        ),
    }
}

/// How many numbers a sequence has, unless it has a `*`.
pub open spec fn span(s: Sequence) -> Option<int> {
    match s {
        Sequence::Single(SeqOrUid::Value(_)) => Some(1int),
        Sequence::Range(SeqOrUid::Value(a), SeqOrUid::Value(b)) => Some(
            if a <= b {
                b - a + 1
            } else {
                a - b + 1
            },
        ),
        _ => None,
    }
}

/// How many numbers a set has, counting each sequence on its own.
pub open spec fn cardinality(s: Seq<Sequence>) -> int
    decreases s.len(),
{
    if s.len() == 0 {
        0
    } else {
        cardinality(s.drop_last()) + span(s.last())->0
    }
}

pub open spec fn explicit_result(s: Seq<Sequence>) -> Result<u64, Seq<char>>
    decreases s.len(),
{
    if s.len() == 0 {
        Ok(0)
    } else {
        match explicit_result(s.drop_last()) {
            Err(e) => Err(e),
            Ok(n) => match span(s.last()) {
                None => Err("QRESYNC match sets cannot contain '*'"@),
                Some(k) => if n + k <= u64::MAX {
                    Ok((n + k) as u64)
                } else {
                    Err("QRESYNC set cardinality overflow"@)
                },
            },
        }
    }
}

pub open spec fn match_error(m: (Seq<Sequence>, Seq<Sequence>)) -> Option<Seq<char>> {
    match explicit_result(m.0) {
        Err(e) => Some(e),
        Ok(a) => match explicit_result(m.1) {
            Err(e) => Some(e),
            Ok(b) => if a != b {
                Some("QRESYNC sequence and UID match sets must have equal cardinality"@)
            } else {
                None
            },
        },
    }
}

pub open spec fn select_error(c: CapabilitiesView, p: SelectParameterView) -> Option<Seq<char>> {
    match p {
        SelectParameterView::CondStore => require_error(c, "CONDSTORE"@),
        SelectParameterView::QResync { known_uids, seq_match_data, .. } => either(
            require_enabled_error(c, "QRESYNC"@),
            either(
                match known_uids {
                    Some(s) => match explicit_result(s) {
                        Err(e) => Some(e),
                        Ok(_) => None,
                    },
                    None => None,
                },
                match seq_match_data {
                    Some(m) => match_error(m),
                    None => None,
                },
            ),
        ),
    }
}

/// Why a command may not be sent, whatever its literals and quoted strings.
pub open spec fn body_error(c: CapabilitiesView, b: BodyView) -> Option<Seq<char>> {
    match b {
        BodyView::Idle => require_error(c, "IDLE"@),
        BodyView::Unselect => require_error(c, "UNSELECT"@),
        BodyView::ExpungeUid { sequence_set } => either(
            require_error(c, "UIDPLUS"@),
            set_error(c, sequence_set),
        ),
        BodyView::Move { sequence_set, .. } => either(
            require_error(c, "MOVE"@),
            set_error(c, sequence_set),
        ),
        BodyView::Copy { sequence_set, .. } => set_error(c, sequence_set),
        BodyView::Enable { capabilities } => either(
            require_error(c, "ENABLE"@),
            first_error(capabilities, |b: Seq<u8>| enable_error(c, b)),
        ),
        BodyView::Compress { algorithm: CompressionAlgorithm::Deflate } => require_error(
            c,
            "COMPRESS=DEFLATE"@,
        ),
        BodyView::GetQuota { .. }
        | BodyView::GetQuotaRoot { .. }
        | BodyView::SetQuota { .. } => require_error(c, "QUOTA"@),
        BodyView::Id { .. } => require_error(c, "ID"@),
        BodyView::GetMetadata { .. } | BodyView::SetMetadata { .. } => require_error(c, "METADATA"@),
        BodyView::Namespace => require_error(c, "NAMESPACE"@),
        BodyView::Sort { search_criteria, .. } => either(
            require_error(c, "SORT"@),
            keys_error(c, search_criteria),
        ),
        BodyView::Thread { algorithm, search_criteria, .. } => either(
            require_error(c, "THREAD="@ + capability_name(algorithm)),
            keys_error(c, search_criteria),
        ),
        BodyView::Search { charset, criteria, .. } => search_error(c, charset, criteria),
        BodyView::SearchExtended { return_options, charset, criteria, .. } => either(
            require_error(c, "ESEARCH"@),
            either(
                search_error(c, charset, criteria),
                if asks_to_save(return_options) {
                    require_error(c, "SEARCHRES"@)
                } else {
                    None
                },
            ),
        ),
        BodyView::ListExtended { selection, return_options, .. } => either(
            require_error(c, "LIST-EXTENDED"@),
            either(
                if asks_for_special_use(selection) {
                    require_error(c, "SPECIAL-USE"@)
                } else {
                    None
                },
                match return_options {
                    Some(v) => first_error(v, |r: ListReturnView| list_return_error(c, r)),
                    None => None,
                },
            ),
        ),
        BodyView::Status { item_names, .. } => status_names_error(c, item_names),
        BodyView::Append { message, .. } => if message.binary {
            require_error(c, "BINARY"@)
        } else {
            None
        },
        BodyView::Fetch { sequence_set, macro_or_item_names, uid, modifiers } => either(
            set_error(c, sequence_set),
            either(
                fetch_items_error(c, macro_or_item_names),
                first_error(
                    modifiers,
                    |m: FetchModifier| fetch_modifier_error(c, uid, modifiers, m),
                ),
            ),
        ),
        BodyView::Store { sequence_set, modifiers, .. } => either(
            set_error(c, sequence_set),
            if modifiers.len() > 0 {
                require_error(c, "CONDSTORE"@)
            } else {
                None
            },
        ),
        BodyView::Select { parameters, .. } | BodyView::Examine { parameters, .. } => first_error(
            parameters,
            |p: SelectParameterView| select_error(c, p),
        ),
        BodyView::Check | BodyView::Lsub { .. } => if rev2_is_active(c) {
            Some("Command was removed from IMAP4rev2"@)
        } else {
            None
        },
        _ => None,
    }
}

/// Whether a non-synchronizing literal of this length may be sent.
pub open spec fn non_sync_allowed(c: CapabilitiesView, length: nat) -> bool {
    is_supported(c, "LITERAL+"@) || (length <= 4096 && is_supported(c, "LITERAL-"@))
}

/// Why a byte of a line or a literal may not be sent.
pub open spec fn token_error(c: CapabilitiesView, refusal: Seq<char>, t: Token) -> Option<
    Seq<char>,
> {
    match t {
        Token::Byte(b) => if !utf8_is_active(c) && b >= 0x80 {
            Some("UTF-8 quoted strings require UTF8=ACCEPT or IMAP4rev2"@)
        } else {
            None
        },
        Token::Literal(data, LiteralMode::NonSync) => if non_sync_allowed(c, data.len()) {
            None
        } else {
            Some(refusal)
        },
        Token::Literal(_, LiteralMode::Sync) => None,
    }
}

pub open spec fn wire_error(c: CapabilitiesView, refusal: Seq<char>, tokens: Seq<Token>) -> Option<
    Seq<char>,
> {
    first_error(tokens, |t: Token| token_error(c, refusal, t))
}

pub open spec fn validation_error(c: CapabilitiesView, b: BodyView) -> Option<Seq<char>> {
    either(
        body_error(c, b),
        wire_error(
            c,
            "Non-synchronizing literal was not negotiated"@,
            command::command_tokens(CommandView { tag: ascii::bytes_of("V"), body: b }),
        ),
    )
}

pub open spec fn append_error(c: CapabilitiesView, a: StreamedAppendView) -> Option<Seq<char>> {
    if !append::tag_ok(a.tag) {
        Some("Invalid tag"@)
    } else if a.binary && require_error(c, "BINARY"@) is Some {
        require_error(c, "BINARY"@)
    } else if a.mode == LiteralMode::NonSync && !non_sync_allowed(c, a.length as nat) {
        Some("Non-synchronizing APPEND length was not negotiated"@)
    } else {
        wire_error(
            c,
            "Non-synchronizing mailbox literal was not negotiated"@,
            append::prefix_tokens(a),
        )
    }
}

/// Whether the lines of a message hold ASCII bytes only.
pub open spec fn lines_are_ascii(tokens: Seq<Token>) -> bool {
    forall|i: int|
        0 <= i < tokens.len() ==> ((#[trigger] tokens[i]) matches Token::Byte(b) ==> b < 0x80)
}

pub open spec fn response_refusal(c: CapabilitiesView, r: ResponseView) -> Option<Seq<char>> {
    if !utf8_is_active(c) && !lines_are_ascii(response::response_tokens(r)) {
        Some("UTF-8 response syntax was not enabled"@)
    } else {
        None
    }
}

// ---------------------------------------------------------------------- lemmas

proof fn lemma_first_error_add<T>(a: Seq<T>, b: Seq<T>, check: spec_fn(T) -> Option<Seq<char>>)
    ensures
        first_error(a + b, check) == either(first_error(a, check), first_error(b, check)),
    decreases b.len(),
{
    if b.len() == 0 {
        assert(a + b =~= a);
    } else {
        lemma_first_error_add(a, b.drop_last(), check);
        assert((a + b).drop_last() =~= a + b.drop_last());
    }
}

/// One more item of which those before it have no reason.
proof fn lemma_first_error_step<T>(v: Seq<T>, i: int, check: spec_fn(T) -> Option<Seq<char>>)
    requires
        0 <= i < v.len(),
        first_error(v.take(i), check) is None,
    ensures
        first_error(v.take(i + 1), check) == check(v[i]),
        check(v[i]) is Some ==> first_error(v, check) == check(v[i]),
{
    assert(v.take(i + 1).drop_last() =~= v.take(i));
    assert(v =~= v.take(i + 1) + v.skip(i + 1));
    lemma_first_error_add(v.take(i + 1), v.skip(i + 1), check);
}

proof fn lemma_first_error_none<T>(v: Seq<T>, check: spec_fn(T) -> Option<Seq<char>>)
    ensures
        first_error(v, check) is None <==> forall|i: int|
            0 <= i < v.len() ==> check(#[trigger] v[i]) is None,
    decreases v.len(),
{
    if v.len() > 0 {
        lemma_first_error_none(v.drop_last(), check);
        if first_error(v, check) is None {
            assert forall|i: int| 0 <= i < v.len() implies check(#[trigger] v[i]) is None by {
                if i < v.len() - 1 {
                    assert(v.drop_last()[i] == v[i]);
                }
            }
        } else if forall|i: int| 0 <= i < v.len() ==> check(#[trigger] v[i]) is None {
            assert(check(v.last()) is None);
            assert forall|i: int| 0 <= i < v.len() - 1 implies check(
                #[trigger] v.drop_last()[i],
            ) is None by {
                assert(v.drop_last()[i] == v[i]);
            }
        }
    }
}

proof fn lemma_keys_error(c: CapabilitiesView, v: Seq<KeyView>)
    ensures
        keys_error(c, v) == first_error(v, |k: KeyView| key_error(c, k)),
    decreases v.len(),
{
    if v.len() > 0 {
        lemma_keys_error(c, v.drop_last());
    }
}

/// A line may be sent, unless it needs UTF-8 and UTF-8 is not in force.
proof fn lemma_line_error(c: CapabilitiesView, refusal: Seq<char>, data: Seq<u8>)
    ensures
        wire_error(c, refusal, encode::plain(data)) == if !utf8_is_active(c) && exists|i: int|
            0 <= i < data.len() && #[trigger] data[i] >= 0x80 {
            Some("UTF-8 quoted strings require UTF8=ACCEPT or IMAP4rev2"@)
        } else {
            None
        },
    decreases data.len(),
{
    let tokens = encode::plain(data);
    if data.len() > 0 {
        lemma_line_error(c, refusal, data.drop_last());
        assert(tokens.drop_last() =~= encode::plain(data.drop_last()));
        if exists|i: int| 0 <= i < data.len() && #[trigger] data[i] >= 0x80 {
            let i = choose|i: int| 0 <= i < data.len() && #[trigger] data[i] >= 0x80;
            if i < data.len() - 1 {
                assert(data.drop_last()[i] >= 0x80);
            }
        }
        if exists|i: int| 0 <= i < data.drop_last().len() && #[trigger] data.drop_last()[i] >= 0x80 {
            let i = choose|i: int|
                0 <= i < data.drop_last().len() && #[trigger] data.drop_last()[i] >= 0x80;
            assert(data[i] >= 0x80);
        }
    }
}

proof fn lemma_literal_error(c: CapabilitiesView, refusal: Seq<char>, t: Token)
    ensures
        wire_error(c, refusal, seq![t]) == token_error(c, refusal, t),
{
    let check = |t: Token| token_error(c, refusal, t);
    let one = seq![t];
    assert(one.drop_last() =~= seq![]);
    assert(first_error(one.drop_last(), check) is None);
    assert(one.last() == t);
    assert(first_error(one, check) == check(t));
}

proof fn lemma_explicit_prefix(s: Seq<Sequence>, n: int)
    requires
        0 <= n <= s.len(),
        explicit_result(s.take(n)) is Err,
    ensures
        explicit_result(s) == explicit_result(s.take(n)),
    decreases s.len(),
{
    if n < s.len() {
        assert(s.drop_last().take(n) =~= s.take(n));
        lemma_explicit_prefix(s.drop_last(), n);
    } else {
        assert(s.take(n) =~= s);
    }
}

// ------------------------------------------------------------------------ laws

/// Advertising never enables: only ENABLED changes what is enabled.
pub proof fn law_advertising_never_enables(c: CapabilitiesView, r: ResponseView)
    requires
        !(r matches ResponseView::Data(DataView::Enabled { .. })),
    ensures
        observed(c, r).enabled == c.enabled,
        observed(c, r).version == c.version,
{
}

/// Nothing that was enabled is taken back, and ENABLED leaves what is advertised.
pub proof fn law_enabled_only_grows(c: CapabilitiesView, r: ResponseView)
    ensures
        c.enabled.subset_of(observed(c, r).enabled),
        r matches ResponseView::Data(DataView::Enabled { capabilities }) ==> observed(
            c,
            r,
        ).advertised == c.advertised && capability_names(capabilities).subset_of(
            observed(c, r).enabled,
        ),
{
}

/// Whatever is observed, QRESYNC is not enabled without CONDSTORE.
pub proof fn law_qresync_brings_condstore(c: CapabilitiesView, r: ResponseView)
    requires
        c.enabled.contains("QRESYNC"@) ==> c.enabled.contains("CONDSTORE"@),
    ensures
        observed(c, r).enabled.contains("QRESYNC"@) ==> observed(c, r).enabled.contains(
            "CONDSTORE"@,
        ),
{
}

/// The state of a new transport.
pub open spec fn opened(advertised: Set<Seq<char>>, version: Version) -> CapabilitiesView {
    CapabilitiesView { advertised, enabled: Set::empty(), version }
}

/// The state after these responses.
pub open spec fn observed_all(c: CapabilitiesView, responses: Seq<ResponseView>) -> CapabilitiesView
    decreases responses.len(),
{
    if responses.len() == 0 {
        c
    } else {
        observed(observed_all(c, responses.drop_last()), responses.last())
    }
}

pub open spec fn is_upper_case(name: Seq<char>) -> bool {
    forall|i: int| 0 <= i < name.len() ==> !('a' <= #[trigger] name[i] <= 'z')
}

proof fn lemma_names_are_upper_case(v: Seq<Seq<u8>>, name: Seq<char>)
    requires
        capability_names(v).contains(name),
    ensures
        is_upper_case(name),
{
    let names = v.map_values(|b: Seq<u8>| capability_name(b));
    let k = choose|k: int| 0 <= k < names.len() && names[k] == name;
    assert(name == capability_name(v[k]));
    assert forall|i: int| 0 <= i < name.len() implies !('a' <= #[trigger] name[i] <= 'z') by {
        assert(name[i] == ascii::upper(v[k][i]) as char);
    }
}

/// Whatever a new transport has observed: QRESYNC is not enabled without
/// CONDSTORE, the version is the one that was declared, and the names of what
/// is enabled are in upper case.
pub proof fn law_every_state_is_sound(
    advertised: Set<Seq<char>>,
    version: Version,
    responses: Seq<ResponseView>,
)
    ensures
        ({
            let c = observed_all(opened(advertised, version), responses);
            &&& c.enabled.contains("QRESYNC"@) ==> c.enabled.contains("CONDSTORE"@)
            &&& c.version == version
            &&& forall|name: Seq<char>| #[trigger] c.enabled.contains(name) ==> is_upper_case(name)
        }),
    decreases responses.len(),
{
    if responses.len() > 0 {
        let before = observed_all(opened(advertised, version), responses.drop_last());
        let r = responses.last();
        law_every_state_is_sound(advertised, version, responses.drop_last());
        law_qresync_brings_condstore(before, r);
        let c = observed(before, r);
        reveal_strlit("CONDSTORE");
        assert(is_upper_case("CONDSTORE"@));
        assert forall|name: Seq<char>| #[trigger] c.enabled.contains(name) implies is_upper_case(
            name,
        ) by {
            if let ResponseView::Data(DataView::Enabled { capabilities }) = r {
                if !before.enabled.contains(name) && name != "CONDSTORE"@ {
                    lemma_names_are_upper_case(capabilities, name);
                }
            }
        }
    }
}

/// Nothing that a transport has enabled is taken back by what it observes later.
pub proof fn law_enabled_stays_enabled(c: CapabilitiesView, responses: Seq<ResponseView>)
    ensures
        c.enabled.subset_of(observed_all(c, responses).enabled),
    decreases responses.len(),
{
    if responses.len() > 0 {
        law_enabled_stays_enabled(c, responses.drop_last());
        law_enabled_only_grows(observed_all(c, responses.drop_last()), responses.last());
    }
}

/// On a server that speaks both versions, IMAP4rev2 and what it brings with it
/// wait for ENABLE.
pub proof fn law_dual_server_waits_for_enable(c: CapabilitiesView, name: Seq<char>)
    requires
        c.advertised.contains("IMAP4REV1"@),
        !c.enabled.contains("IMAP4REV2"@),
    ensures
        !rev2_is_active(c),
        is_supported(c, name) <==> c.advertised.contains(name) || (name == "BINARY-FETCH"@
            && c.advertised.contains("BINARY"@)),
{
}

/// A command that passes puts no byte beyond ASCII into a line unless UTF-8 is
/// in force, and sends no non-synchronizing literal that was not negotiated.
pub proof fn law_valid_command_fits_the_wire(c: CapabilitiesView, b: BodyView, i: int)
    requires
        validation_error(c, b) is None,
        0 <= i < command::command_tokens(CommandView { tag: ascii::bytes_of("V"), body: b }).len(),
    ensures
        match command::command_tokens(CommandView { tag: ascii::bytes_of("V"), body: b })[i] {
            Token::Byte(x) => x < 0x80 || utf8_is_active(c),
            Token::Literal(data, LiteralMode::NonSync) => non_sync_allowed(c, data.len()),
            Token::Literal(_, LiteralMode::Sync) => true,
        },
{
    let tokens = command::command_tokens(CommandView { tag: ascii::bytes_of("V"), body: b });
    let refusal = "Non-synchronizing literal was not negotiated"@;
    lemma_first_error_none(tokens, |t: Token| token_error(c, refusal, t));
    let check = |t: Token| token_error(c, refusal, t);
    assert(check(tokens[i]) is None);
}

/// A set without `*` has its cardinality, where that can be counted.
pub proof fn law_explicit_set_is_counted(s: Seq<Sequence>)
    requires
        forall|i: int| 0 <= i < s.len() ==> span(#[trigger] s[i]) is Some,
        cardinality(s) <= u64::MAX,
    ensures
        explicit_result(s) == Ok::<u64, Seq<char>>(cardinality(s) as u64),
        cardinality(s) >= s.len(),
    decreases s.len(),
{
    if s.len() > 0 {
        assert(span(s[s.len() - 1]) is Some);
        assert forall|i: int| 0 <= i < s.len() - 1 implies span(
            #[trigger] s.drop_last()[i],
        ) is Some by {
            assert(s.drop_last()[i] == s[i]);
        }
        law_explicit_set_is_counted(s.drop_last());
    }
}

/// A set with a `*` is refused, where those before it can be counted.
pub proof fn law_open_set_is_refused(s: Seq<Sequence>, n: int)
    requires
        0 <= n < s.len(),
        forall|i: int| 0 <= i < n ==> span(#[trigger] s[i]) is Some,
        cardinality(s.take(n)) <= u64::MAX,
        span(s[n]) is None,
    ensures
        explicit_result(s) == Err::<u64, Seq<char>>("QRESYNC match sets cannot contain '*'"@),
{
    assert forall|i: int| 0 <= i < n implies span(#[trigger] s.take(n)[i]) is Some by {
        assert(s.take(n)[i] == s[i]);
    }
    law_explicit_set_is_counted(s.take(n));
    assert(s.take(n + 1).drop_last() =~= s.take(n));
    lemma_explicit_prefix(s, n + 1);
}

/// A streamed APPEND passes exactly where the whole command does.
pub proof fn law_streamed_append_is_validated_as_append(
    c: CapabilitiesView,
    a: StreamedAppendView,
    data: Seq<u8>,
)
    requires
        append::tag_ok(a.tag),
        data.len() == a.length,
    ensures
        append_error(c, a) is None <==> validation_error(
            c,
            append::whole_command(a, data).body,
        ) is None,
{
    let body = append::whole_command(a, data).body;
    let v = StreamedAppendView { tag: ascii::bytes_of("V"), ..a };
    let r1 = "Non-synchronizing literal was not negotiated"@;
    let r2 = "Non-synchronizing mailbox literal was not negotiated"@;
    append::law_streamed_append_is_append(v, data);
    let literal = Token::Literal(data, a.mode);
    let end = encode::word("\r\n");
    lemma_wire_add(c, r1, append::prefix_tokens(v) + seq![literal], end);
    lemma_wire_add(c, r1, append::prefix_tokens(v), seq![literal]);
    lemma_literal_error(c, r1, literal);
    reveal_strlit("\r\n");
    lemma_line_error(c, r1, ascii::bytes_of("\r\n"));
    lemma_prefix_error(c, r1, r2, a, v);
}

proof fn lemma_wire_add(c: CapabilitiesView, refusal: Seq<char>, a: Seq<Token>, b: Seq<Token>)
    ensures
        wire_error(c, refusal, a + b) == either(
            wire_error(c, refusal, a),
            wire_error(c, refusal, b),
        ),
{
    lemma_first_error_add(a, b, |t: Token| token_error(c, refusal, t));
}

/// Whether a prefix can be sent depends neither on the tag nor on the wording.
proof fn lemma_prefix_error(
    c: CapabilitiesView,
    r1: Seq<char>,
    r2: Seq<char>,
    a: StreamedAppendView,
    v: StreamedAppendView,
)
    requires
        append::tag_ok(a.tag),
        v == (StreamedAppendView { tag: ascii::bytes_of("V"), ..a }),
    ensures
        wire_error(c, r1, append::prefix_tokens(v)) is None <==> wire_error(
            c,
            r2,
            append::prefix_tokens(a),
        ) is None,
{
    let ta = append::prefix_tokens(a);
    let tv = append::prefix_tokens(v);
    let f1 = |t: Token| token_error(c, r1, t);
    let f2 = |t: Token| token_error(c, r2, t);
    lemma_first_error_none(tv, f1);
    lemma_first_error_none(ta, f2);
    reveal_strlit("V");
    let n = a.tag.len() as int;
    assert(tv.skip(1) =~= ta.skip(n));
    assert forall|i: int| 0 <= i < n implies f2(#[trigger] ta[i]) is None by {
        assert(ta[i] == Token::Byte(a.tag[i]));
        assert(ascii::is_tag_char(a.tag[i]));
    }
    assert(f1(tv[0]) is None);
    if forall|i: int| 0 <= i < tv.len() ==> f1(#[trigger] tv[i]) is None {
        assert forall|i: int| 0 <= i < ta.len() implies f2(#[trigger] ta[i]) is None by {
            if i >= n {
                assert(ta[i] == ta.skip(n)[i - n]);
                assert(ta[i] == tv[i - n + 1]);
                assert(f1(tv[i - n + 1]) is None);
            }
        }
    }
    if forall|i: int| 0 <= i < ta.len() ==> f2(#[trigger] ta[i]) is None {
        assert forall|i: int| 0 <= i < tv.len() implies f1(#[trigger] tv[i]) is None by {
            if i >= 1 {
                assert(tv[i] == tv.skip(1)[i - 1]);
                assert(tv[i] == ta[i - 1 + n]);
                assert(f2(ta[i - 1 + n]) is None);
            }
        }
    }
}

// ------------------------------------------------------------------ executable

fn refusal(s: &str) -> (r: Result<(), String>)
    ensures
        error_of(r) == Some(s@),
{
    Err(s.to_owned())
}

fn intrinsic(name: &str) -> (r: bool)
    ensures
        r == is_intrinsic(name@),
{
    ascii::same_text(name, "NAMESPACE") || ascii::same_text(name, "UNSELECT") || ascii::same_text(
        name,
        "UIDPLUS",
    ) || ascii::same_text(name, "ESEARCH") || ascii::same_text(name, "SEARCHRES")
        || ascii::same_text(name, "ENABLE") || ascii::same_text(name, "IDLE") || ascii::same_text(
        name,
        "SASL-IR",
    ) || ascii::same_text(name, "LIST-EXTENDED") || ascii::same_text(name, "LIST-STATUS")
        || ascii::same_text(name, "MOVE") || ascii::same_text(name, "LITERAL-")
        || ascii::same_text(name, "BINARY-FETCH") || ascii::same_text(name, "STATUS=SIZE")
}

/// The capabilities that a response lists.
fn listed<'a>(r: &'a Response) -> (v: Option<&'a Vec<Atom>>)
    ensures
        match v {
            Some(v) => advertised_in(r.deep_view()) == Some(v.deep_view()),
            None => advertised_in(r.deep_view()) is None,
        },
{
    match r {
        Response::Data(Data::Capability(v)) => Some(v),
        Response::Status(Status::Tagged(t)) => match &t.body.code {
            Some(Code::Capability(v)) => Some(v),
            _ => None,
        },
        Response::Status(Status::Untagged(b)) => match &b.code {
            Some(Code::Capability(v)) => Some(v),
            _ => None,
        },
        _ => None,
    }
}

/// Adds the names of capabilities.
fn add_names(set: &mut CapabilitySet, v: &Vec<Atom>)
    ensures
        final(set)@ == old(set)@.union(capability_names(v.deep_view())),
{
    let ghost names = v.deep_view().map_values(|b: Seq<u8>| capability_name(b));
    let mut i: usize = 0;
    assert(set@ =~= old(set)@.union(names.take(0).to_set()));
    while i < v.len()
        invariant
            i <= v@.len(),
            names == v.deep_view().map_values(|b: Seq<u8>| capability_name(b)),
            set@ == old(set)@.union(names.take(i as int).to_set()),
        decreases v@.len() - i,
    {
        set.insert(ascii::upper_text(v[i].bytes.as_slice()));
        proof {
            let done = names.take(i as int);
            let more = names.take(i + 1);
            assert(v.deep_view()[i as int] == v@[i as int].bytes@);
            assert forall|s: Seq<char>| more.contains(s) == (done.contains(s) || s
                == names[i as int]) by {
                if done.contains(s) {
                    assert(more[done.index_of(s)] == s);
                }
                assert(more[i as int] == names[i as int]);
                if more.contains(s) && s != names[i as int] {
                    assert(done[more.index_of(s)] == s);
                }
            }
            assert(set@ =~= old(set)@.union(more.to_set()));
        }
        i = i + 1;
    }
    assert(names.take(i as int) =~= names);
}

/// The numbers in a set that has no `*`.
fn explicit_set(set: &SequenceSet) -> (r: Result<u64, String>)
    ensures
        match r {
            Ok(n) => explicit_result(set.deep_view()) == Ok::<u64, Seq<char>>(n),
            Err(e) => explicit_result(set.deep_view()) == Err::<u64, Seq<char>>(e@),
        },
{
    let mut total: u64 = 0;
    let mut i: usize = 0;
    let ghost s = set.0@;
    assert(s.take(0) =~= seq![]);
    while i < set.0.len()
        invariant
            i <= s.len(),
            s == set.0@,
            explicit_result(s.take(i as int)) == Ok::<u64, Seq<char>>(total),
        decreases s.len() - i,
    {
        assert(s.take(i + 1).drop_last() =~= s.take(i as int));
        let (a, b) = match set.0[i] {
            Sequence::Single(a) => (a, a),
            Sequence::Range(a, b) => (a, b),
        };
        match (a, b) {
            (SeqOrUid::Value(a), SeqOrUid::Value(b)) => {
                let k: u64 = if a <= b {
                    (b - a) as u64 + 1
                } else {
                    (a - b) as u64 + 1
                };
                match total.checked_add(k) {
                    Some(n) => {
                        total = n;
                    },
                    None => {
                        proof {
                            lemma_explicit_prefix(s, i + 1);
                        }
                        return Err("QRESYNC set cardinality overflow".to_owned());
                    },
                }
            },
            _ => {
                proof {
                    lemma_explicit_prefix(s, i + 1);
                }
                return Err("QRESYNC match sets cannot contain '*'".to_owned());
            },
        }
        i = i + 1;
    }
    assert(s.take(i as int) =~= s);
    Ok(total)
}

fn match_sets(m: &(SequenceSet, SequenceSet)) -> (r: Result<(), String>)
    ensures
        error_of(r) == match_error((m.0.deep_view(), m.1.deep_view())),
{
    let a: u64 = match explicit_set(&m.0) {
        Ok(n) => n,
        Err(e) => return Err(e),
    };
    let b: u64 = match explicit_set(&m.1) {
        Ok(n) => n,
        Err(e) => return Err(e),
    };
    if a != b {
        refusal("QRESYNC sequence and UID match sets must have equal cardinality")
    } else {
        Ok(())
    }
}

fn selects_special_use(selection: &Vec<Atom>) -> (r: bool)
    ensures
        r == asks_for_special_use(selection.deep_view()),
{
    let ghost all = selection.deep_view();
    let mut i: usize = 0;
    while i < selection.len()
        invariant
            i <= selection@.len(),
            all == selection.deep_view(),
            forall|j: int|
                0 <= j < i ==> !ascii::same_word(
                    #[trigger] all[j],
                    ascii::bytes_of("SPECIAL-USE"),
                ),
        decreases selection@.len() - i,
    {
        assert(all[i as int] == selection@[i as int].bytes@);
        if ascii::is_word(selection[i].bytes.as_slice(), "SPECIAL-USE") {
            return true;
        }
        i = i + 1;
    }
    false
}

fn saves(options: &Vec<SearchReturn>) -> (r: bool)
    ensures
        r == asks_to_save(options.deep_view()),
{
    let ghost all = options.deep_view();
    let mut i: usize = 0;
    while i < options.len()
        invariant
            i <= options@.len(),
            all == options.deep_view(),
            forall|j: int| 0 <= j < i ==> !((#[trigger] all[j]) is Save),
        decreases options@.len() - i,
    {
        assert(all[i as int] == options@[i as int].deep_view());
        if matches!(options[i], SearchReturn::Save) {
            return true;
        }
        i = i + 1;
    }
    false
}

fn has_changed_since(modifiers: &Vec<FetchModifier>) -> (r: bool)
    ensures
        r == asks_for_changes(modifiers.deep_view()),
{
    let ghost all = modifiers.deep_view();
    let mut i: usize = 0;
    while i < modifiers.len()
        invariant
            i <= modifiers@.len(),
            all == modifiers.deep_view(),
            forall|j: int| 0 <= j < i ==> !((#[trigger] all[j]) is ChangedSince),
        decreases modifiers@.len() - i,
    {
        assert(all[i as int] == modifiers@[i as int]);
        if matches!(modifiers[i], FetchModifier::ChangedSince(_)) {
            return true;
        }
        i = i + 1;
    }
    false
}

impl Clone for ClientCapabilities {
    fn clone(&self) -> (r: Self)
        ensures
            r@ == self@,
    {
        ClientCapabilities {
            advertised: self.advertised.clone(),
            enabled: self.enabled.clone(),
            version: self.version,
        }
    }
}

impl ClientCapabilities {
    /// The state of a new transport: nothing is enabled.
    pub fn new(advertised: CapabilitySet, version: Version) -> (r: Self)
        ensures
            r@ == opened(advertised@, version),
    {
        ClientCapabilities { advertised, enabled: CapabilitySet::new(), version }
    }

    pub fn advertised(&self) -> (r: &CapabilitySet)
        ensures
            r@ == self@.advertised,
    {
        &self.advertised
    }

    pub fn enabled(&self) -> (r: &CapabilitySet)
        ensures
            r@ == self@.enabled,
    {
        &self.enabled
    }

    pub fn version(&self) -> (r: Version)
        ensures
            r == self@.version,
    {
        self.version
    }

    pub fn rev2_active(&self) -> (r: bool)
        ensures
            r == rev2_is_active(self@),
    {
        self.version == Version::Rev2 && self.advertised.contains("IMAP4REV2") && (
        !self.advertised.contains("IMAP4REV1") || self.enabled.contains("IMAP4REV2"))
    }

    pub fn utf8_active(&self) -> (r: bool)
        ensures
            r == utf8_is_active(self@),
    {
        self.rev2_active() || self.enabled.contains("UTF8=ACCEPT") || self.enabled.contains(
            "UTF8=ONLY",
        )
    }

    /// Whether a capability is advertised or comes with IMAP4rev2.
    pub fn supports(&self, name: &str) -> (r: bool)
        ensures
            r == is_supported(self@, name@),
    {
        self.advertised.contains(name) || (self.rev2_active() && intrinsic(name)) || (
        ascii::same_text(name, "BINARY-FETCH") && self.advertised.contains("BINARY"))
    }

    pub fn require(&self, name: &str) -> (r: Result<(), String>)
        ensures
            error_of(r) == require_error(self@, name@),
    {
        if self.supports(name) {
            Ok(())
        } else {
            let mut e: String = "IMAP capability ".to_owned();
            e.append(name);
            e.append(" is required");
            Err(e)
        }
    }

    fn require_enabled(&self, name: &str) -> (r: Result<(), String>)
        ensures
            error_of(r) == require_enabled_error(self@, name@),
    {
        if self.enabled.contains(name) {
            Ok(())
        } else {
            let mut e: String = "IMAP capability ".to_owned();
            e.append(name);
            e.append(" has not been enabled");
            Err(e)
        }
    }

    /// Learns from a response what is advertised and what is enabled.
    pub fn observe(&mut self, response: &Response)
        ensures
            final(self)@ == observed(old(self)@, response.deep_view()),
    {
        if let Some(v) = listed(response) {
            let mut advertised = CapabilitySet::new();
            add_names(&mut advertised, v);
            assert(advertised@ =~= capability_names(v.deep_view()));
            self.advertised = advertised;
        }
        if let Response::Data(Data::Enabled { capabilities }) = response {
            add_names(&mut self.enabled, capabilities);
            if self.enabled.contains("QRESYNC") {
                self.enabled.insert("CONDSTORE".to_owned());
            }
        }
    }

    fn message_set(&self, set: &MessageSet) -> (r: Result<(), String>)
        ensures
            error_of(r) == set_error(self@, set.deep_view()),
    {
        match set {
            MessageSet::SearchResult => self.require("SEARCHRES"),
            MessageSet::SequenceSet(_) => Ok(()),
        }
    }

    fn search_key(&self, key: &SearchKey) -> (r: Result<(), String>)
        ensures
            error_of(r) == key_error(self@, key.deep_view()),
        decreases key,
    {
        match key {
            SearchKey::SearchResult | SearchKey::UidSearchResult => self.require("SEARCHRES"),
            SearchKey::And(keys) => {
                proof {
                    search::lemma_and_view(*keys);
                    assert(decreases_to!(*key => key->And_0));
                }
                self.search_keys(keys)
            },
            SearchKey::Not(key) => self.search_key(key),
            SearchKey::Or(a, b) => {
                self.search_key(a)?;
                self.search_key(b)
            },
            SearchKey::ModSequence { .. } => self.require("CONDSTORE"),
            SearchKey::Flag(FlagKey::New) | SearchKey::Flag(FlagKey::Old) | SearchKey::Flag(
                FlagKey::Recent,
            ) => {
                if self.rev2_active() {
                    refusal("IMAP4rev2 does not define RECENT, NEW or OLD search keys")
                } else {
                    Ok(())
                }
            },
            _ => Ok(()),
        }
    }

    fn search_keys(&self, keys: &Vec<SearchKey>) -> (r: Result<(), String>)
        ensures
            error_of(r) == keys_error(self@, keys.deep_view()),
        decreases keys,
    {
        let ghost all = keys.deep_view();
        let ghost check = |k: KeyView| key_error(self@, k);
        proof {
            lemma_keys_error(self@, all);
        }
        let mut i: usize = 0;
        while i < keys.len()
            invariant
                i <= keys@.len(),
                all == keys.deep_view(),
                check == (|k: KeyView| key_error(self@, k)),
                keys_error(self@, all) == first_error(all, check),
                first_error(all.take(i as int), check) is None,
            decreases keys@.len() - i,
        {
            proof {
                lemma_first_error_step(all, i as int, check);
                assert(all[i as int] == keys@[i as int].deep_view());
                assert(decreases_to!(*keys => keys@[i as int]));
            }
            self.search_key(&keys[i])?;
            i = i + 1;
        }
        assert(all.take(i as int) =~= all);
        Ok(())
    }

    fn search(&self, charset: &Option<Charset>, criteria: &Vec<SearchKey>) -> (r: Result<
        (),
        String,
    >)
        ensures
            error_of(r) == search_error(self@, charset.deep_view(), criteria.deep_view()),
    {
        if !self.rev2_active() && self.utf8_active() && charset.is_some() {
            return refusal("IMAP UTF-8 mode prohibits an explicit SEARCH CHARSET");
        }
        self.search_keys(criteria)
    }

    fn status_names(&self, names: &[StatusDataItemName]) -> (r: Result<(), String>)
        ensures
            error_of(r) == status_names_error(self@, names@),
    {
        let ghost all = names@;
        let ghost check = |n: StatusDataItemName| status_error(self@, n);
        let mut i: usize = 0;
        while i < names.len()
            invariant
                i <= names@.len(),
                all == names@,
                check == (|n: StatusDataItemName| status_error(self@, n)),
                first_error(all.take(i as int), check) is None,
            decreases names@.len() - i,
        {
            proof {
                lemma_first_error_step(all, i as int, check);
            }
            match names[i] {
                StatusDataItemName::Size => self.require("STATUS=SIZE")?,
                StatusDataItemName::Deleted => {
                    if !self.rev2_active() {
                        self.require("QUOTA=RES-MESSAGE")?;
                    }
                },
                StatusDataItemName::DeletedStorage => self.require("QUOTA=RES-STORAGE")?,
                StatusDataItemName::Recent => {
                    if self.rev2_active() {
                        return refusal("RECENT status was removed from IMAP4rev2");
                    }
                },
                StatusDataItemName::HighestModSeq => self.require("CONDSTORE")?,
                _ => {},
            }
            i = i + 1;
        }
        assert(all.take(i as int) =~= all);
        Ok(())
    }

    fn enable(&self, capabilities: &Vec<Atom>) -> (r: Result<(), String>)
        ensures
            error_of(r) == first_error(
                capabilities.deep_view(),
                |b: Seq<u8>| enable_error(self@, b),
            ),
    {
        let ghost all = capabilities.deep_view();
        let ghost check = |b: Seq<u8>| enable_error(self@, b);
        let mut i: usize = 0;
        while i < capabilities.len()
            invariant
                i <= capabilities@.len(),
                all == capabilities.deep_view(),
                check == (|b: Seq<u8>| enable_error(self@, b)),
                first_error(all.take(i as int), check) is None,
            decreases capabilities@.len() - i,
        {
            proof {
                lemma_first_error_step(all, i as int, check);
                assert(all[i as int] == capabilities@[i as int].bytes@);
            }
            let name: String = ascii::upper_text(capabilities[i].bytes.as_slice());
            if ascii::same_text(name.as_str(), "IMAP4REV2") && self.version != Version::Rev2 {
                return refusal("IMAP version was declared as 4rev1");
            }
            self.require(name.as_str())?;
            i = i + 1;
        }
        assert(all.take(i as int) =~= all);
        Ok(())
    }

    fn list_returns(&self, options: &Vec<ListReturn>) -> (r: Result<(), String>)
        ensures
            error_of(r) == first_error(
                options.deep_view(),
                |r: ListReturnView| list_return_error(self@, r),
            ),
    {
        let ghost all = options.deep_view();
        let ghost check = |r: ListReturnView| list_return_error(self@, r);
        let mut i: usize = 0;
        while i < options.len()
            invariant
                i <= options@.len(),
                all == options.deep_view(),
                check == (|r: ListReturnView| list_return_error(self@, r)),
                first_error(all.take(i as int), check) is None,
            decreases options@.len() - i,
        {
            proof {
                lemma_first_error_step(all, i as int, check);
                assert(all[i as int] == options@[i as int].deep_view());
            }
            match &options[i] {
                ListReturn::Status(names) => {
                    assert(names.deep_view() =~= names@);
                    self.require("LIST-STATUS")?;
                    self.status_names(names.as_slice())?;
                },
                ListReturn::SpecialUse => self.require("SPECIAL-USE")?,
                _ => {},
            }
            i = i + 1;
        }
        assert(all.take(i as int) =~= all);
        Ok(())
    }

    fn fetch_items(&self, items: &MacroOrMessageDataItemNames) -> (r: Result<(), String>)
        ensures
            error_of(r) == fetch_items_error(self@, items.deep_view()),
    {
        let names: &Vec<MessageDataItemName> = match items {
            MacroOrMessageDataItemNames::Macro(_) => return Ok(()),
            MacroOrMessageDataItemNames::MessageDataItemNames(names) => names,
        };
        let ghost all = names.deep_view();
        let ghost check = |i: ItemNameView| fetch_item_error(self@, i);
        let mut i: usize = 0;
        while i < names.len()
            invariant
                i <= names@.len(),
                all == names.deep_view(),
                items.deep_view() == ItemNamesView::Items(all),
                check == (|i: ItemNameView| fetch_item_error(self@, i)),
                first_error(all.take(i as int), check) is None,
            decreases names@.len() - i,
        {
            proof {
                lemma_first_error_step(all, i as int, check);
                assert(all[i as int] == names@[i as int].deep_view());
            }
            match &names[i] {
                MessageDataItemName::Binary { .. } | MessageDataItemName::BinarySize { .. } => {
                    self.require("BINARY-FETCH")?
                },
                MessageDataItemName::Plain(PlainItem::ModSeq) => self.require("CONDSTORE")?,
                MessageDataItemName::Plain(PlainItem::Rfc822)
                | MessageDataItemName::Plain(PlainItem::Rfc822Header)
                | MessageDataItemName::Plain(PlainItem::Rfc822Text) => {
                    if self.rev2_active() {
                        return refusal("Use BODY sections for IMAP4rev2 FETCH");
                    }
                },
                _ => {},
            }
            i = i + 1;
        }
        assert(all.take(i as int) =~= all);
        Ok(())
    }

    fn fetch_modifiers(&self, uid: bool, modifiers: &Vec<FetchModifier>) -> (r: Result<(), String>)
        ensures
            error_of(r) == first_error(
                modifiers.deep_view(),
                |m: FetchModifier| fetch_modifier_error(self@, uid, modifiers.deep_view(), m),
            ),
    {
        let ghost all = modifiers.deep_view();
        let ghost check = |m: FetchModifier| fetch_modifier_error(self@, uid, all, m);
        let mut i: usize = 0;
        while i < modifiers.len()
            invariant
                i <= modifiers@.len(),
                all == modifiers.deep_view(),
                check == (|m: FetchModifier| fetch_modifier_error(self@, uid, all, m)),
                first_error(all.take(i as int), check) is None,
            decreases modifiers@.len() - i,
        {
            proof {
                lemma_first_error_step(all, i as int, check);
                assert(all[i as int] == modifiers@[i as int]);
            }
            match modifiers[i] {
                FetchModifier::ChangedSince(_) => self.require("CONDSTORE")?,
                FetchModifier::Vanished => {
                    self.require_enabled("QRESYNC")?;
                    if !uid || !has_changed_since(modifiers) {
                        return refusal("VANISHED requires UID FETCH with CHANGEDSINCE");
                    }
                },
            }
            i = i + 1;
        }
        assert(all.take(i as int) =~= all);
        Ok(())
    }

    fn select_parameter(&self, p: &SelectParameter) -> (r: Result<(), String>)
        ensures
            error_of(r) == select_error(self@, p.deep_view()),
    {
        match p {
            SelectParameter::CondStore => self.require("CONDSTORE"),
            SelectParameter::QResync { known_uids, seq_match_data, .. } => {
                self.require_enabled("QRESYNC")?;
                if let Some(s) = known_uids {
                    match explicit_set(s) {
                        Ok(_) => {},
                        Err(e) => return Err(e),
                    }
                }
                if let Some(m) = seq_match_data {
                    match_sets(m)?;
                }
                Ok(())
            },
        }
    }

    fn select_parameters(&self, parameters: &Vec<SelectParameter>) -> (r: Result<(), String>)
        ensures
            error_of(r) == first_error(
                parameters.deep_view(),
                |p: SelectParameterView| select_error(self@, p),
            ),
    {
        let ghost all = parameters.deep_view();
        let ghost check = |p: SelectParameterView| select_error(self@, p);
        let mut i: usize = 0;
        while i < parameters.len()
            invariant
                i <= parameters@.len(),
                all == parameters.deep_view(),
                check == (|p: SelectParameterView| select_error(self@, p)),
                first_error(all.take(i as int), check) is None,
            decreases parameters@.len() - i,
        {
            proof {
                lemma_first_error_step(all, i as int, check);
                assert(all[i as int] == parameters@[i as int].deep_view());
            }
            self.select_parameter(&parameters[i])?;
            i = i + 1;
        }
        assert(all.take(i as int) =~= all);
        Ok(())
    }

    fn list_options(&self, selection: &Vec<Atom>, options: &Option<Vec<ListReturn>>) -> (r: Result<
        (),
        String,
    >)
        ensures
            error_of(r) == either(
                if asks_for_special_use(selection.deep_view()) {
                    require_error(self@, "SPECIAL-USE"@)
                } else {
                    None
                },
                match options.deep_view() {
                    Some(v) => first_error(v, |r: ListReturnView| list_return_error(self@, r)),
                    None => None,
                },
            ),
    {
        if selects_special_use(selection) {
            self.require("SPECIAL-USE")?;
        }
        if let Some(v) = options {
            self.list_returns(v)?;
        }
        Ok(())
    }

    fn validate_body(&self, body: &CommandBody) -> (r: Result<(), String>)
        ensures
            error_of(r) == body_error(self@, body.deep_view()),
    {
        match body {
            CommandBody::Idle => self.require("IDLE"),
            CommandBody::Unselect => self.require("UNSELECT"),
            CommandBody::ExpungeUid { sequence_set } => {
                self.require("UIDPLUS")?;
                self.message_set(sequence_set)
            },
            CommandBody::Move { sequence_set, .. } => {
                self.require("MOVE")?;
                self.message_set(sequence_set)
            },
            CommandBody::Copy { sequence_set, .. } => self.message_set(sequence_set),
            CommandBody::Enable { capabilities } => {
                self.require("ENABLE")?;
                self.enable(capabilities)
            },
            CommandBody::Compress { algorithm: CompressionAlgorithm::Deflate } => self.require(
                "COMPRESS=DEFLATE",
            ),
            CommandBody::GetQuota { .. }
            | CommandBody::GetQuotaRoot { .. }
            | CommandBody::SetQuota { .. } => self.require("QUOTA"),
            CommandBody::Id { .. } => self.require("ID"),
            CommandBody::GetMetadata { .. } | CommandBody::SetMetadata { .. } => self.require(
                "METADATA",
            ),
            CommandBody::Namespace => self.require("NAMESPACE"),
            CommandBody::Sort { search_criteria, .. } => {
                self.require("SORT")?;
                self.search_keys(search_criteria)
            },
            CommandBody::Thread { algorithm, search_criteria, .. } => {
                let mut name: String = "THREAD=".to_owned();
                let algorithm: String = ascii::upper_text(algorithm.bytes.as_slice());
                name.append(algorithm.as_str());
                self.require(name.as_str())?;
                self.search_keys(search_criteria)
            },
            CommandBody::Search { charset, criteria, .. } => self.search(charset, criteria),
            CommandBody::SearchExtended { return_options, charset, criteria, .. } => {
                self.require("ESEARCH")?;
                self.search(charset, criteria)?;
                if saves(return_options) {
                    self.require("SEARCHRES")?;
                }
                Ok(())
            },
            CommandBody::ListExtended { selection, return_options, .. } => {
                self.require("LIST-EXTENDED")?;
                self.list_options(selection, return_options)
            },
            CommandBody::Status { item_names, .. } => {
                assert(item_names.deep_view() =~= item_names@);
                self.status_names(item_names.as_slice())
            },
            CommandBody::Append { message, .. } => match message {
                LiteralOrLiteral8::Literal8(_) => self.require("BINARY"),
                LiteralOrLiteral8::Literal(_) => Ok(()),
            },
            CommandBody::Fetch { sequence_set, macro_or_item_names, uid, modifiers } => {
                self.message_set(sequence_set)?;
                self.fetch_items(macro_or_item_names)?;
                self.fetch_modifiers(*uid, modifiers)
            },
            CommandBody::Store { sequence_set, modifiers, .. } => {
                self.message_set(sequence_set)?;
                if modifiers.len() > 0 {
                    self.require("CONDSTORE")?;
                }
                Ok(())
            },
            CommandBody::Select { parameters, .. } | CommandBody::Examine { parameters, .. } => {
                self.select_parameters(parameters)
            },
            CommandBody::Check | CommandBody::Lsub { .. } => {
                if self.rev2_active() {
                    refusal("Command was removed from IMAP4rev2")
                } else {
                    Ok(())
                }
            },
            _ => Ok(()),
        }
    }

    /// Checks what goes over the wire, in the order in which it does.
    fn validate_wire(&self, message: &Encoded, non_sync: &str) -> (r: Result<(), String>)
        ensures
            error_of(r) == wire_error(self@, non_sync@, message@),
    {
        let ghost all = message.fragments@;
        let mut i: usize = 0;
        assert(all.take(0) =~= seq![]);
        assert(encode::fragments_tokens(all.take(0)) =~= seq![]);
        while i < message.fragments.len()
            invariant
                i <= all.len(),
                all == message.fragments@,
                wire_error(self@, non_sync@, encode::fragments_tokens(all.take(i as int))) is None,
            decreases all.len() - i,
        {
            proof {
                let done = encode::fragments_tokens(all.take(i as int));
                let next = encode::fragment_tokens(all[i as int]);
                assert(all.take(i + 1) =~= all.take(i as int).push(all[i as int]));
                encode::lemma_fragments_push(all.take(i as int), all[i as int]);
                lemma_wire_add(self@, non_sync@, done, next);
                lemma_fragments_split(all, i + 1);
                let rest = encode::fragments_tokens(all.skip(i + 1));
                lemma_wire_add(self@, non_sync@, done + next, rest);
                match all[i as int] {
                    Fragment::Line { data } => {
                        lemma_line_error(self@, non_sync@, data@);
                    },
                    Fragment::Literal { data, mode } => {
                        lemma_literal_error(self@, non_sync@, Token::Literal(data@, mode));
                    },
                }
            }
            match &message.fragments[i] {
                Fragment::Line { data } => {
                    if !self.utf8_active() && !utf8::is_ascii(data.as_slice()) {
                        return refusal("UTF-8 quoted strings require UTF8=ACCEPT or IMAP4rev2");
                    }
                },
                Fragment::Literal { data, mode } => {
                    if *mode == LiteralMode::NonSync && !self.allows_non_sync(data.len() as u64) {
                        return refusal(non_sync);
                    }
                },
            }
            i = i + 1;
        }
        assert(all.take(i as int) =~= all);
        Ok(())
    }

    fn allows_non_sync(&self, length: u64) -> (r: bool)
        ensures
            r == non_sync_allowed(self@, length as nat),
    {
        self.supports("LITERAL+") || (length <= 4096 && self.supports("LITERAL-"))
    }

    /// Whether a command may be sent, and if not, why.
    pub fn validate(&self, body: &CommandBody) -> (r: Result<(), String>)
        ensures
            error_of(r) == validation_error(self@, body.deep_view()),
    {
        self.validate_body(body)?;
        let name: Vec<u8> = ascii::text_bytes("V");
        let mut ctx = EncodeContext::new();
        write_command(name.as_slice(), body, &mut ctx);
        proof {
            encode::lemma_empty_concat(
                command::command_tokens(
                    CommandView { tag: ascii::bytes_of("V"), body: body.deep_view() },
                ),
            );
        }
        let message = ctx.into_encoded();
        self.validate_wire(&message, "Non-synchronizing literal was not negotiated")
    }

    /// Validates a streamed APPEND by its announced length.
    pub fn validate_streamed_append(&self, append: &StreamedAppend) -> (r: Result<(), String>)
        ensures
            error_of(r) == append_error(self@, append.deep_view()),
    {
        let prefix = match append.encode_prefix() {
            Ok(prefix) => prefix,
            Err(e) => return refusal(e),
        };
        if append.binary {
            self.require("BINARY")?;
        }
        if append.mode == LiteralMode::NonSync && !self.allows_non_sync(append.length) {
            return refusal("Non-synchronizing APPEND length was not negotiated");
        }
        self.validate_wire(&prefix, "Non-synchronizing mailbox literal was not negotiated")
    }

    /// Whether a response may come: UTF-8 outside of literals has to be in force.
    pub fn validate_response(&self, response: &Response) -> (r: Result<(), String>)
        ensures
            error_of(r) == response_refusal(self@, response.deep_view()),
    {
        if self.utf8_active() {
            return Ok(());
        }
        let message = ResponseCodec.encode(response);
        let ghost all = message.fragments@;
        let mut i: usize = 0;
        assert(all.take(0) =~= seq![]);
        assert(encode::fragments_tokens(all.take(0)) =~= seq![]);
        while i < message.fragments.len()
            invariant
                i <= all.len(),
                all == message.fragments@,
                message@ == response::response_tokens(response.deep_view()),
                !utf8_is_active(self@),
                lines_are_ascii(encode::fragments_tokens(all.take(i as int))),
            decreases all.len() - i,
        {
            proof {
                let done = encode::fragments_tokens(all.take(i as int));
                let next = encode::fragment_tokens(all[i as int]);
                assert(all.take(i + 1) =~= all.take(i as int).push(all[i as int]));
                encode::lemma_fragments_push(all.take(i as int), all[i as int]);
                lemma_fragments_split(all, i + 1);
                let rest = encode::fragments_tokens(all.skip(i + 1));
                lemma_lines_add(done, next);
                lemma_lines_add(done + next, rest);
                lemma_lines_of(all[i as int]);
            }
            if let Fragment::Line { data } = &message.fragments[i] {
                if !utf8::is_ascii(data.as_slice()) {
                    return refusal("UTF-8 response syntax was not enabled");
                }
            }
            i = i + 1;
        }
        assert(all.take(i as int) =~= all);
        Ok(())
    }
}

proof fn lemma_fragments_split(f: Seq<Fragment>, n: int)
    requires
        0 <= n <= f.len(),
    ensures
        encode::fragments_tokens(f) == encode::fragments_tokens(f.take(n))
            + encode::fragments_tokens(f.skip(n)),
    decreases f.len() - n,
{
    if n == f.len() {
        assert(f.take(n) =~= f);
        assert(f.skip(n) =~= seq![]);
        encode::lemma_concat_empty(encode::fragments_tokens(f));
    } else {
        lemma_fragments_split(f.drop_last(), n);
        assert(f.drop_last().take(n) =~= f.take(n));
        assert(f.skip(n).drop_last() =~= f.drop_last().skip(n));
        assert(f.skip(n).last() == f.last());
        encode::lemma_concat_assoc(
            encode::fragments_tokens(f.take(n)),
            encode::fragments_tokens(f.drop_last().skip(n)),
            encode::fragment_tokens(f.last()),
        );
    }
}

proof fn lemma_lines_add(a: Seq<Token>, b: Seq<Token>)
    ensures
        lines_are_ascii(a + b) <==> lines_are_ascii(a) && lines_are_ascii(b),
{
    if lines_are_ascii(a + b) {
        assert forall|i: int| 0 <= i < a.len() implies ((#[trigger] a[i]) matches Token::Byte(x)
            ==> x < 0x80) by {
            assert((a + b)[i] == a[i]);
        }
        assert forall|i: int| 0 <= i < b.len() implies ((#[trigger] b[i]) matches Token::Byte(x)
            ==> x < 0x80) by {
            assert((a + b)[a.len() + i] == b[i]);
        }
    }
}

proof fn lemma_lines_of(f: Fragment)
    ensures
        lines_are_ascii(encode::fragment_tokens(f)) <==> (f matches Fragment::Line { data }
            ==> forall|i: int| 0 <= i < data@.len() ==> #[trigger] data@[i] < 0x80),
{
    if let Fragment::Line { data } = f {
        let tokens = encode::plain(data@);
        if lines_are_ascii(tokens) {
            assert forall|i: int| 0 <= i < data@.len() implies #[trigger] data@[i] < 0x80 by {
                assert(tokens[i] == Token::Byte(data@[i]));
            }
        }
    }
}

} // verus!
