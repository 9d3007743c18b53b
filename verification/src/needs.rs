//! What each command needs of a server, as a table, and that commands pass
//! exactly where the server has it.
use vstd::prelude::*;

use crate::append;
use crate::append::StreamedAppendView;
use crate::ascii;
use crate::client_capabilities as client;
use crate::client_capabilities::{CapabilitiesView, Version};
use crate::command;
use crate::command::{BodyView, CommandView, FetchModifier, SelectParameterView};
use crate::encode::{LiteralMode, Token};
use crate::fetch::{ItemNameView, ItemNamesView};
use crate::response;
use crate::response::{CodeView, DataView, ResponseView, StatusView};
use crate::rev2::{ListReturnView, MessageSetView, SearchReturnView};
use crate::search::KeyView;
use crate::sequence::Sequence;
use crate::status::StatusDataItemName;
use crate::strings::StringView;

verus! {

// ------------------------------------------------------------------------ names

/// A letter in upper case, as a character.
pub open spec fn big(b: u8) -> char {
    if 97 <= b <= 122 {
        (b - 32) as char
    } else {
        b as char
    }
}

/// A text in upper case.
pub open spec fn named(b: Seq<u8>) -> Seq<char> {
    Seq::new(b.len(), |i: int| big(b[i]))
}

/// The list has the name, in whatever case.
pub open spec fn lists(v: Seq<Seq<u8>>, name: Seq<char>) -> bool {
    exists|i: int| 0 <= i < v.len() && named(#[trigger] v[i]) == name
}

// ------------------------------------------------------------------------ state

/// A client that has declared IMAP4rev2 speaks it with a server that offers it,
/// as soon as it is enabled where the server also offers IMAP4rev1.
pub open spec fn speaks_rev2(c: CapabilitiesView) -> bool {
    match c.version {
        Version::Rev1 => false,
        Version::Rev2 => if !c.advertised.contains("IMAP4REV2"@) {
            false
        } else if c.advertised.contains("IMAP4REV1"@) {
            c.enabled.contains("IMAP4REV2"@)
        } else {
            true
        },
    }
}

pub open spec fn speaks_utf8(c: CapabilitiesView) -> bool {
    if c.enabled.contains("UTF8=ACCEPT"@) {
        true
    } else if c.enabled.contains("UTF8=ONLY"@) {
        true
    } else {
        speaks_rev2(c)
    }
}

/// What a server that speaks IMAP4rev2 need not advertise.
pub open spec fn brought_by_rev2() -> Set<Seq<char>> {
    set![
        "STATUS=SIZE"@,
        "SEARCHRES"@,
        "SASL-IR"@,
        "NAMESPACE"@,
        "UNSELECT"@,
        "UIDPLUS"@,
        "MOVE"@,
        "LITERAL-"@,
        "LIST-STATUS"@,
        "LIST-EXTENDED"@,
        "IDLE"@,
        "ESEARCH"@,
        "ENABLE"@,
        "BINARY-FETCH"@,
    ]
}

/// The server has the capability.
pub open spec fn offers(c: CapabilitiesView, name: Seq<char>) -> bool {
    if c.advertised.contains(name) {
        true
    } else if name == "BINARY-FETCH"@ && c.advertised.contains("BINARY"@) {
        true
    } else {
        speaks_rev2(c) && brought_by_rev2().contains(name)
    }
}

// ------------------------------------------------------------------------ needs

/// A condition under which a command may be sent.
pub enum Need {
    /// The server has the capability.
    Offered(Seq<char>),
    /// The server has the capability, or speaks IMAP4rev2.
    OfferedByRev1(Seq<char>),
    /// The capability has been enabled.
    Enabled(Seq<char>),
    /// The client has declared IMAP4rev2.
    DeclaredRev2,
    /// IMAP4rev2 has dropped it, for this reason.
    BeforeRev2(Seq<char>),
    /// A character set is told, which the UTF-8 mode of IMAP4rev1 rules out.
    OwnCharset,
    /// A rule that the command keeps or breaks by itself.
    Kept(bool, Seq<char>),
}

pub open spec fn met(c: CapabilitiesView, n: Need) -> bool {
    match n {
        Need::Offered(name) => offers(c, name),
        Need::OfferedByRev1(name) => speaks_rev2(c) || offers(c, name),
        Need::Enabled(name) => c.enabled.contains(name),
        Need::DeclaredRev2 => c.version == Version::Rev2,
        Need::BeforeRev2(_) => !speaks_rev2(c),
        Need::OwnCharset => speaks_rev2(c) || !speaks_utf8(c),
        Need::Kept(kept, _) => kept,
    }
}

/// What a client is told where it is not met.
pub open spec fn reason(n: Need) -> Seq<char> {
    match n {
        Need::Offered(name) => "IMAP capability "@ + name + " is required"@,
        Need::OfferedByRev1(name) => "IMAP capability "@ + name + " is required"@,
        Need::Enabled(name) => "IMAP capability "@ + name + " has not been enabled"@,
        Need::DeclaredRev2 => "IMAP version was declared as 4rev1"@,
        Need::BeforeRev2(text) => text,
        Need::OwnCharset => "IMAP UTF-8 mode prohibits an explicit SEARCH CHARSET"@,
        Need::Kept(_, text) => text,
    }
}

/// All needs are met.
pub open spec fn all_met(c: CapabilitiesView, v: Seq<Need>) -> bool {
    forall|i: int| 0 <= i < v.len() ==> met(c, #[trigger] v[i])
}

/// The first need that is not met stands at `i`.
pub open spec fn fails_first(c: CapabilitiesView, v: Seq<Need>, i: int) -> bool {
    &&& 0 <= i < v.len()
    &&& !met(c, v[i])
    &&& forall|j: int| 0 <= j < i ==> met(c, #[trigger] v[j])
}

/// The needs of items, one behind the other.
pub open spec fn each<T>(v: Seq<T>, f: spec_fn(T) -> Seq<Need>) -> Seq<Need>
    decreases v.len(),
{
    if v.len() == 0 {
        seq![]
    } else {
        each(v.drop_last(), f) + f(v.last())
    }
}

pub open spec fn set_needs(s: MessageSetView) -> Seq<Need> {
    if s is SearchResult {
        seq![Need::Offered("SEARCHRES"@)]
    } else {
        seq![]
    }
}

/// The needs of a search key and of all that it holds, from left to right.
pub open spec fn key_needs(k: KeyView) -> Seq<Need>
    decreases k,
{
    match k {
        KeyView::And(v) => keys_needs(v),
        KeyView::Or(a, b) => key_needs(*a) + key_needs(*b),
        KeyView::Not(a) => key_needs(*a),
        KeyView::SearchResult | KeyView::UidSearchResult => seq![Need::Offered("SEARCHRES"@)],
        KeyView::ModSequence { .. } => seq![Need::Offered("CONDSTORE"@)],
        KeyView::Flag(f) => if f is New || f is Old || f is Recent {
            seq![Need::BeforeRev2("IMAP4rev2 does not define RECENT, NEW or OLD search keys"@)]
        } else {
            seq![]
        },
        _ => seq![],
    }
}

pub open spec fn keys_needs(v: Seq<KeyView>) -> Seq<Need>
    decreases v,
{
    if v.len() == 0 {
        seq![]
    } else {
        keys_needs(v.drop_last()) + key_needs(v[v.len() - 1])
    }
}

pub open spec fn charset_needs(charset: Option<StringView>) -> Seq<Need> {
    if charset is Some {
        seq![Need::OwnCharset]
    } else {
        seq![]
    }
}

pub open spec fn status_needs(n: StatusDataItemName) -> Seq<Need> {
    match n {
        StatusDataItemName::Size => seq![Need::Offered("STATUS=SIZE"@)],
        StatusDataItemName::Deleted => seq![Need::OfferedByRev1("QUOTA=RES-MESSAGE"@)],
        StatusDataItemName::DeletedStorage => seq![Need::Offered("QUOTA=RES-STORAGE"@)],
        StatusDataItemName::HighestModSeq => seq![Need::Offered("CONDSTORE"@)],
        StatusDataItemName::Recent => seq![
            Need::BeforeRev2("RECENT status was removed from IMAP4rev2"@),
        ],
        StatusDataItemName::Messages
        | StatusDataItemName::UidNext
        | StatusDataItemName::UidValidity
        | StatusDataItemName::Unseen => seq![],
    }
}

pub open spec fn enable_needs(b: Seq<u8>) -> Seq<Need> {
    if named(b) == "IMAP4REV2"@ {
        seq![Need::DeclaredRev2, Need::Offered("IMAP4REV2"@)]
    } else {
        seq![Need::Offered(named(b))]
    }
}

pub open spec fn list_return_needs(r: ListReturnView) -> Seq<Need> {
    match r {
        ListReturnView::Status(v) => seq![Need::Offered("LIST-STATUS"@)] + each(
            v,
            |n: StatusDataItemName| status_needs(n),
        ),
        ListReturnView::SpecialUse => seq![Need::Offered("SPECIAL-USE"@)],
        _ => seq![],
    }
}

pub open spec fn save_needs(r: SearchReturnView) -> Seq<Need> {
    if r is Save {
        seq![Need::Offered("SEARCHRES"@)]
    } else {
        seq![]
    }
}

pub open spec fn item_needs(i: ItemNameView) -> Seq<Need> {
    match i {
        ItemNameView::Binary { .. } | ItemNameView::BinarySize { .. } => seq![
            Need::Offered("BINARY-FETCH"@),
        ],
        ItemNameView::BodyExt { .. } => seq![],
        ItemNameView::Plain(p) => if p is ModSeq {
            seq![Need::Offered("CONDSTORE"@)]
        } else if p is Rfc822 || p is Rfc822Header || p is Rfc822Text {
            seq![Need::BeforeRev2("Use BODY sections for IMAP4rev2 FETCH"@)]
        } else {
            seq![]
        },
    }
}

pub open spec fn items_needs(v: ItemNamesView) -> Seq<Need> {
    match v {
        ItemNamesView::Items(v) => each(v, |i: ItemNameView| item_needs(i)),
        ItemNamesView::Macro(_) => seq![],
    }
}

/// One of the modifiers tells since when.
pub open spec fn tells_since(all: Seq<FetchModifier>) -> bool {
    exists|i: int| 0 <= i < all.len() && (#[trigger] all[i]) is ChangedSince
}

pub open spec fn modifier_needs(uid: bool, all: Seq<FetchModifier>, m: FetchModifier) -> Seq<Need> {
    match m {
        FetchModifier::ChangedSince(_) => seq![Need::Offered("CONDSTORE"@)],
        FetchModifier::Vanished => seq![
            Need::Enabled("QRESYNC"@),
            Need::Kept(
                uid && tells_since(all),
                "VANISHED requires UID FETCH with CHANGEDSINCE"@,
            ),
        ],
    }
}

/// The numbers from one to the other, both of them counted.
pub open spec fn count(s: Sequence) -> Option<nat> {
    match s {
        Sequence::Single(a) => if a is Value {
            Some(1)
        } else {
            None
        },
        Sequence::Range(a, b) => if a is Value && b is Value {
            let low = if a->Value_0 < b->Value_0 {
                a->Value_0
            } else {
                b->Value_0
            };
            let high = if a->Value_0 < b->Value_0 {
                b->Value_0
            } else {
                a->Value_0
            };
            Some((high + 1 - low) as nat)
        } else {
            None
        },
    }
}

/// How many numbers the sequences have, each taken by itself.
pub open spec fn total(v: Seq<Sequence>) -> nat
    decreases v.len(),
{
    if v.len() == 0 {
        0
    } else {
        total(v.drop_last()) + count(v.last())->Some_0
    }
}

/// No sequence has a `*`, and the numbers can be counted.
pub open spec fn explicit_needs(v: Seq<Sequence>) -> Seq<Need>
    decreases v.len(),
{
    if v.len() == 0 {
        seq![]
    } else {
        explicit_needs(v.drop_last()) + seq![
            Need::Kept(count(v.last()) is Some, "QRESYNC match sets cannot contain '*'"@),
            Need::Kept(total(v) < 0x1_0000_0000_0000_0000, "QRESYNC set cardinality overflow"@),
        ]
    }
}

pub open spec fn select_needs(p: SelectParameterView) -> Seq<Need> {
    match p {
        SelectParameterView::CondStore => seq![Need::Offered("CONDSTORE"@)],
        SelectParameterView::QResync { known_uids, seq_match_data, .. } => seq![
            Need::Enabled("QRESYNC"@),
        ] + (match known_uids {
            Some(v) => explicit_needs(v),
            None => seq![],
        }) + (match seq_match_data {
            Some(m) => explicit_needs(m.0) + explicit_needs(m.1) + seq![
                Need::Kept(
                    total(m.0) == total(m.1),
                    "QRESYNC sequence and UID match sets must have equal cardinality"@,
                ),
            ],
            None => seq![],
        }),
    }
}

/// What a command needs, in the order in which it is looked at.
pub open spec fn needs(b: BodyView) -> Seq<Need> {
    match b {
        BodyView::Idle => seq![Need::Offered("IDLE"@)],
        BodyView::Namespace => seq![Need::Offered("NAMESPACE"@)],
        BodyView::Unselect => seq![Need::Offered("UNSELECT"@)],
        BodyView::Id { .. } => seq![Need::Offered("ID"@)],
        BodyView::Compress { .. } => seq![Need::Offered("COMPRESS=DEFLATE"@)],
        BodyView::GetQuota { .. } => seq![Need::Offered("QUOTA"@)],
        BodyView::GetQuotaRoot { .. } => seq![Need::Offered("QUOTA"@)],
        BodyView::SetQuota { .. } => seq![Need::Offered("QUOTA"@)],
        BodyView::GetMetadata { .. } => seq![Need::Offered("METADATA"@)],
        BodyView::SetMetadata { .. } => seq![Need::Offered("METADATA"@)],
        BodyView::Check => seq![Need::BeforeRev2("Command was removed from IMAP4rev2"@)],
        BodyView::Lsub { .. } => seq![Need::BeforeRev2("Command was removed from IMAP4rev2"@)],
        BodyView::Move { sequence_set, .. } => seq![Need::Offered("MOVE"@)] + set_needs(
            sequence_set,
        ),
        BodyView::Copy { sequence_set, .. } => set_needs(sequence_set),
        BodyView::ExpungeUid { sequence_set } => seq![Need::Offered("UIDPLUS"@)] + set_needs(
            sequence_set,
        ),
        BodyView::Enable { capabilities } => seq![Need::Offered("ENABLE"@)] + each(
            capabilities,
            |b: Seq<u8>| enable_needs(b),
        ),
        BodyView::Sort { search_criteria, .. } => seq![Need::Offered("SORT"@)] + keys_needs(
            search_criteria,
        ),
        BodyView::Thread { algorithm, search_criteria, .. } => seq![
            Need::Offered("THREAD="@ + named(algorithm)),
        ] + keys_needs(search_criteria),
        BodyView::Search { charset, criteria, .. } => charset_needs(charset) + keys_needs(criteria),
        BodyView::SearchExtended { return_options, charset, criteria, .. } => seq![
            Need::Offered("ESEARCH"@),
        ] + charset_needs(charset) + keys_needs(criteria) + each(
            return_options,
            |r: SearchReturnView| save_needs(r),
        ),
        BodyView::ListExtended { selection, return_options, .. } => seq![
            Need::Offered("LIST-EXTENDED"@),
        ] + (if lists(selection, "SPECIAL-USE"@) {
            seq![Need::Offered("SPECIAL-USE"@)]
        } else {
            seq![]
        }) + (match return_options {
            Some(v) => each(v, |r: ListReturnView| list_return_needs(r)),
            None => seq![],
        }),
        BodyView::Status { item_names, .. } => each(
            item_names,
            |n: StatusDataItemName| status_needs(n),
        ),
        BodyView::Append { message, .. } => if message.binary {
            seq![Need::Offered("BINARY"@)]
        } else {
            seq![]
        },
        BodyView::Fetch { sequence_set, macro_or_item_names, uid, modifiers } => set_needs(
            sequence_set,
        ) + items_needs(macro_or_item_names) + each(
            modifiers,
            |m: FetchModifier| modifier_needs(uid, modifiers, m),
        ),
        BodyView::Store { sequence_set, modifiers, .. } => set_needs(sequence_set) + (if modifiers.len()
            == 0 {
            seq![]
        } else {
            seq![Need::Offered("CONDSTORE"@)]
        }),
        BodyView::Select { parameters, .. } => each(
            parameters,
            |p: SelectParameterView| select_needs(p),
        ),
        BodyView::Examine { parameters, .. } => each(
            parameters,
            |p: SelectParameterView| select_needs(p),
        ),
        BodyView::Capability
        | BodyView::Noop
        | BodyView::Logout
        | BodyView::Close
        | BodyView::StartTls
        | BodyView::Expunge
        | BodyView::Login { .. }
        | BodyView::Create { .. }
        | BodyView::Delete { .. }
        | BodyView::Subscribe { .. }
        | BodyView::Unsubscribe { .. }
        | BodyView::Rename { .. }
        | BodyView::List { .. }
        | BodyView::Authenticate { .. } => seq![],
    }
}

// ------------------------------------------------------------------- on the wire

/// A byte of a line or a literal can be sent.
pub open spec fn sendable(c: CapabilitiesView, t: Token) -> bool {
    match t {
        Token::Byte(b) => speaks_utf8(c) || b <= 127,
        Token::Literal(_, LiteralMode::Sync) => true,
        Token::Literal(data, LiteralMode::NonSync) => offers(c, "LITERAL+"@) || (offers(
            c,
            "LITERAL-"@,
        ) && data.len() < 4097),
    }
}

pub open spec fn all_sendable(c: CapabilitiesView, v: Seq<Token>) -> bool {
    forall|i: int| 0 <= i < v.len() ==> sendable(c, #[trigger] v[i])
}

pub open spec fn stops_first(c: CapabilitiesView, v: Seq<Token>, i: int) -> bool {
    &&& 0 <= i < v.len()
    &&& !sendable(c, v[i])
    &&& forall|j: int| 0 <= j < i ==> sendable(c, #[trigger] v[j])
}

/// What a client is told of what cannot be sent.
pub open spec fn stop_reason(t: Token, literal: Seq<char>) -> Seq<char> {
    if t is Byte {
        "UTF-8 quoted strings require UTF8=ACCEPT or IMAP4rev2"@
    } else {
        literal
    }
}

/// The command on the wire, under a tag of one letter.
pub open spec fn on_wire(b: BodyView) -> Seq<Token> {
    command::command_tokens(CommandView { tag: seq!['V' as u8], body: b })
}

// ---------------------------------------------------------------------- lemmas

proof fn lemma_named(b: Seq<u8>)
    ensures
        named(b) == client::capability_name(b),
{
    assert(named(b) =~= client::capability_name(b));
}

proof fn lemma_state(c: CapabilitiesView, name: Seq<char>)
    ensures
        speaks_rev2(c) == client::rev2_is_active(c),
        speaks_utf8(c) == client::utf8_is_active(c),
        offers(c, name) == client::is_supported(c, name),
{
}

pub open spec fn need_error(c: CapabilitiesView, n: Need) -> Option<Seq<char>> {
    if met(c, n) {
        None
    } else {
        Some(reason(n))
    }
}

/// The reason of the first need that is not met.
pub open spec fn refusal(c: CapabilitiesView, v: Seq<Need>) -> Option<Seq<char>>
    decreases v.len(),
{
    if v.len() == 0 {
        None
    } else if refusal(c, v.drop_last()) is Some {
        refusal(c, v.drop_last())
    } else {
        need_error(c, v.last())
    }
}

proof fn lemma_refusal_add(c: CapabilitiesView, a: Seq<Need>, b: Seq<Need>)
    ensures
        refusal(c, a + b) == client::either(refusal(c, a), refusal(c, b)),
    decreases b.len(),
{
    if b.len() == 0 {
        assert(a + b =~= a);
    } else {
        lemma_refusal_add(c, a, b.drop_last());
        assert((a + b).drop_last() =~= a + b.drop_last());
    }
}

proof fn lemma_refusal_one(c: CapabilitiesView, n: Need)
    ensures
        refusal(c, seq![n]) == need_error(c, n),
{
    assert(seq![n].drop_last() =~= seq![]);
    assert(refusal(c, seq![n].drop_last()) is None);
}

proof fn lemma_refusal_two(c: CapabilitiesView, m: Need, n: Need)
    ensures
        refusal(c, seq![m, n]) == client::either(need_error(c, m), need_error(c, n)),
{
    assert(seq![m, n] =~= seq![m] + seq![n]);
    lemma_refusal_add(c, seq![m], seq![n]);
    lemma_refusal_one(c, m);
    lemma_refusal_one(c, n);
}

proof fn lemma_refusal_is_first(c: CapabilitiesView, v: Seq<Need>)
    ensures
        all_met(c, v) <==> refusal(c, v) is None,
        forall|i: int| #[trigger] fails_first(c, v, i) ==> refusal(c, v) == Some(reason(v[i])),
        !all_met(c, v) ==> exists|i: int| fails_first(c, v, i),
    decreases v.len(),
{
    if v.len() > 0 {
        let w = v.drop_last();
        lemma_refusal_is_first(c, w);
        assert forall|i: int| 0 <= i < w.len() implies w[i] == v[i] by {}
        if all_met(c, w) {
            assert forall|i: int| 0 <= i < v.len() - 1 implies met(c, #[trigger] v[i]) by {
                assert(met(c, w[i]));
            }
            if !met(c, v.last()) {
                assert(fails_first(c, v, v.len() - 1));
            }
        } else {
            let k = choose|i: int| fails_first(c, w, i);
            assert forall|j: int| 0 <= j < k implies met(c, #[trigger] v[j]) by {
                assert(met(c, w[j]));
            }
            assert(fails_first(c, v, k));
            assert(!met(c, v[k]));
        }
        assert forall|i: int| #[trigger] fails_first(c, v, i) implies refusal(c, v) == Some(
            reason(v[i]),
        ) by {
            if i < w.len() {
                assert forall|j: int| 0 <= j < i implies met(c, #[trigger] w[j]) by {
                    assert(met(c, v[j]));
                }
                assert(fails_first(c, w, i));
            } else {
                assert forall|j: int| 0 <= j < w.len() implies met(c, #[trigger] w[j]) by {
                    assert(met(c, v[j]));
                }
                assert(all_met(c, w));
            }
        }
    }
}

proof fn lemma_each<T>(
    c: CapabilitiesView,
    v: Seq<T>,
    f: spec_fn(T) -> Seq<Need>,
    check: spec_fn(T) -> Option<Seq<char>>,
)
    requires
        forall|x: T| #[trigger] check(x) == refusal(c, f(x)),
    ensures
        client::first_error(v, check) == refusal(c, each(v, f)),
    decreases v.len(),
{
    if v.len() > 0 {
        lemma_each(c, v.drop_last(), f, check);
        lemma_refusal_add(c, each(v.drop_last(), f), f(v.last()));
        assert(check(v.last()) == refusal(c, f(v.last())));
    }
}

proof fn lemma_offered(c: CapabilitiesView, name: Seq<char>)
    ensures
        refusal(c, seq![Need::Offered(name)]) == client::require_error(c, name),
        need_error(c, Need::Offered(name)) == client::require_error(c, name),
{
    lemma_refusal_one(c, Need::Offered(name));
    lemma_state(c, name);
}

proof fn lemma_set(c: CapabilitiesView, s: MessageSetView)
    ensures
        refusal(c, set_needs(s)) == client::set_error(c, s),
{
    lemma_offered(c, "SEARCHRES"@);
}

proof fn lemma_key(c: CapabilitiesView, k: KeyView)
    ensures
        refusal(c, key_needs(k)) == client::key_error(c, k),
    decreases k,
{
    match k {
        KeyView::And(v) => lemma_keys(c, v),
        KeyView::Or(a, b) => {
            lemma_key(c, *a);
            lemma_key(c, *b);
            lemma_refusal_add(c, key_needs(*a), key_needs(*b));
        },
        KeyView::Not(a) => lemma_key(c, *a),
        KeyView::SearchResult | KeyView::UidSearchResult => lemma_offered(c, "SEARCHRES"@),
        KeyView::ModSequence { .. } => lemma_offered(c, "CONDSTORE"@),
        KeyView::Flag(f) => {
            lemma_refusal_one(
                c,
                Need::BeforeRev2("IMAP4rev2 does not define RECENT, NEW or OLD search keys"@),
            );
        },
        _ => {},
    }
}

proof fn lemma_keys(c: CapabilitiesView, v: Seq<KeyView>)
    ensures
        refusal(c, keys_needs(v)) == client::keys_error(c, v),
    decreases v,
{
    if v.len() > 0 {
        lemma_keys(c, v.drop_last());
        lemma_key(c, v[v.len() - 1]);
        lemma_refusal_add(c, keys_needs(v.drop_last()), key_needs(v[v.len() - 1]));
    }
}

proof fn lemma_search(c: CapabilitiesView, charset: Option<StringView>, criteria: Seq<KeyView>)
    ensures
        refusal(c, charset_needs(charset) + keys_needs(criteria)) == client::search_error(
            c,
            charset,
            criteria,
        ),
{
    lemma_keys(c, criteria);
    lemma_refusal_one(c, Need::OwnCharset);
    lemma_refusal_add(c, charset_needs(charset), keys_needs(criteria));
}

proof fn lemma_status(c: CapabilitiesView, n: StatusDataItemName)
    ensures
        refusal(c, status_needs(n)) == client::status_error(c, n),
{
    lemma_offered(c, "STATUS=SIZE"@);
    lemma_offered(c, "QUOTA=RES-STORAGE"@);
    lemma_offered(c, "CONDSTORE"@);
    lemma_refusal_one(c, Need::OfferedByRev1("QUOTA=RES-MESSAGE"@));
    lemma_refusal_one(c, Need::BeforeRev2("RECENT status was removed from IMAP4rev2"@));
}

proof fn lemma_statuses(c: CapabilitiesView, v: Seq<StatusDataItemName>)
    ensures
        refusal(c, each(v, |n: StatusDataItemName| status_needs(n))) == client::status_names_error(
            c,
            v,
        ),
{
    let f = |n: StatusDataItemName| status_needs(n);
    let check = |n: StatusDataItemName| client::status_error(c, n);
    assert forall|n: StatusDataItemName| #[trigger] check(n) == refusal(c, f(n)) by {
        lemma_status(c, n);
    }
    lemma_each(c, v, f, check);
}

proof fn lemma_enable(c: CapabilitiesView, b: Seq<u8>)
    ensures
        refusal(c, enable_needs(b)) == client::enable_error(c, b),
{
    lemma_named(b);
    lemma_offered(c, named(b));
    lemma_refusal_two(c, Need::DeclaredRev2, Need::Offered("IMAP4REV2"@));
}

proof fn lemma_list_return(c: CapabilitiesView, r: ListReturnView)
    ensures
        refusal(c, list_return_needs(r)) == client::list_return_error(c, r),
{
    lemma_offered(c, "LIST-STATUS"@);
    lemma_offered(c, "SPECIAL-USE"@);
    if let ListReturnView::Status(v) = r {
        lemma_statuses(c, v);
        lemma_refusal_add(
            c,
            seq![Need::Offered("LIST-STATUS"@)],
            each(v, |n: StatusDataItemName| status_needs(n)),
        );
    }
}

#[verifier::spinoff_prover]
proof fn lemma_special_use(selection: Seq<Seq<u8>>)
    ensures
        lists(selection, "SPECIAL-USE"@) == client::asks_for_special_use(selection),
{
    let w = ascii::bytes_of("SPECIAL-USE");
    reveal_strlit("SPECIAL-USE");
    assert(ascii::uppercase(w) =~= w);
    assert forall|b: Seq<u8>| (named(b) == "SPECIAL-USE"@) == #[trigger] ascii::same_word(b, w) by {
        lemma_named(b);
        let u = ascii::uppercase(b);
        if named(b) == "SPECIAL-USE"@ {
            assert forall|i: int| 0 <= i < u.len() implies u[i] == w[i] by {
                assert(named(b)[i] == u[i] as char);
            }
            assert(u =~= w);
        }
        if u == w {
            assert forall|i: int| 0 <= i < b.len() implies named(b)[i] == "SPECIAL-USE"@[i] by {
                assert(named(b)[i] == u[i] as char);
                assert(w[i] == "SPECIAL-USE"@[i] as u8);
            }
            assert(named(b) =~= "SPECIAL-USE"@);
        }
    }
}

proof fn lemma_saves(c: CapabilitiesView, v: Seq<SearchReturnView>)
    ensures
        refusal(c, each(v, |r: SearchReturnView| save_needs(r))) == if client::asks_to_save(v) {
            client::require_error(c, "SEARCHRES"@)
        } else {
            None
        },
    decreases v.len(),
{
    let f = |r: SearchReturnView| save_needs(r);
    lemma_offered(c, "SEARCHRES"@);
    if v.len() > 0 {
        let w = v.drop_last();
        lemma_saves(c, w);
        lemma_refusal_add(c, each(w, f), f(v.last()));
        if client::asks_to_save(w) {
            let i = choose|i: int| 0 <= i < w.len() && (#[trigger] w[i]) is Save;
            assert(v[i] is Save);
        }
        if client::asks_to_save(v) {
            let i = choose|i: int| 0 <= i < v.len() && (#[trigger] v[i]) is Save;
            if i < w.len() {
                assert(w[i] is Save);
            }
        }
        if v.last() is Save {
            assert(v[v.len() - 1] is Save);
        }
    }
}

proof fn lemma_item(c: CapabilitiesView, i: ItemNameView)
    ensures
        refusal(c, item_needs(i)) == client::fetch_item_error(c, i),
{
    lemma_offered(c, "BINARY-FETCH"@);
    lemma_offered(c, "CONDSTORE"@);
    lemma_refusal_one(c, Need::BeforeRev2("Use BODY sections for IMAP4rev2 FETCH"@));
}

proof fn lemma_items(c: CapabilitiesView, v: ItemNamesView)
    ensures
        refusal(c, items_needs(v)) == client::fetch_items_error(c, v),
{
    if let ItemNamesView::Items(names) = v {
        let f = |i: ItemNameView| item_needs(i);
        let check = |i: ItemNameView| client::fetch_item_error(c, i);
        assert forall|i: ItemNameView| #[trigger] check(i) == refusal(c, f(i)) by {
            lemma_item(c, i);
        }
        lemma_each(c, names, f, check);
    }
}

proof fn lemma_modifier(c: CapabilitiesView, uid: bool, all: Seq<FetchModifier>, m: FetchModifier)
    ensures
        refusal(c, modifier_needs(uid, all, m)) == client::fetch_modifier_error(c, uid, all, m),
{
    lemma_offered(c, "CONDSTORE"@);
    lemma_refusal_two(
        c,
        Need::Enabled("QRESYNC"@),
        Need::Kept(uid && tells_since(all), "VANISHED requires UID FETCH with CHANGEDSINCE"@),
    );
    assert(tells_since(all) == client::asks_for_changes(all));
}

/// A set keeps the rules exactly where its numbers are counted.
proof fn lemma_explicit(c: CapabilitiesView, v: Seq<Sequence>)
    ensures
        match client::explicit_result(v) {
            Ok(n) => refusal(c, explicit_needs(v)) is None && n == total(v),
            Err(e) => refusal(c, explicit_needs(v)) == Some(e),
        },
    decreases v.len(),
{
    if v.len() > 0 {
        let star = Need::Kept(count(v.last()) is Some, "QRESYNC match sets cannot contain '*'"@);
        let sum = Need::Kept(
            total(v) < 0x1_0000_0000_0000_0000,
            "QRESYNC set cardinality overflow"@,
        );
        lemma_explicit(c, v.drop_last());
        lemma_refusal_two(c, star, sum);
        lemma_refusal_add(c, explicit_needs(v.drop_last()), seq![star, sum]);
    }
}

#[verifier::spinoff_prover]
proof fn lemma_select(c: CapabilitiesView, p: SelectParameterView)
    ensures
        refusal(c, select_needs(p)) == client::select_error(c, p),
{
    lemma_offered(c, "CONDSTORE"@);
    if let SelectParameterView::QResync { known_uids, seq_match_data, .. } = p {
        let first = seq![Need::Enabled("QRESYNC"@)];
        let second = match known_uids {
            Some(v) => explicit_needs(v),
            None => seq![],
        };
        let third = match seq_match_data {
            Some(m) => explicit_needs(m.0) + explicit_needs(m.1) + seq![
                Need::Kept(
                    total(m.0) == total(m.1),
                    "QRESYNC sequence and UID match sets must have equal cardinality"@,
                ),
            ],
            None => seq![],
        };
        lemma_refusal_one(c, Need::Enabled("QRESYNC"@));
        lemma_refusal_add(c, first + second, third);
        lemma_refusal_add(c, first, second);
        if let Some(v) = known_uids {
            lemma_explicit(c, v);
        }
        if let Some(m) = seq_match_data {
            let equal = Need::Kept(
                total(m.0) == total(m.1),
                "QRESYNC sequence and UID match sets must have equal cardinality"@,
            );
            lemma_explicit(c, m.0);
            lemma_explicit(c, m.1);
            lemma_refusal_one(c, equal);
            lemma_refusal_add(c, explicit_needs(m.0) + explicit_needs(m.1), seq![equal]);
            lemma_refusal_add(c, explicit_needs(m.0), explicit_needs(m.1));
        }
    }
}

proof fn lemma_selects(c: CapabilitiesView, v: Seq<SelectParameterView>)
    ensures
        refusal(c, each(v, |p: SelectParameterView| select_needs(p))) == client::first_error(
            v,
            |p: SelectParameterView| client::select_error(c, p),
        ),
{
    let f = |p: SelectParameterView| select_needs(p);
    let check = |p: SelectParameterView| client::select_error(c, p);
    assert forall|p: SelectParameterView| #[trigger] check(p) == refusal(c, f(p)) by {
        lemma_select(c, p);
    }
    lemma_each(c, v, f, check);
}

/// Commands that need a capability of their own, or none.
#[verifier::spinoff_prover]
proof fn lemma_simple(c: CapabilitiesView, b: BodyView)
    requires
        !(b is Enable || b is Sort || b is Thread || b is Search || b is SearchExtended
            || b is ListExtended || b is Status || b is Fetch || b is Store || b is Select
            || b is Examine),
    ensures
        refusal(c, needs(b)) == client::body_error(c, b),
{
    lemma_offered(c, "IDLE"@);
    lemma_offered(c, "NAMESPACE"@);
    lemma_offered(c, "UNSELECT"@);
    lemma_offered(c, "ID"@);
    lemma_offered(c, "COMPRESS=DEFLATE"@);
    lemma_offered(c, "QUOTA"@);
    lemma_offered(c, "METADATA"@);
    lemma_offered(c, "BINARY"@);
    lemma_refusal_one(c, Need::BeforeRev2("Command was removed from IMAP4rev2"@));
    match b {
        BodyView::Move { sequence_set, .. } => {
            lemma_offered(c, "MOVE"@);
            lemma_set(c, sequence_set);
            lemma_refusal_add(c, seq![Need::Offered("MOVE"@)], set_needs(sequence_set));
        },
        BodyView::Copy { sequence_set, .. } => lemma_set(c, sequence_set),
        BodyView::ExpungeUid { sequence_set } => {
            lemma_offered(c, "UIDPLUS"@);
            lemma_set(c, sequence_set);
            lemma_refusal_add(c, seq![Need::Offered("UIDPLUS"@)], set_needs(sequence_set));
        },
        _ => {},
    }
}

proof fn lemma_list_options(
    c: CapabilitiesView,
    selection: Seq<Seq<u8>>,
    options: Option<Seq<ListReturnView>>,
    b: BodyView,
)
    requires
        b matches BodyView::ListExtended { selection: s, return_options: o, .. } && s == selection
            && o == options,
    ensures
        refusal(c, needs(b)) == client::body_error(c, b),
{
    let first = seq![Need::Offered("LIST-EXTENDED"@)];
    let second = if lists(selection, "SPECIAL-USE"@) {
        seq![Need::Offered("SPECIAL-USE"@)]
    } else {
        seq![]
    };
    let third = match options {
        Some(v) => each(v, |r: ListReturnView| list_return_needs(r)),
        None => seq![],
    };
    lemma_offered(c, "LIST-EXTENDED"@);
    lemma_offered(c, "SPECIAL-USE"@);
    lemma_special_use(selection);
    lemma_refusal_add(c, first + second, third);
    lemma_refusal_add(c, first, second);
    if let Some(v) = options {
        let f = |r: ListReturnView| list_return_needs(r);
        let check = |r: ListReturnView| client::list_return_error(c, r);
        assert forall|r: ListReturnView| #[trigger] check(r) == refusal(c, f(r)) by {
            lemma_list_return(c, r);
        }
        lemma_each(c, v, f, check);
    }
}

proof fn lemma_searches(c: CapabilitiesView, b: BodyView)
    requires
        b is Sort || b is Thread || b is Search || b is SearchExtended,
    ensures
        refusal(c, needs(b)) == client::body_error(c, b),
{
    match b {
        BodyView::Sort { search_criteria, .. } => {
            lemma_offered(c, "SORT"@);
            lemma_keys(c, search_criteria);
            lemma_refusal_add(c, seq![Need::Offered("SORT"@)], keys_needs(search_criteria));
        },
        BodyView::Thread { algorithm, search_criteria, .. } => {
            let name = "THREAD="@ + named(algorithm);
            lemma_named(algorithm);
            lemma_offered(c, name);
            lemma_keys(c, search_criteria);
            lemma_refusal_add(c, seq![Need::Offered(name)], keys_needs(search_criteria));
        },
        BodyView::Search { charset, criteria, .. } => lemma_search(c, charset, criteria),
        BodyView::SearchExtended { return_options, charset, criteria, .. } => {
            let first = seq![Need::Offered("ESEARCH"@)];
            let search = charset_needs(charset) + keys_needs(criteria);
            let save = each(return_options, |r: SearchReturnView| save_needs(r));
            lemma_offered(c, "ESEARCH"@);
            lemma_search(c, charset, criteria);
            lemma_saves(c, return_options);
            assert(needs(b) =~= first + search + save);
            lemma_refusal_add(c, first + search, save);
            lemma_refusal_add(c, first, search);
        },
        _ => {},
    }
}

#[verifier::spinoff_prover]
proof fn lemma_body(c: CapabilitiesView, b: BodyView)
    ensures
        refusal(c, needs(b)) == client::body_error(c, b),
{
    match b {
        BodyView::Enable { capabilities } => {
            let f = |b: Seq<u8>| enable_needs(b);
            let check = |b: Seq<u8>| client::enable_error(c, b);
            assert forall|b: Seq<u8>| #[trigger] check(b) == refusal(c, f(b)) by {
                lemma_enable(c, b);
            }
            lemma_each(c, capabilities, f, check);
            lemma_offered(c, "ENABLE"@);
            lemma_refusal_add(c, seq![Need::Offered("ENABLE"@)], each(capabilities, f));
        },
        BodyView::Sort { .. }
        | BodyView::Thread { .. }
        | BodyView::Search { .. }
        | BodyView::SearchExtended { .. } => lemma_searches(c, b),
        BodyView::ListExtended { selection, return_options, .. } => {
            lemma_list_options(c, selection, return_options, b);
        },
        BodyView::Status { item_names, .. } => lemma_statuses(c, item_names),
        BodyView::Fetch { sequence_set, macro_or_item_names, uid, modifiers } => {
            let f = |m: FetchModifier| modifier_needs(uid, modifiers, m);
            let check = |m: FetchModifier| client::fetch_modifier_error(c, uid, modifiers, m);
            assert forall|m: FetchModifier| #[trigger] check(m) == refusal(c, f(m)) by {
                lemma_modifier(c, uid, modifiers, m);
            }
            lemma_each(c, modifiers, f, check);
            lemma_set(c, sequence_set);
            lemma_items(c, macro_or_item_names);
            let first = set_needs(sequence_set) + items_needs(macro_or_item_names);
            lemma_refusal_add(c, first, each(modifiers, f));
            lemma_refusal_add(c, set_needs(sequence_set), items_needs(macro_or_item_names));
        },
        BodyView::Store { sequence_set, modifiers, .. } => {
            let rest = if modifiers.len() == 0 {
                seq![]
            } else {
                seq![Need::Offered("CONDSTORE"@)]
            };
            lemma_set(c, sequence_set);
            lemma_offered(c, "CONDSTORE"@);
            lemma_refusal_add(c, set_needs(sequence_set), rest);
        },
        BodyView::Select { parameters, .. } => lemma_selects(c, parameters),
        BodyView::Examine { parameters, .. } => lemma_selects(c, parameters),
        _ => lemma_simple(c, b),
    }
}

/// The first byte or literal that cannot be sent gives the reason.
proof fn lemma_wire(c: CapabilitiesView, literal: Seq<char>, v: Seq<Token>)
    ensures
        all_sendable(c, v) <==> client::wire_error(c, literal, v) is None,
        forall|i: int| #[trigger]
            stops_first(c, v, i) ==> client::wire_error(c, literal, v) == Some(
                stop_reason(v[i], literal),
            ),
        !all_sendable(c, v) ==> exists|i: int| stops_first(c, v, i),
    decreases v.len(),
{
    lemma_state(c, "LITERAL+"@);
    lemma_state(c, "LITERAL-"@);
    let check = |t: Token| client::token_error(c, literal, t);
    assert forall|t: Token| (#[trigger] check(t) is None <==> sendable(c, t)) && (!sendable(c, t)
        ==> check(t) == Some(stop_reason(t, literal))) by {}
    if v.len() > 0 {
        let w = v.drop_last();
        lemma_wire(c, literal, w);
        assert(client::wire_error(c, literal, w) == client::first_error(w, check));
        assert(client::wire_error(c, literal, v) == client::first_error(v, check));
        assert(check(v.last()) is None <==> sendable(c, v.last()));
        if all_sendable(c, w) {
            assert forall|i: int| 0 <= i < v.len() - 1 implies sendable(c, #[trigger] v[i]) by {
                assert(sendable(c, w[i]));
            }
            if !sendable(c, v.last()) {
                assert(stops_first(c, v, v.len() - 1));
            }
        } else {
            let k = choose|i: int| stops_first(c, w, i);
            assert forall|j: int| 0 <= j < k implies sendable(c, #[trigger] v[j]) by {
                assert(sendable(c, w[j]));
            }
            assert(stops_first(c, v, k));
            assert(!sendable(c, v[k]));
        }
        assert forall|i: int| #[trigger] stops_first(c, v, i) implies client::wire_error(
            c,
            literal,
            v,
        ) == Some(stop_reason(v[i], literal)) by {
            if i < w.len() {
                assert forall|j: int| 0 <= j < i implies sendable(c, #[trigger] w[j]) by {
                    assert(sendable(c, v[j]));
                }
                assert(stops_first(c, w, i));
            } else {
                assert forall|j: int| 0 <= j < w.len() implies sendable(c, #[trigger] w[j]) by {
                    assert(sendable(c, v[j]));
                }
                assert(all_sendable(c, w));
            }
        }
    }
}

// ------------------------------------------------------------------------ laws

/// A command passes exactly if the server has all that the table names for it
/// and each byte and literal of it can be sent. Where something is missing, the
/// client is told the first thing that is.
pub proof fn law_commands_pass_by_the_table(c: CapabilitiesView, b: BodyView)
    ensures
        client::validation_error(c, b) is None <==> all_met(c, needs(b)) && all_sendable(
            c,
            on_wire(b),
        ),
        forall|i: int| #[trigger]
            fails_first(c, needs(b), i) ==> client::validation_error(c, b) == Some(
                reason(needs(b)[i]),
            ),
        !all_met(c, needs(b)) ==> exists|i: int| fails_first(c, needs(b), i),
        forall|i: int|
            all_met(c, needs(b)) && #[trigger] stops_first(c, on_wire(b), i)
                ==> client::validation_error(c, b) == Some(
                stop_reason(on_wire(b)[i], "Non-synchronizing literal was not negotiated"@),
            ),
{
    reveal_strlit("V");
    assert(ascii::bytes_of("V") =~= seq!['V' as u8]);
    lemma_body(c, b);
    lemma_refusal_is_first(c, needs(b));
    lemma_wire(c, "Non-synchronizing literal was not negotiated"@, on_wire(b));
}

/// A MOVE of a sequence set that holds ASCII only and no non-synchronizing
/// literal passes exactly if MOVE is there, and a MOVE of the saved result
/// exactly if SEARCHRES is there as well.
pub proof fn law_move_needs_move_alone(c: CapabilitiesView, b: BodyView)
    requires
        b is Move,
        forall|i: int|
            0 <= i < on_wire(b).len() ==> match #[trigger] on_wire(b)[i] {
                Token::Byte(x) => x <= 127,
                Token::Literal(_, mode) => mode == LiteralMode::Sync,
            },
    ensures
        b->Move_sequence_set is SequenceSet ==> (client::validation_error(c, b) is None <==> offers(
            c,
            "MOVE"@,
        )),
        b->Move_sequence_set is SearchResult ==> (client::validation_error(c, b) is None
            <==> offers(c, "MOVE"@) && offers(c, "SEARCHRES"@)),
{
    law_commands_pass_by_the_table(c, b);
    assert(all_sendable(c, on_wire(b)));
    let v = needs(b);
    assert(v[0] == Need::Offered("MOVE"@));
    if b->Move_sequence_set is SearchResult {
        assert(v[1] == Need::Offered("SEARCHRES"@));
    }
    if all_met(c, v) {
        assert(met(c, v[0]));
        if b->Move_sequence_set is SearchResult {
            assert(met(c, v[1]));
        }
    }
}

/// Whether the server has a capability, speaks IMAP4rev2 or speaks UTF-8 does
/// not depend on anything but what it advertises, what is enabled and the
/// version: in IMAP4rev1 a capability is there if it is advertised, in IMAP4rev2
/// also if it belongs to it, and BINARY always brings BINARY-FETCH.
pub proof fn law_what_a_server_has(c: CapabilitiesView, name: Seq<char>)
    ensures
        c.version == Version::Rev1 ==> !client::rev2_is_active(c),
        !c.advertised.contains("IMAP4REV2"@) ==> !client::rev2_is_active(c),
        c.version == Version::Rev2 && c.advertised.contains("IMAP4REV2"@)
            && !c.advertised.contains("IMAP4REV1"@) ==> client::rev2_is_active(c),
        c.version == Version::Rev2 && c.advertised.contains("IMAP4REV2"@)
            && c.advertised.contains("IMAP4REV1"@) ==> (client::rev2_is_active(c)
            <==> c.enabled.contains("IMAP4REV2"@)),
        client::utf8_is_active(c) <==> speaks_utf8(c),
        c.advertised.contains(name) ==> client::is_supported(c, name),
        !c.advertised.contains(name) && name != "BINARY-FETCH"@ ==> (client::is_supported(c, name)
            <==> client::rev2_is_active(c) && brought_by_rev2().contains(name)),
        client::is_supported(c, "BINARY-FETCH"@) <==> c.advertised.contains("BINARY-FETCH"@)
            || c.advertised.contains("BINARY"@) || client::rev2_is_active(c),
        client::require_error(c, name) is None <==> offers(c, name),
        !offers(c, name) ==> client::require_error(c, name) == Some(
            "IMAP capability "@ + name + " is required"@,
        ),
{
    lemma_state(c, name);
    lemma_state(c, "BINARY-FETCH"@);
}

/// A new transport has what it was told, and nothing is enabled.
pub proof fn law_new_transport(advertised: Set<Seq<char>>, version: Version, name: Seq<char>)
    ensures
        ({
            let c = client::opened(advertised, version);
            &&& c.advertised.contains(name) <==> advertised.contains(name)
            &&& !c.enabled.contains(name)
            &&& c.version == version
        }),
{
}

/// Nothing becomes enabled that the server did not name, save CONDSTORE where
/// QRESYNC is enabled; all that it names becomes enabled.
pub proof fn law_enabled_is_named(c: CapabilitiesView, r: ResponseView, name: Seq<char>)
    ensures
        !(r matches ResponseView::Data(DataView::Enabled { .. })) ==> (client::observed(
            c,
            r,
        ).enabled.contains(name) <==> c.enabled.contains(name)),
        r matches ResponseView::Data(DataView::Enabled { capabilities }) ==> (client::observed(
            c,
            r,
        ).enabled.contains(name) <==> c.enabled.contains(name) || lists(capabilities, name) || (name
            == "CONDSTORE"@ && (c.enabled.contains("QRESYNC"@) || lists(
            capabilities,
            "QRESYNC"@,
        )))),
{
    if let ResponseView::Data(DataView::Enabled { capabilities }) = r {
        lemma_lists(capabilities, name);
        lemma_lists(capabilities, "QRESYNC"@);
    }
}

/// A list of capabilities, in data or in the code of a status response that is
/// no farewell, replaces what is advertised. Nothing else changes it, and
/// nothing changes the version.
pub proof fn law_advertised_is_the_latest_list(
    c: CapabilitiesView,
    r: ResponseView,
    v: Seq<Seq<u8>>,
    name: Seq<char>,
)
    ensures
        client::observed(c, r).version == c.version,
        r == ResponseView::Data(DataView::Capability(v)) ==> (client::observed(
            c,
            r,
        ).advertised.contains(name) <==> lists(v, name)),
        r matches ResponseView::Status(StatusView::Untagged(body)) && body.code == Some(
            CodeView::Capability(v),
        ) ==> (client::observed(c, r).advertised.contains(name) <==> lists(v, name)),
        r matches ResponseView::Status(StatusView::Tagged { body, .. }) && body.code == Some(
            CodeView::Capability(v),
        ) ==> (client::observed(c, r).advertised.contains(name) <==> lists(v, name)),
        r is CommandContinuationRequest ==> client::observed(c, r).advertised == c.advertised,
        r matches ResponseView::Status(StatusView::Bye(_)) ==> client::observed(c, r).advertised
            == c.advertised,
        r matches ResponseView::Data(d) && !(d is Capability) ==> client::observed(c, r).advertised
            == c.advertised,
        r matches ResponseView::Status(StatusView::Untagged(body)) && !(body.code matches Some(
            CodeView::Capability(_),
        )) ==> client::observed(c, r).advertised == c.advertised,
        r matches ResponseView::Status(StatusView::Tagged { body, .. }) && !(body.code matches Some(
            CodeView::Capability(_),
        )) ==> client::observed(c, r).advertised == c.advertised,
{
    lemma_lists(v, name);
}

proof fn lemma_lists(v: Seq<Seq<u8>>, name: Seq<char>)
    ensures
        lists(v, name) <==> client::capability_names(v).contains(name),
{
    let names = v.map_values(|b: Seq<u8>| client::capability_name(b));
    if lists(v, name) {
        let i = choose|i: int| 0 <= i < v.len() && named(#[trigger] v[i]) == name;
        lemma_named(v[i]);
        assert(names[i] == name);
    }
    if client::capability_names(v).contains(name) {
        let i = choose|i: int| 0 <= i < names.len() && names[i] == name;
        lemma_named(v[i]);
        assert(named(v[i]) == name);
    }
}

/// A byte that a tag may have: a visible character of ASCII that the syntax does
/// not keep for itself.
pub open spec fn tag_byte(b: u8) -> bool {
    33 <= b <= 126 && !("(){%*\"\\+"@.contains(b as char))
}

/// A streamed APPEND passes exactly if its tag is one, BINARY is there for a
/// message that may hold any byte, a non-synchronizing message of the announced
/// length was negotiated, and what stands before the message can be sent.
#[verifier::spinoff_prover]
pub proof fn law_streamed_append_passes(c: CapabilitiesView, a: StreamedAppendView)
    ensures
        ({
            let tag_is_one = a.tag.len() > 0 && forall|i: int|
                0 <= i < a.tag.len() ==> tag_byte(#[trigger] a.tag[i]);
            let negotiated = a.mode == LiteralMode::Sync || offers(c, "LITERAL+"@) || (offers(
                c,
                "LITERAL-"@,
            ) && a.length < 4097);
            let prefix = append::prefix_tokens(a);
            &&& client::append_error(c, a) is None <==> tag_is_one && (a.binary ==> offers(
                c,
                "BINARY"@,
            )) && negotiated && all_sendable(c, prefix)
            &&& !tag_is_one ==> client::append_error(c, a) == Some("Invalid tag"@)
            &&& tag_is_one && a.binary && !offers(c, "BINARY"@) ==> client::append_error(c, a)
                == Some("IMAP capability BINARY is required"@)
            &&& tag_is_one && (a.binary ==> offers(c, "BINARY"@)) && !negotiated
                ==> client::append_error(c, a) == Some(
                "Non-synchronizing APPEND length was not negotiated"@,
            )
            &&& forall|i: int|
                tag_is_one && (a.binary ==> offers(c, "BINARY"@)) && negotiated && #[trigger]
                    stops_first(c, prefix, i) ==> client::append_error(c, a) == Some(
                    stop_reason(
                        prefix[i],
                        "Non-synchronizing mailbox literal was not negotiated"@,
                    ),
                )
        }),
{
    let class = |x: u8| ascii::is_tag_char(x);
    lemma_state(c, "LITERAL+"@);
    lemma_state(c, "LITERAL-"@);
    lemma_state(c, "BINARY"@);
    lemma_wire(
        c,
        "Non-synchronizing mailbox literal was not negotiated"@,
        append::prefix_tokens(a),
    );
    lemma_tag_bytes();
    reveal_strlit("IMAP capability ");
    reveal_strlit("BINARY");
    reveal_strlit(" is required");
    reveal_strlit("IMAP capability BINARY is required");
    assert("IMAP capability BINARY is required"@ =~= "IMAP capability "@ + "BINARY"@
        + " is required"@);
    if append::tag_ok(a.tag) {
        assert forall|i: int| 0 <= i < a.tag.len() implies tag_byte(#[trigger] a.tag[i]) by {
            assert(class(a.tag[i]));
        }
    }
}

proof fn lemma_tag_bytes()
    ensures
        forall|b: u8| #[trigger] tag_byte(b) == ascii::is_tag_char(b),
{
    reveal_strlit("(){%*\"\\+");
    let s = "(){%*\"\\+"@;
    assert forall|b: u8| #[trigger] tag_byte(b) == ascii::is_tag_char(b) by {
        let x = b as char;
        if ascii::is_tag_char(b) {
            assert(!s.contains(x));
        } else {
            assert(s[0] == '(' && s[1] == ')' && s[2] == '{' && s[3] == '%' && s[4] == '*' && s[5]
                == '"' && s[6] == '\\' && s[7] == '+');
        }
    }
}

/// Before UTF-8 is in force, a response passes exactly if its lines hold ASCII
/// only; its literals may hold anything.
pub proof fn law_responses_pass(c: CapabilitiesView, r: ResponseView)
    ensures
        ({
            let tokens = response::response_tokens(r);
            let foreign = exists|i: int|
                0 <= i < tokens.len() && (#[trigger] tokens[i]) is Byte && tokens[i]->Byte_0 > 127;
            &&& client::response_refusal(c, r) is None <==> speaks_utf8(c) || !foreign
            &&& !speaks_utf8(c) && foreign ==> client::response_refusal(c, r) == Some(
                "UTF-8 response syntax was not enabled"@,
            )
        }),
{
    let tokens = response::response_tokens(r);
    if exists|i: int|
        0 <= i < tokens.len() && (#[trigger] tokens[i]) is Byte && tokens[i]->Byte_0 > 127 {
        let i = choose|i: int|
            0 <= i < tokens.len() && (#[trigger] tokens[i]) is Byte && tokens[i]->Byte_0 > 127;
        assert(!(tokens[i] matches Token::Byte(b) ==> b < 0x80));
    }
}

} // verus!
