//! Search keys.
use vstd::prelude::*;

use crate::arguments as args;
use crate::ascii;
use crate::ascii::is_alpha;
use crate::date;
use crate::date::Date;
use crate::encode;
use crate::encode::{EncodeContext, EncodeIntoContext, Token};
use crate::extensions::condstore_qresync as modseq;
use crate::extensions::condstore_qresync::{
    search_modsequence, write_search_modsequence, AttributeFlag, EntryTypeReq, ModSeqEntryView,
};
use crate::extensions::rev2 as ext;
use crate::extensions::rev2::{message_set, number63, NUMBER63_MAX};
use crate::grammar as g;
use crate::grammar::{tag, take_while1, IMAPErrorKind, IMAPParseError, IMAPResult, Outcome, Rule};
use crate::number;
use crate::reading;
use crate::rev2::{MessageSet, MessageSetView};
use crate::sequence;
use crate::sequence::{sequence_set, Sequence, SequenceSet};
use crate::strings;
use crate::strings::{astring, atom, AString, Atom, StringView};

verus! {

/// Keys without an argument.
#[derive(Clone, Copy, Debug, PartialEq, Eq, Hash, Structural)]
pub enum FlagKey {
    All,
    Answered,
    Deleted,
    Draft,
    Flagged,
    New,
    Old,
    Recent,
    Seen,
    Unanswered,
    Undeleted,
    Undraft,
    Unflagged,
    Unseen,
}

pub open spec fn flag_key_text(k: FlagKey) -> Seq<u8> {
    match k {
        FlagKey::All => ascii::bytes_of("ALL"),
        FlagKey::Answered => ascii::bytes_of("ANSWERED"),
        FlagKey::Deleted => ascii::bytes_of("DELETED"),
        FlagKey::Draft => ascii::bytes_of("DRAFT"),
        FlagKey::Flagged => ascii::bytes_of("FLAGGED"),
        FlagKey::New => ascii::bytes_of("NEW"),
        FlagKey::Old => ascii::bytes_of("OLD"),
        FlagKey::Recent => ascii::bytes_of("RECENT"),
        FlagKey::Seen => ascii::bytes_of("SEEN"),
        FlagKey::Unanswered => ascii::bytes_of("UNANSWERED"),
        FlagKey::Undeleted => ascii::bytes_of("UNDELETED"),
        FlagKey::Undraft => ascii::bytes_of("UNDRAFT"),
        FlagKey::Unflagged => ascii::bytes_of("UNFLAGGED"),
        FlagKey::Unseen => ascii::bytes_of("UNSEEN"),
    }
}

/// The key without an argument of this name.
pub open spec fn flag_key_of(w: Seq<u8>) -> Option<FlagKey> {
    if ascii::same_word(w, ascii::bytes_of("ALL")) {
        Some(FlagKey::All)
    } else if ascii::same_word(w, ascii::bytes_of("ANSWERED")) {
        Some(FlagKey::Answered)
    } else if ascii::same_word(w, ascii::bytes_of("DELETED")) {
        Some(FlagKey::Deleted)
    } else if ascii::same_word(w, ascii::bytes_of("DRAFT")) {
        Some(FlagKey::Draft)
    } else if ascii::same_word(w, ascii::bytes_of("FLAGGED")) {
        Some(FlagKey::Flagged)
    } else if ascii::same_word(w, ascii::bytes_of("NEW")) {
        Some(FlagKey::New)
    } else if ascii::same_word(w, ascii::bytes_of("OLD")) {
        Some(FlagKey::Old)
    } else if ascii::same_word(w, ascii::bytes_of("RECENT")) {
        Some(FlagKey::Recent)
    } else if ascii::same_word(w, ascii::bytes_of("SEEN")) {
        Some(FlagKey::Seen)
    } else if ascii::same_word(w, ascii::bytes_of("UNANSWERED")) {
        Some(FlagKey::Unanswered)
    } else if ascii::same_word(w, ascii::bytes_of("UNDELETED")) {
        Some(FlagKey::Undeleted)
    } else if ascii::same_word(w, ascii::bytes_of("UNDRAFT")) {
        Some(FlagKey::Undraft)
    } else if ascii::same_word(w, ascii::bytes_of("UNFLAGGED")) {
        Some(FlagKey::Unflagged)
    } else if ascii::same_word(w, ascii::bytes_of("UNSEEN")) {
        Some(FlagKey::Unseen)
    } else {
        None
    }
}

impl DeepView for FlagKey {
    type V = FlagKey;

    open spec fn deep_view(&self) -> FlagKey {
        *self
    }
}

impl EncodeIntoContext for FlagKey {
    open spec fn tokens(v: FlagKey) -> Seq<Token> {
        encode::plain(flag_key_text(v))
    }

    fn encode_ctx(&self, ctx: &mut EncodeContext) {
        match *self {
            FlagKey::All => ctx.write_text("ALL"),
            FlagKey::Answered => ctx.write_text("ANSWERED"),
            FlagKey::Deleted => ctx.write_text("DELETED"),
            FlagKey::Draft => ctx.write_text("DRAFT"),
            FlagKey::Flagged => ctx.write_text("FLAGGED"),
            FlagKey::New => ctx.write_text("NEW"),
            FlagKey::Old => ctx.write_text("OLD"),
            FlagKey::Recent => ctx.write_text("RECENT"),
            FlagKey::Seen => ctx.write_text("SEEN"),
            FlagKey::Unanswered => ctx.write_text("UNANSWERED"),
            FlagKey::Undeleted => ctx.write_text("UNDELETED"),
            FlagKey::Undraft => ctx.write_text("UNDRAFT"),
            FlagKey::Unflagged => ctx.write_text("UNFLAGGED"),
            FlagKey::Unseen => ctx.write_text("UNSEEN"),
        }
        assert(ctx@ =~= old(ctx)@ + Self::tokens(self.deep_view()));
    }
}

fn find_flag_key(w: &[u8]) -> (r: Option<FlagKey>)
    ensures
        r == flag_key_of(w@),
{
    if ascii::is_word(w, "ALL") {
        Some(FlagKey::All)
    } else if ascii::is_word(w, "ANSWERED") {
        Some(FlagKey::Answered)
    } else if ascii::is_word(w, "DELETED") {
        Some(FlagKey::Deleted)
    } else if ascii::is_word(w, "DRAFT") {
        Some(FlagKey::Draft)
    } else if ascii::is_word(w, "FLAGGED") {
        Some(FlagKey::Flagged)
    } else if ascii::is_word(w, "NEW") {
        Some(FlagKey::New)
    } else if ascii::is_word(w, "OLD") {
        Some(FlagKey::Old)
    } else if ascii::is_word(w, "RECENT") {
        Some(FlagKey::Recent)
    } else if ascii::is_word(w, "SEEN") {
        Some(FlagKey::Seen)
    } else if ascii::is_word(w, "UNANSWERED") {
        Some(FlagKey::Unanswered)
    } else if ascii::is_word(w, "UNDELETED") {
        Some(FlagKey::Undeleted)
    } else if ascii::is_word(w, "UNDRAFT") {
        Some(FlagKey::Undraft)
    } else if ascii::is_word(w, "UNFLAGGED") {
        Some(FlagKey::Unflagged)
    } else if ascii::is_word(w, "UNSEEN") {
        Some(FlagKey::Unseen)
    } else {
        None
    }
}

/// Keys that look for a text.
#[derive(Clone, Copy, Debug, PartialEq, Eq, Hash, Structural)]
pub enum TextKey {
    Bcc,
    Body,
    Cc,
    From,
    Subject,
    Text,
    To,
}

pub open spec fn text_key_text(k: TextKey) -> Seq<u8> {
    match k {
        TextKey::Bcc => ascii::bytes_of("BCC"),
        TextKey::Body => ascii::bytes_of("BODY"),
        TextKey::Cc => ascii::bytes_of("CC"),
        TextKey::From => ascii::bytes_of("FROM"),
        TextKey::Subject => ascii::bytes_of("SUBJECT"),
        TextKey::Text => ascii::bytes_of("TEXT"),
        TextKey::To => ascii::bytes_of("TO"),
    }
}

/// The text key of this name.
pub open spec fn text_key_of(w: Seq<u8>) -> Option<TextKey> {
    if ascii::same_word(w, ascii::bytes_of("BCC")) {
        Some(TextKey::Bcc)
    } else if ascii::same_word(w, ascii::bytes_of("BODY")) {
        Some(TextKey::Body)
    } else if ascii::same_word(w, ascii::bytes_of("CC")) {
        Some(TextKey::Cc)
    } else if ascii::same_word(w, ascii::bytes_of("FROM")) {
        Some(TextKey::From)
    } else if ascii::same_word(w, ascii::bytes_of("SUBJECT")) {
        Some(TextKey::Subject)
    } else if ascii::same_word(w, ascii::bytes_of("TEXT")) {
        Some(TextKey::Text)
    } else if ascii::same_word(w, ascii::bytes_of("TO")) {
        Some(TextKey::To)
    } else {
        None
    }
}

impl DeepView for TextKey {
    type V = TextKey;

    open spec fn deep_view(&self) -> TextKey {
        *self
    }
}

impl EncodeIntoContext for TextKey {
    open spec fn tokens(v: TextKey) -> Seq<Token> {
        encode::plain(text_key_text(v))
    }

    fn encode_ctx(&self, ctx: &mut EncodeContext) {
        match *self {
            TextKey::Bcc => ctx.write_text("BCC"),
            TextKey::Body => ctx.write_text("BODY"),
            TextKey::Cc => ctx.write_text("CC"),
            TextKey::From => ctx.write_text("FROM"),
            TextKey::Subject => ctx.write_text("SUBJECT"),
            TextKey::Text => ctx.write_text("TEXT"),
            TextKey::To => ctx.write_text("TO"),
        }
        assert(ctx@ =~= old(ctx)@ + Self::tokens(self.deep_view()));
    }
}

fn find_text_key(w: &[u8]) -> (r: Option<TextKey>)
    ensures
        r == text_key_of(w@),
{
    if ascii::is_word(w, "BCC") {
        Some(TextKey::Bcc)
    } else if ascii::is_word(w, "BODY") {
        Some(TextKey::Body)
    } else if ascii::is_word(w, "CC") {
        Some(TextKey::Cc)
    } else if ascii::is_word(w, "FROM") {
        Some(TextKey::From)
    } else if ascii::is_word(w, "SUBJECT") {
        Some(TextKey::Subject)
    } else if ascii::is_word(w, "TEXT") {
        Some(TextKey::Text)
    } else if ascii::is_word(w, "TO") {
        Some(TextKey::To)
    } else {
        None
    }
}

/// Keys that compare dates.
#[derive(Clone, Copy, Debug, PartialEq, Eq, Hash, Structural)]
pub enum DateKey {
    Before,
    On,
    SentBefore,
    SentOn,
    SentSince,
    Since,
}

pub open spec fn date_key_text(k: DateKey) -> Seq<u8> {
    match k {
        DateKey::Before => ascii::bytes_of("BEFORE"),
        DateKey::On => ascii::bytes_of("ON"),
        DateKey::SentBefore => ascii::bytes_of("SENTBEFORE"),
        DateKey::SentOn => ascii::bytes_of("SENTON"),
        DateKey::SentSince => ascii::bytes_of("SENTSINCE"),
        DateKey::Since => ascii::bytes_of("SINCE"),
    }
}

/// The date key of this name.
pub open spec fn date_key_of(w: Seq<u8>) -> Option<DateKey> {
    if ascii::same_word(w, ascii::bytes_of("BEFORE")) {
        Some(DateKey::Before)
    } else if ascii::same_word(w, ascii::bytes_of("ON")) {
        Some(DateKey::On)
    } else if ascii::same_word(w, ascii::bytes_of("SENTBEFORE")) {
        Some(DateKey::SentBefore)
    } else if ascii::same_word(w, ascii::bytes_of("SENTON")) {
        Some(DateKey::SentOn)
    } else if ascii::same_word(w, ascii::bytes_of("SENTSINCE")) {
        Some(DateKey::SentSince)
    } else if ascii::same_word(w, ascii::bytes_of("SINCE")) {
        Some(DateKey::Since)
    } else {
        None
    }
}

impl DeepView for DateKey {
    type V = DateKey;

    open spec fn deep_view(&self) -> DateKey {
        *self
    }
}

impl EncodeIntoContext for DateKey {
    open spec fn tokens(v: DateKey) -> Seq<Token> {
        encode::plain(date_key_text(v))
    }

    fn encode_ctx(&self, ctx: &mut EncodeContext) {
        match *self {
            DateKey::Before => ctx.write_text("BEFORE"),
            DateKey::On => ctx.write_text("ON"),
            DateKey::SentBefore => ctx.write_text("SENTBEFORE"),
            DateKey::SentOn => ctx.write_text("SENTON"),
            DateKey::SentSince => ctx.write_text("SENTSINCE"),
            DateKey::Since => ctx.write_text("SINCE"),
        }
        assert(ctx@ =~= old(ctx)@ + Self::tokens(self.deep_view()));
    }
}

fn find_date_key(w: &[u8]) -> (r: Option<DateKey>)
    ensures
        r == date_key_of(w@),
{
    if ascii::is_word(w, "BEFORE") {
        Some(DateKey::Before)
    } else if ascii::is_word(w, "ON") {
        Some(DateKey::On)
    } else if ascii::is_word(w, "SENTBEFORE") {
        Some(DateKey::SentBefore)
    } else if ascii::is_word(w, "SENTON") {
        Some(DateKey::SentOn)
    } else if ascii::is_word(w, "SENTSINCE") {
        Some(DateKey::SentSince)
    } else if ascii::is_word(w, "SINCE") {
        Some(DateKey::Since)
    } else {
        None
    }
}

/// What a message has to meet to be found.
#[derive(Debug, PartialEq, Eq, Hash)]
pub enum SearchKey {
    /// All of these keys, of which there is at least one.
    And(Vec<SearchKey>),
    SequenceSet(SequenceSet),
    /// The saved result of an earlier search.
    SearchResult,
    Uid(SequenceSet),
    UidSearchResult,
    Flag(FlagKey),
    Text(TextKey, AString),
    Date(DateKey, Date),
    Header(AString, AString),
    Keyword(Atom),
    Unkeyword(Atom),
    Larger(u64),
    Smaller(u64),
    ModSequence { entry: Option<(AttributeFlag, EntryTypeReq)>, modseq: u64 },
    Not(Box<SearchKey>),
    Or(Box<SearchKey>, Box<SearchKey>),
}

pub enum KeyView {
    And(Seq<KeyView>),
    SequenceSet(Seq<Sequence>),
    SearchResult,
    Uid(Seq<Sequence>),
    UidSearchResult,
    Flag(FlagKey),
    Text(TextKey, StringView),
    Date(DateKey, Date),
    Header(StringView, StringView),
    Keyword(Seq<u8>),
    Unkeyword(Seq<u8>),
    Larger(u64),
    Smaller(u64),
    ModSequence { entry: Option<ModSeqEntryView>, modseq: u64 },
    Not(Box<KeyView>),
    Or(Box<KeyView>, Box<KeyView>),
}

pub open spec fn key_view(k: SearchKey) -> KeyView
    decreases k,
{
    match k {
        SearchKey::And(v) => KeyView::And(
            Seq::new(
                v@.len(),
                |i: int|
                    if 0 <= i < v@.len() {
                        key_view(v@[i])
                    } else {
                        arbitrary()
                    },
            ),
        ),
        SearchKey::SequenceSet(s) => KeyView::SequenceSet(s.deep_view()),
        SearchKey::SearchResult => KeyView::SearchResult,
        SearchKey::Uid(s) => KeyView::Uid(s.deep_view()),
        SearchKey::UidSearchResult => KeyView::UidSearchResult,
        SearchKey::Flag(f) => KeyView::Flag(f),
        SearchKey::Text(f, s) => KeyView::Text(f, s.deep_view()),
        SearchKey::Date(f, d) => KeyView::Date(f, d),
        SearchKey::Header(a, b) => KeyView::Header(a.deep_view(), b.deep_view()),
        SearchKey::Keyword(a) => KeyView::Keyword(a.deep_view()),
        SearchKey::Unkeyword(a) => KeyView::Unkeyword(a.deep_view()),
        SearchKey::Larger(n) => KeyView::Larger(n),
        SearchKey::Smaller(n) => KeyView::Smaller(n),
        SearchKey::ModSequence { entry, modseq } => KeyView::ModSequence {
            entry: entry.deep_view(),
            modseq,
        },
        SearchKey::Not(k) => KeyView::Not(Box::new(key_view(*k))),
        SearchKey::Or(a, b) => KeyView::Or(Box::new(key_view(*a)), Box::new(key_view(*b))),
    }
}

impl DeepView for SearchKey {
    type V = KeyView;

    open spec fn deep_view(&self) -> KeyView {
        key_view(*self)
    }
}

pub broadcast proof fn lemma_and_view(v: Vec<SearchKey>)
    ensures
        #[trigger] key_view(SearchKey::And(v)) == KeyView::And(v.deep_view()),
{
    let c = key_view(SearchKey::And(v));
    assert(c->And_0 =~= v.deep_view());
}

// ----------------------------------------------------------------------- rules

/// How deep search keys may nest.
pub const SEARCH_DEPTH: usize = 9;

pub open spec fn uid_of(v: MessageSetView) -> KeyView {
    match v {
        MessageSetView::SequenceSet(s) => KeyView::Uid(s),
        MessageSetView::SearchResult => KeyView::UidSearchResult,
    }
}

/// What follows the name of a key.
pub open spec fn argument_rule(w: Seq<u8>, inner: Rule<KeyView>) -> Rule<KeyView> {
    if flag_key_of(w) is Some {
        g::success(KeyView::Flag(flag_key_of(w)->Some_0))
    } else if text_key_of(w) is Some {
        g::mapped(
            args::sp(strings::astring_rule()),
            |s: StringView| KeyView::Text(text_key_of(w)->Some_0, s),
        )
    } else if date_key_of(w) is Some {
        g::mapped(args::sp(date::date_rule()), |d: Date| KeyView::Date(date_key_of(w)->Some_0, d))
    } else if ascii::same_word(w, ascii::bytes_of("HEADER")) {
        g::mapped(
            g::pair(args::sp(strings::astring_rule()), args::sp(strings::astring_rule())),
            |p: (StringView, StringView)| KeyView::Header(p.0, p.1),
        )
    } else if ascii::same_word(w, ascii::bytes_of("KEYWORD")) {
        g::mapped(args::sp(strings::atom_rule()), |b: Seq<u8>| KeyView::Keyword(b))
    } else if ascii::same_word(w, ascii::bytes_of("UNKEYWORD")) {
        g::mapped(args::sp(strings::atom_rule()), |b: Seq<u8>| KeyView::Unkeyword(b))
    } else if ascii::same_word(w, ascii::bytes_of("LARGER")) {
        g::mapped(args::sp(ext::number63_rule()), |n: u64| KeyView::Larger(n))
    } else if ascii::same_word(w, ascii::bytes_of("SMALLER")) {
        g::mapped(args::sp(ext::number63_rule()), |n: u64| KeyView::Smaller(n))
    } else if ascii::same_word(w, ascii::bytes_of("UID")) {
        g::mapped(args::sp(ext::message_set_rule()), |s: MessageSetView| uid_of(s))
    } else if ascii::same_word(w, ascii::bytes_of("NOT")) {
        g::mapped(args::sp(inner), |k: KeyView| KeyView::Not(Box::new(k)))
    } else if ascii::same_word(w, ascii::bytes_of("OR")) {
        g::mapped(
            g::pair(args::sp(inner), args::sp(inner)),
            |p: (KeyView, KeyView)| KeyView::Or(Box::new(p.0), Box::new(p.1)),
        )
    } else {
        g::never()
    }
}

pub open spec fn named_rule(inner: Rule<KeyView>) -> Rule<KeyView> {
    g::chain(date::letters_rule(), |w: Seq<u8>| argument_rule(w, inner))
}

/// `search-key`, nested at most `depth` levels deep.
#[verifier::opaque]
pub open spec fn search_key_rule(depth: nat) -> Rule<KeyView>
    decreases depth,
{
    if depth == 0 {
        g::refuse(IMAPErrorKind::RecursionLimitExceeded)
    } else {
        let inner = search_key_rule((depth - 1) as nat);
        g::alt(
            g::mapped(g::paren_list1(inner), |v: Seq<KeyView>| KeyView::And(v)),
            g::alt(
                g::value(KeyView::SearchResult, g::text("$")),
                g::alt(
                    g::mapped(
                        sequence::sequence_set_rule(),
                        |s: Seq<Sequence>| KeyView::SequenceSet(s),
                    ),
                    g::alt(
                        g::mapped(
                            modseq::search_modsequence_rule(),
                            |p: (Option<ModSeqEntryView>, u64)|
                                KeyView::ModSequence { entry: p.0, modseq: p.1 },
                        ),
                        named_rule(inner),
                    ),
                ),
            ),
        )
    }
}

/// One or more search keys, separated by spaces.
pub open spec fn criteria_rule() -> Rule<Seq<KeyView>> {
    g::separated_list1(g::text(" "), search_key_rule(SEARCH_DEPTH as nat))
}

// ------------------------------------------------------------------- encodings

pub open spec fn key_tokens(k: KeyView) -> Seq<Token>
    decreases k,
{
    match k {
        KeyView::And(v) => encode::paren_tokens(key_parts(v)),
        KeyView::SequenceSet(s) => sequence::set_tokens(s),
        KeyView::SearchResult => encode::word("$"),
        KeyView::Uid(s) => encode::word("UID ") + sequence::set_tokens(s),
        KeyView::UidSearchResult => encode::word("UID ") + encode::word("$"),
        KeyView::Flag(f) => encode::plain(flag_key_text(f)),
        KeyView::Text(f, s) => encode::plain(text_key_text(f)) + encode::word(" ")
            + strings::string_tokens(s),
        KeyView::Date(f, d) => encode::plain(date_key_text(f)) + encode::word(" ")
            + encode::plain(date::date_text(d)),
        KeyView::Header(a, b) => encode::word("HEADER ") + strings::string_tokens(a)
            + encode::word(" ") + strings::string_tokens(b),
        KeyView::Keyword(b) => encode::word("KEYWORD ") + encode::plain(b),
        KeyView::Unkeyword(b) => encode::word("UNKEYWORD ") + encode::plain(b),
        KeyView::Larger(n) => encode::word("LARGER ") + encode::plain(number::decimal(n as nat)),
        KeyView::Smaller(n) => encode::word("SMALLER ") + encode::plain(number::decimal(n as nat)),
        KeyView::ModSequence { entry, modseq } => encode::plain(
            modseq::search_modsequence_text(entry, modseq),
        ),
        KeyView::Not(k) => encode::word("NOT ") + key_tokens(*k),
        KeyView::Or(a, b) => encode::word("OR ") + key_tokens(*a) + encode::word(" ") + key_tokens(
            *b,
        ),
    }
}

/// What is written for each of the keys.
pub open spec fn key_parts(v: Seq<KeyView>) -> Seq<Seq<Token>>
    decreases v,
{
    if v.len() == 0 {
        seq![]
    } else {
        key_parts(v.drop_last()).push(key_tokens(v[v.len() - 1]))
    }
}

pub proof fn lemma_key_parts(v: Seq<KeyView>)
    ensures
        key_parts(v) == v.map_values(|k: KeyView| key_tokens(k)),
    decreases v.len(),
{
    let all = v.map_values(|k: KeyView| key_tokens(k));
    if v.len() > 0 {
        lemma_key_parts(v.drop_last());
        assert(key_parts(v) =~= all);
    } else {
        assert(key_parts(v) =~= all);
    }
}

pub open spec fn criteria_tokens(v: Seq<KeyView>) -> Seq<Token> {
    encode::joined(key_parts(v), encode::word(" "))
}

/// A key that the grammar can express, nested at most `depth` levels deep.
pub open spec fn key_wf(k: KeyView, depth: nat) -> bool
    decreases depth,
{
    depth >= 1 && match k {
        KeyView::And(v) => v.len() > 0 && depth >= 2 && forall|i: int|
            0 <= i < v.len() ==> key_wf(#[trigger] v[i], (depth - 1) as nat),
        KeyView::SequenceSet(s) => sequence::set_wf(s),
        KeyView::SearchResult => true,
        KeyView::Uid(s) => sequence::set_wf(s),
        KeyView::UidSearchResult => true,
        KeyView::Flag(_) => true,
        KeyView::Text(_, s) => strings::string_wf(s),
        KeyView::Date(_, d) => date::date_wf(d),
        KeyView::Header(a, b) => strings::string_wf(a) && strings::string_wf(b),
        KeyView::Keyword(b) => strings::atom_wf(b),
        KeyView::Unkeyword(b) => strings::atom_wf(b),
        KeyView::Larger(n) => n <= NUMBER63_MAX,
        KeyView::Smaller(n) => n <= NUMBER63_MAX,
        KeyView::ModSequence { entry, modseq } => (entry matches Some(x) ==> modseq::attr_flag_wf(
            x.0,
        )) && modseq <= NUMBER63_MAX,
        KeyView::Not(k) => depth >= 2 && key_wf(*k, (depth - 1) as nat),
        KeyView::Or(a, b) => depth >= 2 && key_wf(*a, (depth - 1) as nat) && key_wf(
            *b,
            (depth - 1) as nat,
        ),
    }
}

pub open spec fn criteria_wf(v: Seq<KeyView>) -> bool {
    v.len() > 0 && forall|i: int| 0 <= i < v.len() ==> key_wf(#[trigger] v[i], SEARCH_DEPTH as nat)
}

// ---------------------------------------------------------------------- lemmas

proof fn lemma_argument_lawful(w: Seq<u8>, inner: Rule<KeyView>)
    requires
        g::lawful(inner),
    ensures
        g::lawful(argument_rule(w, inner)),
{
    broadcast use g::group_lawful;

    strings::lemma_strings_lawful();
    date::lemma_date_lawful();
    ext::lemma_rev2_lawful();
}

pub proof fn lemma_search_key_lawful(depth: nat)
    ensures
        g::lawful(search_key_rule(depth)),
    decreases depth,
{
    broadcast use g::group_lawful;

    reveal_with_fuel(search_key_rule, 1);
    if depth > 0 {
        let inner = search_key_rule((depth - 1) as nat);
        lemma_search_key_lawful((depth - 1) as nat);
        let f = |w: Seq<u8>| argument_rule(w, inner);
        assert forall|w: Seq<u8>| g::lawful(#[trigger] f(w)) by {
            lemma_argument_lawful(w, inner);
        }
        sequence::lemma_sequences_lawful();
        modseq::lemma_modseq_lawful();
    }
}

pub proof fn lemma_criteria_lawful()
    ensures
        g::lawful(criteria_rule()),
{
    broadcast use g::group_lawful;

    lemma_search_key_lawful(SEARCH_DEPTH as nat);
}


/// A word of letters that is neither `CHARSET` nor `RETURN` nor `MODSEQ`.
pub open spec fn plain_name(w: Seq<u8>) -> bool {
    &&& w.len() >= 2
    &&& ascii::all_bytes(w, |b: u8| is_alpha(b))
    &&& ascii::upper(w[0]) != 'M' as u8
    &&& ascii::upper(w[0]) == 'C' as u8 ==> ascii::upper(w[1]) == 'C' as u8
    &&& ascii::upper(w[0]) == 'R' as u8 ==> w.len() > 2 && ascii::upper(w[2]) == 'C' as u8
}

proof fn lemma_letters(b: Seq<u8>)
    requires
        b.len() <= 10,
        b.len() > 0 ==> is_alpha(b[0]),
        b.len() > 1 ==> is_alpha(b[1]),
        b.len() > 2 ==> is_alpha(b[2]),
        b.len() > 3 ==> is_alpha(b[3]),
        b.len() > 4 ==> is_alpha(b[4]),
        b.len() > 5 ==> is_alpha(b[5]),
        b.len() > 6 ==> is_alpha(b[6]),
        b.len() > 7 ==> is_alpha(b[7]),
        b.len() > 8 ==> is_alpha(b[8]),
        b.len() > 9 ==> is_alpha(b[9]),
    ensures
        ascii::all_bytes(b, |x: u8| is_alpha(x)),
{
}

proof fn lemma_flag_key(f: FlagKey)
    ensures
        flag_key_of(flag_key_text(f)) == Some(f),
        plain_name(flag_key_text(f)),
{
    broadcast use ascii::lemma_same_word_head;

    reveal_strlit("ALL");
    reveal_strlit("ANSWERED");
    reveal_strlit("DELETED");
    reveal_strlit("DRAFT");
    reveal_strlit("FLAGGED");
    reveal_strlit("NEW");
    reveal_strlit("OLD");
    reveal_strlit("RECENT");
    reveal_strlit("SEEN");
    reveal_strlit("UNANSWERED");
    reveal_strlit("UNDELETED");
    reveal_strlit("UNDRAFT");
    reveal_strlit("UNFLAGGED");
    reveal_strlit("UNSEEN");
    lemma_letters(flag_key_text(f));
}

proof fn lemma_text_key(f: TextKey)
    ensures
        flag_key_of(text_key_text(f)) is None,
        text_key_of(text_key_text(f)) == Some(f),
        plain_name(text_key_text(f)),
{
    broadcast use ascii::lemma_same_word_head;

    reveal_strlit("ALL");
    reveal_strlit("ANSWERED");
    reveal_strlit("DELETED");
    reveal_strlit("DRAFT");
    reveal_strlit("FLAGGED");
    reveal_strlit("NEW");
    reveal_strlit("OLD");
    reveal_strlit("RECENT");
    reveal_strlit("SEEN");
    reveal_strlit("UNANSWERED");
    reveal_strlit("UNDELETED");
    reveal_strlit("UNDRAFT");
    reveal_strlit("UNFLAGGED");
    reveal_strlit("UNSEEN");
    reveal_strlit("BCC");
    reveal_strlit("BODY");
    reveal_strlit("CC");
    reveal_strlit("FROM");
    reveal_strlit("SUBJECT");
    reveal_strlit("TEXT");
    reveal_strlit("TO");
    lemma_letters(text_key_text(f));
}

proof fn lemma_date_key(f: DateKey)
    ensures
        flag_key_of(date_key_text(f)) is None,
        text_key_of(date_key_text(f)) is None,
        date_key_of(date_key_text(f)) == Some(f),
        plain_name(date_key_text(f)),
{
    broadcast use ascii::lemma_same_word_head;

    reveal_strlit("ALL");
    reveal_strlit("ANSWERED");
    reveal_strlit("DELETED");
    reveal_strlit("DRAFT");
    reveal_strlit("FLAGGED");
    reveal_strlit("NEW");
    reveal_strlit("OLD");
    reveal_strlit("RECENT");
    reveal_strlit("SEEN");
    reveal_strlit("UNANSWERED");
    reveal_strlit("UNDELETED");
    reveal_strlit("UNDRAFT");
    reveal_strlit("UNFLAGGED");
    reveal_strlit("UNSEEN");
    reveal_strlit("BCC");
    reveal_strlit("BODY");
    reveal_strlit("CC");
    reveal_strlit("FROM");
    reveal_strlit("SUBJECT");
    reveal_strlit("TEXT");
    reveal_strlit("TO");
    reveal_strlit("BEFORE");
    reveal_strlit("ON");
    reveal_strlit("SENTBEFORE");
    reveal_strlit("SENTON");
    reveal_strlit("SENTSINCE");
    reveal_strlit("SINCE");
    lemma_letters(date_key_text(f));
}

/// The names with arguments of their own are none of the tables.
pub open spec fn other_name(w: Seq<u8>) -> bool {
    flag_key_of(w) is None && text_key_of(w) is None && date_key_of(w) is None && plain_name(w)
}

proof fn lemma_other_names()
    ensures
        other_name(ascii::bytes_of("HEADER")),
        other_name(ascii::bytes_of("KEYWORD")),
        other_name(ascii::bytes_of("UNKEYWORD")),
        other_name(ascii::bytes_of("LARGER")),
        other_name(ascii::bytes_of("SMALLER")),
        other_name(ascii::bytes_of("UID")),
        other_name(ascii::bytes_of("NOT")),
        other_name(ascii::bytes_of("OR")),
        !ascii::same_word(ascii::bytes_of("KEYWORD"), ascii::bytes_of("HEADER")),
        !ascii::same_word(ascii::bytes_of("UNKEYWORD"), ascii::bytes_of("HEADER")),
        !ascii::same_word(ascii::bytes_of("UNKEYWORD"), ascii::bytes_of("KEYWORD")),
        !ascii::same_word(ascii::bytes_of("LARGER"), ascii::bytes_of("HEADER")),
        !ascii::same_word(ascii::bytes_of("LARGER"), ascii::bytes_of("KEYWORD")),
        !ascii::same_word(ascii::bytes_of("LARGER"), ascii::bytes_of("UNKEYWORD")),
        !ascii::same_word(ascii::bytes_of("SMALLER"), ascii::bytes_of("HEADER")),
        !ascii::same_word(ascii::bytes_of("SMALLER"), ascii::bytes_of("KEYWORD")),
        !ascii::same_word(ascii::bytes_of("SMALLER"), ascii::bytes_of("UNKEYWORD")),
        !ascii::same_word(ascii::bytes_of("SMALLER"), ascii::bytes_of("LARGER")),
        !ascii::same_word(ascii::bytes_of("UID"), ascii::bytes_of("HEADER")),
        !ascii::same_word(ascii::bytes_of("UID"), ascii::bytes_of("KEYWORD")),
        !ascii::same_word(ascii::bytes_of("UID"), ascii::bytes_of("UNKEYWORD")),
        !ascii::same_word(ascii::bytes_of("UID"), ascii::bytes_of("LARGER")),
        !ascii::same_word(ascii::bytes_of("UID"), ascii::bytes_of("SMALLER")),
        !ascii::same_word(ascii::bytes_of("NOT"), ascii::bytes_of("HEADER")),
        !ascii::same_word(ascii::bytes_of("NOT"), ascii::bytes_of("KEYWORD")),
        !ascii::same_word(ascii::bytes_of("NOT"), ascii::bytes_of("UNKEYWORD")),
        !ascii::same_word(ascii::bytes_of("NOT"), ascii::bytes_of("LARGER")),
        !ascii::same_word(ascii::bytes_of("NOT"), ascii::bytes_of("SMALLER")),
        !ascii::same_word(ascii::bytes_of("NOT"), ascii::bytes_of("UID")),
        !ascii::same_word(ascii::bytes_of("OR"), ascii::bytes_of("HEADER")),
        !ascii::same_word(ascii::bytes_of("OR"), ascii::bytes_of("KEYWORD")),
        !ascii::same_word(ascii::bytes_of("OR"), ascii::bytes_of("UNKEYWORD")),
        !ascii::same_word(ascii::bytes_of("OR"), ascii::bytes_of("LARGER")),
        !ascii::same_word(ascii::bytes_of("OR"), ascii::bytes_of("SMALLER")),
        !ascii::same_word(ascii::bytes_of("OR"), ascii::bytes_of("UID")),
        !ascii::same_word(ascii::bytes_of("OR"), ascii::bytes_of("NOT")),
{
    broadcast use ascii::lemma_same_word_head;

    reveal_strlit("ALL");
    reveal_strlit("ANSWERED");
    reveal_strlit("DELETED");
    reveal_strlit("DRAFT");
    reveal_strlit("FLAGGED");
    reveal_strlit("NEW");
    reveal_strlit("OLD");
    reveal_strlit("RECENT");
    reveal_strlit("SEEN");
    reveal_strlit("UNANSWERED");
    reveal_strlit("UNDELETED");
    reveal_strlit("UNDRAFT");
    reveal_strlit("UNFLAGGED");
    reveal_strlit("UNSEEN");
    reveal_strlit("BCC");
    reveal_strlit("BODY");
    reveal_strlit("CC");
    reveal_strlit("FROM");
    reveal_strlit("SUBJECT");
    reveal_strlit("TEXT");
    reveal_strlit("TO");
    reveal_strlit("BEFORE");
    reveal_strlit("ON");
    reveal_strlit("SENTBEFORE");
    reveal_strlit("SENTON");
    reveal_strlit("SENTSINCE");
    reveal_strlit("SINCE");
    reveal_strlit("HEADER");
    reveal_strlit("KEYWORD");
    reveal_strlit("UNKEYWORD");
    reveal_strlit("LARGER");
    reveal_strlit("SMALLER");
    reveal_strlit("UID");
    reveal_strlit("NOT");
    reveal_strlit("OR");
    lemma_letters(ascii::bytes_of("HEADER"));
    lemma_letters(ascii::bytes_of("KEYWORD"));
    lemma_letters(ascii::bytes_of("UNKEYWORD"));
    lemma_letters(ascii::bytes_of("LARGER"));
    lemma_letters(ascii::bytes_of("SMALLER"));
    lemma_letters(ascii::bytes_of("UID"));
    lemma_letters(ascii::bytes_of("NOT"));
    lemma_letters(ascii::bytes_of("OR"));
}

/// A name selects what is read behind it.
proof fn lemma_named(w: Seq<u8>, t: Seq<u8>, depth: nat)
    requires
        depth >= 1,
        plain_name(w),
        t.len() > 0,
        !is_alpha(t[0]),
    ensures
        search_key_rule(depth)(w + t) == argument_rule(w, search_key_rule((depth - 1) as nat))(t),
{
    broadcast use reading::group_reading;

    reveal_with_fuel(search_key_rule, 1);
    reveal_strlit("(");
    reveal_strlit("$");
    reveal_strlit("MODSEQ");
    reveal(modseq::search_modsequence_rule);
    let s = w + t;
    assert(s[0] == w[0]);
    assert(is_alpha(w[0]));
    sequence::lemma_sequence_set_rejects(s);
    reading::lemma_take_while1_reads(|x: u8| is_alpha(x), w, t);
}

proof fn lemma_spaced()
    ensures
        ascii::bytes_of("HEADER ") == ascii::bytes_of("HEADER") + ascii::bytes_of(" "),
        ascii::bytes_of("KEYWORD ") == ascii::bytes_of("KEYWORD") + ascii::bytes_of(" "),
        ascii::bytes_of("UNKEYWORD ") == ascii::bytes_of("UNKEYWORD") + ascii::bytes_of(" "),
        ascii::bytes_of("LARGER ") == ascii::bytes_of("LARGER") + ascii::bytes_of(" "),
        ascii::bytes_of("SMALLER ") == ascii::bytes_of("SMALLER") + ascii::bytes_of(" "),
        ascii::bytes_of("UID ") == ascii::bytes_of("UID") + ascii::bytes_of(" "),
        ascii::bytes_of("NOT ") == ascii::bytes_of("NOT") + ascii::bytes_of(" "),
        ascii::bytes_of("OR ") == ascii::bytes_of("OR") + ascii::bytes_of(" "),
{
    reveal_strlit(" ");
    reveal_strlit("HEADER");
    reveal_strlit("HEADER ");
    assert(ascii::bytes_of("HEADER ") =~= ascii::bytes_of("HEADER") + ascii::bytes_of(" "));
    reveal_strlit("KEYWORD");
    reveal_strlit("KEYWORD ");
    assert(ascii::bytes_of("KEYWORD ") =~= ascii::bytes_of("KEYWORD") + ascii::bytes_of(" "));
    reveal_strlit("UNKEYWORD");
    reveal_strlit("UNKEYWORD ");
    assert(ascii::bytes_of("UNKEYWORD ") =~= ascii::bytes_of("UNKEYWORD") + ascii::bytes_of(" "));
    reveal_strlit("LARGER");
    reveal_strlit("LARGER ");
    assert(ascii::bytes_of("LARGER ") =~= ascii::bytes_of("LARGER") + ascii::bytes_of(" "));
    reveal_strlit("SMALLER");
    reveal_strlit("SMALLER ");
    assert(ascii::bytes_of("SMALLER ") =~= ascii::bytes_of("SMALLER") + ascii::bytes_of(" "));
    reveal_strlit("UID");
    reveal_strlit("UID ");
    assert(ascii::bytes_of("UID ") =~= ascii::bytes_of("UID") + ascii::bytes_of(" "));
    reveal_strlit("NOT");
    reveal_strlit("NOT ");
    assert(ascii::bytes_of("NOT ") =~= ascii::bytes_of("NOT") + ascii::bytes_of(" "));
    reveal_strlit("OR");
    reveal_strlit("OR ");
    assert(ascii::bytes_of("OR ") =~= ascii::bytes_of("OR") + ascii::bytes_of(" "));
}

pub proof fn lemma_number63_reads(n: u64, t: Seq<u8>)
    requires
        n <= NUMBER63_MAX,
        reading::ends(t),
    ensures
        ext::number63_rule()(number::decimal(n as nat) + t) == Outcome::Done(t, n),
{
    reveal(ext::number63_rule);
    number::lemma_number64_reads(n, t);
}

/// A key out of a table is read back.
proof fn lemma_table_key_reads(k: KeyView, depth: nat, t: Seq<u8>)
    requires
        key_wf(k, depth),
        reading::ends(t),
        k is Flag || k is Text || k is Date,
    ensures
        search_key_rule(depth)(encode::flat(key_tokens(k)) + t) == Outcome::Done(t, k),
{
    let space = ascii::bytes_of(" ");
    let inner = search_key_rule((depth - 1) as nat);
    let s = encode::flat(key_tokens(k)) + t;
    lemma_other_names();
    match k {
        KeyView::Flag(f) => {
            lemma_flag_key(f);
            encode::lemma_flat_plain(flag_key_text(f));
            lemma_named(flag_key_text(f), t, depth);
        },
        KeyView::Text(f, v) => {
            let b = encode::flat(strings::string_tokens(v));
            lemma_text_key(f);
            strings::lemma_string_reads(v);
            assert(strings::astring_rule()(b + t) == Outcome::Done(t, v));
            args::lemma_sp_reads(strings::astring_rule(), b, v, t);
            assert(s =~= text_key_text(f) + (space + (b + t))) by {
                broadcast use encode::group_flat;

                lemma_spaced();
            }
            lemma_named(text_key_text(f), space + (b + t), depth);
        },
        KeyView::Date(f, d) => {
            let b = date::date_text(d);
            lemma_date_key(f);
            date::lemma_date_reads(d);
            assert(date::date_rule()(b + t) == Outcome::Done(t, d));
            args::lemma_sp_reads(date::date_rule(), b, d, t);
            assert(s =~= date_key_text(f) + (space + (b + t))) by {
                broadcast use encode::group_flat;

                lemma_spaced();
            }
            lemma_named(date_key_text(f), space + (b + t), depth);
        },
        _ => {},
    }
}

/// A header key is read back.
proof fn lemma_header_reads(v: StringView, x: StringView, depth: nat, t: Seq<u8>)
    requires
        depth >= 1,
        strings::string_wf(v),
        strings::string_wf(x),
        reading::ends(t),
    ensures
        search_key_rule(depth)(encode::flat(key_tokens(KeyView::Header(v, x))) + t)
            == Outcome::Done(t, KeyView::Header(v, x)),
{
    let space = ascii::bytes_of(" ");
    let b = encode::flat(strings::string_tokens(v));
    let c = encode::flat(strings::string_tokens(x));
    let p = strings::astring_rule();
    let r = space + (c + t);
    let s = encode::flat(key_tokens(KeyView::Header(v, x))) + t;
    assert(s =~= ascii::bytes_of("HEADER") + (space + (b + r))) by {
        broadcast use encode::group_flat;

        lemma_spaced();
    }
    assert(p(c + t) == Outcome::Done(t, x)) by {
        strings::lemma_string_reads(x);
    }
    args::lemma_sp_reads(p, c, x, t);
    assert(p(b + r) == Outcome::Done(r, v)) by {
        strings::lemma_string_reads(v);
    }
    args::lemma_sp_reads(p, b, v, r);
    lemma_other_names();
    lemma_named(ascii::bytes_of("HEADER"), space + (b + r), depth);
}

/// A keyword key is read back.
proof fn lemma_keyword_reads(b: Seq<u8>, depth: nat, t: Seq<u8>)
    requires
        depth >= 1,
        strings::atom_wf(b),
        reading::ends(t),
    ensures
        search_key_rule(depth)(encode::flat(key_tokens(KeyView::Keyword(b))) + t)
            == Outcome::Done(t, KeyView::Keyword(b)),
        search_key_rule(depth)(encode::flat(key_tokens(KeyView::Unkeyword(b))) + t)
            == Outcome::Done(t, KeyView::Unkeyword(b)),
{
    let space = ascii::bytes_of(" ");
    let p = strings::atom_rule();
    let s = encode::flat(key_tokens(KeyView::Keyword(b))) + t;
    let u = encode::flat(key_tokens(KeyView::Unkeyword(b))) + t;
    assert(s =~= ascii::bytes_of("KEYWORD") + (space + (b + t)) && u =~= ascii::bytes_of(
        "UNKEYWORD",
    ) + (space + (b + t))) by {
        broadcast use encode::group_flat;

        lemma_spaced();
    }
    assert(p(b + t) == Outcome::Done(t, b)) by {
        strings::lemma_atom_reads(b);
    }
    args::lemma_sp_reads(p, b, b, t);
    lemma_other_names();
    lemma_named(ascii::bytes_of("KEYWORD"), space + (b + t), depth);
    lemma_named(ascii::bytes_of("UNKEYWORD"), space + (b + t), depth);
}

/// A key with numbers is read back.
proof fn lemma_number_key_reads(k: KeyView, depth: nat, t: Seq<u8>)
    requires
        key_wf(k, depth),
        reading::ends(t),
        k is Larger || k is Smaller || k is Uid || k is UidSearchResult,
    ensures
        search_key_rule(depth)(encode::flat(key_tokens(k)) + t) == Outcome::Done(t, k),
{
    let space = ascii::bytes_of(" ");
    let inner = search_key_rule((depth - 1) as nat);
    let s = encode::flat(key_tokens(k)) + t;
    lemma_other_names();
    match k {
        KeyView::Larger(n) => {
            let b = number::decimal(n as nat);
            lemma_number63_reads(n, t);
            args::lemma_sp_reads(ext::number63_rule(), b, n, t);
            assert(s =~= ascii::bytes_of("LARGER") + (space + (b + t))) by {
                broadcast use encode::group_flat;

                lemma_spaced();
            }
            lemma_named(ascii::bytes_of("LARGER"), space + (b + t), depth);
        },
        KeyView::Smaller(n) => {
            let b = number::decimal(n as nat);
            lemma_number63_reads(n, t);
            args::lemma_sp_reads(ext::number63_rule(), b, n, t);
            assert(s =~= ascii::bytes_of("SMALLER") + (space + (b + t))) by {
                broadcast use encode::group_flat;

                lemma_spaced();
            }
            lemma_named(ascii::bytes_of("SMALLER"), space + (b + t), depth);
        },
        KeyView::Uid(v) => {
            let m = MessageSetView::SequenceSet(v);
            lemma_uid_reads(m, s, t, depth);
        },
        KeyView::UidSearchResult => {
            lemma_uid_reads(MessageSetView::SearchResult, s, t, depth);
        },
        _ => {},
    }
}

proof fn lemma_uid_reads(m: MessageSetView, s: Seq<u8>, t: Seq<u8>, depth: nat)
    requires
        depth >= 1,
        ext::message_set_wf(m),
        reading::ends(t),
        s == encode::flat(encode::word("UID ") + ext::message_set_tokens(m)) + t,
    ensures
        search_key_rule(depth)(s) == Outcome::Done(t, uid_of(m)),
{
    let space = ascii::bytes_of(" ");
    lemma_other_names();
    let b = encode::flat(ext::message_set_tokens(m));
    ext::lemma_message_set_reads(m);
    assert(ext::message_set_rule()(b + t) == Outcome::Done(t, m));
    args::lemma_sp_reads(ext::message_set_rule(), b, m, t);
    assert(s =~= ascii::bytes_of("UID") + (space + (b + t))) by {
        broadcast use encode::group_flat;

        lemma_spaced();
    }
    lemma_named(ascii::bytes_of("UID"), space + (b + t), depth);
}

proof fn lemma_and_reads(v: Seq<KeyView>, depth: nat, t: Seq<u8>)
    requires
        v.len() > 0,
        depth >= 1,
        forall|i: int| 0 <= i < v.len() ==> key_wf(#[trigger] v[i], depth),
    ensures
        g::paren_list1(search_key_rule(depth))(
            encode::flat(encode::paren_tokens(key_parts(v))) + t,
        ) == Outcome::Done(t, v),
    decreases v, 0int,
{
    let tokens = key_parts(v);
    let parts = encode::flat_parts(tokens);
    lemma_key_parts(v);
    encode::lemma_flat_paren(tokens);
    assert forall|i: int| 0 <= i < parts.len() implies reading::reads(
        search_key_rule(depth),
        #[trigger] parts[i],
        v[i],
    ) by {
        assert(key_wf(v[i], depth));
        lemma_key_reads(v[i], depth);
    }
    reading::lemma_parens_reads(search_key_rule(depth), parts, v, t);
}

/// A search key is read back.
pub proof fn lemma_key_reads(k: KeyView, depth: nat)
    requires
        key_wf(k, depth),
    ensures
        reading::reads(search_key_rule(depth), encode::flat(key_tokens(k)), k),
    decreases k, 1int,
{
    let b = encode::flat(key_tokens(k));
    match k {
        KeyView::Not(x) => {
            lemma_key_reads(*x, (depth - 1) as nat);
        },
        KeyView::Or(x, y) => {
            lemma_key_reads(*x, (depth - 1) as nat);
            lemma_key_reads(*y, (depth - 1) as nat);
        },
        KeyView::And(v) => {
            assert forall|t: Seq<u8>| reading::ends(t) implies #[trigger] search_key_rule(depth)(
                b + t,
            ) == Outcome::Done(t, k) by {
                lemma_and_reads(v, (depth - 1) as nat, t);
                reveal_with_fuel(search_key_rule, 1);
            }
        },
        _ => {},
    }
    assert forall|t: Seq<u8>| reading::ends(t) implies #[trigger] search_key_rule(depth)(b + t)
        == Outcome::Done(t, k) by {
        match k {
            KeyView::Not(x) => {
                lemma_not_reads(*x, depth, t);
            },
            KeyView::Or(x, y) => {
                lemma_or_reads(*x, *y, depth, t);
            },
            KeyView::And(v) => {},
            KeyView::SequenceSet(_) => {
                lemma_leaf_reads(k, depth, t);
            },
            KeyView::SearchResult => {
                lemma_leaf_reads(k, depth, t);
            },
            KeyView::ModSequence { .. } => {
                lemma_leaf_reads(k, depth, t);
            },
            KeyView::Flag(_) | KeyView::Text(_, _) | KeyView::Date(_, _) => {
                lemma_table_key_reads(k, depth, t);
            },
            KeyView::Header(a, x) => {
                lemma_header_reads(a, x, depth, t);
            },
            KeyView::Keyword(a) => {
                lemma_keyword_reads(a, depth, t);
            },
            KeyView::Unkeyword(a) => {
                lemma_keyword_reads(a, depth, t);
            },
            _ => {
                lemma_number_key_reads(k, depth, t);
            },
        }
    }
}

proof fn lemma_leaf_reads(k: KeyView, depth: nat, t: Seq<u8>)
    requires
        key_wf(k, depth),
        k is SequenceSet || k is SearchResult || k is ModSequence,
        reading::ends(t),
    ensures
        search_key_rule(depth)(encode::flat(key_tokens(k)) + t) == Outcome::Done(t, k),
{
    broadcast use {reading::group_reading, encode::group_flat};

    reveal_with_fuel(search_key_rule, 1);
    reveal_strlit("(");
    reveal_strlit("$");
    let b = encode::flat(key_tokens(k));
    match k {
        KeyView::SequenceSet(s) => {
            sequence::lemma_set_first(s);
            assert((b + t)[0] == b[0]);
            sequence::lemma_sequence_set_reads(s, t);
        },
        KeyView::ModSequence { entry, modseq } => {
            reveal_strlit("MODSEQ");
            modseq::lemma_search_modsequence_reads(entry, modseq);
            assert((b + t)[0] == 'M' as u8);
            sequence::lemma_sequence_set_rejects(b + t);
            assert(modseq::search_modsequence_rule()(b + t) == Outcome::Done(t, (entry, modseq)));
        },
        _ => {},
    }
}

proof fn lemma_not_reads(x: KeyView, depth: nat, t: Seq<u8>)
    requires
        depth >= 2,
        reading::ends(t),
        reading::reads(search_key_rule((depth - 1) as nat), encode::flat(key_tokens(x)), x),
    ensures
        search_key_rule(depth)(encode::flat(key_tokens(KeyView::Not(Box::new(x)))) + t)
            == Outcome::Done(t, KeyView::Not(Box::new(x))),
{
    lemma_other_names();
    let inner = search_key_rule((depth - 1) as nat);
    let space = ascii::bytes_of(" ");
    let b = encode::flat(key_tokens(x));
    let s = encode::flat(key_tokens(KeyView::Not(Box::new(x)))) + t;
    assert(inner(b + t) == Outcome::Done(t, x));
    args::lemma_sp_reads(inner, b, x, t);
    assert(s =~= ascii::bytes_of("NOT") + (space + (b + t))) by {
        broadcast use encode::group_flat;

        lemma_spaced();
    }
    lemma_named(ascii::bytes_of("NOT"), space + (b + t), depth);
}

proof fn lemma_or_reads(x: KeyView, y: KeyView, depth: nat, t: Seq<u8>)
    requires
        depth >= 2,
        reading::ends(t),
        reading::reads(search_key_rule((depth - 1) as nat), encode::flat(key_tokens(x)), x),
        reading::reads(search_key_rule((depth - 1) as nat), encode::flat(key_tokens(y)), y),
    ensures
        search_key_rule(depth)(
            encode::flat(key_tokens(KeyView::Or(Box::new(x), Box::new(y)))) + t,
        ) == Outcome::Done(t, KeyView::Or(Box::new(x), Box::new(y))),
{
    lemma_other_names();
    let inner = search_key_rule((depth - 1) as nat);
    let space = ascii::bytes_of(" ");
    let b = encode::flat(key_tokens(x));
    let c = encode::flat(key_tokens(y));
    let s = encode::flat(key_tokens(KeyView::Or(Box::new(x), Box::new(y)))) + t;
    assert(inner(c + t) == Outcome::Done(t, y));
    args::lemma_sp_reads(inner, c, y, t);
    let r = space + (c + t);
    assert(inner(b + r) == Outcome::Done(r, x));
    args::lemma_sp_reads(inner, b, x, r);
    assert(s == ascii::bytes_of("OR") + (space + (b + r))) by {
        let name = encode::word("OR ");
        let gap = encode::word(" ");
        args::lemma_flat_then(name + key_tokens(x) + gap, key_tokens(y), t);
        args::lemma_flat_then(name + key_tokens(x), gap, c + t);
        args::lemma_flat_then(name, key_tokens(x), r);
        encode::lemma_flat_word("OR ");
        encode::lemma_flat_word(" ");
        lemma_spaced();
        encode::lemma_concat_assoc(ascii::bytes_of("OR"), space, b + r);
    }
    lemma_named(ascii::bytes_of("OR"), space + (b + r), depth);
}

/// A list of criteria is read back.
pub proof fn lemma_criteria_reads(v: Seq<KeyView>, t: Seq<u8>)
    requires
        criteria_wf(v),
        t.len() > 0,
        t[0] == 0x0d || t[0] == ')' as u8,
    ensures
        criteria_rule()(encode::flat(criteria_tokens(v)) + t) == Outcome::Done(t, v),
{
    broadcast use encode::group_flat;

    reveal_strlit(" ");
    let p = search_key_rule(SEARCH_DEPTH as nat);
    let tokens = key_parts(v);
    let parts = encode::flat_parts(tokens);
    lemma_key_parts(v);
    encode::lemma_flat_joined(tokens, encode::word(" "));
    let follow = |x: Seq<u8>| reading::ends(x);
    assert forall|i: int| 0 <= i < parts.len() implies reading::reads_before(
        p,
        #[trigger] parts[i],
        v[i],
        follow,
    ) by {
        assert(key_wf(v[i], SEARCH_DEPTH as nat));
        lemma_key_reads(v[i], SEARCH_DEPTH as nat);
    }
    let space = ascii::bytes_of(" ");
    assert forall|r: Seq<u8>| follow(#[trigger] (space + r)) by {
        assert((space + r)[0] == 0x20);
    }
    reading::lemma_tag_rejects(space, t);
    reading::lemma_list_reads(space, p, follow, parts, v, t);
}

/// A text that starts with neither `CHARSET` nor `RETURN`.
pub open spec fn starts_like_key(b: Seq<u8>) -> bool {
    &&& b.len() > 0
    &&& ascii::upper(b[0]) == 'C' as u8 ==> b.len() > 1 && ascii::upper(b[1]) == 'C' as u8
    &&& ascii::upper(b[0]) == 'R' as u8 ==> b.len() > 2 && ascii::upper(b[2]) == 'C' as u8
}

proof fn lemma_name_start(w: Seq<u8>, b: Seq<u8>)
    requires
        plain_name(w),
        w.len() <= b.len(),
        b.take(w.len() as int) == w,
    ensures
        starts_like_key(b),
{
    let c = b.take(w.len() as int);
    assert(c[0] == b[0]);
    assert(c[1] == b[1]);
    if w.len() > 2 {
        assert(c[2] == b[2]);
    }
}

/// The text of a key starts with its name.
pub open spec fn key_name(k: KeyView) -> Seq<u8> {
    match k {
        KeyView::Uid(_) | KeyView::UidSearchResult => ascii::bytes_of("UID"),
        KeyView::Flag(f) => flag_key_text(f),
        KeyView::Text(f, _) => text_key_text(f),
        KeyView::Date(f, _) => date_key_text(f),
        KeyView::Header(_, _) => ascii::bytes_of("HEADER"),
        KeyView::Keyword(_) => ascii::bytes_of("KEYWORD"),
        KeyView::Unkeyword(_) => ascii::bytes_of("UNKEYWORD"),
        KeyView::Larger(_) => ascii::bytes_of("LARGER"),
        KeyView::Smaller(_) => ascii::bytes_of("SMALLER"),
        KeyView::ModSequence { .. } => ascii::bytes_of("MODSEQ"),
        KeyView::Not(_) => ascii::bytes_of("NOT"),
        KeyView::Or(_, _) => ascii::bytes_of("OR"),
        _ => seq![],
    }
}

proof fn lemma_key_name(k: KeyView)
    ensures
        ({
            let b = encode::flat(key_tokens(k));
            let w = key_name(k);
            w.len() <= b.len() && b.take(w.len() as int) == w
        }),
{
    broadcast use encode::group_flat;

    lemma_spaced();
    let b = encode::flat(key_tokens(k));
    let w = key_name(k);
    assert(b.take(w.len() as int) =~= w);
}

/// No key can be taken for what may stand in front of the criteria.
pub proof fn lemma_key_start(k: KeyView, depth: nat)
    requires
        key_wf(k, depth),
    ensures
        starts_like_key(encode::flat(key_tokens(k))),
{
    let b = encode::flat(key_tokens(k));
    let w = key_name(k);
    lemma_key_name(k);
    match k {
        KeyView::And(v) => {
            reveal_strlit("(");
            encode::lemma_flat_paren(key_parts(v));
            assert(b[0] == '(' as u8);
        },
        KeyView::SequenceSet(s) => {
            sequence::lemma_set_first(s);
        },
        KeyView::SearchResult => {
            reveal_strlit("$");
            encode::lemma_flat_word("$");
        },
        KeyView::ModSequence { .. } => {
            reveal_strlit("MODSEQ");
            assert(b.take(w.len() as int)[0] == b[0]);
        },
        KeyView::Flag(f) => {
            lemma_flag_key(f);
            lemma_name_start(w, b);
        },
        KeyView::Text(f, _) => {
            lemma_text_key(f);
            lemma_name_start(w, b);
        },
        KeyView::Date(f, _) => {
            lemma_date_key(f);
            lemma_name_start(w, b);
        },
        _ => {
            lemma_other_names();
            lemma_name_start(w, b);
        },
    }
}

pub proof fn lemma_criteria_start(v: Seq<KeyView>)
    requires
        criteria_wf(v),
    ensures
        starts_like_key(encode::flat(criteria_tokens(v))),
{
    broadcast use encode::group_flat;

    lemma_key_parts(v);
    encode::lemma_flat_joined(key_parts(v), encode::word(" "));
    assert(key_wf(v[0], SEARCH_DEPTH as nat));
    lemma_key_start(v[0], SEARCH_DEPTH as nat);
    assert(encode::flat_parts(key_parts(v))[0] == encode::flat(key_tokens(v[0])));
}

// ------------------------------------------------------------------ executable

/// Reads further keys, each behind a space, as long as they follow.
fn keys_into<'a>(input: &'a [u8], first: Vec<SearchKey>, depth: usize) -> (res: IMAPResult<
    'a,
    Vec<SearchKey>,
>)
    ensures
        g::agrees(
            res,
            g::after(
                first.deep_view(),
                g::repeated_from(g::text(" "), search_key_rule(depth as nat), input@),
            ),
        ),
    decreases depth, 1int,
{
    let ghost p = search_key_rule(depth as nat);
    let ghost whole = g::after(first.deep_view(), g::repeated_from(g::text(" "), p, input@));
    let mut read = first;
    let mut at: &'a [u8] = input;
    loop
        invariant
            p == search_key_rule(depth as nat),
            whole == g::after(first.deep_view(), g::repeated_from(g::text(" "), p, input@)),
            whole == g::after(read.deep_view(), g::repeated_from(g::text(" "), p, at@)),
        decreases at@.len(),
    {
        let behind: &'a [u8] = match tag(at, " ") {
            Ok((rest, _)) => rest,
            Err(IMAPParseError::Error) => {
                assert(read.deep_view() + seq![] =~= read.deep_view());
                return Ok((at, read));
            },
            Err(e) => return Err(e),
        };
        if behind.len() >= at.len() {
            return Err(IMAPParseError::Error);
        }
        match search_key(behind, depth) {
            Ok((rest, x)) => {
                if rest.len() >= at.len() {
                    return Err(IMAPParseError::Error);
                }
                let ghost before = read.deep_view();
                let ghost seen = x.deep_view();
                read.push(x);
                proof {
                    assert(read.deep_view() =~= before.push(seen));
                    if let Outcome::Done(r, xs) = g::repeated_from(g::text(" "), p, rest@) {
                        assert(before + (seq![seen] + xs) =~= before.push(seen) + xs);
                    }
                }
                at = rest;
            },
            Err(IMAPParseError::Error) => {
                assert(read.deep_view() + seq![] =~= read.deep_view());
                return Ok((at, read));
            },
            Err(e) => return Err(e),
        }
    }
}

/// Reads one or more keys.
fn keys<'a>(input: &'a [u8], depth: usize) -> (res: IMAPResult<'a, Vec<SearchKey>>)
    ensures
        g::agrees(res, g::separated_list1(g::text(" "), search_key_rule(depth as nat))(input@)),
    decreases depth, 2int,
{
    let (rest, x) = search_key(input, depth)?;
    let mut read: Vec<SearchKey> = Vec::new();
    read.push(x);
    assert(read.deep_view() =~= seq![x.deep_view()]);
    keys_into(rest, read, depth)
}

fn paren_keys<'a>(input: &'a [u8], depth: usize) -> (res: IMAPResult<'a, Vec<SearchKey>>)
    ensures
        g::agrees(res, g::paren_list1(search_key_rule(depth as nat))(input@)),
    decreases depth, 3int,
{
    let (rest, _) = tag(input, "(")?;
    let (rest, items) = keys(rest, depth)?;
    let (rest, _) = tag(rest, ")")?;
    Ok((rest, items))
}

fn astring_argument<'a>(input: &'a [u8]) -> (res: IMAPResult<'a, AString>)
    ensures
        g::agrees(res, args::sp(strings::astring_rule())(input@)),
{
    let (rest, _) = tag(input, " ")?;
    astring(rest)
}

fn atom_argument<'a>(input: &'a [u8]) -> (res: IMAPResult<'a, Atom>)
    ensures
        g::agrees(res, args::sp(strings::atom_rule())(input@)),
{
    let (rest, _) = tag(input, " ")?;
    atom(rest)
}

fn number_argument<'a>(input: &'a [u8]) -> (res: IMAPResult<'a, u64>)
    ensures
        g::agrees(res, args::sp(ext::number63_rule())(input@)),
{
    let (rest, _) = tag(input, " ")?;
    number63(rest)
}

fn key_argument<'a>(input: &'a [u8], depth: usize) -> (res: IMAPResult<'a, SearchKey>)
    ensures
        g::agrees(res, args::sp(search_key_rule(depth as nat))(input@)),
    decreases depth, 1int,
{
    let (rest, _) = tag(input, " ")?;
    search_key(rest, depth)
}

fn argument<'a>(input: &'a [u8], w: &[u8], depth: usize) -> (res: IMAPResult<'a, SearchKey>)
    ensures
        g::agrees(res, argument_rule(w@, search_key_rule(depth as nat))(input@)),
    decreases depth, 2int,
{
    if let Some(f) = find_flag_key(w) {
        return Ok((input, SearchKey::Flag(f)));
    }
    if let Some(f) = find_text_key(w) {
        let (rest, s) = astring_argument(input)?;
        return Ok((rest, SearchKey::Text(f, s)));
    }
    if let Some(f) = find_date_key(w) {
        let (rest, _) = tag(input, " ")?;
        let (rest, d) = date::date(rest)?;
        return Ok((rest, SearchKey::Date(f, d)));
    }
    if ascii::is_word(w, "HEADER") {
        let (rest, a) = astring_argument(input)?;
        let (rest, b) = astring_argument(rest)?;
        Ok((rest, SearchKey::Header(a, b)))
    } else if ascii::is_word(w, "KEYWORD") {
        let (rest, a) = atom_argument(input)?;
        Ok((rest, SearchKey::Keyword(a)))
    } else if ascii::is_word(w, "UNKEYWORD") {
        let (rest, a) = atom_argument(input)?;
        Ok((rest, SearchKey::Unkeyword(a)))
    } else if ascii::is_word(w, "LARGER") {
        let (rest, n) = number_argument(input)?;
        Ok((rest, SearchKey::Larger(n)))
    } else if ascii::is_word(w, "SMALLER") {
        let (rest, n) = number_argument(input)?;
        Ok((rest, SearchKey::Smaller(n)))
    } else if ascii::is_word(w, "UID") {
        let (rest, _) = tag(input, " ")?;
        let (rest, set) = message_set(rest)?;
        match set {
            MessageSet::SequenceSet(s) => Ok((rest, SearchKey::Uid(s))),
            MessageSet::SearchResult => Ok((rest, SearchKey::UidSearchResult)),
        }
    } else if ascii::is_word(w, "NOT") {
        let (rest, k) = key_argument(input, depth)?;
        Ok((rest, SearchKey::Not(Box::new(k))))
    } else if ascii::is_word(w, "OR") {
        let (rest, a) = key_argument(input, depth)?;
        let (rest, b) = key_argument(rest, depth)?;
        Ok((rest, SearchKey::Or(Box::new(a), Box::new(b))))
    } else {
        Err(IMAPParseError::Error)
    }
}

fn named<'a>(input: &'a [u8], depth: usize) -> (res: IMAPResult<'a, SearchKey>)
    ensures
        g::agrees(res, named_rule(search_key_rule(depth as nat))(input@)),
    decreases depth, 3int,
{
    let (rest, w) = take_while1(input, is_alpha, Ghost(|b: u8| is_alpha(b)))?;
    assert(w.deep_view() =~= w@);
    argument(rest, w.as_slice(), depth)
}

/// Reads a search key that nests at most `depth` levels deep.
pub fn search_key<'a>(input: &'a [u8], depth: usize) -> (res: IMAPResult<'a, SearchKey>)
    ensures
        g::agrees(res, search_key_rule(depth as nat)(input@)),
    decreases depth, 0int,
{
    broadcast use lemma_and_view;

    proof {
        reveal_with_fuel(search_key_rule, 1);
    }
    if depth == 0 {
        return Err(IMAPParseError::Failure(IMAPErrorKind::RecursionLimitExceeded));
    }
    match paren_keys(input, depth - 1) {
        Ok((rest, items)) => return Ok((rest, SearchKey::And(items))),
        Err(IMAPParseError::Error) => {},
        Err(e) => return Err(e),
    }
    match tag(input, "$") {
        Ok((rest, _)) => return Ok((rest, SearchKey::SearchResult)),
        Err(IMAPParseError::Error) => {},
        Err(e) => return Err(e),
    }
    match sequence_set(input) {
        Ok((rest, set)) => return Ok((rest, SearchKey::SequenceSet(set))),
        Err(IMAPParseError::Error) => {},
        Err(e) => return Err(e),
    }
    match search_modsequence(input) {
        Ok((rest, (entry, modseq))) => return Ok((rest, SearchKey::ModSequence { entry, modseq })),
        Err(IMAPParseError::Error) => {},
        Err(e) => return Err(e),
    }
    named(input, depth - 1)
}

/// Reads the criteria of a search.
pub fn criteria<'a>(input: &'a [u8]) -> (res: IMAPResult<'a, Vec<SearchKey>>)
    ensures
        g::agrees(res, criteria_rule()(input@)),
{
    keys(input, SEARCH_DEPTH)
}

/// Writes the criteria of a search.
pub fn write_criteria(items: &Vec<SearchKey>, ctx: &mut EncodeContext)
    ensures
        final(ctx)@ == old(ctx)@ + criteria_tokens(items.deep_view()),
    decreases items, 0int,
{
    let ghost all = items.deep_view().map_values(|k: KeyView| key_tokens(k));
    proof {
        lemma_key_parts(items.deep_view());
    }
    let mut i: usize = 0;
    assert(all.take(0) =~= seq![]);
    assert(ctx@ + encode::joined(all.take(0), encode::word(" ")) =~= ctx@);
    while i < items.len()
        invariant
            i <= items@.len(),
            all == items.deep_view().map_values(|k: KeyView| key_tokens(k)),
            all.len() == items@.len(),
            ctx@ == old(ctx)@ + encode::joined(all.take(i as int), encode::word(" ")),
        decreases items@.len() - i,
    {
        proof {
            encode::lemma_joined_push(all.take(i as int), all[i as int], encode::word(" "));
            assert(all.take(i + 1) =~= all.take(i as int).push(all[i as int]));
            assert(items.deep_view()[i as int] == items@[i as int].deep_view());
        }
        if i > 0 {
            ctx.write_text(" ");
        }
        assert(decreases_to!(*items => items@[i as int]));
        write_key(&items[i], ctx);
        proof {
            if i > 0 {
                assert(ctx@ =~= old(ctx)@ + (encode::joined(all.take(i as int), encode::word(" "))
                    + encode::word(" ") + all[i as int]));
            } else {
                assert(ctx@ =~= old(ctx)@ + all[0]);
            }
        }
        i = i + 1;
    }
    assert(all.take(i as int) =~= all);
}

fn write_key(k: &SearchKey, ctx: &mut EncodeContext)
    ensures
        final(ctx)@ == old(ctx)@ + key_tokens(k.deep_view()),
    decreases k, 1int,
{
    broadcast use lemma_and_view;

    match k {
        SearchKey::And(v) => {
            ctx.write_text("(");
            write_criteria(v, ctx);
            ctx.write_text(")");
        },
        SearchKey::SequenceSet(s) => s.encode_ctx(ctx),
        SearchKey::SearchResult => ctx.write_text("$"),
        SearchKey::Uid(s) => {
            ctx.write_text("UID ");
            s.encode_ctx(ctx);
        },
        SearchKey::UidSearchResult => {
            ctx.write_text("UID ");
            ctx.write_text("$");
        },
        SearchKey::Flag(f) => f.encode_ctx(ctx),
        SearchKey::Text(f, s) => {
            f.encode_ctx(ctx);
            ctx.write_text(" ");
            s.encode_ctx(ctx);
        },
        SearchKey::Date(f, d) => {
            f.encode_ctx(ctx);
            ctx.write_text(" ");
            d.encode_ctx(ctx);
        },
        SearchKey::Header(a, b) => {
            ctx.write_text("HEADER ");
            a.encode_ctx(ctx);
            ctx.write_text(" ");
            b.encode_ctx(ctx);
        },
        SearchKey::Keyword(a) => {
            ctx.write_text("KEYWORD ");
            a.encode_ctx(ctx);
        },
        SearchKey::Unkeyword(a) => {
            ctx.write_text("UNKEYWORD ");
            a.encode_ctx(ctx);
        },
        SearchKey::Larger(n) => {
            ctx.write_text("LARGER ");
            number::write_number(ctx, *n);
        },
        SearchKey::Smaller(n) => {
            ctx.write_text("SMALLER ");
            number::write_number(ctx, *n);
        },
        SearchKey::ModSequence { entry, modseq } => write_search_modsequence(entry, *modseq, ctx),
        SearchKey::Not(k) => {
            ctx.write_text("NOT ");
            write_key(k, ctx);
        },
        SearchKey::Or(a, b) => {
            ctx.write_text("OR ");
            write_key(a, ctx);
            ctx.write_text(" ");
            write_key(b, ctx);
        },
    }
    assert(ctx@ =~= old(ctx)@ + key_tokens(k.deep_view()));
}

impl EncodeIntoContext for SearchKey {
    open spec fn tokens(v: KeyView) -> Seq<Token> {
        key_tokens(v)
    }

    fn encode_ctx(&self, ctx: &mut EncodeContext) {
        write_key(self, ctx);
        assert(ctx@ =~= old(ctx)@ + Self::tokens(self.deep_view()));
    }
}

} // verus!
