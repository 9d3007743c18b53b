//! What a FETCH command asks for.
use vstd::prelude::*;

use crate::ascii;
use crate::ascii::{is_alpha, is_digit};
use crate::encode;
use crate::encode::{join_serializable, write_parens, EncodeContext, EncodeIntoContext, Token};
use crate::extensions::rev2 as ext;
use crate::extensions::rev2::{number63, nz_number63, NUMBER63_MAX};
use crate::grammar as g;
use crate::grammar::{list1, parens1, tag, take_while1, IMAPParseError, IMAPResult, Outcome, Rule};
use crate::number;
use crate::number::{nz_number, write_number};
use crate::reading;
use crate::strings;
use crate::strings::{astring, AString, StringView};

verus! {

/// Names for groups of items.
#[derive(Clone, Copy, Debug, PartialEq, Eq, Hash, Structural)]
pub enum Macro {
    All,
    Fast,
    Full,
}

pub open spec fn macro_text(k: Macro) -> Seq<u8> {
    match k {
        Macro::All => ascii::bytes_of("ALL"),
        Macro::Fast => ascii::bytes_of("FAST"),
        Macro::Full => ascii::bytes_of("FULL"),
    }
}

/// The macro of this name.
pub open spec fn macro_of(w: Seq<u8>) -> Option<Macro> {
    if ascii::same_word(w, ascii::bytes_of("ALL")) {
        Some(Macro::All)
    } else if ascii::same_word(w, ascii::bytes_of("FAST")) {
        Some(Macro::Fast)
    } else if ascii::same_word(w, ascii::bytes_of("FULL")) {
        Some(Macro::Full)
    } else {
        None
    }
}

impl DeepView for Macro {
    type V = Macro;

    open spec fn deep_view(&self) -> Macro {
        *self
    }
}

impl EncodeIntoContext for Macro {
    open spec fn tokens(v: Macro) -> Seq<Token> {
        encode::plain(macro_text(v))
    }

    fn encode_ctx(&self, ctx: &mut EncodeContext) {
        match *self {
            Macro::All => ctx.write_text("ALL"),
            Macro::Fast => ctx.write_text("FAST"),
            Macro::Full => ctx.write_text("FULL"),
        }
        assert(ctx@ =~= old(ctx)@ + Self::tokens(self.deep_view()));
    }
}

fn find_macro(w: &[u8]) -> (r: Option<Macro>)
    ensures
        r == macro_of(w@),
{
    if ascii::is_word(w, "ALL") {
        Some(Macro::All)
    } else if ascii::is_word(w, "FAST") {
        Some(Macro::Fast)
    } else if ascii::is_word(w, "FULL") {
        Some(Macro::Full)
    } else {
        None
    }
}

/// Items without a section.
#[derive(Clone, Copy, Debug, PartialEq, Eq, Hash, Structural)]
pub enum PlainItem {
    Body,
    BodyStructure,
    Envelope,
    Flags,
    InternalDate,
    Rfc822,
    Rfc822Header,
    Rfc822Size,
    Rfc822Text,
    Uid,
    ModSeq,
}

pub open spec fn plain_item_text(k: PlainItem) -> Seq<u8> {
    match k {
        PlainItem::Body => ascii::bytes_of("BODY"),
        PlainItem::BodyStructure => ascii::bytes_of("BODYSTRUCTURE"),
        PlainItem::Envelope => ascii::bytes_of("ENVELOPE"),
        PlainItem::Flags => ascii::bytes_of("FLAGS"),
        PlainItem::InternalDate => ascii::bytes_of("INTERNALDATE"),
        PlainItem::Rfc822 => ascii::bytes_of("RFC822"),
        PlainItem::Rfc822Header => ascii::bytes_of("RFC822.HEADER"),
        PlainItem::Rfc822Size => ascii::bytes_of("RFC822.SIZE"),
        PlainItem::Rfc822Text => ascii::bytes_of("RFC822.TEXT"),
        PlainItem::Uid => ascii::bytes_of("UID"),
        PlainItem::ModSeq => ascii::bytes_of("MODSEQ"),
    }
}

/// The item without a section of this name.
pub open spec fn plain_item_of(w: Seq<u8>) -> Option<PlainItem> {
    if ascii::same_word(w, ascii::bytes_of("BODY")) {
        Some(PlainItem::Body)
    } else if ascii::same_word(w, ascii::bytes_of("BODYSTRUCTURE")) {
        Some(PlainItem::BodyStructure)
    } else if ascii::same_word(w, ascii::bytes_of("ENVELOPE")) {
        Some(PlainItem::Envelope)
    } else if ascii::same_word(w, ascii::bytes_of("FLAGS")) {
        Some(PlainItem::Flags)
    } else if ascii::same_word(w, ascii::bytes_of("INTERNALDATE")) {
        Some(PlainItem::InternalDate)
    } else if ascii::same_word(w, ascii::bytes_of("RFC822")) {
        Some(PlainItem::Rfc822)
    } else if ascii::same_word(w, ascii::bytes_of("RFC822.HEADER")) {
        Some(PlainItem::Rfc822Header)
    } else if ascii::same_word(w, ascii::bytes_of("RFC822.SIZE")) {
        Some(PlainItem::Rfc822Size)
    } else if ascii::same_word(w, ascii::bytes_of("RFC822.TEXT")) {
        Some(PlainItem::Rfc822Text)
    } else if ascii::same_word(w, ascii::bytes_of("UID")) {
        Some(PlainItem::Uid)
    } else if ascii::same_word(w, ascii::bytes_of("MODSEQ")) {
        Some(PlainItem::ModSeq)
    } else {
        None
    }
}

impl DeepView for PlainItem {
    type V = PlainItem;

    open spec fn deep_view(&self) -> PlainItem {
        *self
    }
}

impl EncodeIntoContext for PlainItem {
    open spec fn tokens(v: PlainItem) -> Seq<Token> {
        encode::plain(plain_item_text(v))
    }

    fn encode_ctx(&self, ctx: &mut EncodeContext) {
        match *self {
            PlainItem::Body => ctx.write_text("BODY"),
            PlainItem::BodyStructure => ctx.write_text("BODYSTRUCTURE"),
            PlainItem::Envelope => ctx.write_text("ENVELOPE"),
            PlainItem::Flags => ctx.write_text("FLAGS"),
            PlainItem::InternalDate => ctx.write_text("INTERNALDATE"),
            PlainItem::Rfc822 => ctx.write_text("RFC822"),
            PlainItem::Rfc822Header => ctx.write_text("RFC822.HEADER"),
            PlainItem::Rfc822Size => ctx.write_text("RFC822.SIZE"),
            PlainItem::Rfc822Text => ctx.write_text("RFC822.TEXT"),
            PlainItem::Uid => ctx.write_text("UID"),
            PlainItem::ModSeq => ctx.write_text("MODSEQ"),
        }
        assert(ctx@ =~= old(ctx)@ + Self::tokens(self.deep_view()));
    }
}

pub fn find_plain_item(w: &[u8]) -> (r: Option<PlainItem>)
    ensures
        r == plain_item_of(w@),
{
    if ascii::is_word(w, "BODY") {
        Some(PlainItem::Body)
    } else if ascii::is_word(w, "BODYSTRUCTURE") {
        Some(PlainItem::BodyStructure)
    } else if ascii::is_word(w, "ENVELOPE") {
        Some(PlainItem::Envelope)
    } else if ascii::is_word(w, "FLAGS") {
        Some(PlainItem::Flags)
    } else if ascii::is_word(w, "INTERNALDATE") {
        Some(PlainItem::InternalDate)
    } else if ascii::is_word(w, "RFC822") {
        Some(PlainItem::Rfc822)
    } else if ascii::is_word(w, "RFC822.HEADER") {
        Some(PlainItem::Rfc822Header)
    } else if ascii::is_word(w, "RFC822.SIZE") {
        Some(PlainItem::Rfc822Size)
    } else if ascii::is_word(w, "RFC822.TEXT") {
        Some(PlainItem::Rfc822Text)
    } else if ascii::is_word(w, "UID") {
        Some(PlainItem::Uid)
    } else if ascii::is_word(w, "MODSEQ") {
        Some(PlainItem::ModSeq)
    } else {
        None
    }
}

/// The part of a message that a section selects.
#[derive(Clone, Debug, PartialEq, Eq, Hash)]
pub enum SectionText {
    Header,
    /// The header fields of these names, of which there is at least one.
    HeaderFields(Vec<AString>),
    HeaderFieldsNot(Vec<AString>),
    Text,
    Mime,
}

pub enum SectionTextView {
    Header,
    HeaderFields(Seq<StringView>),
    HeaderFieldsNot(Seq<StringView>),
    Text,
    Mime,
}

impl DeepView for SectionText {
    type V = SectionTextView;

    open spec fn deep_view(&self) -> SectionTextView {
        match self {
            SectionText::Header => SectionTextView::Header,
            SectionText::HeaderFields(v) => SectionTextView::HeaderFields(v.deep_view()),
            SectionText::HeaderFieldsNot(v) => SectionTextView::HeaderFieldsNot(v.deep_view()),
            SectionText::Text => SectionTextView::Text,
            SectionText::Mime => SectionTextView::Mime,
        }
    }
}

/// A section: the numbers of nested body parts, and what is selected in there.
#[derive(Clone, Debug, PartialEq, Eq, Hash)]
pub struct Section {
    pub part: Vec<u32>,
    pub text: Option<SectionText>,
}

pub struct SectionView {
    pub part: Seq<u32>,
    pub text: Option<SectionTextView>,
}

impl DeepView for Section {
    type V = SectionView;

    open spec fn deep_view(&self) -> SectionView {
        SectionView { part: self.part@, text: self.text.deep_view() }
    }
}

/// An item that a FETCH command asks for. A partial range has an offset and a
/// length.
#[derive(Clone, Debug, PartialEq, Eq, Hash)]
pub enum MessageDataItemName {
    Plain(PlainItem),
    BodyExt { section: Option<Section>, partial: Option<(u64, u64)>, peek: bool },
    Binary { section: Vec<u32>, partial: Option<(u64, u64)>, peek: bool },
    BinarySize { section: Vec<u32> },
}

pub enum ItemNameView {
    Plain(PlainItem),
    BodyExt { section: Option<SectionView>, partial: Option<(u64, u64)>, peek: bool },
    Binary { section: Seq<u32>, partial: Option<(u64, u64)>, peek: bool },
    BinarySize { section: Seq<u32> },
}

impl DeepView for MessageDataItemName {
    type V = ItemNameView;

    open spec fn deep_view(&self) -> ItemNameView {
        match self {
            MessageDataItemName::Plain(p) => ItemNameView::Plain(*p),
            MessageDataItemName::BodyExt { section, partial, peek } => ItemNameView::BodyExt {
                section: section.deep_view(),
                partial: *partial,
                peek: *peek,
            },
            MessageDataItemName::Binary { section, partial, peek } => ItemNameView::Binary {
                section: section@,
                partial: *partial,
                peek: *peek,
            },
            MessageDataItemName::BinarySize { section } => ItemNameView::BinarySize {
                section: section@,
            },
        }
    }
}

#[derive(Clone, Debug, PartialEq, Eq, Hash)]
pub enum MacroOrMessageDataItemNames {
    Macro(Macro),
    MessageDataItemNames(Vec<MessageDataItemName>),
}

pub enum ItemNamesView {
    Macro(Macro),
    Items(Seq<ItemNameView>),
}

impl DeepView for MacroOrMessageDataItemNames {
    type V = ItemNamesView;

    open spec fn deep_view(&self) -> ItemNamesView {
        match self {
            MacroOrMessageDataItemNames::Macro(m) => ItemNamesView::Macro(*m),
            MacroOrMessageDataItemNames::MessageDataItemNames(v) => ItemNamesView::Items(
                v.deep_view(),
            ),
        }
    }
}

// ----------------------------------------------------------------------- rules

/// A letter, digit or period.
#[verifier::allow_in_spec]
pub fn is_item_char(b: u8) -> bool
    returns
        is_alpha(b) || is_digit(b) || b == '.' as u8,
{
    is_alpha(b) || is_digit(b) || b == '.' as u8
}

pub open spec fn item_word_rule() -> Rule<Seq<u8>> {
    g::take_while1_rule(|b: u8| is_item_char(b))
}

/// `section-part = nz-number *("." nz-number)`.
pub open spec fn part_rule() -> Rule<Seq<u32>> {
    g::separated_list1(g::text("."), number::nz_number_rule())
}

/// `header-list`, behind a space.
pub open spec fn header_list_rule() -> Rule<Seq<StringView>> {
    g::preceded(g::text(" "), g::paren_list1(strings::astring_rule()))
}

/// What follows the name of a section text. `MIME` needs a part in front.
pub open spec fn section_text_of(w: Seq<u8>, mime: bool) -> Rule<SectionTextView> {
    if ascii::same_word(w, ascii::bytes_of("HEADER")) {
        g::success(SectionTextView::Header)
    } else if ascii::same_word(w, ascii::bytes_of("TEXT")) {
        g::success(SectionTextView::Text)
    } else if ascii::same_word(w, ascii::bytes_of("HEADER.FIELDS")) {
        g::mapped(header_list_rule(), |v: Seq<StringView>| SectionTextView::HeaderFields(v))
    } else if ascii::same_word(w, ascii::bytes_of("HEADER.FIELDS.NOT")) {
        g::mapped(header_list_rule(), |v: Seq<StringView>| SectionTextView::HeaderFieldsNot(v))
    } else if mime && ascii::same_word(w, ascii::bytes_of("MIME")) {
        g::success(SectionTextView::Mime)
    } else {
        g::never()
    }
}

pub open spec fn is_section_char(b: u8) -> bool {
    is_alpha(b) || b == '.' as u8
}

pub open spec fn section_text_rule(mime: bool) -> Rule<SectionTextView> {
    g::chain(
        g::take_while1_rule(|b: u8| is_section_char(b)),
        |w: Seq<u8>| section_text_of(w, mime),
    )
}

/// `section-spec = section-msgtext / (section-part ["." section-text])`.
#[verifier::opaque]
pub open spec fn section_rule() -> Rule<SectionView> {
    g::alt(
        g::mapped(
            section_text_rule(false),
            |x: SectionTextView| SectionView { part: seq![], text: Some(x) },
        ),
        g::mapped(
            g::pair(part_rule(), g::opt(g::preceded(g::text("."), section_text_rule(true)))),
            |p: (Seq<u32>, Option<SectionTextView>)| SectionView { part: p.0, text: p.1 },
        ),
    )
}

/// `"[" [section-spec] "]"`.
pub open spec fn body_section_rule() -> Rule<Option<SectionView>> {
    g::delimited(g::text("["), g::opt(section_rule()), g::text("]"))
}

/// `"[" [section-part] "]"`.
#[verifier::opaque]
pub open spec fn binary_section_rule() -> Rule<Seq<u32>> {
    g::mapped(
        g::delimited(g::text("["), g::opt(part_rule()), g::text("]")),
        |p: Option<Seq<u32>>|
            match p {
                Some(v) => v,
                None => seq![],
            },
    )
}

/// `"<" number64 "." nz-number64 ">"`.
#[verifier::opaque]
pub open spec fn partial_rule() -> Rule<(u64, u64)> {
    g::delimited(
        g::text("<"),
        g::pair(g::terminated(ext::number63_rule(), g::text(".")), ext::nz_number63_rule()),
        g::text(">"),
    )
}

pub open spec fn body_ext_rule(peek: bool) -> Rule<ItemNameView> {
    g::mapped(
        g::pair(body_section_rule(), g::opt(partial_rule())),
        |p: (Option<SectionView>, Option<(u64, u64)>)|
            ItemNameView::BodyExt { section: p.0, partial: p.1, peek },
    )
}

pub open spec fn binary_rule(peek: bool) -> Rule<ItemNameView> {
    g::mapped(
        g::pair(binary_section_rule(), g::opt(partial_rule())),
        |p: (Seq<u32>, Option<(u64, u64)>)|
            ItemNameView::Binary { section: p.0, partial: p.1, peek },
    )
}

/// What follows the name of an item.
pub open spec fn item_of(w: Seq<u8>) -> Rule<ItemNameView> {
    if ascii::same_word(w, ascii::bytes_of("BODY")) {
        g::alt(body_ext_rule(false), g::success(ItemNameView::Plain(PlainItem::Body)))
    } else if plain_item_of(w) is Some {
        g::success(ItemNameView::Plain(plain_item_of(w)->Some_0))
    } else if ascii::same_word(w, ascii::bytes_of("BODY.PEEK")) {
        body_ext_rule(true)
    } else if ascii::same_word(w, ascii::bytes_of("BINARY")) {
        binary_rule(false)
    } else if ascii::same_word(w, ascii::bytes_of("BINARY.PEEK")) {
        binary_rule(true)
    } else if ascii::same_word(w, ascii::bytes_of("BINARY.SIZE")) {
        g::mapped(binary_section_rule(), |p: Seq<u32>| ItemNameView::BinarySize { section: p })
    } else {
        g::never()
    }
}

/// `fetch-att`.
#[verifier::opaque]
pub open spec fn item_rule() -> Rule<ItemNameView> {
    g::chain(item_word_rule(), |w: Seq<u8>| item_of(w))
}

pub open spec fn macro_or_item_of(w: Seq<u8>) -> Rule<ItemNamesView> {
    if macro_of(w) is Some {
        g::success(ItemNamesView::Macro(macro_of(w)->Some_0))
    } else {
        g::mapped(item_of(w), |x: ItemNameView| ItemNamesView::Items(seq![x]))
    }
}

/// `"ALL" / "FULL" / "FAST" / fetch-att / "(" fetch-att *(SP fetch-att) ")"`.
#[verifier::opaque]
pub open spec fn item_names_rule() -> Rule<ItemNamesView> {
    g::alt(
        g::mapped(g::paren_list1(item_rule()), |v: Seq<ItemNameView>| ItemNamesView::Items(v)),
        g::chain(item_word_rule(), |w: Seq<u8>| macro_or_item_of(w)),
    )
}

// ------------------------------------------------------------------- encodings

/// The numbers of a body part, with periods between them.
pub open spec fn part_tokens(p: Seq<u32>) -> Seq<Token> {
    encode::joined(encode::parts::<u32>(p), encode::word("."))
}

pub open spec fn section_text_tokens(x: SectionTextView) -> Seq<Token> {
    match x {
        SectionTextView::Header => encode::word("HEADER"),
        SectionTextView::HeaderFields(v) => encode::word("HEADER.FIELDS ") + encode::paren_tokens(
            encode::parts::<AString>(v),
        ),
        SectionTextView::HeaderFieldsNot(v) => encode::word("HEADER.FIELDS.NOT ")
            + encode::paren_tokens(encode::parts::<AString>(v)),
        SectionTextView::Text => encode::word("TEXT"),
        SectionTextView::Mime => encode::word("MIME"),
    }
}

pub open spec fn section_tokens(s: SectionView) -> Seq<Token> {
    part_tokens(s.part) + (if s.part.len() > 0 && s.text is Some {
        encode::word(".")
    } else {
        seq![]
    }) + match s.text {
        Some(x) => section_text_tokens(x),
        None => seq![],
    }
}

pub open spec fn body_section_tokens(s: Option<SectionView>) -> Seq<Token> {
    encode::word("[") + match s {
        Some(s) => section_tokens(s),
        None => seq![],
    } + encode::word("]")
}

pub open spec fn binary_section_tokens(p: Seq<u32>) -> Seq<Token> {
    encode::word("[") + part_tokens(p) + encode::word("]")
}

pub open spec fn partial_text(p: Option<(u64, u64)>) -> Seq<u8> {
    match p {
        Some((a, b)) => ascii::bytes_of("<") + number::decimal(a as nat) + ascii::bytes_of(".")
            + number::decimal(b as nat) + ascii::bytes_of(">"),
        None => seq![],
    }
}

pub open spec fn item_tokens(x: ItemNameView) -> Seq<Token> {
    match x {
        ItemNameView::Plain(p) => encode::plain(plain_item_text(p)),
        ItemNameView::BodyExt { section, partial, peek } => (if peek {
            encode::word("BODY.PEEK")
        } else {
            encode::word("BODY")
        }) + body_section_tokens(section) + encode::plain(partial_text(partial)),
        ItemNameView::Binary { section, partial, peek } => (if peek {
            encode::word("BINARY.PEEK")
        } else {
            encode::word("BINARY")
        }) + binary_section_tokens(section) + encode::plain(partial_text(partial)),
        ItemNameView::BinarySize { section } => encode::word("BINARY.SIZE")
            + binary_section_tokens(section),
    }
}

pub open spec fn item_names_tokens(v: ItemNamesView) -> Seq<Token> {
    match v {
        ItemNamesView::Macro(m) => encode::plain(macro_text(m)),
        ItemNamesView::Items(v) => if v.len() == 1 {
            item_tokens(v[0])
        } else {
            encode::paren_tokens(encode::parts::<MessageDataItemName>(v))
        },
    }
}

pub open spec fn part_wf(p: Seq<u32>) -> bool {
    forall|i: int| 0 <= i < p.len() ==> #[trigger] p[i] > 0
}

pub open spec fn header_list_wf(v: Seq<StringView>) -> bool {
    v.len() > 0 && forall|i: int| 0 <= i < v.len() ==> strings::string_wf(#[trigger] v[i])
}

pub open spec fn section_wf(s: SectionView) -> bool {
    &&& part_wf(s.part)
    &&& s.part.len() == 0 ==> s.text is Some && !(s.text->Some_0 is Mime)
    &&& s.text matches Some(SectionTextView::HeaderFields(v)) ==> header_list_wf(v)
    &&& s.text matches Some(SectionTextView::HeaderFieldsNot(v)) ==> header_list_wf(v)
}

pub open spec fn partial_wf(p: Option<(u64, u64)>) -> bool {
    p matches Some((a, b)) ==> a <= NUMBER63_MAX && 0 < b <= NUMBER63_MAX
}

pub open spec fn item_wf(x: ItemNameView) -> bool {
    match x {
        ItemNameView::Plain(_) => true,
        ItemNameView::BodyExt { section, partial, .. } => (section matches Some(s) ==> section_wf(s))
            && partial_wf(partial),
        ItemNameView::Binary { section, partial, .. } => part_wf(section) && partial_wf(partial),
        ItemNameView::BinarySize { section } => part_wf(section),
    }
}

pub open spec fn item_names_wf(v: ItemNamesView) -> bool {
    v matches ItemNamesView::Items(v) ==> v.len() > 0 && forall|i: int|
        0 <= i < v.len() ==> item_wf(#[trigger] v[i])
}

// ---------------------------------------------------------------------- lemmas

proof fn lemma_section_text_lawful(mime: bool)
    ensures
        g::lawful(section_text_rule(mime)),
{
    broadcast use g::group_lawful;

    strings::lemma_strings_lawful();
    let f = |w: Seq<u8>| section_text_of(w, mime);
    assert forall|w: Seq<u8>| g::lawful(#[trigger] f(w)) by {}
}

proof fn lemma_item_of_lawful(w: Seq<u8>)
    ensures
        g::lawful(item_of(w)),
{
    broadcast use g::group_lawful;

    lemma_sections_lawful();
}

pub proof fn lemma_sections_lawful()
    ensures
        g::lawful(section_rule()),
        g::lawful(body_section_rule()),
        g::lawful(binary_section_rule()),
        g::lawful(partial_rule()),
{
    broadcast use g::group_lawful;

    reveal(section_rule);
    reveal(binary_section_rule);
    reveal(partial_rule);
    lemma_section_text_lawful(false);
    lemma_section_text_lawful(true);
    number::lemma_numbers_lawful();
    ext::lemma_rev2_lawful();
}

pub proof fn lemma_items_lawful()
    ensures
        g::lawful(item_rule()),
        g::lawful(item_names_rule()),
{
    broadcast use g::group_lawful;

    reveal(item_rule);
    reveal(item_names_rule);
    let f = |w: Seq<u8>| item_of(w);
    assert forall|w: Seq<u8>| g::lawful(#[trigger] f(w)) by {
        lemma_item_of_lawful(w);
    }
    let h = |w: Seq<u8>| macro_or_item_of(w);
    assert forall|w: Seq<u8>| g::lawful(#[trigger] h(w)) by {
        lemma_item_of_lawful(w);
    }
}

// ---------------------------------------------------------------- reading back

/// The numbers of a body part are read back, before anything that does not go
/// on with them.
proof fn lemma_part_reads(p: Seq<u32>, t: Seq<u8>)
    requires
        p.len() > 0,
        part_wf(p),
        t.len() > 0,
        !is_digit(t[0]),
        t[0] == '.' as u8 ==> t.len() > 1 && !is_digit(t[1]),
    ensures
        part_rule()(encode::flat(part_tokens(p)) + t) == Outcome::Done(t, p),
        encode::flat(part_tokens(p)).len() > 0,
        is_digit(encode::flat(part_tokens(p))[0]),
{
    broadcast use encode::group_flat;

    reveal_strlit(".");
    let dot = ascii::bytes_of(".");
    let q = number::nz_number_rule();
    let tokens = encode::parts::<u32>(p);
    let parts = encode::flat_parts(tokens);
    encode::lemma_flat_joined(tokens, encode::word("."));
    if t[0] == '.' as u8 {
        assert(t =~= dot + t.skip(1));
        reading::lemma_tag_reads(dot, t.skip(1));
        number::lemma_number_rejects(t.skip(1));
    } else {
        reading::lemma_tag_rejects(dot, t);
    }
    assert forall|i: int| 0 <= i < parts.len() implies reading::reads_at(
        q,
        #[trigger] parts[i],
        p[i],
        reading::rest_of(parts, dot, t, i),
    ) by {
        let rest = reading::rest_of(parts, dot, t, i);
        assert(parts[i] == number::decimal(p[i] as nat));
        let tail = parts.skip(i + 1);
        if tail.len() == 0 {
            assert(rest =~= t);
        } else {
            assert(rest =~= dot + (tail[0] + (encode::spread(tail.skip(1), dot) + t)));
            assert(rest[0] == '.' as u8);
        }
        assert(p[i] > 0);
        number::lemma_number_reads(p[i], rest);
    }
    reading::lemma_list_reads_direct(dot, q, parts, p, t);
    number::lemma_decimal(p[0] as nat);
    assert(parts[0] == number::decimal(p[0] as nat));
    assert(is_digit(parts[0][0]));
    assert(encode::joined(parts, dot)[0] == parts[0][0]);
}

proof fn lemma_header_list_reads(v: Seq<StringView>, t: Seq<u8>)
    requires
        header_list_wf(v),
    ensures
        header_list_rule()(
            ascii::bytes_of(" ") + (encode::flat(encode::paren_tokens(encode::parts::<AString>(v)))
                + t),
        ) == Outcome::Done(t, v),
{
    let tokens = encode::parts::<AString>(v);
    let parts = encode::flat_parts(tokens);
    encode::lemma_flat_paren(tokens);
    assert forall|i: int| 0 <= i < parts.len() implies reading::reads(
        strings::astring_rule(),
        #[trigger] parts[i],
        v[i],
    ) by {
        assert(strings::string_wf(v[i]));
        strings::lemma_string_reads(v[i]);
    }
    reading::lemma_parens_reads(strings::astring_rule(), parts, v, t);
    reading::lemma_tag_reads(
        ascii::bytes_of(" "),
        encode::flat(encode::paren_tokens(tokens)) + t,
    );
}

proof fn lemma_section_chars(b: Seq<u8>)
    requires
        b.len() <= 17,
        b.len() > 0 ==> is_section_char(b[0]),
        b.len() > 1 ==> is_section_char(b[1]),
        b.len() > 2 ==> is_section_char(b[2]),
        b.len() > 3 ==> is_section_char(b[3]),
        b.len() > 4 ==> is_section_char(b[4]),
        b.len() > 5 ==> is_section_char(b[5]),
        b.len() > 6 ==> is_section_char(b[6]),
        b.len() > 7 ==> is_section_char(b[7]),
        b.len() > 8 ==> is_section_char(b[8]),
        b.len() > 9 ==> is_section_char(b[9]),
        b.len() > 10 ==> is_section_char(b[10]),
        b.len() > 11 ==> is_section_char(b[11]),
        b.len() > 12 ==> is_section_char(b[12]),
        b.len() > 13 ==> is_section_char(b[13]),
        b.len() > 14 ==> is_section_char(b[14]),
        b.len() > 15 ==> is_section_char(b[15]),
        b.len() > 16 ==> is_section_char(b[16]),
    ensures
        ascii::all_bytes(b, |x: u8| is_section_char(x)),
{
}

/// The name of a section text.
pub open spec fn section_text_name(x: SectionTextView) -> Seq<u8> {
    match x {
        SectionTextView::Header => ascii::bytes_of("HEADER"),
        SectionTextView::HeaderFields(_) => ascii::bytes_of("HEADER.FIELDS"),
        SectionTextView::HeaderFieldsNot(_) => ascii::bytes_of("HEADER.FIELDS.NOT"),
        SectionTextView::Text => ascii::bytes_of("TEXT"),
        SectionTextView::Mime => ascii::bytes_of("MIME"),
    }
}

proof fn lemma_section_names(x: SectionTextView)
    ensures
        ({
            let w = section_text_name(x);
            &&& w.len() > 0
            &&& is_alpha(w[0])
            &&& ascii::all_bytes(w, |b: u8| is_section_char(b))
            &&& ascii::same_word(w, ascii::bytes_of("HEADER")) == (x is Header)
            &&& ascii::same_word(w, ascii::bytes_of("TEXT")) == (x is Text)
            &&& ascii::same_word(w, ascii::bytes_of("HEADER.FIELDS")) == (x is HeaderFields)
            &&& ascii::same_word(w, ascii::bytes_of("HEADER.FIELDS.NOT")) == (x is HeaderFieldsNot)
            &&& ascii::same_word(w, ascii::bytes_of("MIME")) == (x is Mime)
        }),
        ascii::bytes_of("HEADER.FIELDS ") == ascii::bytes_of("HEADER.FIELDS") + ascii::bytes_of(
            " ",
        ),
        ascii::bytes_of("HEADER.FIELDS.NOT ") == ascii::bytes_of("HEADER.FIELDS.NOT")
            + ascii::bytes_of(" "),
{
    broadcast use ascii::lemma_same_word_head;

    reveal_strlit("HEADER");
    reveal_strlit("TEXT");
    reveal_strlit("MIME");
    reveal_strlit("HEADER.FIELDS");
    reveal_strlit("HEADER.FIELDS.NOT");
    reveal_strlit("HEADER.FIELDS ");
    reveal_strlit("HEADER.FIELDS.NOT ");
    reveal_strlit(" ");
    lemma_section_chars(section_text_name(x));
    assert(ascii::bytes_of("HEADER.FIELDS ") =~= ascii::bytes_of("HEADER.FIELDS") + ascii::bytes_of(
        " ",
    ));
    assert(ascii::bytes_of("HEADER.FIELDS.NOT ") =~= ascii::bytes_of("HEADER.FIELDS.NOT")
        + ascii::bytes_of(" "));
}

/// A section text that the grammar can express.
pub open spec fn section_text_wf(x: SectionTextView) -> bool {
    match x {
        SectionTextView::HeaderFields(v) => header_list_wf(v),
        SectionTextView::HeaderFieldsNot(v) => header_list_wf(v),
        _ => true,
    }
}

/// What stands behind the name of a section text.
pub open spec fn section_text_tail(x: SectionTextView) -> Seq<u8> {
    match x {
        SectionTextView::HeaderFields(v) => ascii::bytes_of(" ") + encode::flat(
            encode::paren_tokens(encode::parts::<AString>(v)),
        ),
        SectionTextView::HeaderFieldsNot(v) => ascii::bytes_of(" ") + encode::flat(
            encode::paren_tokens(encode::parts::<AString>(v)),
        ),
        _ => seq![],
    }
}

proof fn lemma_section_text_split(x: SectionTextView)
    ensures
        encode::flat(section_text_tokens(x)) == section_text_name(x) + section_text_tail(x),
{
    lemma_section_names(x);
    let b = encode::flat(section_text_tokens(x));
    match x {
        SectionTextView::HeaderFields(v) => {
            let list = encode::paren_tokens(encode::parts::<AString>(v));
            encode::lemma_flat_add(encode::word("HEADER.FIELDS "), list);
            encode::lemma_flat_word("HEADER.FIELDS ");
            assert(b =~= section_text_name(x) + section_text_tail(x));
        },
        SectionTextView::HeaderFieldsNot(v) => {
            let list = encode::paren_tokens(encode::parts::<AString>(v));
            encode::lemma_flat_add(encode::word("HEADER.FIELDS.NOT "), list);
            encode::lemma_flat_word("HEADER.FIELDS.NOT ");
            assert(b =~= section_text_name(x) + section_text_tail(x));
        },
        SectionTextView::Header => {
            encode::lemma_flat_word("HEADER");
            assert(b =~= section_text_name(x) + section_text_tail(x));
        },
        SectionTextView::Text => {
            encode::lemma_flat_word("TEXT");
            assert(b =~= section_text_name(x) + section_text_tail(x));
        },
        SectionTextView::Mime => {
            encode::lemma_flat_word("MIME");
            assert(b =~= section_text_name(x) + section_text_tail(x));
        },
    }
}

proof fn lemma_section_text_reads(x: SectionTextView, mime: bool, t: Seq<u8>)
    requires
        section_text_wf(x),
        x is Mime ==> mime,
        t.len() > 0,
        t[0] == ']' as u8,
    ensures
        section_text_rule(mime)(encode::flat(section_text_tokens(x)) + t) == Outcome::Done(t, x),
        encode::flat(section_text_tokens(x)).len() > 0,
        is_alpha(encode::flat(section_text_tokens(x))[0]),
{
    lemma_section_names(x);
    lemma_section_text_split(x);
    let w = section_text_name(x);
    let rest = section_text_tail(x) + t;
    assert((w + section_text_tail(x)) + t =~= w + rest);
    reveal_strlit(" ");
    assert(rest[0] == 0x20 || rest[0] == ']' as u8);
    reading::lemma_take_while1_reads(|c: u8| is_section_char(c), w, rest);
    match x {
        SectionTextView::HeaderFields(v) => {
            lemma_header_list_reads(v, t);
            let list = encode::flat(encode::paren_tokens(encode::parts::<AString>(v)));
            assert(rest =~= ascii::bytes_of(" ") + (list + t));
        },
        SectionTextView::HeaderFieldsNot(v) => {
            lemma_header_list_reads(v, t);
            let list = encode::flat(encode::paren_tokens(encode::parts::<AString>(v)));
            assert(rest =~= ascii::bytes_of(" ") + (list + t));
        },
        _ => {
            assert(rest =~= t);
        },
    }
    assert((w + section_text_tail(x))[0] == w[0]);
}

proof fn lemma_section_reads(s: SectionView, t: Seq<u8>)
    requires
        section_wf(s),
        t.len() > 0,
        t[0] == ']' as u8,
    ensures
        section_rule()(encode::flat(section_tokens(s)) + t) == Outcome::Done(t, s),
{
    broadcast use encode::group_flat;

    reveal(section_rule);
    reveal_strlit(".");
    let b = encode::flat(section_tokens(s));
    let dot = ascii::bytes_of(".");
    if s.part.len() == 0 {
        let x = s.text->Some_0;
        assert(encode::parts::<u32>(s.part) =~= seq![]);
        assert(b =~= encode::flat(section_text_tokens(x)));
        lemma_section_text_reads(x, false, t);
        assert(s.part =~= seq![]);
    } else {
        let p = encode::flat(part_tokens(s.part));
        match s.text {
            None => {
                assert(b =~= p);
                lemma_part_reads(s.part, t);
                reading::lemma_tag_rejects(dot, t);
            },
            Some(x) => {
                let c = encode::flat(section_text_tokens(x));
                let rest = dot + (c + t);
                lemma_section_text_reads(x, true, t);
                assert(b + t =~= p + rest);
                assert(rest[0] == '.' as u8);
                assert(rest[1] == c[0]);
                lemma_part_reads(s.part, rest);
                reading::lemma_tag_reads(dot, c + t);
            },
        }
        assert((b + t)[0] == p[0]);
        reading::lemma_take_while1_rejects(|x: u8| is_section_char(x), b + t);
    }
}

/// A body section is read back, whatever follows it.
pub proof fn lemma_body_section_reads(s: Option<SectionView>, t: Seq<u8>)
    requires
        s matches Some(x) ==> section_wf(x),
    ensures
        body_section_rule()(encode::flat(body_section_tokens(s)) + t) == Outcome::Done(t, s),
        encode::flat(body_section_tokens(s)).len() > 0,
        encode::flat(body_section_tokens(s))[0] == '[' as u8,
{
    broadcast use encode::group_flat;

    reveal_strlit("[");
    reveal_strlit("]");
    let open = ascii::bytes_of("[");
    let close = ascii::bytes_of("]");
    let end = close + t;
    assert(end[0] == ']' as u8);
    let inner = match s {
        Some(x) => encode::flat(section_tokens(x)),
        None => seq![],
    };
    assert(encode::flat(body_section_tokens(s)) + t =~= open + (inner + end));
    reading::lemma_tag_reads(open, inner + end);
    reading::lemma_tag_reads(close, t);
    match s {
        Some(x) => {
            lemma_section_reads(x, end);
        },
        None => {
            assert(inner + end =~= end);
            reveal(section_rule);
            reading::lemma_take_while1_rejects(|x: u8| is_section_char(x), end);
            number::lemma_number_rejects(end);
        },
    }
}

/// A binary section is read back, whatever follows it.
pub proof fn lemma_binary_section_reads(p: Seq<u32>, t: Seq<u8>)
    requires
        part_wf(p),
    ensures
        binary_section_rule()(encode::flat(binary_section_tokens(p)) + t) == Outcome::Done(t, p),
        encode::flat(binary_section_tokens(p)).len() > 0,
        encode::flat(binary_section_tokens(p))[0] == '[' as u8,
{
    broadcast use encode::group_flat;

    reveal(binary_section_rule);
    reveal_strlit("[");
    reveal_strlit("]");
    let open = ascii::bytes_of("[");
    let close = ascii::bytes_of("]");
    let end = close + t;
    assert(end[0] == ']' as u8);
    let inner = encode::flat(part_tokens(p));
    assert(encode::flat(binary_section_tokens(p)) + t =~= open + (inner + end));
    reading::lemma_tag_reads(open, inner + end);
    reading::lemma_tag_reads(close, t);
    if p.len() > 0 {
        lemma_part_reads(p, end);
    } else {
        assert(encode::parts::<u32>(p) =~= seq![]);
        assert(inner + end =~= end);
        assert(p =~= seq![]);
        number::lemma_number_rejects(end);
    }
}

proof fn lemma_partial_reads(p: Option<(u64, u64)>, t: Seq<u8>)
    requires
        partial_wf(p),
        t.len() > 0,
        t[0] != '<' as u8,
    ensures
        g::opt(partial_rule())(partial_text(p) + t) == Outcome::Done(t, p),
        partial_text(p).len() > 0 ==> partial_text(p)[0] == '<' as u8,
{
    broadcast use reading::group_reading;

    reveal(partial_rule);
    reveal(ext::number63_rule);
    reveal(ext::nz_number63_rule);
    reveal_strlit("<");
    reveal_strlit(".");
    reveal_strlit(">");
    match p {
        Some((a, b)) => {
            let d = ascii::bytes_of(">") + t;
            let c = ascii::bytes_of(".") + (number::decimal(b as nat) + d);
            assert(partial_text(p) + t =~= ascii::bytes_of("<") + (number::decimal(a as nat) + c));
            assert(c[0] == '.' as u8);
            assert(d[0] == '>' as u8);
            number::lemma_number64_reads(a, c);
            number::lemma_number64_reads(b, d);
        },
        None => {
            assert(partial_text(p) + t =~= t);
        },
    }
}

proof fn lemma_item_chars(b: Seq<u8>)
    requires
        b.len() <= 13,
        b.len() > 0 ==> is_item_char(b[0]),
        b.len() > 1 ==> is_item_char(b[1]),
        b.len() > 2 ==> is_item_char(b[2]),
        b.len() > 3 ==> is_item_char(b[3]),
        b.len() > 4 ==> is_item_char(b[4]),
        b.len() > 5 ==> is_item_char(b[5]),
        b.len() > 6 ==> is_item_char(b[6]),
        b.len() > 7 ==> is_item_char(b[7]),
        b.len() > 8 ==> is_item_char(b[8]),
        b.len() > 9 ==> is_item_char(b[9]),
        b.len() > 10 ==> is_item_char(b[10]),
        b.len() > 11 ==> is_item_char(b[11]),
        b.len() > 12 ==> is_item_char(b[12]),
    ensures
        ascii::all_bytes(b, |x: u8| is_item_char(x)),
{
}

/// The words of items and macros are told apart.
pub open spec fn word_wf(w: Seq<u8>) -> bool {
    w.len() > 0 && ascii::all_bytes(w, |b: u8| is_item_char(b))
}

pub proof fn lemma_plain_item(p: PlainItem)
    ensures
        plain_item_of(plain_item_text(p)) == Some(p),
        macro_of(plain_item_text(p)) is None,
        ascii::same_word(plain_item_text(p), ascii::bytes_of("BODY")) == (p is Body),
        word_wf(plain_item_text(p)),
{
    broadcast use ascii::lemma_same_word_head;

    reveal_strlit("BODY");
    reveal_strlit("BODYSTRUCTURE");
    reveal_strlit("ENVELOPE");
    reveal_strlit("FLAGS");
    reveal_strlit("INTERNALDATE");
    reveal_strlit("RFC822");
    reveal_strlit("RFC822.HEADER");
    reveal_strlit("RFC822.SIZE");
    reveal_strlit("RFC822.TEXT");
    reveal_strlit("UID");
    reveal_strlit("MODSEQ");
    reveal_strlit("ALL");
    reveal_strlit("FAST");
    reveal_strlit("FULL");
    lemma_item_chars(plain_item_text(p));
    ascii::lemma_words_differ(ascii::bytes_of("RFC822.SIZE"), ascii::bytes_of("RFC822.TEXT"), 7);
    ascii::lemma_words_differ(ascii::bytes_of("RFC822.TEXT"), ascii::bytes_of("RFC822.SIZE"), 7);
}

proof fn lemma_macro(m: Macro)
    ensures
        macro_of(macro_text(m)) == Some(m),
        word_wf(macro_text(m)),
{
    broadcast use ascii::lemma_same_word_head;

    reveal_strlit("ALL");
    reveal_strlit("FAST");
    reveal_strlit("FULL");
    lemma_item_chars(macro_text(m));
}

/// A word that is neither a macro nor an item without a section.
pub open spec fn section_item_name(w: Seq<u8>) -> bool {
    &&& word_wf(w)
    &&& macro_of(w) is None
    &&& plain_item_of(w) is None
    &&& !ascii::same_word(w, ascii::bytes_of("BODY"))
}

pub proof fn lemma_special_items()
    ensures
        section_item_name(ascii::bytes_of("BODY.PEEK")),
        section_item_name(ascii::bytes_of("BINARY")),
        section_item_name(ascii::bytes_of("BINARY.PEEK")),
        section_item_name(ascii::bytes_of("BINARY.SIZE")),
        !ascii::same_word(ascii::bytes_of("BINARY"), ascii::bytes_of("BODY.PEEK")),
        !ascii::same_word(ascii::bytes_of("BINARY.PEEK"), ascii::bytes_of("BODY.PEEK")),
        !ascii::same_word(ascii::bytes_of("BINARY.PEEK"), ascii::bytes_of("BINARY")),
        !ascii::same_word(ascii::bytes_of("BINARY.SIZE"), ascii::bytes_of("BODY.PEEK")),
        !ascii::same_word(ascii::bytes_of("BINARY.SIZE"), ascii::bytes_of("BINARY")),
        !ascii::same_word(ascii::bytes_of("BINARY.SIZE"), ascii::bytes_of("BINARY.PEEK")),
        word_wf(ascii::bytes_of("BODY")),
        macro_of(ascii::bytes_of("BODY")) is None,
{
    broadcast use ascii::lemma_same_word_head;

    reveal_strlit("BODY");
    reveal_strlit("BODYSTRUCTURE");
    reveal_strlit("ENVELOPE");
    reveal_strlit("FLAGS");
    reveal_strlit("INTERNALDATE");
    reveal_strlit("RFC822");
    reveal_strlit("RFC822.HEADER");
    reveal_strlit("RFC822.SIZE");
    reveal_strlit("RFC822.TEXT");
    reveal_strlit("UID");
    reveal_strlit("MODSEQ");
    reveal_strlit("ALL");
    reveal_strlit("FAST");
    reveal_strlit("FULL");
    reveal_strlit("BODY.PEEK");
    reveal_strlit("BINARY");
    reveal_strlit("BINARY.PEEK");
    reveal_strlit("BINARY.SIZE");
    lemma_item_chars(ascii::bytes_of("BODY.PEEK"));
    lemma_item_chars(ascii::bytes_of("BINARY"));
    lemma_item_chars(ascii::bytes_of("BINARY.PEEK"));
    lemma_item_chars(ascii::bytes_of("BINARY.SIZE"));
    lemma_item_chars(ascii::bytes_of("BODY"));
    ascii::lemma_words_differ(ascii::bytes_of("BINARY.SIZE"), ascii::bytes_of("BINARY.PEEK"), 7);
    ascii::lemma_words_differ(ascii::bytes_of("BINARY.PEEK"), ascii::bytes_of("BINARY.SIZE"), 7);
}

/// How an item starts: the word in front, and what is read behind it.
pub open spec fn starts_with_item(s: Seq<u8>, x: ItemNameView, t: Seq<u8>) -> bool {
    exists|w: Seq<u8>, r: Seq<u8>|
        s == #[trigger] (w + r) && word_wf(w) && macro_of(w) is None && r.len() > 0 && !is_item_char(
            r[0],
        ) && item_of(w)(r) == Outcome::Done(t, x)
}

proof fn lemma_item_parts(x: ItemNameView, t: Seq<u8>)
    requires
        item_wf(x),
        reading::ends(t),
    ensures
        starts_with_item(encode::flat(item_tokens(x)) + t, x, t),
{
    let s = encode::flat(item_tokens(x)) + t;
    match x {
        ItemNameView::Plain(p) => {
            lemma_plain_item(p);
            let w = plain_item_text(p);
            if p is Body {
                reveal_strlit("[");
                reading::lemma_tag_rejects(ascii::bytes_of("["), t);
            }
            encode::lemma_flat_plain(w);
            assert(s == w + t);
        },
        ItemNameView::BodyExt { section, partial, peek } => {
            lemma_body_item_parts(section, partial, peek, t);
        },
        ItemNameView::Binary { section, partial, peek } => {
            lemma_binary_item_parts(section, partial, peek, t);
        },
        ItemNameView::BinarySize { section } => {
            lemma_special_items();
            let w = ascii::bytes_of("BINARY.SIZE");
            let b = encode::flat(binary_section_tokens(section));
            lemma_binary_section_reads(section, t);
            let r = b + t;
            assert(s =~= w + r) by {
                encode::lemma_flat_add(encode::word("BINARY.SIZE"), binary_section_tokens(section));
                encode::lemma_flat_word("BINARY.SIZE");
            }
            assert(r[0] == '[' as u8);
            assert(item_of(w)(r) == Outcome::Done(t, x));
        },
    }
}

proof fn lemma_body_item_parts(
    section: Option<SectionView>,
    partial: Option<(u64, u64)>,
    peek: bool,
    t: Seq<u8>,
)
    requires
        section matches Some(s) ==> section_wf(s),
        partial_wf(partial),
        reading::ends(t),
    ensures
        ({
            let x = ItemNameView::BodyExt { section, partial, peek };
            starts_with_item(encode::flat(item_tokens(x)) + t, x, t)
        }),
{
    let x = ItemNameView::BodyExt { section, partial, peek };
    let s = encode::flat(item_tokens(x)) + t;
    let name = if peek {
        encode::word("BODY.PEEK")
    } else {
        encode::word("BODY")
    };
    let w = if peek {
        ascii::bytes_of("BODY.PEEK")
    } else {
        ascii::bytes_of("BODY")
    };
    let b = encode::flat(body_section_tokens(section));
    let rest = partial_text(partial) + t;
    let r = b + rest;
    assert(s =~= w + r) by {
        encode::lemma_flat_word("BODY.PEEK");
        encode::lemma_flat_word("BODY");
        encode::lemma_flat_plain(partial_text(partial));
        encode::lemma_flat_add(name, body_section_tokens(section));
        encode::lemma_flat_add(
            name + body_section_tokens(section),
            encode::plain(partial_text(partial)),
        );
    }
    lemma_special_items();
    lemma_partial_reads(partial, t);
    lemma_body_section_reads(section, rest);
    assert(r[0] == '[' as u8);
    assert(item_of(w)(r) == Outcome::Done(t, x));
}

proof fn lemma_binary_item_parts(
    section: Seq<u32>,
    partial: Option<(u64, u64)>,
    peek: bool,
    t: Seq<u8>,
)
    requires
        part_wf(section),
        partial_wf(partial),
        reading::ends(t),
    ensures
        ({
            let x = ItemNameView::Binary { section, partial, peek };
            starts_with_item(encode::flat(item_tokens(x)) + t, x, t)
        }),
{
    let x = ItemNameView::Binary { section, partial, peek };
    let s = encode::flat(item_tokens(x)) + t;
    let name = if peek {
        encode::word("BINARY.PEEK")
    } else {
        encode::word("BINARY")
    };
    let w = if peek {
        ascii::bytes_of("BINARY.PEEK")
    } else {
        ascii::bytes_of("BINARY")
    };
    let b = encode::flat(binary_section_tokens(section));
    let rest = partial_text(partial) + t;
    let r = b + rest;
    assert(s =~= w + r) by {
        encode::lemma_flat_word("BINARY.PEEK");
        encode::lemma_flat_word("BINARY");
        encode::lemma_flat_plain(partial_text(partial));
        encode::lemma_flat_add(name, binary_section_tokens(section));
        encode::lemma_flat_add(
            name + binary_section_tokens(section),
            encode::plain(partial_text(partial)),
        );
    }
    lemma_special_items();
    lemma_partial_reads(partial, t);
    lemma_binary_section_reads(section, rest);
    assert(r[0] == '[' as u8);
    assert(item_of(w)(r) == Outcome::Done(t, x));
}

/// An item name is read back.
pub proof fn lemma_item_reads(x: ItemNameView)
    requires
        item_wf(x),
    ensures
        reading::reads(item_rule(), encode::flat(item_tokens(x)), x),
{
    reveal(item_rule);
    assert forall|t: Seq<u8>| reading::ends(t) implies #[trigger] item_rule()(
        encode::flat(item_tokens(x)) + t,
    ) == Outcome::Done(t, x) by {
        lemma_item_parts(x, t);
        let (w, r) = choose|w: Seq<u8>, r: Seq<u8>|
            encode::flat(item_tokens(x)) + t == #[trigger] (w + r) && word_wf(w) && macro_of(w)
                is None && r.len() > 0 && !is_item_char(r[0]) && item_of(w)(r) == Outcome::Done(t, x);
        reading::lemma_take_while1_reads(|b: u8| is_item_char(b), w, r);
    }
}

/// What a FETCH command asks for is read back.
pub proof fn lemma_item_names_reads(v: ItemNamesView)
    requires
        item_names_wf(v),
    ensures
        reading::reads(item_names_rule(), encode::flat(item_names_tokens(v)), v),
{
    let b = encode::flat(item_names_tokens(v));
    assert forall|t: Seq<u8>| reading::ends(t) implies #[trigger] item_names_rule()(b + t)
        == Outcome::Done(t, v) by {
        lemma_item_names_read_at(v, t);
    }
}

proof fn lemma_item_names_read_at(v: ItemNamesView, t: Seq<u8>)
    requires
        item_names_wf(v),
        reading::ends(t),
    ensures
        item_names_rule()(encode::flat(item_names_tokens(v)) + t) == Outcome::Done(t, v),
{
    broadcast use encode::group_flat;

    reveal(item_names_rule);
    reveal_strlit("(");
    let b = encode::flat(item_names_tokens(v));
    let class = |b: u8| is_item_char(b);
    match v {
        ItemNamesView::Macro(m) => {
            lemma_macro(m);
            let w = macro_text(m);
            assert((b + t)[0] == w[0]);
            assert(is_item_char(w[0]));
            reading::lemma_tag_rejects(ascii::bytes_of("("), b + t);
            reading::lemma_take_while1_reads(class, w, t);
        },
        ItemNamesView::Items(items) => {
            assert(item_wf(items[0]));
            if items.len() == 1 {
                let x = items[0];
                lemma_item_parts(x, t);
                let (w, r) = choose|w: Seq<u8>, r: Seq<u8>|
                    encode::flat(item_tokens(x)) + t == #[trigger] (w + r) && word_wf(w)
                        && macro_of(w) is None && r.len() > 0 && !is_item_char(r[0]) && item_of(w)(r)
                        == Outcome::Done(t, x);
                assert((w + r)[0] == w[0]);
                assert(is_item_char(w[0]));
                reading::lemma_tag_rejects(ascii::bytes_of("("), b + t);
                reading::lemma_take_while1_reads(class, w, r);
                assert(items =~= seq![x]);
            } else {
                let tokens = encode::parts::<MessageDataItemName>(items);
                let parts = encode::flat_parts(tokens);
                encode::lemma_flat_paren(tokens);
                assert forall|i: int| 0 <= i < parts.len() implies reading::reads(
                    item_rule(),
                    #[trigger] parts[i],
                    items[i],
                ) by {
                    assert(item_wf(items[i]));
                    lemma_item_reads(items[i]);
                }
                reading::lemma_parens_reads(item_rule(), parts, items, t);
            }
        },
    }
}

// ------------------------------------------------------------------ executable

fn part<'a>(input: &'a [u8]) -> (res: IMAPResult<'a, Vec<u32>>)
    ensures
        g::agrees(res, part_rule()(input@)),
{
    list1(input, ".", nz_number, Ghost(number::nz_number_rule()))
}

fn header_list<'a>(input: &'a [u8]) -> (res: IMAPResult<'a, Vec<AString>>)
    ensures
        g::agrees(res, header_list_rule()(input@)),
{
    let (rest, _) = tag(input, " ")?;
    parens1(rest, astring, Ghost(strings::astring_rule()))
}

fn section_char(b: u8) -> (r: bool)
    ensures
        r == is_section_char(b),
{
    is_alpha(b) || b == '.' as u8
}

fn section_text<'a>(input: &'a [u8], mime: bool) -> (res: IMAPResult<'a, SectionText>)
    ensures
        g::agrees(res, section_text_rule(mime)(input@)),
{
    let (rest, w) = take_while1(input, section_char, Ghost(|b: u8| is_section_char(b)))?;
    assert(w.deep_view() =~= w@);
    let w: &[u8] = w.as_slice();
    if ascii::is_word(w, "HEADER") {
        Ok((rest, SectionText::Header))
    } else if ascii::is_word(w, "TEXT") {
        Ok((rest, SectionText::Text))
    } else if ascii::is_word(w, "HEADER.FIELDS") {
        let (rest, v) = header_list(rest)?;
        Ok((rest, SectionText::HeaderFields(v)))
    } else if ascii::is_word(w, "HEADER.FIELDS.NOT") {
        let (rest, v) = header_list(rest)?;
        Ok((rest, SectionText::HeaderFieldsNot(v)))
    } else if mime && ascii::is_word(w, "MIME") {
        Ok((rest, SectionText::Mime))
    } else {
        Err(IMAPParseError::Error)
    }
}

fn part_suffix<'a>(input: &'a [u8]) -> (res: IMAPResult<'a, Option<SectionText>>)
    ensures
        g::agrees(res, g::opt(g::preceded(g::text("."), section_text_rule(true)))(input@)),
{
    let behind: &[u8] = match tag(input, ".") {
        Ok((behind, _)) => behind,
        Err(IMAPParseError::Error) => return Ok((input, None)),
        Err(e) => return Err(e),
    };
    match section_text(behind, true) {
        Ok((rest, x)) => Ok((rest, Some(x))),
        Err(IMAPParseError::Error) => Ok((input, None)),
        Err(e) => Err(e),
    }
}

fn section<'a>(input: &'a [u8]) -> (res: IMAPResult<'a, Section>)
    ensures
        g::agrees(res, section_rule()(input@)),
{
    proof {
        reveal(section_rule);
    }
    match section_text(input, false) {
        Ok((rest, x)) => {
            let part: Vec<u32> = Vec::new();
            assert(part@ =~= seq![]);
            Ok((rest, Section { part, text: Some(x) }))
        },
        Err(IMAPParseError::Error) => {
            let (rest, part) = part(input)?;
            let (rest, text) = part_suffix(rest)?;
            assert(part.deep_view() =~= part@);
            Ok((rest, Section { part, text }))
        },
        Err(e) => Err(e),
    }
}

/// Reads the section of a `BODY` item.
pub fn body_section<'a>(input: &'a [u8]) -> (res: IMAPResult<'a, Option<Section>>)
    ensures
        g::agrees(res, body_section_rule()(input@)),
{
    let (rest, _) = tag(input, "[")?;
    let (rest, s) = match section(rest) {
        Ok((behind, s)) => (behind, Some(s)),
        Err(IMAPParseError::Error) => (rest, None),
        Err(e) => return Err(e),
    };
    let (rest, _) = tag(rest, "]")?;
    Ok((rest, s))
}

/// Reads the section of a `BINARY` item.
pub fn binary_section<'a>(input: &'a [u8]) -> (res: IMAPResult<'a, Vec<u32>>)
    ensures
        g::agrees(res, binary_section_rule()(input@)),
{
    proof {
        reveal(binary_section_rule);
    }
    let (rest, _) = tag(input, "[")?;
    let (rest, p) = match part(rest) {
        Ok((behind, p)) => (behind, p),
        Err(IMAPParseError::Error) => {
            let none: Vec<u32> = Vec::new();
            assert(none.deep_view() =~= seq![]);
            (rest, none)
        },
        Err(e) => return Err(e),
    };
    let (rest, _) = tag(rest, "]")?;
    Ok((rest, p))
}

fn partial_range<'a>(input: &'a [u8]) -> (res: IMAPResult<'a, (u64, u64)>)
    ensures
        g::agrees(res, partial_rule()(input@)),
{
    proof {
        reveal(partial_rule);
    }
    let (rest, _) = tag(input, "<")?;
    let (rest, a) = number63(rest)?;
    let (rest, _) = tag(rest, ".")?;
    let (rest, b) = nz_number63(rest)?;
    let (rest, _) = tag(rest, ">")?;
    Ok((rest, (a, b)))
}

fn partial<'a>(input: &'a [u8]) -> (res: IMAPResult<'a, Option<(u64, u64)>>)
    ensures
        g::agrees(res, g::opt(partial_rule())(input@)),
{
    match partial_range(input) {
        Ok((rest, p)) => Ok((rest, Some(p))),
        Err(IMAPParseError::Error) => Ok((input, None)),
        Err(e) => Err(e),
    }
}

fn body_ext<'a>(input: &'a [u8], peek: bool) -> (res: IMAPResult<'a, MessageDataItemName>)
    ensures
        g::agrees(res, body_ext_rule(peek)(input@)),
{
    let (rest, section) = body_section(input)?;
    let (rest, partial) = partial(rest)?;
    Ok((rest, MessageDataItemName::BodyExt { section, partial, peek }))
}

fn binary<'a>(input: &'a [u8], peek: bool) -> (res: IMAPResult<'a, MessageDataItemName>)
    ensures
        g::agrees(res, binary_rule(peek)(input@)),
{
    let (rest, section) = binary_section(input)?;
    let (rest, partial) = partial(rest)?;
    assert(section.deep_view() =~= section@);
    Ok((rest, MessageDataItemName::Binary { section, partial, peek }))
}

fn item_arguments<'a>(input: &'a [u8], w: &[u8]) -> (res: IMAPResult<'a, MessageDataItemName>)
    ensures
        g::agrees(res, item_of(w@)(input@)),
{
    if ascii::is_word(w, "BODY") {
        return match body_ext(input, false) {
            Err(IMAPParseError::Error) => Ok((input, MessageDataItemName::Plain(PlainItem::Body))),
            res => res,
        };
    }
    if let Some(p) = find_plain_item(w) {
        return Ok((input, MessageDataItemName::Plain(p)));
    }
    if ascii::is_word(w, "BODY.PEEK") {
        body_ext(input, true)
    } else if ascii::is_word(w, "BINARY") {
        binary(input, false)
    } else if ascii::is_word(w, "BINARY.PEEK") {
        binary(input, true)
    } else if ascii::is_word(w, "BINARY.SIZE") {
        let (rest, section) = binary_section(input)?;
        assert(section.deep_view() =~= section@);
        Ok((rest, MessageDataItemName::BinarySize { section }))
    } else {
        Err(IMAPParseError::Error)
    }
}

fn item<'a>(input: &'a [u8]) -> (res: IMAPResult<'a, MessageDataItemName>)
    ensures
        g::agrees(res, item_rule()(input@)),
{
    proof {
        reveal(item_rule);
    }
    let (rest, w) = take_while1(input, is_item_char, Ghost(|b: u8| is_item_char(b)))?;
    assert(w.deep_view() =~= w@);
    item_arguments(rest, w.as_slice())
}

pub fn item_names<'a>(input: &'a [u8]) -> (res: IMAPResult<'a, MacroOrMessageDataItemNames>)
    ensures
        g::agrees(res, item_names_rule()(input@)),
{
    proof {
        reveal(item_names_rule);
    }
    match parens1(input, item, Ghost(item_rule())) {
        Ok((rest, v)) => return Ok((rest, MacroOrMessageDataItemNames::MessageDataItemNames(v))),
        Err(IMAPParseError::Error) => {},
        Err(e) => return Err(e),
    }
    let (rest, w) = take_while1(input, is_item_char, Ghost(|b: u8| is_item_char(b)))?;
    assert(w.deep_view() =~= w@);
    if let Some(m) = find_macro(w.as_slice()) {
        return Ok((rest, MacroOrMessageDataItemNames::Macro(m)));
    }
    let (rest, x) = item_arguments(rest, w.as_slice())?;
    let mut v: Vec<MessageDataItemName> = Vec::new();
    v.push(x);
    assert(v.deep_view() =~= seq![x.deep_view()]);
    Ok((rest, MacroOrMessageDataItemNames::MessageDataItemNames(v)))
}

fn write_part(p: &Vec<u32>, ctx: &mut EncodeContext)
    ensures
        final(ctx)@ == old(ctx)@ + part_tokens(p@),
{
    let items: &[u32] = p.as_slice();
    assert(items.deep_view() =~= p@);
    join_serializable(items, ".", ctx);
}

impl EncodeIntoContext for SectionText {
    open spec fn tokens(v: SectionTextView) -> Seq<Token> {
        section_text_tokens(v)
    }

    fn encode_ctx(&self, ctx: &mut EncodeContext) {
        match self {
            SectionText::Header => ctx.write_text("HEADER"),
            SectionText::HeaderFields(v) => {
                ctx.write_text("HEADER.FIELDS ");
                write_parens(v.as_slice(), ctx);
            },
            SectionText::HeaderFieldsNot(v) => {
                ctx.write_text("HEADER.FIELDS.NOT ");
                write_parens(v.as_slice(), ctx);
            },
            SectionText::Text => ctx.write_text("TEXT"),
            SectionText::Mime => ctx.write_text("MIME"),
        }
        assert(ctx@ =~= old(ctx)@ + section_text_tokens(self.deep_view()));
        assert(ctx@ =~= old(ctx)@ + Self::tokens(self.deep_view()));
    }
}

impl EncodeIntoContext for Section {
    open spec fn tokens(v: SectionView) -> Seq<Token> {
        section_tokens(v)
    }

    fn encode_ctx(&self, ctx: &mut EncodeContext) {
        write_part(&self.part, ctx);
        if let Some(x) = &self.text {
            if self.part.len() > 0 {
                ctx.write_text(".");
            }
            x.encode_ctx(ctx);
        }
        assert(ctx@ =~= old(ctx)@ + section_tokens(self.deep_view()));
        assert(ctx@ =~= old(ctx)@ + Self::tokens(self.deep_view()));
    }
}

pub fn write_body_section(s: &Option<Section>, ctx: &mut EncodeContext)
    ensures
        final(ctx)@ == old(ctx)@ + body_section_tokens(s.deep_view()),
{
    ctx.write_text("[");
    if let Some(s) = s {
        s.encode_ctx(ctx);
    }
    ctx.write_text("]");
    assert(ctx@ =~= old(ctx)@ + body_section_tokens(s.deep_view()));
}

pub fn write_binary_section(p: &Vec<u32>, ctx: &mut EncodeContext)
    ensures
        final(ctx)@ == old(ctx)@ + binary_section_tokens(p@),
{
    ctx.write_text("[");
    write_part(p, ctx);
    ctx.write_text("]");
    assert(ctx@ =~= old(ctx)@ + binary_section_tokens(p@));
}

fn write_partial(p: &Option<(u64, u64)>, ctx: &mut EncodeContext)
    ensures
        final(ctx)@ == old(ctx)@ + encode::plain(partial_text(*p)),
{
    broadcast use encode::lemma_plain_add;

    if let Some((a, b)) = p {
        ctx.write_text("<");
        write_number(ctx, *a);
        ctx.write_text(".");
        write_number(ctx, *b);
        ctx.write_text(">");
    }
    proof {
        assert(encode::plain(seq![]) =~= seq![]);
        assert(ctx@ =~= old(ctx)@ + encode::plain(partial_text(*p)));
    }
}

impl EncodeIntoContext for MessageDataItemName {
    open spec fn tokens(v: ItemNameView) -> Seq<Token> {
        item_tokens(v)
    }

    fn encode_ctx(&self, ctx: &mut EncodeContext) {
        match self {
            MessageDataItemName::Plain(p) => p.encode_ctx(ctx),
            MessageDataItemName::BodyExt { section, partial, peek } => {
                ctx.write_text(
                    if *peek {
                        "BODY.PEEK"
                    } else {
                        "BODY"
                    },
                );
                write_body_section(section, ctx);
                write_partial(partial, ctx);
            },
            MessageDataItemName::Binary { section, partial, peek } => {
                ctx.write_text(
                    if *peek {
                        "BINARY.PEEK"
                    } else {
                        "BINARY"
                    },
                );
                write_binary_section(section, ctx);
                write_partial(partial, ctx);
            },
            MessageDataItemName::BinarySize { section } => {
                ctx.write_text("BINARY.SIZE");
                write_binary_section(section, ctx);
            },
        }
        assert(ctx@ =~= old(ctx)@ + item_tokens(self.deep_view()));
        assert(ctx@ =~= old(ctx)@ + Self::tokens(self.deep_view()));
    }
}

impl EncodeIntoContext for MacroOrMessageDataItemNames {
    open spec fn tokens(v: ItemNamesView) -> Seq<Token> {
        item_names_tokens(v)
    }

    fn encode_ctx(&self, ctx: &mut EncodeContext) {
        match self {
            MacroOrMessageDataItemNames::Macro(m) => m.encode_ctx(ctx),
            MacroOrMessageDataItemNames::MessageDataItemNames(v) => {
                if v.len() == 1 {
                    assert(v.deep_view()[0] == v@[0].deep_view());
                    v[0].encode_ctx(ctx);
                } else {
                    write_parens(v.as_slice(), ctx);
                }
            },
        }
        assert(ctx@ =~= old(ctx)@ + Self::tokens(self.deep_view()));
    }
}

} // verus!
