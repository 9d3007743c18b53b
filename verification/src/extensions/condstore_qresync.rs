//! Modification sequences: the syntax of CONDSTORE and QRESYNC.
use vstd::prelude::*;

use crate::ascii;
use crate::encode;
use crate::encode::{EncodeContext, EncodeIntoContext, Token};
use crate::extensions::rev2;
use crate::extensions::rev2::{number63, NUMBER63_MAX};
use crate::grammar as g;
use crate::grammar::{tag, tag_no_case, IMAPParseError, IMAPResult, Outcome, Rule};
use crate::number;
use crate::reading;
use crate::strings;
use crate::strings::{atom, Atom};

verus! {

/// The flag in the name of a metadata entry.
#[derive(Clone, Debug, PartialEq, Eq, Hash)]
pub enum AttributeFlag {
    /// A flag with a backslash.
    System(Atom),
    Keyword(Atom),
}

pub enum AttributeFlagView {
    System(Seq<u8>),
    Keyword(Seq<u8>),
}

impl DeepView for AttributeFlag {
    type V = AttributeFlagView;

    open spec fn deep_view(&self) -> AttributeFlagView {
        match self {
            AttributeFlag::System(a) => AttributeFlagView::System(a.deep_view()),
            AttributeFlag::Keyword(a) => AttributeFlagView::Keyword(a.deep_view()),
        }
    }
}

impl AttributeFlag {
    pub fn system(name: Atom) -> (r: AttributeFlag)
        ensures
            r.deep_view() == AttributeFlagView::System(name.deep_view()),
    {
        AttributeFlag::System(name)
    }
}

/// Which metadata items a search looks at.
#[derive(Clone, Copy, Debug, PartialEq, Eq, Hash, Structural)]
pub enum EntryTypeReq {
    Private,
    Shared,
    All,
}

impl DeepView for EntryTypeReq {
    type V = EntryTypeReq;

    open spec fn deep_view(&self) -> EntryTypeReq {
        *self
    }
}

pub type ModSeqEntry = (AttributeFlag, EntryTypeReq);

pub type ModSeqEntryView = (AttributeFlagView, EntryTypeReq);

// ----------------------------------------------------------------------- rules

/// `mod-sequence-valzer = "0" / mod-sequence-value`.
#[verifier::opaque]
pub open spec fn mod_sequence_valzer_rule() -> Rule<u64> {
    rev2::number63_rule()
}

/// A positive integer of at most 63 bits.
#[verifier::opaque]
pub open spec fn mod_sequence_value_rule() -> Rule<u64> {
    g::verify(rev2::number63_rule(), |n: u64| n > 0)
}

/// `search-sort-mod-seq = "(" "MODSEQ" SP mod-sequence-value ")"`.
#[verifier::opaque]
pub open spec fn search_sort_mod_seq_rule() -> Rule<u64> {
    g::delimited(
        g::text("("),
        g::preceded(g::word("MODSEQ "), mod_sequence_value_rule()),
        g::text(")"),
    )
}

/// Whether a flag with a backslash may stand in the name of an entry:
/// `attr-flag` does not have `\\Recent`.
#[verifier::opaque]
pub open spec fn is_attr_flag(b: Seq<u8>) -> bool {
    !ascii::same_word(b, ascii::bytes_of("RECENT"))
}

pub open spec fn system_flag_rule() -> Rule<Seq<u8>> {
    g::verify(
        g::preceded(g::text("\\\\"), strings::atom_rule()),
        |b: Seq<u8>| is_attr_flag(b),
    )
}

/// `attr-flag`: a flag with an escaped backslash, or a keyword. It does not have
/// `\\Recent`.
#[verifier::opaque]
pub open spec fn attr_flag_rule() -> Rule<AttributeFlagView> {
    g::alt(
        g::mapped(system_flag_rule(), |b: Seq<u8>| AttributeFlagView::System(b)),
        g::mapped(strings::atom_rule(), |b: Seq<u8>| AttributeFlagView::Keyword(b)),
    )
}

/// `entry-flag-name = DQUOTE "/flags/" attr-flag DQUOTE`.
#[verifier::opaque]
pub open spec fn entry_flag_name_rule() -> Rule<AttributeFlagView> {
    g::delimited(g::word("\"/flags/"), attr_flag_rule(), g::text("\""))
}

pub open spec fn entry_type_text(r: EntryTypeReq) -> Seq<u8> {
    match r {
        EntryTypeReq::Private => ascii::bytes_of("priv"),
        EntryTypeReq::Shared => ascii::bytes_of("shared"),
        EntryTypeReq::All => ascii::bytes_of("all"),
    }
}

/// `entry-type-req = "priv" / "shared" / "all"`.
#[verifier::opaque]
pub open spec fn entry_type_req_rule() -> Rule<EntryTypeReq> {
    g::alt(
        g::value(EntryTypeReq::Private, g::word("priv")),
        g::alt(
            g::value(EntryTypeReq::Shared, g::word("shared")),
            g::value(EntryTypeReq::All, g::word("all")),
        ),
    )
}

/// `search-modseq-ext = SP entry-name SP entry-type-req`.
#[verifier::opaque]
pub open spec fn search_modseq_ext_rule() -> Rule<ModSeqEntryView> {
    g::pair(
        g::preceded(g::text(" "), entry_flag_name_rule()),
        g::preceded(g::text(" "), entry_type_req_rule()),
    )
}

/// `search-modsequence = "MODSEQ" [search-modseq-ext] SP mod-sequence-valzer`.
#[verifier::opaque]
pub open spec fn search_modsequence_rule() -> Rule<(Option<ModSeqEntryView>, u64)> {
    g::preceded(
        g::word("MODSEQ"),
        g::pair(
            g::opt(search_modseq_ext_rule()),
            g::preceded(g::text(" "), mod_sequence_valzer_rule()),
        ),
    )
}

// ------------------------------------------------------------------- encodings

pub open spec fn attr_flag_text(f: AttributeFlagView) -> Seq<u8> {
    match f {
        AttributeFlagView::System(b) => ascii::bytes_of("\\\\") + b,
        AttributeFlagView::Keyword(b) => b,
    }
}

pub open spec fn modseq_ext_text(e: Option<ModSeqEntryView>) -> Seq<u8> {
    match e {
        Some((flag, kind)) => ascii::bytes_of(" \"/flags/") + attr_flag_text(flag)
            + ascii::bytes_of("\" ") + entry_type_text(kind),
        None => seq![],
    }
}

pub open spec fn search_modsequence_text(e: Option<ModSeqEntryView>, n: u64) -> Seq<u8> {
    ascii::bytes_of("MODSEQ") + modseq_ext_text(e) + ascii::bytes_of(" ") + number::decimal(
        n as nat,
    )
}

pub open spec fn attr_flag_wf(f: AttributeFlagView) -> bool {
    match f {
        AttributeFlagView::System(b) => strings::atom_wf(b) && is_attr_flag(b),
        AttributeFlagView::Keyword(b) => strings::atom_wf(b),
    }
}

// ---------------------------------------------------------------------- lemmas

pub proof fn lemma_modseq_lawful()
    ensures
        g::lawful(mod_sequence_valzer_rule()),
        g::lawful(mod_sequence_value_rule()),
        g::lawful(search_sort_mod_seq_rule()),
        g::lawful(search_modsequence_rule()),
{
    broadcast use g::group_lawful;

    reveal(mod_sequence_valzer_rule);
    reveal(mod_sequence_value_rule);
    reveal(search_sort_mod_seq_rule);
    reveal(attr_flag_rule);
    reveal(entry_flag_name_rule);
    reveal(entry_type_req_rule);
    reveal(search_modseq_ext_rule);
    reveal(search_modsequence_rule);
    rev2::lemma_rev2_lawful();
    strings::lemma_strings_lawful();
}

/// A modification sequence is read back within 63 bits, and only there.
pub proof fn law_modseq_range(n: u64, t: Seq<u8>)
    requires
        t.len() > 0,
        !ascii::is_digit(t[0]),
    ensures
        mod_sequence_valzer_rule()(number::decimal(n as nat) + t) == (if n <= NUMBER63_MAX {
            Outcome::Done(t, n)
        } else {
            Outcome::Reject
        }),
        mod_sequence_value_rule()(number::decimal(n as nat) + t) == (if 0 < n <= NUMBER63_MAX {
            Outcome::Done(t, n)
        } else {
            Outcome::Reject
        }),
{
    reveal(mod_sequence_valzer_rule);
    reveal(mod_sequence_value_rule);
    reveal(rev2::number63_rule);
    number::lemma_number64_reads(n, t);
}

proof fn lemma_modseq_ext_reads(flag: AttributeFlagView, kind: EntryTypeReq, t: Seq<u8>)
    requires
        attr_flag_wf(flag),
    ensures
        search_modseq_ext_rule()(modseq_ext_text(Some((flag, kind))) + t) == Outcome::Done(
            t,
            (flag, kind),
        ),
{
    broadcast use reading::group_reading;

    reveal(attr_flag_rule);
    reveal(entry_flag_name_rule);
    reveal(entry_type_req_rule);
    reveal(search_modseq_ext_rule);
    reveal(strings::atom_rule);
    reveal_strlit(" \"/flags/");
    reveal_strlit("\"/flags/");
    reveal_strlit("\" ");
    reveal_strlit("\"");
    reveal_strlit(" ");
    reveal_strlit("\\\\");
    reveal_strlit("priv");
    reveal_strlit("shared");
    reveal_strlit("all");
    let sp = ascii::bytes_of(" ");
    let q = ascii::bytes_of("\"");
    let open = ascii::bytes_of("\"/flags/");
    let bs = ascii::bytes_of("\\\\");
    let kind_text = entry_type_text(kind);
    let c = kind_text + t;
    let b = sp + c;
    let a = q + b;
    let name = match flag {
        AttributeFlagView::System(n) => n,
        AttributeFlagView::Keyword(n) => n,
    };
    let f = attr_flag_text(flag);
    assert(ascii::bytes_of(" \"/flags/") =~= sp + open);
    assert(ascii::bytes_of("\" ") =~= q + sp);
    assert(modseq_ext_text(Some((flag, kind))) + t =~= sp + (open + (f + a)));
    assert(a[0] == '"' as u8);
    reading::lemma_take_while1_reads(|x: u8| ascii::is_atom_char(x), name, a);
    assert(ascii::is_atom_char(name[0]));
    match flag {
        AttributeFlagView::System(n) => {
            assert(f + a =~= bs + (n + a));
        },
        AttributeFlagView::Keyword(n) => {
            assert((f + a)[0] == name[0]);
        },
    }
    assert(attr_flag_rule()(f + a) == Outcome::Done(a, flag));
    assert(c[0] == kind_text[0]);
}

/// The MODSEQ search key is read back.
pub proof fn lemma_search_modsequence_reads(e: Option<ModSeqEntryView>, n: u64)
    requires
        e matches Some(x) ==> attr_flag_wf(x.0),
        n <= NUMBER63_MAX,
    ensures
        reading::reads(search_modsequence_rule(), search_modsequence_text(e, n), (e, n)),
{
    broadcast use reading::group_reading;

    reveal(search_modsequence_rule);
    reveal(search_modseq_ext_rule);
    reveal(entry_flag_name_rule);
    reveal_strlit("MODSEQ");
    reveal_strlit(" ");
    reveal_strlit("\"/flags/");
    let sp = ascii::bytes_of(" ");
    let m = ascii::bytes_of("MODSEQ");
    let d = number::decimal(n as nat);
    let b = search_modsequence_text(e, n);
    number::lemma_decimal(n as nat);
    assert(ascii::is_digit(d[0]));
    assert forall|t: Seq<u8>| reading::ends(t) implies #[trigger] search_modsequence_rule()(b + t)
        == Outcome::Done(t, (e, n)) by {
        let rest = sp + (d + t);
        assert(b + t =~= m + (modseq_ext_text(e) + rest));
        law_modseq_range(n, t);
        match e {
            Some((flag, kind)) => {
                lemma_modseq_ext_reads(flag, kind, rest);
            },
            None => {
                assert(modseq_ext_text(e) + rest =~= rest);
                assert((d + t)[0] == d[0]);
            },
        }
    }
}

// ------------------------------------------------------------------ executable

pub fn mod_sequence_valzer<'a>(input: &'a [u8]) -> (res: IMAPResult<'a, u64>)
    ensures
        g::agrees(res, mod_sequence_valzer_rule()(input@)),
{
    proof {
        reveal(mod_sequence_valzer_rule);
    }
    number63(input)
}

pub fn mod_sequence_value<'a>(input: &'a [u8]) -> (res: IMAPResult<'a, u64>)
    ensures
        g::agrees(res, mod_sequence_value_rule()(input@)),
{
    proof {
        reveal(mod_sequence_value_rule);
    }
    let (rest, n) = number63(input)?;
    if n > 0 {
        Ok((rest, n))
    } else {
        Err(IMAPParseError::Error)
    }
}

pub fn search_sort_mod_seq<'a>(input: &'a [u8]) -> (res: IMAPResult<'a, u64>)
    ensures
        g::agrees(res, search_sort_mod_seq_rule()(input@)),
{
    proof {
        reveal(search_sort_mod_seq_rule);
    }
    let (rest, _) = tag(input, "(")?;
    let (rest, _) = tag_no_case(rest, "MODSEQ ")?;
    let (rest, n) = mod_sequence_value(rest)?;
    let (rest, _) = tag(rest, ")")?;
    Ok((rest, n))
}

pub fn search_modsequence<'a>(input: &'a [u8]) -> (res: IMAPResult<'a, (Option<ModSeqEntry>, u64)>)
    ensures
        g::agrees(res, search_modsequence_rule()(input@)),
{
    proof {
        reveal(search_modsequence_rule);
    }
    let (rest, _) = tag_no_case(input, "MODSEQ")?;
    let (rest, entry) = match search_modseq_ext(rest) {
        Ok((behind, e)) => (behind, Some(e)),
        Err(IMAPParseError::Error) => (rest, None),
        Err(e) => return Err(e),
    };
    let (rest, _) = tag(rest, " ")?;
    let (rest, n) = mod_sequence_valzer(rest)?;
    Ok((rest, (entry, n)))
}

pub fn search_modseq_ext<'a>(input: &'a [u8]) -> (res: IMAPResult<'a, ModSeqEntry>)
    ensures
        g::agrees(res, search_modseq_ext_rule()(input@)),
{
    proof {
        reveal(search_modseq_ext_rule);
    }
    let (rest, _) = tag(input, " ")?;
    let (rest, name) = entry_name(rest)?;
    let (rest, _) = tag(rest, " ")?;
    let (rest, kind) = entry_type_req(rest)?;
    Ok((rest, (name, kind)))
}

/// `entry-name = entry-flag-name`.
pub fn entry_name<'a>(input: &'a [u8]) -> (res: IMAPResult<'a, AttributeFlag>)
    ensures
        g::agrees(res, entry_flag_name_rule()(input@)),
{
    entry_flag_name(input)
}

/// Each flag `<flag>` is mapped to `"/flags/<flag>"`, with the escapes of a
/// quoted string: `"/flags/\\seen"` for `\Seen`, `"/flags/$mdnsent"` for
/// `$MDNSent`.
pub fn entry_flag_name<'a>(input: &'a [u8]) -> (res: IMAPResult<'a, AttributeFlag>)
    ensures
        g::agrees(res, entry_flag_name_rule()(input@)),
{
    proof {
        reveal(entry_flag_name_rule);
    }
    let (rest, _) = tag_no_case(input, "\"/flags/")?;
    let (rest, flag) = attr_flag(rest)?;
    let (rest, _) = tag(rest, "\"")?;
    Ok((rest, flag))
}

fn system_flag<'a>(input: &'a [u8]) -> (res: IMAPResult<'a, Atom>)
    ensures
        g::agrees(res, system_flag_rule()(input@)),
{
    let (rest, _) = tag(input, "\\\\")?;
    let (rest, name) = atom(rest)?;
    proof {
        reveal(is_attr_flag);
    }
    if ascii::is_word(name.bytes.as_slice(), "RECENT") {
        return Err(IMAPParseError::Error);
    }
    Ok((rest, name))
}

/// A flag with an escaped backslash, or a keyword. `\\Recent` is neither.
pub fn attr_flag<'a>(input: &'a [u8]) -> (res: IMAPResult<'a, AttributeFlag>)
    ensures
        g::agrees(res, attr_flag_rule()(input@)),
{
    proof {
        reveal(attr_flag_rule);
    }
    match system_flag(input) {
        Ok((rest, name)) => Ok((rest, AttributeFlag::system(name))),
        Err(IMAPParseError::Error) => {
            let (rest, name) = atom(input)?;
            Ok((rest, AttributeFlag::Keyword(name)))
        },
        Err(e) => Err(e),
    }
}

pub fn entry_type_req<'a>(input: &'a [u8]) -> (res: IMAPResult<'a, EntryTypeReq>)
    ensures
        g::agrees(res, entry_type_req_rule()(input@)),
{
    proof {
        reveal(entry_type_req_rule);
    }
    match tag_no_case(input, "priv") {
        Ok((rest, _)) => return Ok((rest, EntryTypeReq::Private)),
        Err(IMAPParseError::Error) => {},
        Err(e) => return Err(e),
    }
    match tag_no_case(input, "shared") {
        Ok((rest, _)) => return Ok((rest, EntryTypeReq::Shared)),
        Err(IMAPParseError::Error) => {},
        Err(e) => return Err(e),
    }
    let (rest, _) = tag_no_case(input, "all")?;
    Ok((rest, EntryTypeReq::All))
}

impl EncodeIntoContext for AttributeFlag {
    open spec fn tokens(v: AttributeFlagView) -> Seq<Token> {
        encode::plain(attr_flag_text(v))
    }

    fn encode_ctx(&self, ctx: &mut EncodeContext) {
        broadcast use encode::lemma_plain_add;

        match self {
            AttributeFlag::System(a) => {
                ctx.write_text("\\\\");
                a.encode_ctx(ctx);
            },
            AttributeFlag::Keyword(a) => a.encode_ctx(ctx),
        }
        assert(ctx@ =~= old(ctx)@ + encode::plain(attr_flag_text(self.deep_view())));
        assert(ctx@ =~= old(ctx)@ + Self::tokens(self.deep_view()));
    }
}

impl EncodeIntoContext for EntryTypeReq {
    open spec fn tokens(v: EntryTypeReq) -> Seq<Token> {
        encode::plain(entry_type_text(v))
    }

    fn encode_ctx(&self, ctx: &mut EncodeContext) {
        match *self {
            EntryTypeReq::Private => ctx.write_text("priv"),
            EntryTypeReq::Shared => ctx.write_text("shared"),
            EntryTypeReq::All => ctx.write_text("all"),
        }
        assert(ctx@ =~= old(ctx)@ + Self::tokens(self.deep_view()));
    }
}

/// Writes the MODSEQ search key.
pub fn write_search_modsequence(entry: &Option<ModSeqEntry>, n: u64, ctx: &mut EncodeContext)
    ensures
        final(ctx)@ == old(ctx)@ + encode::plain(search_modsequence_text(entry.deep_view(), n)),
{
    broadcast use encode::lemma_plain_add;

    ctx.write_text("MODSEQ");
    if let Some((flag, kind)) = entry {
        ctx.write_text(" \"/flags/");
        flag.encode_ctx(ctx);
        ctx.write_text("\" ");
        kind.encode_ctx(ctx);
    }
    ctx.write_text(" ");
    number::write_number(ctx, n);
    proof {
        assert(encode::plain(seq![]) =~= seq![]);
        assert(ctx@ =~= old(ctx)@ + encode::plain(search_modsequence_text(entry.deep_view(), n)));
    }
}

} // verus!
