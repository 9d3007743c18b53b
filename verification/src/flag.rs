//! Flags of messages and of mailbox names.
use vstd::prelude::*;

use crate::ascii;
use crate::encode;
use crate::encode::{EncodeContext, EncodeIntoContext, Token};
use crate::grammar as g;
use crate::grammar::{parens0, tag, IMAPParseError, IMAPResult, Outcome, Rule};
use crate::reading;
use crate::strings;
use crate::strings::{atom, Atom};

verus! {

/// A flag of a message.
#[derive(Clone, Debug, PartialEq, Eq, Hash)]
pub enum Flag {
    /// A flag with a backslash, such as `\Seen`.
    System(Atom),
    Keyword(Atom),
}

pub enum FlagView {
    System(Seq<u8>),
    Keyword(Seq<u8>),
}

impl DeepView for Flag {
    type V = FlagView;

    open spec fn deep_view(&self) -> FlagView {
        match self {
            Flag::System(a) => FlagView::System(a.deep_view()),
            Flag::Keyword(a) => FlagView::Keyword(a.deep_view()),
        }
    }
}

/// An attribute of a mailbox name, such as `\HasChildren`.
#[derive(Clone, Debug, PartialEq, Eq, Hash)]
pub struct FlagNameAttribute {
    pub name: Atom,
}

impl DeepView for FlagNameAttribute {
    type V = Seq<u8>;

    open spec fn deep_view(&self) -> Seq<u8> {
        self.name.deep_view()
    }
}

/// `"\" atom`.
#[verifier::opaque]
pub open spec fn attribute_rule() -> Rule<Seq<u8>> {
    g::preceded(g::text("\\"), strings::atom_rule())
}

/// `flag = "\" atom / atom`.
#[verifier::opaque]
pub open spec fn flag_rule() -> Rule<FlagView> {
    g::alt(
        g::mapped(attribute_rule(), |b: Seq<u8>| FlagView::System(b)),
        g::mapped(strings::atom_rule(), |b: Seq<u8>| FlagView::Keyword(b)),
    )
}

pub open spec fn flag_list_rule() -> Rule<Seq<FlagView>> {
    g::paren_list0(flag_rule())
}

pub open spec fn attribute_text(b: Seq<u8>) -> Seq<u8> {
    ascii::bytes_of("\\") + b
}

pub open spec fn flag_text(f: FlagView) -> Seq<u8> {
    match f {
        FlagView::System(b) => attribute_text(b),
        FlagView::Keyword(b) => b,
    }
}

pub open spec fn flag_list_tokens(v: Seq<FlagView>) -> Seq<Token> {
    encode::paren_tokens(encode::parts::<Flag>(v))
}

pub open spec fn flag_wf(f: FlagView) -> bool {
    match f {
        FlagView::System(b) => strings::atom_wf(b),
        FlagView::Keyword(b) => strings::atom_wf(b),
    }
}

pub open spec fn flags_wf(v: Seq<FlagView>) -> bool {
    forall|i: int| 0 <= i < v.len() ==> flag_wf(#[trigger] v[i])
}

pub proof fn lemma_flags_lawful()
    ensures
        g::lawful(attribute_rule()),
        g::lawful(flag_rule()),
        g::lawful(flag_list_rule()),
{
    broadcast use g::group_lawful;

    reveal(attribute_rule);
    reveal(flag_rule);
    strings::lemma_strings_lawful();
}

pub proof fn lemma_attribute_reads(b: Seq<u8>)
    requires
        strings::atom_wf(b),
    ensures
        reading::reads(attribute_rule(), attribute_text(b), b),
{
    reveal(attribute_rule);
    strings::lemma_atom_reads(b);
    let bs = ascii::bytes_of("\\");
    assert forall|t: Seq<u8>| reading::ends(t) implies #[trigger] attribute_rule()(
        attribute_text(b) + t,
    ) == Outcome::Done(t, b) by {
        assert(attribute_text(b) + t =~= bs + (b + t));
        reading::lemma_tag_reads(bs, b + t);
        assert(strings::atom_rule()(b + t) == Outcome::Done(t, b));
    }
}

pub proof fn lemma_attribute_rejects(s: Seq<u8>)
    requires
        s.len() > 0,
        s[0] != '\\' as u8,
    ensures
        attribute_rule()(s) == Outcome::<Seq<u8>>::Reject,
{
    reveal(attribute_rule);
    reveal_strlit("\\");
    reading::lemma_tag_rejects(ascii::bytes_of("\\"), s);
}

pub proof fn lemma_flag_reads(f: FlagView)
    requires
        flag_wf(f),
    ensures
        reading::reads(flag_rule(), flag_text(f), f),
{
    reveal(flag_rule);
    assert forall|t: Seq<u8>| reading::ends(t) implies #[trigger] flag_rule()(flag_text(f) + t)
        == Outcome::Done(t, f) by {
        match f {
            FlagView::System(b) => {
                lemma_attribute_reads(b);
            },
            FlagView::Keyword(b) => {
                strings::lemma_atom_reads(b);
                assert((b + t)[0] == b[0]);
                assert(ascii::is_atom_char(b[0]));
                lemma_attribute_rejects(b + t);
            },
        }
    }
}

/// A list of flags is read back, whatever follows it.
pub proof fn lemma_flag_list_reads(v: Seq<FlagView>, t: Seq<u8>)
    requires
        flags_wf(v),
    ensures
        flag_list_rule()(encode::flat(flag_list_tokens(v)) + t) == Outcome::Done(t, v),
{
    broadcast use encode::group_flat;

    let tokens = encode::parts::<Flag>(v);
    let parts = encode::flat_parts(tokens);
    encode::lemma_flat_paren(tokens);
    assert forall|i: int| 0 <= i < parts.len() implies reading::reads(
        flag_rule(),
        #[trigger] parts[i],
        v[i],
    ) by {
        assert(flag_wf(v[i]));
        lemma_flag_reads(v[i]);
    }
    let end = ascii::bytes_of(")") + t;
    reveal_strlit(")");
    assert(end[0] == ')' as u8);
    lemma_attribute_rejects(end);
    reveal(flag_rule);
    reveal(strings::atom_rule);
    reading::lemma_take_while1_rejects(|x: u8| ascii::is_atom_char(x), end);
    reading::lemma_parens_reads(flag_rule(), parts, v, t);
}

pub fn attribute<'a>(input: &'a [u8]) -> (res: IMAPResult<'a, FlagNameAttribute>)
    ensures
        g::agrees(res, attribute_rule()(input@)),
{
    proof {
        reveal(attribute_rule);
    }
    let (rest, _) = tag(input, "\\")?;
    let (rest, name) = atom(rest)?;
    Ok((rest, FlagNameAttribute { name }))
}

pub fn flag<'a>(input: &'a [u8]) -> (res: IMAPResult<'a, Flag>)
    ensures
        g::agrees(res, flag_rule()(input@)),
{
    proof {
        reveal(flag_rule);
    }
    match attribute(input) {
        Ok((rest, a)) => Ok((rest, Flag::System(a.name))),
        Err(IMAPParseError::Error) => {
            let (rest, a) = atom(input)?;
            Ok((rest, Flag::Keyword(a)))
        },
        Err(e) => Err(e),
    }
}

pub fn flag_list<'a>(input: &'a [u8]) -> (res: IMAPResult<'a, Vec<Flag>>)
    ensures
        g::agrees(res, flag_list_rule()(input@)),
{
    parens0(input, flag, Ghost(flag_rule()))
}

impl EncodeIntoContext for FlagNameAttribute {
    open spec fn tokens(v: Seq<u8>) -> Seq<Token> {
        encode::plain(attribute_text(v))
    }

    fn encode_ctx(&self, ctx: &mut EncodeContext) {
        broadcast use encode::lemma_plain_add;

        ctx.write_text("\\");
        self.name.encode_ctx(ctx);
        assert(ctx@ =~= old(ctx)@ + encode::plain(attribute_text(self.deep_view())));
        assert(ctx@ =~= old(ctx)@ + Self::tokens(self.deep_view()));
    }
}

impl EncodeIntoContext for Flag {
    open spec fn tokens(v: FlagView) -> Seq<Token> {
        encode::plain(flag_text(v))
    }

    fn encode_ctx(&self, ctx: &mut EncodeContext) {
        broadcast use encode::lemma_plain_add;

        match self {
            Flag::System(a) => {
                ctx.write_text("\\");
                a.encode_ctx(ctx);
            },
            Flag::Keyword(a) => a.encode_ctx(ctx),
        }
        assert(ctx@ =~= old(ctx)@ + encode::plain(flag_text(self.deep_view())));
        assert(ctx@ =~= old(ctx)@ + Self::tokens(self.deep_view()));
    }
}

/// Writes flags in parentheses.
pub fn write_flags(flags: &Vec<Flag>, ctx: &mut EncodeContext)
    ensures
        final(ctx)@ == old(ctx)@ + flag_list_tokens(flags.deep_view()),
{
    encode::write_parens(flags.as_slice(), ctx);
}

} // verus!
