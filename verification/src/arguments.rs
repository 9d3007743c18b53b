//! Arguments of commands and responses: each stands behind a space.
use vstd::prelude::*;

use crate::ascii;
use crate::encode;
use crate::encode::{write_parens, EncodeContext, EncodeIntoContext, Token};
use crate::grammar as g;
use crate::grammar::{parens1, tag, IMAPParseError, IMAPResult, Outcome, Rule};
use crate::reading;
use crate::strings;
use crate::strings::Atom;

verus! {

/// Reads a space, then `p`.
pub open spec fn sp<T>(p: Rule<T>) -> Rule<T> {
    g::preceded(g::text(" "), p)
}

/// An argument with the space in front of it.
pub open spec fn argument(a: Seq<Token>) -> Seq<Token> {
    encode::word(" ") + a
}

/// A list in parentheses with a space in front of it, where there are items.
pub open spec fn optional_parens(parts: Seq<Seq<Token>>) -> Seq<Token> {
    if parts.len() == 0 {
        seq![]
    } else {
        argument(encode::paren_tokens(parts))
    }
}

/// A list in parentheses behind a space, or nothing.
pub open spec fn optional_list<T>(p: Rule<T>) -> Rule<Seq<T>> {
    g::mapped(
        g::opt(sp(g::paren_list1(p))),
        |o: Option<Seq<T>>|
            match o {
                Some(v) => v,
                None => seq![],
            },
    )
}

pub open spec fn all_wf<T>(v: Seq<T>, wf: spec_fn(T) -> bool) -> bool {
    forall|i: int| 0 <= i < v.len() ==> wf(#[trigger] v[i])
}

/// What follows cannot be taken for a list in parentheses behind a space.
pub open spec fn no_list_follows(t: Seq<u8>) -> bool {
    t.len() > 0 && (t[0] != 0x20 || (t.len() > 1 && t[1] != '(' as u8))
}

/// What follows the arguments of a command: the end of the line.
pub open spec fn line_end(t: Seq<u8>) -> bool {
    t.len() > 0 && t[0] == 0x0d
}

// ---------------------------------------------------------------------- lemmas

pub proof fn lemma_sp_reads<T>(p: Rule<T>, b: Seq<u8>, v: T, t: Seq<u8>)
    requires
        p(b + t) == Outcome::Done(t, v),
    ensures
        sp(p)(ascii::bytes_of(" ") + (b + t)) == Outcome::Done(t, v),
        (ascii::bytes_of(" ") + (b + t)).len() > 0,
        (ascii::bytes_of(" ") + (b + t))[0] == 0x20,
{
    reveal_strlit(" ");
    reading::lemma_tag_reads(ascii::bytes_of(" "), b + t);
}

pub proof fn lemma_flat_then(a: Seq<Token>, b: Seq<Token>, t: Seq<u8>)
    ensures
        encode::flat(a + b) + t == encode::flat(a) + (encode::flat(b) + t),
{
    encode::lemma_flat_add(a, b);
    encode::lemma_concat_assoc(encode::flat(a), encode::flat(b), t);
}

/// An argument is read behind its space.
pub proof fn lemma_argument_reads<T>(p: Rule<T>, a: Seq<Token>, v: T, t: Seq<u8>)
    requires
        p(encode::flat(a) + t) == Outcome::Done(t, v),
    ensures
        sp(p)(encode::flat(argument(a)) + t) == Outcome::Done(t, v),
        (encode::flat(argument(a)) + t).len() > 1 || encode::flat(a) + t == Seq::<u8>::empty(),
        (encode::flat(argument(a)) + t)[0] == 0x20,
        (encode::flat(argument(a)) + t).skip(1) == encode::flat(a) + t,
{
    lemma_flat_then(encode::word(" "), a, t);
    encode::lemma_flat_word(" ");
    lemma_sp_reads(p, encode::flat(a), v, t);
    reveal_strlit(" ");
    let s = ascii::bytes_of(" ") + (encode::flat(a) + t);
    assert(s.skip(1) =~= encode::flat(a) + t);
    if s.len() <= 1 {
        assert(encode::flat(a) + t =~= Seq::<u8>::empty());
    }
}

/// The same, where the rule reads its text before any delimiter.
pub proof fn lemma_delimited_argument<T>(p: Rule<T>, a: Seq<Token>, v: T, t: Seq<u8>)
    requires
        reading::reads(p, encode::flat(a), v),
        reading::ends(t),
    ensures
        sp(p)(encode::flat(argument(a)) + t) == Outcome::Done(t, v),
        reading::ends(encode::flat(argument(a)) + t),
        (encode::flat(argument(a)) + t)[0] == 0x20,
        (encode::flat(argument(a)) + t).skip(1) == encode::flat(a) + t,
{
    assert(p(encode::flat(a) + t) == Outcome::Done(t, v));
    lemma_argument_reads(p, a, v, t);
}

pub proof fn lemma_no_list<T>(p: Rule<T>, t: Seq<u8>)
    requires
        no_list_follows(t),
    ensures
        sp(g::paren_list1(p))(t) is Reject,
        sp(g::paren_list0(p))(t) is Reject,
{
    reveal_strlit(" ");
    reveal_strlit("(");
    let space = ascii::bytes_of(" ");
    if t[0] == 0x20 {
        assert(t =~= space + t.skip(1));
        reading::lemma_tag_reads(space, t.skip(1));
        assert(t.skip(1)[0] == t[1]);
        reading::lemma_tag_rejects(ascii::bytes_of("("), t.skip(1));
    } else {
        reading::lemma_tag_rejects(space, t);
    }
}

/// A list that may be left out is read back.
pub proof fn lemma_optional_reads<T>(p: Rule<T>, tokens: Seq<Seq<Token>>, vals: Seq<T>, t: Seq<u8>)
    requires
        tokens.len() == vals.len(),
        forall|i: int| 0 <= i < vals.len() ==> reading::reads(
            p,
            encode::flat(#[trigger] tokens[i]),
            vals[i],
        ),
        no_list_follows(t),
    ensures
        optional_list(p)(encode::flat(optional_parens(tokens)) + t) == Outcome::Done(t, vals),
        reading::ends(t) ==> reading::ends(encode::flat(optional_parens(tokens)) + t),
{
    if vals.len() == 0 {
        assert(encode::flat(optional_parens(tokens)) + t =~= t);
        lemma_no_list(p, t);
        assert(vals =~= seq![]);
    } else {
        let parts = encode::flat_parts(tokens);
        encode::lemma_flat_paren(tokens);
        assert forall|i: int| 0 <= i < parts.len() implies reading::reads(
            p,
            #[trigger] parts[i],
            vals[i],
        ) by {
            assert(parts[i] == encode::flat(tokens[i]));
        }
        reading::lemma_parens_reads(p, parts, vals, t);
        lemma_argument_reads(g::paren_list1(p), encode::paren_tokens(tokens), vals, t);
    }
}

/// A list in parentheses is read back behind its space.
pub proof fn lemma_list_argument<T>(p: Rule<T>, tokens: Seq<Seq<Token>>, vals: Seq<T>, t: Seq<u8>)
    requires
        tokens.len() == vals.len(),
        forall|i: int| 0 <= i < vals.len() ==> reading::reads(
            p,
            encode::flat(#[trigger] tokens[i]),
            vals[i],
        ),
    ensures
        vals.len() > 0 ==> sp(g::paren_list1(p))(
            encode::flat(argument(encode::paren_tokens(tokens))) + t,
        ) == Outcome::Done(t, vals),
        vals.len() > 0 || (p(ascii::bytes_of(")") + t) is Reject) ==> sp(
            g::paren_list0(p),
        )(encode::flat(argument(encode::paren_tokens(tokens))) + t) == Outcome::Done(t, vals),
        reading::ends(encode::flat(argument(encode::paren_tokens(tokens))) + t),
{
    let parts = encode::flat_parts(tokens);
    let list = encode::paren_tokens(tokens);
    encode::lemma_flat_paren(tokens);
    assert forall|i: int| 0 <= i < parts.len() implies reading::reads(
        p,
        #[trigger] parts[i],
        vals[i],
    ) by {
        assert(parts[i] == encode::flat(tokens[i]));
    }
    reading::lemma_parens_reads(p, parts, vals, t);
    lemma_flat_then(encode::word(" "), list, t);
    encode::lemma_flat_word(" ");
    reveal_strlit(" ");
    reading::lemma_tag_reads(ascii::bytes_of(" "), encode::flat(list) + t);
}

/// A string or `NIL` is read back behind its space.
pub proof fn lemma_nstring_argument(v: Option<strings::StringView>, t: Seq<u8>)
    requires
        strings::nstring_wf(v),
        reading::ends(t),
    ensures
        sp(strings::nstring_rule())(encode::flat(argument(strings::nstring_tokens(v))) + t)
            == Outcome::Done(t, v),
        reading::ends(encode::flat(argument(strings::nstring_tokens(v))) + t),
{
    match v {
        Some(s) => {
            strings::lemma_string_reads(s);
        },
        None => {
            strings::lemma_nil_reads();
        },
    }
    lemma_delimited_argument(strings::nstring_rule(), strings::nstring_tokens(v), v, t);
}

/// Atoms with spaces between them are read back.
pub proof fn lemma_atoms_read(v: Seq<Seq<u8>>, t: Seq<u8>)
    requires
        v.len() > 0,
        all_wf(v, |b: Seq<u8>| strings::atom_wf(b)),
        t.len() > 0,
        t[0] == 0x0d || t[0] == ']' as u8,
    ensures
        g::separated_list1(g::text(" "), strings::atom_rule())(
            encode::flat(encode::joined(encode::parts::<Atom>(v), encode::word(" "))) + t,
        ) == Outcome::Done(t, v),
{
    let tokens = encode::parts::<Atom>(v);
    let parts = encode::flat_parts(tokens);
    let space = ascii::bytes_of(" ");
    encode::lemma_flat_joined(tokens, encode::word(" "));
    encode::lemma_flat_word(" ");
    reveal_strlit(" ");
    let follow = |x: Seq<u8>| x.len() > 0 && !ascii::is_atom_char(x[0]);
    assert forall|i: int| 0 <= i < parts.len() implies reading::reads_before(
        strings::atom_rule(),
        #[trigger] parts[i],
        v[i],
        follow,
    ) by {
        let wf = |b: Seq<u8>| strings::atom_wf(b);
        assert(wf(v[i]));
        encode::lemma_flat_plain(v[i]);
        reveal(strings::atom_rule);
        assert forall|x: Seq<u8>| follow(x) implies #[trigger] strings::atom_rule()(parts[i] + x)
            == Outcome::Done(x, v[i]) by {
            reading::lemma_take_while1_reads(|b: u8| ascii::is_atom_char(b), v[i], x);
        }
    }
    assert forall|r: Seq<u8>| follow(#[trigger] (space + r)) by {
        assert((space + r)[0] == 0x20);
    }
    reading::lemma_tag_rejects(space, t);
    reading::lemma_list_reads(space, strings::atom_rule(), follow, parts, v, t);
}

// ------------------------------------------------------------------ executable

pub fn optional<'a, T: DeepView, F: Fn(&[u8]) -> IMAPResult<'_, T>>(
    input: &'a [u8],
    f: F,
    Ghost(p): Ghost<Rule<T::V>>,
) -> (res: IMAPResult<'a, Vec<T>>)
    requires
        g::parses(f, p),
    ensures
        g::agrees(res, optional_list(p)(input@)),
{
    let none: Vec<T> = Vec::new();
    assert(none.deep_view() =~= seq![]);
    let behind: &[u8] = match tag(input, " ") {
        Ok((behind, _)) => behind,
        Err(IMAPParseError::Error) => return Ok((input, none)),
        Err(e) => return Err(e),
    };
    match parens1(behind, f, Ghost(p)) {
        Ok((rest, v)) => Ok((rest, v)),
        Err(IMAPParseError::Error) => Ok((input, none)),
        Err(e) => Err(e),
    }
}

/// Reads an argument behind a space, where there is one.
pub fn optional_argument<'a, T: DeepView, F: Fn(&[u8]) -> IMAPResult<'_, T>>(
    input: &'a [u8],
    f: F,
    Ghost(p): Ghost<Rule<T::V>>,
) -> (res: IMAPResult<'a, Option<T>>)
    requires
        g::parses(f, p),
    ensures
        g::agrees(res, g::opt(sp(p))(input@)),
{
    let behind: &[u8] = match tag(input, " ") {
        Ok((behind, _)) => behind,
        Err(IMAPParseError::Error) => return Ok((input, None)),
        Err(e) => return Err(e),
    };
    match f(behind) {
        Ok((rest, v)) => Ok((rest, Some(v))),
        Err(IMAPParseError::Error) => Ok((input, None)),
        Err(e) => Err(e),
    }
}

/// Writes an argument behind a space.
pub fn write_argument<T: EncodeIntoContext>(v: &T, ctx: &mut EncodeContext)
    ensures
        final(ctx)@ == old(ctx)@ + argument(T::tokens(v.deep_view())),
{
    ctx.write_text(" ");
    v.encode_ctx(ctx);
    assert(ctx@ =~= old(ctx)@ + argument(T::tokens(v.deep_view())));
}

/// Writes a list in parentheses behind a space.
pub fn write_list<T: EncodeIntoContext>(v: &Vec<T>, ctx: &mut EncodeContext)
    ensures
        final(ctx)@ == old(ctx)@ + argument(
            encode::paren_tokens(encode::parts::<T>(v.deep_view())),
        ),
{
    ctx.write_text(" ");
    write_parens(v.as_slice(), ctx);
    assert(ctx@ =~= old(ctx)@ + argument(
        encode::paren_tokens(encode::parts::<T>(v.deep_view())),
    ));
}

/// Writes a list in parentheses behind a space, where there are items.
pub fn write_optional_list<T: EncodeIntoContext>(v: &Vec<T>, ctx: &mut EncodeContext)
    ensures
        final(ctx)@ == old(ctx)@ + optional_parens(encode::parts::<T>(v.deep_view())),
{
    if v.len() > 0 {
        write_list(v, ctx);
    } else {
        assert(ctx@ =~= old(ctx)@ + optional_parens(encode::parts::<T>(v.deep_view())));
    }
}

pub fn write_two<T: EncodeIntoContext, U: EncodeIntoContext>(a: &T, b: &U, ctx: &mut EncodeContext)
    ensures
        final(ctx)@ == old(ctx)@ + (argument(T::tokens(a.deep_view())) + argument(
            U::tokens(b.deep_view()),
        )),
{
    write_argument(a, ctx);
    write_argument(b, ctx);
    assert(ctx@ =~= old(ctx)@ + (argument(T::tokens(a.deep_view())) + argument(
        U::tokens(b.deep_view()),
    )));
}

pub fn write_with_list<T: EncodeIntoContext, U: EncodeIntoContext>(
    a: &T,
    v: &Vec<U>,
    ctx: &mut EncodeContext,
)
    ensures
        final(ctx)@ == old(ctx)@ + (argument(T::tokens(a.deep_view())) + argument(
            encode::paren_tokens(encode::parts::<U>(v.deep_view())),
        )),
{
    write_argument(a, ctx);
    write_list(v, ctx);
    assert(ctx@ =~= old(ctx)@ + (argument(T::tokens(a.deep_view())) + argument(
        encode::paren_tokens(encode::parts::<U>(v.deep_view())),
    )));
}

pub fn write_with_options<T: EncodeIntoContext, U: EncodeIntoContext>(
    a: &T,
    v: &Vec<U>,
    ctx: &mut EncodeContext,
)
    ensures
        final(ctx)@ == old(ctx)@ + (argument(T::tokens(a.deep_view())) + optional_parens(
            encode::parts::<U>(v.deep_view()),
        )),
{
    write_argument(a, ctx);
    write_optional_list(v, ctx);
    assert(ctx@ =~= old(ctx)@ + (argument(T::tokens(a.deep_view())) + optional_parens(
        encode::parts::<U>(v.deep_view()),
    )));
}

pub fn write_word_argument(s: &str, ctx: &mut EncodeContext)
    ensures
        final(ctx)@ == old(ctx)@ + argument(encode::word(s)),
{
    ctx.write_text(" ");
    ctx.write_text(s);
    assert(ctx@ =~= old(ctx)@ + argument(encode::word(s)));
}

} // verus!
