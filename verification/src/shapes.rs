//! Values side by side: how what is made of parts is read back.
use vstd::prelude::*;

use crate::arguments as args;
use crate::ascii;
use crate::encode;
use crate::encode::Token;
use crate::grammar as g;
use crate::grammar::{Outcome, Rule};
use crate::reading;
use crate::spelling as sp;

verus! {

/// `p SP q`.
pub open spec fn two<A, B>(p: Rule<A>, q: Rule<B>) -> Rule<(A, B)> {
    g::pair(p, args::sp(q))
}

pub open spec fn two_tokens(a: Seq<Token>, b: Seq<Token>) -> Seq<Token> {
    a + args::argument(b)
}

/// `"(" p ")"`.
pub open spec fn enclosed<T>(p: Rule<T>) -> Rule<T> {
    g::delimited(g::text("("), p, g::text(")"))
}

pub open spec fn enclosed_tokens(a: Seq<Token>) -> Seq<Token> {
    encode::word("(") + a + encode::word(")")
}

/// The rest of a value in parentheses, behind the opening one.
pub open spec fn closing<T>(p: Rule<T>) -> Rule<T> {
    g::terminated(p, g::text(")"))
}

pub open spec fn closing_tokens(a: Seq<Token>) -> Seq<Token> {
    a + encode::word(")")
}

/// Values in parentheses, one right behind the other. `p` reads a value behind
/// its opening parenthesis.
pub open spec fn row<T>(p: Rule<T>) -> Rule<Seq<T>> {
    g::verify(g::repeated(g::text("("), p), |v: Seq<T>| v.len() > 0)
}

pub open spec fn row_tokens(parts: Seq<Seq<Token>>) -> Seq<Token> {
    encode::spread(parts, encode::word("("))
}

/// `nil`, which stands for `v`.
pub open spec fn nil<T>(v: T) -> Rule<T> {
    g::value(v, g::word("NIL"))
}

/// `p [SP q]`.
pub open spec fn tailed<A, B>(p: Rule<A>, q: Rule<B>) -> Rule<(A, Option<B>)> {
    g::pair(p, g::opt(args::sp(q)))
}

pub open spec fn tail_tokens(b: Option<Seq<Token>>) -> Seq<Token> {
    match b {
        Some(b) => args::argument(b),
        None => seq![],
    }
}

pub open spec fn tailed_tokens(a: Seq<Token>, b: Option<Seq<Token>>) -> Seq<Token> {
    a + tail_tokens(b)
}

/// `p`, then a rule that depends on what `p` has read.
pub open spec fn linked<A, B>(p: Rule<A>, q: spec_fn(A) -> Rule<B>) -> Rule<(A, B)> {
    g::chain(p, |a: A| g::mapped(q(a), |b: B| (a, b)))
}

/// The rule reads exactly `b`, and as `v`, before a closing parenthesis.
pub open spec fn reads_inside<T>(p: Rule<T>, b: Seq<u8>, v: T) -> bool {
    forall|t: Seq<u8>|
        t.len() > 0 && t[0] == ')' as u8 ==> #[trigger] p(b + t) == Outcome::Done(t, v)
}

/// The rule reads exactly `b`, and as `v`, whatever follows.
pub open spec fn reads_alone<T>(p: Rule<T>, b: Seq<u8>, v: T) -> bool {
    forall|t: Seq<u8>| #[trigger] p(b + t) == Outcome::Done(t, v)
}

// --------------------------------------------------------------------- reading

pub proof fn lemma_two_read<A, B>(
    p: Rule<A>,
    q: Rule<B>,
    a: Seq<Token>,
    x: A,
    b: Seq<Token>,
    y: B,
)
    requires
        reading::reads(p, encode::flat(a), x),
        reading::reads(q, encode::flat(b), y),
    ensures
        reading::reads(two(p, q), encode::flat(two_tokens(a, b)), (x, y)),
{
    assert forall|t: Seq<u8>| reading::ends(t) implies #[trigger] two(p, q)(
        encode::flat(two_tokens(a, b)) + t,
    ) == Outcome::Done(t, (x, y)) by {
        args::lemma_flat_then(a, args::argument(b), t);
        args::lemma_delimited_argument(q, b, y, t);
        let r = encode::flat(args::argument(b)) + t;
        assert(p(encode::flat(a) + r) == Outcome::Done(r, x));
    }
}

pub proof fn lemma_closing_reads<T>(p: Rule<T>, a: Seq<Token>, x: T)
    requires
        reading::reads(p, encode::flat(a), x),
    ensures
        reads_alone(closing(p), encode::flat(closing_tokens(a)), x),
{
    let close = ascii::bytes_of(")");
    reveal_strlit(")");
    assert forall|t: Seq<u8>| #[trigger] closing(p)(encode::flat(closing_tokens(a)) + t)
        == Outcome::Done(t, x) by {
        args::lemma_flat_then(a, encode::word(")"), t);
        encode::lemma_flat_word(")");
        let r = close + t;
        assert(r[0] == ')' as u8);
        assert(p(encode::flat(a) + r) == Outcome::Done(r, x));
        reading::lemma_tag_reads(close, t);
    }
}

pub proof fn lemma_enclosed_reads<T>(p: Rule<T>, a: Seq<Token>, x: T)
    requires
        reading::reads(p, encode::flat(a), x),
    ensures
        reads_alone(enclosed(p), encode::flat(enclosed_tokens(a)), x),
{
    lemma_closing_reads(p, a, x);
    lemma_opened_reads(closing(p), closing_tokens(a), x);
    assert(enclosed_tokens(a) =~= encode::word("(") + closing_tokens(a));
}

pub proof fn lemma_closed<T>(p: Rule<T>, a: Seq<Token>, x: T)
    requires
        reads_inside(p, encode::flat(a), x),
    ensures
        reads_alone(closing(p), encode::flat(closing_tokens(a)), x),
{
    let close = ascii::bytes_of(")");
    reveal_strlit(")");
    assert forall|t: Seq<u8>| #[trigger] closing(p)(encode::flat(closing_tokens(a)) + t)
        == Outcome::Done(t, x) by {
        args::lemma_flat_then(a, encode::word(")"), t);
        encode::lemma_flat_word(")");
        let r = close + t;
        assert(r[0] == ')' as u8);
        assert(p(encode::flat(a) + r) == Outcome::Done(r, x));
        reading::lemma_tag_reads(close, t);
    }
}

/// What may follow behind a space is read back before a closing parenthesis.
pub proof fn lemma_tail_reads<T>(q: Rule<T>, b: Option<Seq<Token>>, y: Option<T>, t: Seq<u8>)
    requires
        b is Some <==> y is Some,
        y matches Some(y) ==> reads_inside(q, encode::flat(b->Some_0), y),
        t.len() > 0,
        t[0] == ')' as u8,
    ensures
        g::opt(args::sp(q))(encode::flat(tail_tokens(b)) + t) == Outcome::Done(t, y),
        reading::ends(encode::flat(tail_tokens(b)) + t),
        b is Some ==> (encode::flat(tail_tokens(b)) + t)[0] == 0x20,
        b matches Some(b) ==> (encode::flat(tail_tokens(Some(b))) + t).skip(1) == encode::flat(b)
            + t,
        b is None ==> encode::flat(tail_tokens(b)) + t == t,
{
    reveal_strlit(" ");
    match b {
        Some(b) => {
            assert(q(encode::flat(b) + t) == Outcome::Done(t, y->Some_0));
            args::lemma_argument_reads(q, b, y->Some_0, t);
        },
        None => {
            assert(encode::flat(tail_tokens(b)) + t =~= t);
            reading::lemma_tag_rejects(ascii::bytes_of(" "), t);
        },
    }
}

pub proof fn lemma_tailed_reads<A, B>(
    p: Rule<A>,
    q: Rule<B>,
    a: Seq<Token>,
    x: A,
    b: Option<Seq<Token>>,
    y: Option<B>,
)
    requires
        reading::reads(p, encode::flat(a), x),
        b is Some <==> y is Some,
        y matches Some(y) ==> reads_inside(q, encode::flat(b->Some_0), y),
    ensures
        reads_inside(tailed(p, q), encode::flat(tailed_tokens(a, b)), (x, y)),
{
    assert forall|t: Seq<u8>| t.len() > 0 && t[0] == ')' as u8 implies #[trigger] tailed(p, q)(
        encode::flat(tailed_tokens(a, b)) + t,
    ) == Outcome::Done(t, (x, y)) by {
        args::lemma_flat_then(a, tail_tokens(b), t);
        lemma_tail_reads(q, b, y, t);
        let r = encode::flat(tail_tokens(b)) + t;
        assert(p(encode::flat(a) + r) == Outcome::Done(r, x));
    }
}

/// An opening parenthesis and the rest.
pub proof fn lemma_opened_reads<T>(p: Rule<T>, a: Seq<Token>, x: T)
    requires
        reads_alone(p, encode::flat(a), x),
    ensures
        reads_alone(g::preceded(g::text("("), p), encode::flat(encode::word("(") + a), x),
{
    let open = ascii::bytes_of("(");
    assert forall|t: Seq<u8>| #[trigger] g::preceded(g::text("("), p)(
        encode::flat(encode::word("(") + a) + t,
    ) == Outcome::Done(t, x) by {
        args::lemma_flat_then(encode::word("("), a, t);
        encode::lemma_flat_word("(");
        reading::lemma_tag_reads(open, encode::flat(a) + t);
        assert(p(encode::flat(a) + t) == Outcome::Done(t, x));
    }
}

pub proof fn lemma_mapped_reads<A, B>(p: Rule<A>, h: spec_fn(A) -> B, b: Seq<u8>, x: A)
    ensures
        reading::reads(p, b, x) ==> reading::reads(g::mapped(p, h), b, h(x)),
        reads_alone(p, b, x) ==> reads_alone(g::mapped(p, h), b, h(x)),
        reads_inside(p, b, x) ==> reads_inside(g::mapped(p, h), b, h(x)),
{
    if reads_inside(p, b, x) {
        assert forall|t: Seq<u8>| t.len() > 0 && t[0] == ')' as u8 implies #[trigger] g::mapped(
            p,
            h,
        )(b + t) == Outcome::Done(t, h(x)) by {
            assert(p(b + t) == Outcome::Done(t, x));
        }
    }
    if reading::reads(p, b, x) {
        assert forall|t: Seq<u8>| reading::ends(t) implies #[trigger] g::mapped(p, h)(b + t)
            == Outcome::Done(t, h(x)) by {
            assert(p(b + t) == Outcome::Done(t, x));
        }
    }
    if reads_alone(p, b, x) {
        assert forall|t: Seq<u8>| #[trigger] g::mapped(p, h)(b + t) == Outcome::Done(t, h(x)) by {
            assert(p(b + t) == Outcome::Done(t, x));
        }
    }
}

/// Values one right behind the other are read back before anything but an
/// opening parenthesis.
pub proof fn lemma_row_reads<T>(p: Rule<T>, tokens: Seq<Seq<Token>>, vals: Seq<T>, t: Seq<u8>)
    requires
        tokens.len() == vals.len(),
        vals.len() > 0,
        forall|i: int| 0 <= i < vals.len() ==> reads_alone(
            p,
            encode::flat(#[trigger] tokens[i]),
            vals[i],
        ),
        t.len() > 0,
        t[0] != '(' as u8,
    ensures
        row(p)(encode::flat(row_tokens(tokens)) + t) == Outcome::Done(t, vals),
{
    let parts = encode::flat_parts(tokens);
    let open = ascii::bytes_of("(");
    reveal_strlit("(");
    encode::lemma_flat_spread(tokens, encode::word("("));
    encode::lemma_flat_word("(");
    let follow = |x: Seq<u8>| true;
    assert forall|i: int| 0 <= i < parts.len() implies reading::reads_before(
        p,
        #[trigger] parts[i],
        vals[i],
        follow,
    ) by {
        assert(parts[i] == encode::flat(tokens[i]));
        assert(reads_alone(p, encode::flat(tokens[i]), vals[i]));
    }
    reading::lemma_tag_rejects(open, t);
    reading::lemma_list_reads(open, p, follow, parts, vals, t);
}

/// A row starts with an opening parenthesis.
pub proof fn lemma_row_start(tokens: Seq<Seq<Token>>, t: Seq<u8>)
    requires
        tokens.len() > 0,
    ensures
        (encode::flat(row_tokens(tokens)) + t).len() > 0,
        (encode::flat(row_tokens(tokens)) + t)[0] == '(' as u8,
{
    encode::lemma_flat_spread(tokens, encode::word("("));
    encode::lemma_flat_word("(");
    reveal_strlit("(");
}

/// Values behind spaces, and values with spaces between them, are read back
/// before the end of what holds them.
pub proof fn lemma_spaced_read<T>(p: Rule<T>, tokens: Seq<Seq<Token>>, vals: Seq<T>, t: Seq<u8>)
    requires
        tokens.len() == vals.len(),
        forall|i: int| 0 <= i < vals.len() ==> reading::reads(
            p,
            encode::flat(#[trigger] tokens[i]),
            vals[i],
        ),
        reading::ends(t),
        t[0] != 0x20,
    ensures
        g::repeated(g::text(" "), p)(encode::flat(encode::spread(tokens, encode::word(" "))) + t)
            == Outcome::Done(t, vals),
        reading::ends(encode::flat(encode::spread(tokens, encode::word(" "))) + t),
        vals.len() > 0 ==> g::separated_list1(g::text(" "), p)(
            encode::flat(encode::joined(tokens, encode::word(" "))) + t,
        ) == Outcome::Done(t, vals),
{
    let parts = encode::flat_parts(tokens);
    let space = ascii::bytes_of(" ");
    encode::lemma_flat_spread(tokens, encode::word(" "));
    encode::lemma_flat_joined(tokens, encode::word(" "));
    encode::lemma_flat_word(" ");
    reveal_strlit(" ");
    let follow = |x: Seq<u8>| reading::ends(x);
    assert forall|i: int| 0 <= i < parts.len() implies reading::reads_before(
        p,
        #[trigger] parts[i],
        vals[i],
        follow,
    ) by {
        assert(parts[i] == encode::flat(tokens[i]));
        assert(reading::reads(p, encode::flat(tokens[i]), vals[i]));
    }
    assert forall|r: Seq<u8>| follow(#[trigger] (space + r)) by {
        assert((space + r)[0] == 0x20);
    }
    reading::lemma_tag_rejects(space, t);
    reading::lemma_list_reads(space, p, follow, parts, vals, t);
    let all = encode::spread(parts, space) + t;
    if parts.len() == 0 {
        assert(all =~= t);
    } else {
        assert(all[0] == 0x20);
    }
}

/// A list in parentheses is read back.
pub proof fn lemma_parens_read<T>(p: Rule<T>, tokens: Seq<Seq<Token>>, vals: Seq<T>)
    requires
        tokens.len() == vals.len(),
        vals.len() > 0,
        forall|i: int| 0 <= i < vals.len() ==> reading::reads(
            p,
            encode::flat(#[trigger] tokens[i]),
            vals[i],
        ),
    ensures
        reads_alone(g::paren_list1(p), encode::flat(encode::paren_tokens(tokens)), vals),
{
    let parts = encode::flat_parts(tokens);
    encode::lemma_flat_paren(tokens);
    assert forall|i: int| 0 <= i < parts.len() implies reading::reads(
        p,
        #[trigger] parts[i],
        vals[i],
    ) by {
        assert(parts[i] == encode::flat(tokens[i]));
    }
    assert forall|t: Seq<u8>| #[trigger] g::paren_list1(p)(
        encode::flat(encode::paren_tokens(tokens)) + t,
    ) == Outcome::Done(t, vals) by {
        reading::lemma_parens_reads(p, parts, vals, t);
    }
}

/// `nil` is read back, and does not start with a parenthesis.
pub proof fn lemma_nil_reads<T>(v: T, t: Seq<u8>)
    ensures
        nil(v)(encode::flat(encode::word("NIL")) + t) == Outcome::Done(t, v),
        (encode::flat(encode::word("NIL")) + t).len() > 0,
        (encode::flat(encode::word("NIL")) + t)[0] == 'N' as u8,
        g::text("(")(encode::flat(encode::word("NIL")) + t) is Reject,
{
    let s = encode::flat(encode::word("NIL")) + t;
    encode::lemma_flat_word("NIL");
    reveal_strlit("NIL");
    reveal_strlit("(");
    assert(s[0] == 'N' as u8);
    reading::lemma_tag_rejects(ascii::bytes_of("("), s);
    reading::lemma_tag_no_case_reads(ascii::bytes_of("NIL"), t);
}

// -------------------------------------------------------------------- literals

pub proof fn lemma_two_traced<A, B>(
    p: Rule<A>,
    q: Rule<B>,
    fa: spec_fn(A) -> Seq<Seq<u8>>,
    fb: spec_fn(B) -> Seq<Seq<u8>>,
    f: spec_fn((A, B)) -> Seq<Seq<u8>>,
)
    requires
        sp::traced(p, fa),
        sp::traced(q, fb),
        forall|a: A, b: B| f((a, b)) == #[trigger] fa(a) + #[trigger] fb(b),
    ensures
        sp::traced(two(p, q), f),
{
    sp::lemma_marks_quiet();
    sp::lemma_preceded_traced(g::text(" "), q, fb);
    sp::lemma_pair_traced(p, args::sp(q), fa, fb, f);
}

pub proof fn lemma_tailed_traced<A, B>(
    p: Rule<A>,
    q: Rule<B>,
    fa: spec_fn(A) -> Seq<Seq<u8>>,
    fb: spec_fn(B) -> Seq<Seq<u8>>,
    fo: spec_fn(Option<B>) -> Seq<Seq<u8>>,
    f: spec_fn((A, Option<B>)) -> Seq<Seq<u8>>,
)
    requires
        sp::traced(p, fa),
        sp::traced(q, fb),
        forall|b: B| fo(Some(b)) == #[trigger] fb(b),
        fo(None) == Seq::<Seq<u8>>::empty(),
        forall|a: A, b: Option<B>| f((a, b)) == #[trigger] fa(a) + #[trigger] fo(b),
    ensures
        sp::traced(tailed(p, q), f),
        sp::traced(g::opt(args::sp(q)), fo),
{
    sp::lemma_marks_quiet();
    sp::lemma_preceded_traced(g::text(" "), q, fb);
    sp::lemma_opt_traced(args::sp(q), fb, fo);
    sp::lemma_pair_traced(p, g::opt(args::sp(q)), fa, fo, f);
}

pub proof fn lemma_linked_traced<A, B>(
    p: Rule<A>,
    q: spec_fn(A) -> Rule<B>,
    fa: spec_fn(A) -> Seq<Seq<u8>>,
    fb: spec_fn(B) -> Seq<Seq<u8>>,
    f: spec_fn((A, B)) -> Seq<Seq<u8>>,
)
    requires
        sp::traced(p, fa),
        forall|a: A| sp::traced(#[trigger] q(a), fb),
        forall|a: A, b: B| f((a, b)) == #[trigger] fa(a) + #[trigger] fb(b),
    ensures
        sp::traced(linked(p, q), f),
{
    let c = linked(p, q);
    assert forall|s: Seq<u8>| sp::carries(#[trigger] c(s), s, f) by {
        assert(sp::carries(p(s), s, fa));
        if let Outcome::Done(_, a) = p(s) {
            assert(sp::traced(q(a), fb));
            sp::lemma_pair_traced(p, q(a), fa, fb, f);
            assert(sp::carries(g::pair(p, q(a))(s), s, f));
        }
    }
}

pub proof fn lemma_enclosed_traced<T>(p: Rule<T>, f: spec_fn(T) -> Seq<Seq<u8>>)
    requires
        sp::traced(p, f),
    ensures
        sp::traced(enclosed(p), f),
        sp::traced(closing(p), f),
{
    sp::lemma_marks_quiet();
    sp::lemma_terminated_traced(p, g::text(")"), f);
    sp::lemma_delimited_traced(g::text("("), p, g::text(")"), f);
}

pub proof fn lemma_nil_traced<T>(v: T, f: spec_fn(T) -> Seq<Seq<u8>>)
    requires
        f(v) == Seq::<Seq<u8>>::empty(),
    ensures
        sp::traced(nil(v), f),
{
    let none = |x: T| Seq::<Seq<u8>>::empty();
    reveal_strlit("NIL");
    sp::lemma_tag_no_case_quiet(ascii::bytes_of("NIL"));
    sp::lemma_value_quiet(v, g::word("NIL"));
    sp::lemma_quiet_traced(nil(v), none);
    assert forall|s: Seq<u8>| sp::carries(#[trigger] nil(v)(s), s, f) by {
        assert(sp::carries(nil(v)(s), s, none));
    }
}

pub proof fn lemma_row_traced<T>(
    p: Rule<T>,
    f: spec_fn(T) -> Seq<Seq<u8>>,
    fs: spec_fn(Seq<T>) -> Seq<Seq<u8>>,
)
    requires
        sp::traced(p, f),
        forall|v: Seq<T>| #[trigger] fs(v) == sp::gathered(v, f),
    ensures
        sp::traced(row(p), fs),
{
    sp::lemma_marks_quiet();
    sp::lemma_repeated_traced(g::text("("), p, f, fs);
    sp::lemma_verify_traced(g::repeated(g::text("("), p), |v: Seq<T>| v.len() > 0, fs);
}

} // verus!
