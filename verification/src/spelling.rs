//! Where the literals of a text stand: a text is made of lines that announce
//! literals, and of the literals.
use vstd::prelude::*;

use crate::ascii;
use crate::fragmentizer as lines;
use crate::fragmentizer::LatestByte;
use crate::grammar as g;
use crate::grammar::{Outcome, Rule};

verus! {

pub open spec fn no_line_feed(s: Seq<u8>) -> bool {
    forall|i: int| 0 <= i < s.len() ==> #[trigger] s[i] != 0x0a
}

/// Whether a line announces a literal of this length. Its line feed is not part
/// of it.
pub open spec fn announces(line: Seq<u8>, length: nat) -> bool {
    lines::advanced(LatestByte::Other, line) matches LatestByte::Cr { announcement: Some(a) }
        && a.length == length
}

/// The literals of a text, from left to right, are these: each line feed
/// outside of them ends the announcement of the next one.
pub open spec fn spelled(c: Seq<u8>, literals: Seq<Seq<u8>>) -> bool
    decreases literals.len(),
{
    let n = lines::line_feed(c) as int;
    if literals.len() == 0 {
        n == c.len()
    } else {
        let length = literals[0].len() as int;
        let after = c.skip(n + 1);
        &&& n < c.len()
        &&& announces(c.take(n), literals[0].len())
        &&& length <= after.len()
        &&& after.take(length) == literals[0]
        &&& spelled(after.skip(length), literals.skip(1))
    }
}

/// A mailbox name that is INBOX is kept without the form that it had.
pub open spec fn none_is_inbox(literals: Seq<Seq<u8>>) -> bool {
    forall|i: int|
        0 <= i < literals.len() ==> !ascii::same_word(
            #[trigger] literals[i],
            ascii::bytes_of("INBOX"),
        )
}

/// What was read from a text holds its literals, and no others.
pub open spec fn holds_literals(c: Seq<u8>, payloads: Seq<Seq<u8>>) -> bool {
    exists|literals: Seq<Seq<u8>>| #[trigger]
        spelled(c, literals) && (none_is_inbox(literals) ==> payloads == literals)
}

/// What was read of an input.
pub open spec fn front(s: Seq<u8>, rest: Seq<u8>) -> Seq<u8> {
    s.take(s.len() - rest.len())
}

pub open spec fn carries<T>(o: Outcome<T>, s: Seq<u8>, f: spec_fn(T) -> Seq<Seq<u8>>) -> bool {
    match o {
        Outcome::Done(r, v) => g::is_rest(o, s) && holds_literals(front(s, r), f(v)),
        _ => true,
    }
}

/// The rule keeps the literals that it reads: `f` gives them.
pub open spec fn traced<T>(p: Rule<T>, f: spec_fn(T) -> Seq<Seq<u8>>) -> bool {
    forall|s: Seq<u8>| carries(#[trigger] p(s), s, f)
}

pub open spec fn is_quiet<T>(o: Outcome<T>, s: Seq<u8>) -> bool {
    match o {
        Outcome::Done(r, v) => g::is_rest(o, s) && forall|i: int|
            0 <= i < s.len() - r.len() ==> #[trigger] s[i] != 0x0a,
        _ => true,
    }
}

/// The rule reads no line feed, and so no literal.
pub open spec fn quiet<T>(p: Rule<T>) -> bool {
    forall|s: Seq<u8>| is_quiet(#[trigger] p(s), s)
}

/// The literals of all items of a list.
pub open spec fn gathered<T>(v: Seq<T>, f: spec_fn(T) -> Seq<Seq<u8>>) -> Seq<Seq<u8>>
    decreases v.len(),
{
    if v.len() == 0 {
        seq![]
    } else {
        gathered(v.drop_last(), f) + f(v.last())
    }
}

// ------------------------------------------------------------------------ text

pub proof fn lemma_quiet_text(c: Seq<u8>)
    requires
        no_line_feed(c),
    ensures
        lines::line_feed(c) == c.len(),
        spelled(c, seq![]),
{
    lines::lemma_line_feed_is(c, c.len() as int);
}

pub proof fn lemma_spelled_add(a: Seq<u8>, x: Seq<Seq<u8>>, b: Seq<u8>, y: Seq<Seq<u8>>)
    requires
        spelled(a, x),
        spelled(b, y),
    ensures
        spelled(a + b, x + y),
    decreases x.len(),
{
    let c = a + b;
    let n = lines::line_feed(a) as int;
    lines::lemma_line_feed(a);
    lines::lemma_line_feed(b);
    if x.len() == 0 {
        assert(x + y =~= y);
        let m = lines::line_feed(b) as int;
        assert forall|i: int| 0 <= i < n + m implies #[trigger] c[i] != 0x0a by {
            if i < n {
                assert(a[i] != 0x0a);
            } else {
                assert(b[i - n] != 0x0a);
            }
        }
        lines::lemma_line_feed_is(c, n + m);
        if y.len() > 0 {
            assert(c.take(n + m) =~= a + b.take(m));
            lines::lemma_advanced_add(LatestByte::Other, a, b.take(m));
            lines::lemma_announcement_stays(lines::advanced(LatestByte::Other, a), b.take(m));
            assert(c.skip(n + m + 1) =~= b.skip(m + 1));
        }
    } else {
        let length = x[0].len() as int;
        let after = a.skip(n + 1);
        assert forall|i: int| 0 <= i < n implies #[trigger] c[i] != 0x0a by {
            assert(a[i] != 0x0a);
        }
        assert(c[n] == a[n]);
        lines::lemma_line_feed_is(c, n);
        assert(c.take(n) =~= a.take(n));
        assert(c.skip(n + 1) =~= after + b);
        assert((after + b).take(length) =~= after.take(length));
        assert((after + b).skip(length) =~= after.skip(length) + b);
        assert((x + y)[0] == x[0]);
        assert((x + y).skip(1) =~= x.skip(1) + y);
        lemma_spelled_add(after.skip(length), x.skip(1), b, y);
    }
}

/// A text has its literals in one way only.
pub proof fn lemma_spelled_once(c: Seq<u8>, x: Seq<Seq<u8>>, y: Seq<Seq<u8>>)
    requires
        spelled(c, x),
        spelled(c, y),
    ensures
        x == y,
    decreases x.len(),
{
    if x.len() == 0 || y.len() == 0 {
        assert(x =~= y);
    } else {
        let n = lines::line_feed(c) as int;
        let after = c.skip(n + 1);
        assert(x[0].len() == y[0].len());
        assert(x[0] == y[0]);
        lemma_spelled_once(after.skip(x[0].len() as int), x.skip(1), y.skip(1));
        assert(x =~= seq![x[0]] + x.skip(1));
        assert(y =~= seq![y[0]] + y.skip(1));
    }
}

/// An announcement and its literal.
pub proof fn lemma_spelled_literal(line: Seq<u8>, data: Seq<u8>)
    requires
        no_line_feed(line),
        announces(line, data.len()),
    ensures
        spelled(line + seq![0x0au8] + data, seq![data]),
{
    let c = line + seq![0x0au8] + data;
    let n = line.len() as int;
    assert forall|i: int| 0 <= i < n implies #[trigger] c[i] != 0x0a by {
        assert(line[i] != 0x0a);
    }
    lines::lemma_line_feed_is(c, n);
    assert(c.take(n) =~= line);
    assert(c.skip(n + 1) =~= data);
    assert(data.take(data.len() as int) =~= data);
    let none: Seq<u8> = data.skip(data.len() as int);
    assert(none.len() == 0);
    assert(seq![data].skip(1) =~= seq![]);
    lemma_quiet_text(none);
}

proof fn lemma_held_add(a: Seq<u8>, x: Seq<Seq<u8>>, b: Seq<u8>, y: Seq<Seq<u8>>)
    requires
        holds_literals(a, x),
        holds_literals(b, y),
    ensures
        holds_literals(a + b, x + y),
{
    let u = choose|u: Seq<Seq<u8>>| #[trigger]
        spelled(a, u) && (none_is_inbox(u) ==> x == u);
    let v = choose|v: Seq<Seq<u8>>| #[trigger]
        spelled(b, v) && (none_is_inbox(v) ==> y == v);
    lemma_spelled_add(a, u, b, v);
    if none_is_inbox(u + v) {
        assert forall|i: int| 0 <= i < u.len() implies !ascii::same_word(
            #[trigger] u[i],
            ascii::bytes_of("INBOX"),
        ) by {
            assert((u + v)[i] == u[i]);
        }
        assert forall|i: int| 0 <= i < v.len() implies !ascii::same_word(
            #[trigger] v[i],
            ascii::bytes_of("INBOX"),
        ) by {
            assert((u + v)[u.len() + i] == v[i]);
        }
    }
}

/// The front of an input up to the end of a literal.
pub proof fn lemma_literal_front(s: Seq<u8>, r: Seq<u8>, length: int)
    requires
        r.len() <= s.len(),
        r == s.skip(s.len() - r.len()),
        front(s, r).len() > 0,
        front(s, r).last() == 0x0a,
        0 <= length <= r.len(),
    ensures
        r.skip(length) == s.skip(s.len() - r.skip(length).len()),
        front(s, r.skip(length)) == front(s, r).drop_last() + seq![0x0au8] + r.take(length),
{
    let r2 = r.skip(length);
    assert(r2 =~= s.skip(s.len() - r2.len()));
    assert(front(s, r2) =~= front(s, r).drop_last() + seq![0x0au8] + r.take(length));
}

pub proof fn lemma_held(c: Seq<u8>, literals: Seq<Seq<u8>>)
    requires
        spelled(c, literals),
    ensures
        holds_literals(c, literals),
{
}

proof fn lemma_held_nothing(c: Seq<u8>)
    requires
        no_line_feed(c),
    ensures
        holds_literals(c, seq![]),
{
    lemma_quiet_text(c);
    assert(spelled(c, seq![]));
}

proof fn lemma_front(s: Seq<u8>, r: Seq<u8>, r2: Seq<u8>)
    requires
        r.len() <= s.len(),
        r == s.skip(s.len() - r.len()),
        r2.len() <= r.len(),
        r2 == r.skip(r.len() - r2.len()),
    ensures
        r2 == s.skip(s.len() - r2.len()),
        front(s, r2) == front(s, r) + front(r, r2),
{
    assert(r2 =~= s.skip(s.len() - r2.len()));
    assert(front(s, r2) =~= front(s, r) + front(r, r2));
}

/// One step after another: what both read is what they read together.
proof fn lemma_steps_carry(
    s: Seq<u8>,
    r: Seq<u8>,
    x: Seq<Seq<u8>>,
    r2: Seq<u8>,
    y: Seq<Seq<u8>>,
)
    requires
        r.len() <= s.len(),
        r == s.skip(s.len() - r.len()),
        r2.len() <= r.len(),
        r2 == r.skip(r.len() - r2.len()),
        holds_literals(front(s, r), x),
        holds_literals(front(r, r2), y),
    ensures
        r2 == s.skip(s.len() - r2.len()),
        holds_literals(front(s, r2), x + y),
{
    lemma_front(s, r, r2);
    lemma_held_add(front(s, r), x, front(r, r2), y);
}

proof fn lemma_quiet_front<T>(p: Rule<T>, s: Seq<u8>)
    requires
        quiet(p),
    ensures
        p(s) matches Outcome::Done(r, v) ==> g::is_rest(p(s), s) && no_line_feed(front(s, r))
            && holds_literals(front(s, r), seq![]),
{
    assert(is_quiet(p(s), s));
    if let Outcome::Done(r, v) = p(s) {
        assert forall|i: int| 0 <= i < front(s, r).len() implies #[trigger] front(s, r)[i]
            != 0x0a by {
            assert(s[i] != 0x0a);
        }
        lemma_held_nothing(front(s, r));
    }
}

// ----------------------------------------------------------------- quiet rules

pub broadcast proof fn lemma_success_quiet<T>(v: T)
    ensures
        #[trigger] quiet(g::success(v)),
{
    assert forall|s: Seq<u8>| is_quiet(#[trigger] g::success(v)(s), s) by {
        assert(s =~= s.skip(0));
    }
}

pub broadcast proof fn lemma_never_quiet<T>()
    ensures
        #[trigger] quiet(g::never::<T>()),
{
}

proof fn lemma_quiet_steps(s: Seq<u8>, r: Seq<u8>, r2: Seq<u8>)
    requires
        r.len() <= s.len(),
        r == s.skip(s.len() - r.len()),
        r2.len() <= r.len(),
        r2 == r.skip(r.len() - r2.len()),
        forall|i: int| 0 <= i < s.len() - r.len() ==> #[trigger] s[i] != 0x0a,
        forall|i: int| 0 <= i < r.len() - r2.len() ==> #[trigger] r[i] != 0x0a,
    ensures
        r2 == s.skip(s.len() - r2.len()),
        forall|i: int| 0 <= i < s.len() - r2.len() ==> #[trigger] s[i] != 0x0a,
{
    assert(r2 =~= s.skip(s.len() - r2.len()));
    let n = s.len() - r.len();
    assert forall|i: int| 0 <= i < s.len() - r2.len() implies #[trigger] s[i] != 0x0a by {
        if i >= n {
            assert(r[i - n] == s[i]);
        }
    }
}

pub broadcast proof fn lemma_chain_quiet<A, B>(p: Rule<A>, f: spec_fn(A) -> Rule<B>)
    requires
        quiet(p),
        forall|a: A| quiet(#[trigger] f(a)),
    ensures
        #[trigger] quiet(g::chain(p, f)),
{
    let c = g::chain(p, f);
    assert forall|s: Seq<u8>| is_quiet(#[trigger] c(s), s) by {
        assert(is_quiet(p(s), s));
        if let Outcome::Done(r, a) = p(s) {
            assert(quiet(f(a)));
            assert(is_quiet(f(a)(r), r));
            if let Outcome::Done(r2, b) = f(a)(r) {
                lemma_quiet_steps(s, r, r2);
            }
        }
    }
}

pub broadcast proof fn lemma_pair_quiet<A, B>(p: Rule<A>, q: Rule<B>)
    requires
        quiet(p),
        quiet(q),
    ensures
        #[trigger] quiet(g::pair(p, q)),
{
    let c = g::pair(p, q);
    assert forall|s: Seq<u8>| is_quiet(#[trigger] c(s), s) by {
        assert(is_quiet(p(s), s));
        if let Outcome::Done(r, a) = p(s) {
            assert(is_quiet(q(r), r));
            if let Outcome::Done(r2, b) = q(r) {
                lemma_quiet_steps(s, r, r2);
            }
        }
    }
}

pub broadcast proof fn lemma_preceded_quiet<A, B>(p: Rule<A>, q: Rule<B>)
    requires
        quiet(p),
        quiet(q),
    ensures
        #[trigger] quiet(g::preceded(p, q)),
{
    let c = g::preceded(p, q);
    assert forall|s: Seq<u8>| is_quiet(#[trigger] c(s), s) by {
        assert(is_quiet(p(s), s));
        if let Outcome::Done(r, a) = p(s) {
            assert(is_quiet(q(r), r));
            if let Outcome::Done(r2, b) = q(r) {
                lemma_quiet_steps(s, r, r2);
            }
        }
    }
}

pub broadcast proof fn lemma_terminated_quiet<A, B>(p: Rule<A>, q: Rule<B>)
    requires
        quiet(p),
        quiet(q),
    ensures
        #[trigger] quiet(g::terminated(p, q)),
{
    let c = g::terminated(p, q);
    assert forall|s: Seq<u8>| is_quiet(#[trigger] c(s), s) by {
        assert(is_quiet(p(s), s));
        if let Outcome::Done(r, a) = p(s) {
            assert(is_quiet(q(r), r));
            if let Outcome::Done(r2, b) = q(r) {
                lemma_quiet_steps(s, r, r2);
            }
        }
    }
}

pub broadcast proof fn lemma_delimited_quiet<A, B, C>(p: Rule<A>, q: Rule<B>, r: Rule<C>)
    requires
        quiet(p),
        quiet(q),
        quiet(r),
    ensures
        #[trigger] quiet(g::delimited(p, q, r)),
{
    lemma_terminated_quiet(q, r);
    lemma_preceded_quiet(p, g::terminated(q, r));
}

pub broadcast proof fn lemma_alt_quiet<T>(p: Rule<T>, q: Rule<T>)
    requires
        quiet(p),
        quiet(q),
    ensures
        #[trigger] quiet(g::alt(p, q)),
{
    let c = g::alt(p, q);
    assert forall|s: Seq<u8>| is_quiet(#[trigger] c(s), s) by {
        assert(is_quiet(p(s), s));
        assert(is_quiet(q(s), s));
    }
}

pub broadcast proof fn lemma_opt_quiet<T>(p: Rule<T>)
    requires
        quiet(p),
    ensures
        #[trigger] quiet(g::opt(p)),
{
    let c = g::opt(p);
    assert forall|s: Seq<u8>| is_quiet(#[trigger] c(s), s) by {
        assert(is_quiet(p(s), s));
        assert(s =~= s.skip(0));
    }
}

pub broadcast proof fn lemma_mapped_quiet<A, B>(p: Rule<A>, f: spec_fn(A) -> B)
    requires
        quiet(p),
    ensures
        #[trigger] quiet(g::mapped(p, f)),
{
    let c = g::mapped(p, f);
    assert forall|s: Seq<u8>| is_quiet(#[trigger] c(s), s) by {
        assert(is_quiet(p(s), s));
    }
}

pub broadcast proof fn lemma_value_quiet<A, B>(v: B, p: Rule<A>)
    requires
        quiet(p),
    ensures
        #[trigger] quiet(g::value(v, p)),
{
    lemma_mapped_quiet(p, |a: A| v);
}

pub broadcast proof fn lemma_map_opt_quiet<A, B>(p: Rule<A>, f: spec_fn(A) -> Option<B>)
    requires
        quiet(p),
    ensures
        #[trigger] quiet(g::map_opt(p, f)),
{
    let c = g::map_opt(p, f);
    assert forall|s: Seq<u8>| is_quiet(#[trigger] c(s), s) by {
        assert(is_quiet(p(s), s));
    }
}

pub broadcast proof fn lemma_verify_quiet<A>(p: Rule<A>, f: spec_fn(A) -> bool)
    requires
        quiet(p),
    ensures
        #[trigger] quiet(g::verify(p, f)),
{
    let c = g::verify(p, f);
    assert forall|s: Seq<u8>| is_quiet(#[trigger] c(s), s) by {
        assert(is_quiet(p(s), s));
    }
}

proof fn lemma_repeated_step_quiet<A, T>(sep: Rule<A>, p: Rule<T>, s: Seq<u8>)
    requires
        quiet(sep),
        quiet(p),
    ensures
        is_quiet(g::repeated_from(sep, p, s), s),
    decreases s.len(),
{
    assert(s =~= s.skip(0));
    assert(is_quiet(sep(s), s));
    if let Outcome::Done(r, a) = sep(s) {
        if r.len() < s.len() {
            assert(is_quiet(p(r), r));
            if let Outcome::Done(r2, x) = p(r) {
                lemma_quiet_steps(s, r, r2);
                lemma_repeated_step_quiet(sep, p, r2);
                if let Outcome::Done(r3, xs) = g::repeated_from(sep, p, r2) {
                    lemma_quiet_steps(s, r2, r3);
                }
            }
        }
    }
}

pub broadcast proof fn lemma_repeated_quiet<A, T>(sep: Rule<A>, p: Rule<T>)
    requires
        quiet(sep),
        quiet(p),
    ensures
        #[trigger] quiet(g::repeated(sep, p)),
{
    assert forall|s: Seq<u8>| is_quiet(#[trigger] g::repeated(sep, p)(s), s) by {
        lemma_repeated_step_quiet(sep, p, s);
    }
}

pub broadcast proof fn lemma_separated_list1_quiet<A, T>(sep: Rule<A>, p: Rule<T>)
    requires
        quiet(sep),
        quiet(p),
    ensures
        #[trigger] quiet(g::separated_list1(sep, p)),
{
    let c = g::separated_list1(sep, p);
    assert forall|s: Seq<u8>| is_quiet(#[trigger] c(s), s) by {
        assert(is_quiet(p(s), s));
        if let Outcome::Done(r, x) = p(s) {
            lemma_repeated_step_quiet(sep, p, r);
            if let Outcome::Done(r2, xs) = g::repeated_from(sep, p, r) {
                lemma_quiet_steps(s, r, r2);
            }
        }
    }
}

pub broadcast proof fn lemma_separated_list0_quiet<A, T>(sep: Rule<A>, p: Rule<T>)
    requires
        quiet(sep),
        quiet(p),
    ensures
        #[trigger] quiet(g::separated_list0(sep, p)),
{
    lemma_separated_list1_quiet(sep, p);
    let c = g::separated_list0(sep, p);
    assert forall|s: Seq<u8>| is_quiet(#[trigger] c(s), s) by {
        assert(is_quiet(g::separated_list1(sep, p)(s), s));
        assert(s =~= s.skip(0));
    }
}

pub broadcast proof fn lemma_tag_quiet(b: Seq<u8>)
    requires
        no_line_feed(b),
    ensures
        #[trigger] quiet(g::tag_rule(b)),
{
    let c = g::tag_rule(b);
    assert forall|s: Seq<u8>| is_quiet(#[trigger] c(s), s) by {
        if c(s) is Done {
            let t = s.take(b.len() as int);
            assert forall|i: int| 0 <= i < b.len() implies #[trigger] s[i] != 0x0a by {
                assert(t[i] == s[i] && b[i] != 0x0a);
            }
        }
    }
}

pub broadcast proof fn lemma_tag_no_case_quiet(b: Seq<u8>)
    requires
        no_line_feed(b),
    ensures
        #[trigger] quiet(g::tag_no_case_rule(b)),
{
    let c = g::tag_no_case_rule(b);
    assert forall|s: Seq<u8>| is_quiet(#[trigger] c(s), s) by {
        if c(s) is Done {
            let t = s.take(b.len() as int);
            assert forall|i: int| 0 <= i < b.len() implies #[trigger] s[i] != 0x0a by {
                assert(b[i] != 0x0a);
                assert(ascii::uppercase(t)[i] == ascii::upper(t[i]));
                assert(ascii::uppercase(b)[i] == ascii::upper(b[i]));
            }
        }
    }
}

pub broadcast proof fn lemma_take_while1_quiet(class: spec_fn(u8) -> bool)
    requires
        !class(0x0a),
    ensures
        #[trigger] quiet(g::take_while1_rule(class)),
{
    let c = g::take_while1_rule(class);
    assert forall|s: Seq<u8>| is_quiet(#[trigger] c(s), s) by {
        g::lemma_run_length(s, class);
    }
}

pub broadcast proof fn lemma_take_while_quiet(class: spec_fn(u8) -> bool)
    requires
        !class(0x0a),
    ensures
        #[trigger] quiet(g::take_while_rule(class)),
{
    let c = g::take_while_rule(class);
    assert forall|s: Seq<u8>| is_quiet(#[trigger] c(s), s) by {
        g::lemma_run_length(s, class);
    }
}

pub broadcast group group_quiet {
    lemma_success_quiet,
    lemma_never_quiet,
    lemma_chain_quiet,
    lemma_pair_quiet,
    lemma_preceded_quiet,
    lemma_terminated_quiet,
    lemma_delimited_quiet,
    lemma_alt_quiet,
    lemma_opt_quiet,
    lemma_mapped_quiet,
    lemma_value_quiet,
    lemma_map_opt_quiet,
    lemma_verify_quiet,
    lemma_repeated_quiet,
    lemma_separated_list1_quiet,
    lemma_separated_list0_quiet,
    lemma_tag_quiet,
    lemma_tag_no_case_quiet,
    lemma_take_while1_quiet,
    lemma_take_while_quiet,
}

// ---------------------------------------------------------------- traced rules

pub proof fn lemma_quiet_traced<T>(p: Rule<T>, f: spec_fn(T) -> Seq<Seq<u8>>)
    requires
        quiet(p),
        forall|v: T| #[trigger] f(v) == Seq::<Seq<u8>>::empty(),
    ensures
        traced(p, f),
{
    assert forall|s: Seq<u8>| carries(#[trigger] p(s), s, f) by {
        lemma_quiet_front(p, s);
    }
}

/// A value that `h` makes has the literals of what it is made of.
pub proof fn lemma_mapped_traced<A, B>(
    p: Rule<A>,
    h: spec_fn(A) -> B,
    fa: spec_fn(A) -> Seq<Seq<u8>>,
    fb: spec_fn(B) -> Seq<Seq<u8>>,
)
    requires
        traced(p, fa),
        forall|a: A| fb(#[trigger] h(a)) == fa(a),
    ensures
        traced(g::mapped(p, h), fb),
{
    let c = g::mapped(p, h);
    assert forall|s: Seq<u8>| carries(#[trigger] c(s), s, fb) by {
        assert(carries(p(s), s, fa));
    }
}

/// The same, where the value holds none.
pub proof fn lemma_quiet_mapped_traced<A, B>(
    p: Rule<A>,
    h: spec_fn(A) -> B,
    fb: spec_fn(B) -> Seq<Seq<u8>>,
)
    requires
        quiet(p),
        forall|a: A| fb(#[trigger] h(a)) == Seq::<Seq<u8>>::empty(),
    ensures
        traced(g::mapped(p, h), fb),
{
    let none = |a: A| Seq::<Seq<u8>>::empty();
    lemma_quiet_traced(p, none);
    lemma_mapped_traced(p, h, none, fb);
}

pub proof fn lemma_alt_traced<T>(p: Rule<T>, q: Rule<T>, f: spec_fn(T) -> Seq<Seq<u8>>)
    requires
        traced(p, f),
        traced(q, f),
    ensures
        traced(g::alt(p, q), f),
{
    let c = g::alt(p, q);
    assert forall|s: Seq<u8>| carries(#[trigger] c(s), s, f) by {
        assert(carries(p(s), s, f));
        assert(carries(q(s), s, f));
    }
}

pub proof fn lemma_verify_traced<T>(
    p: Rule<T>,
    ok: spec_fn(T) -> bool,
    f: spec_fn(T) -> Seq<Seq<u8>>,
)
    requires
        traced(p, f),
    ensures
        traced(g::verify(p, ok), f),
{
    let c = g::verify(p, ok);
    assert forall|s: Seq<u8>| carries(#[trigger] c(s), s, f) by {
        assert(carries(p(s), s, f));
    }
}

pub proof fn lemma_opt_traced<T>(
    p: Rule<T>,
    f: spec_fn(T) -> Seq<Seq<u8>>,
    fo: spec_fn(Option<T>) -> Seq<Seq<u8>>,
)
    requires
        traced(p, f),
        forall|v: T| fo(Some(v)) == #[trigger] f(v),
        fo(None) == Seq::<Seq<u8>>::empty(),
    ensures
        traced(g::opt(p), fo),
{
    let c = g::opt(p);
    assert forall|s: Seq<u8>| carries(#[trigger] c(s), s, fo) by {
        assert(carries(p(s), s, f));
        assert(s =~= s.skip(0));
        let none: Seq<u8> = front(s, s);
        assert(none.len() == 0);
        lemma_held_nothing(none);
    }
}

pub proof fn lemma_preceded_traced<A, B>(p: Rule<A>, q: Rule<B>, f: spec_fn(B) -> Seq<Seq<u8>>)
    requires
        quiet(p),
        traced(q, f),
    ensures
        traced(g::preceded(p, q), f),
{
    let c = g::preceded(p, q);
    assert forall|s: Seq<u8>| carries(#[trigger] c(s), s, f) by {
        lemma_quiet_front(p, s);
        if let Outcome::Done(r, a) = p(s) {
            assert(carries(q(r), r, f));
            if let Outcome::Done(r2, b) = q(r) {
                lemma_steps_carry(s, r, seq![], r2, f(b));
                assert(Seq::<Seq<u8>>::empty() + f(b) =~= f(b));
            }
        }
    }
}

pub proof fn lemma_terminated_traced<A, B>(p: Rule<A>, q: Rule<B>, f: spec_fn(A) -> Seq<Seq<u8>>)
    requires
        traced(p, f),
        quiet(q),
    ensures
        traced(g::terminated(p, q), f),
{
    let c = g::terminated(p, q);
    assert forall|s: Seq<u8>| carries(#[trigger] c(s), s, f) by {
        assert(carries(p(s), s, f));
        if let Outcome::Done(r, a) = p(s) {
            lemma_quiet_front(q, r);
            if let Outcome::Done(r2, b) = q(r) {
                lemma_steps_carry(s, r, f(a), r2, seq![]);
                assert(f(a) + Seq::<Seq<u8>>::empty() =~= f(a));
            }
        }
    }
}

pub proof fn lemma_delimited_traced<A, B, C>(
    p: Rule<A>,
    q: Rule<B>,
    r: Rule<C>,
    f: spec_fn(B) -> Seq<Seq<u8>>,
)
    requires
        quiet(p),
        traced(q, f),
        quiet(r),
    ensures
        traced(g::delimited(p, q, r), f),
{
    lemma_terminated_traced(q, r, f);
    lemma_preceded_traced(p, g::terminated(q, r), f);
}

pub proof fn lemma_pair_traced<A, B>(
    p: Rule<A>,
    q: Rule<B>,
    fa: spec_fn(A) -> Seq<Seq<u8>>,
    fb: spec_fn(B) -> Seq<Seq<u8>>,
    f: spec_fn((A, B)) -> Seq<Seq<u8>>,
)
    requires
        traced(p, fa),
        traced(q, fb),
        forall|a: A, b: B| f((a, b)) == #[trigger] fa(a) + #[trigger] fb(b),
    ensures
        traced(g::pair(p, q), f),
{
    let c = g::pair(p, q);
    assert forall|s: Seq<u8>| carries(#[trigger] c(s), s, f) by {
        assert(carries(p(s), s, fa));
        if let Outcome::Done(r, a) = p(s) {
            assert(carries(q(r), r, fb));
            if let Outcome::Done(r2, b) = q(r) {
                lemma_steps_carry(s, r, fa(a), r2, fb(b));
                assert(f((a, b)) == fa(a) + fb(b));
            }
        }
    }
}

/// A rule that a word without literals selects.
pub proof fn lemma_chain_traced<A, B>(
    p: Rule<A>,
    q: spec_fn(A) -> Rule<B>,
    f: spec_fn(B) -> Seq<Seq<u8>>,
)
    requires
        quiet(p),
        forall|a: A| traced(#[trigger] q(a), f),
    ensures
        traced(g::chain(p, q), f),
{
    let c = g::chain(p, q);
    assert forall|s: Seq<u8>| carries(#[trigger] c(s), s, f) by {
        lemma_quiet_front(p, s);
        if let Outcome::Done(r, a) = p(s) {
            assert(traced(q(a), f));
            assert(carries(q(a)(r), r, f));
            if let Outcome::Done(r2, b) = q(a)(r) {
                lemma_steps_carry(s, r, seq![], r2, f(b));
                assert(Seq::<Seq<u8>>::empty() + f(b) =~= f(b));
            }
        }
    }
}

pub proof fn lemma_gathered_first<T>(x: T, v: Seq<T>, f: spec_fn(T) -> Seq<Seq<u8>>)
    ensures
        gathered(seq![x] + v, f) == f(x) + gathered(v, f),
    decreases v.len(),
{
    let w = seq![x] + v;
    if v.len() == 0 {
        assert(w.drop_last() =~= seq![]);
        assert(gathered(w.drop_last(), f) =~= seq![]);
        assert(w.last() == x);
        assert(gathered(w, f) =~= f(x) + gathered(v, f));
    } else {
        lemma_gathered_first(x, v.drop_last(), f);
        assert(w.drop_last() =~= seq![x] + v.drop_last());
        assert(w.last() == v.last());
        assert(gathered(w, f) =~= f(x) + gathered(v, f));
    }
}

proof fn lemma_repeated_step_traced<A, T>(
    sep: Rule<A>,
    p: Rule<T>,
    f: spec_fn(T) -> Seq<Seq<u8>>,
    s: Seq<u8>,
)
    requires
        quiet(sep),
        traced(p, f),
    ensures
        carries(g::repeated_from(sep, p, s), s, |v: Seq<T>| gathered(v, f)),
    decreases s.len(),
{
    let all = |v: Seq<T>| gathered(v, f);
    assert(s =~= s.skip(0));
    let none: Seq<u8> = front(s, s);
    assert(none.len() == 0);
    lemma_held_nothing(none);
    assert(gathered(Seq::<T>::empty(), f) =~= seq![]);
    lemma_quiet_front(sep, s);
    if let Outcome::Done(r, a) = sep(s) {
        if r.len() < s.len() {
            assert(carries(p(r), r, f));
            if let Outcome::Done(r2, x) = p(r) {
                lemma_steps_carry(s, r, seq![], r2, f(x));
                assert(Seq::<Seq<u8>>::empty() + f(x) =~= f(x));
                if r2.len() < s.len() {
                    lemma_repeated_step_traced(sep, p, f, r2);
                    if let Outcome::Done(r3, xs) = g::repeated_from(sep, p, r2) {
                        lemma_steps_carry(s, r2, f(x), r3, all(xs));
                        lemma_gathered_first(x, xs, f);
                    }
                }
            }
        }
    }
}

pub proof fn lemma_repeated_traced<A, T>(
    sep: Rule<A>,
    p: Rule<T>,
    f: spec_fn(T) -> Seq<Seq<u8>>,
    fs: spec_fn(Seq<T>) -> Seq<Seq<u8>>,
)
    requires
        quiet(sep),
        traced(p, f),
        forall|v: Seq<T>| #[trigger] fs(v) == gathered(v, f),
    ensures
        traced(g::repeated(sep, p), fs),
{
    assert forall|s: Seq<u8>| carries(#[trigger] g::repeated(sep, p)(s), s, fs) by {
        lemma_repeated_step_traced(sep, p, f, s);
    }
}

pub proof fn lemma_separated_list1_traced<A, T>(
    sep: Rule<A>,
    p: Rule<T>,
    f: spec_fn(T) -> Seq<Seq<u8>>,
    fs: spec_fn(Seq<T>) -> Seq<Seq<u8>>,
)
    requires
        quiet(sep),
        traced(p, f),
        forall|v: Seq<T>| #[trigger] fs(v) == gathered(v, f),
    ensures
        traced(g::separated_list1(sep, p), fs),
{
    let c = g::separated_list1(sep, p);
    assert forall|s: Seq<u8>| carries(#[trigger] c(s), s, fs) by {
        assert(carries(p(s), s, f));
        if let Outcome::Done(r, x) = p(s) {
            lemma_repeated_step_traced(sep, p, f, r);
            if let Outcome::Done(r2, xs) = g::repeated_from(sep, p, r) {
                lemma_steps_carry(s, r, f(x), r2, gathered(xs, f));
                lemma_gathered_first(x, xs, f);
                assert(fs(seq![x] + xs) == gathered(seq![x] + xs, f));
            }
        }
    }
}

pub proof fn lemma_separated_list0_traced<A, T>(
    sep: Rule<A>,
    p: Rule<T>,
    f: spec_fn(T) -> Seq<Seq<u8>>,
    fs: spec_fn(Seq<T>) -> Seq<Seq<u8>>,
)
    requires
        quiet(sep),
        traced(p, f),
        forall|v: Seq<T>| #[trigger] fs(v) == gathered(v, f),
    ensures
        traced(g::separated_list0(sep, p), fs),
{
    lemma_separated_list1_traced(sep, p, f, fs);
    let c = g::separated_list0(sep, p);
    assert forall|s: Seq<u8>| carries(#[trigger] c(s), s, fs) by {
        assert(carries(g::separated_list1(sep, p)(s), s, fs));
        assert(s =~= s.skip(0));
        let none: Seq<u8> = front(s, s);
        assert(none.len() == 0);
        lemma_held_nothing(none);
        assert(fs(seq![]) == gathered(Seq::<T>::empty(), f));
    }
}

pub proof fn lemma_paren_lists_traced<T>(
    p: Rule<T>,
    f: spec_fn(T) -> Seq<Seq<u8>>,
    fs: spec_fn(Seq<T>) -> Seq<Seq<u8>>,
)
    requires
        traced(p, f),
        forall|v: Seq<T>| #[trigger] fs(v) == gathered(v, f),
    ensures
        traced(g::paren_list0(p), fs),
        traced(g::paren_list1(p), fs),
{
    lemma_marks_quiet();
    lemma_separated_list0_traced(g::text(" "), p, f, fs);
    lemma_separated_list1_traced(g::text(" "), p, f, fs);
    lemma_delimited_traced(
        g::text("("),
        g::separated_list0(g::text(" "), p),
        g::text(")"),
        fs,
    );
    lemma_delimited_traced(
        g::text("("),
        g::separated_list1(g::text(" "), p),
        g::text(")"),
        fs,
    );
}

/// The marks between words.
pub proof fn lemma_marks_quiet()
    ensures
        quiet(g::text(" ")),
        quiet(g::text("(")),
        quiet(g::text(")")),
        quiet(g::text("[")),
        quiet(g::text("]")),
        quiet(g::text("<")),
        quiet(g::text(">")),
        quiet(g::text(".")),
        quiet(g::text(",")),
        quiet(g::text(":")),
        quiet(g::text("*")),
        quiet(g::text("~")),
        quiet(g::text("\"")),
        quiet(g::text("\\")),
{
    reveal_strlit(" ");
    reveal_strlit("(");
    reveal_strlit(")");
    reveal_strlit("[");
    reveal_strlit("]");
    reveal_strlit("<");
    reveal_strlit(">");
    reveal_strlit(".");
    reveal_strlit(",");
    reveal_strlit(":");
    reveal_strlit("*");
    reveal_strlit("~");
    reveal_strlit("\"");
    reveal_strlit("\\");
    lemma_tag_quiet(ascii::bytes_of(" "));
    lemma_tag_quiet(ascii::bytes_of("("));
    lemma_tag_quiet(ascii::bytes_of(")"));
    lemma_tag_quiet(ascii::bytes_of("["));
    lemma_tag_quiet(ascii::bytes_of("]"));
    lemma_tag_quiet(ascii::bytes_of("<"));
    lemma_tag_quiet(ascii::bytes_of(">"));
    lemma_tag_quiet(ascii::bytes_of("."));
    lemma_tag_quiet(ascii::bytes_of(","));
    lemma_tag_quiet(ascii::bytes_of(":"));
    lemma_tag_quiet(ascii::bytes_of("*"));
    lemma_tag_quiet(ascii::bytes_of("~"));
    lemma_tag_quiet(ascii::bytes_of("\""));
    lemma_tag_quiet(ascii::bytes_of("\\"));
}

} // verus!
