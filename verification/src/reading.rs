//! Reading back what was written: how rules behave on a text that is followed
//! by the delimiters of the grammar.
use vstd::prelude::*;

use crate::ascii;
use crate::ascii::upper;
use crate::encode;
use crate::grammar as g;
use crate::grammar::{Outcome, Rule};

verus! {

/// The input goes on with a space, a closing parenthesis or the end of the line.
pub open spec fn ends(t: Seq<u8>) -> bool {
    t.len() > 0 && (t[0] == 0x20 || t[0] == ')' as u8 || t[0] == 0x0d)
}

/// Before such a delimiter, the rule reads exactly `b`, and as `v`.
pub open spec fn reads<T>(p: Rule<T>, b: Seq<u8>, v: T) -> bool {
    forall|t: Seq<u8>| ends(t) ==> #[trigger] p(b + t) == Outcome::Done(t, v)
}

/// The same, before any input that `follow` admits.
pub open spec fn reads_before<T>(
    p: Rule<T>,
    b: Seq<u8>,
    v: T,
    follow: spec_fn(Seq<u8>) -> bool,
) -> bool {
    forall|t: Seq<u8>| follow(t) ==> #[trigger] p(b + t) == Outcome::Done(t, v)
}

pub broadcast proof fn lemma_tag_reads(b: Seq<u8>, t: Seq<u8>)
    ensures
        #[trigger] g::tag_rule(b)(b + t) == Outcome::Done(t, ()),
{
    assert((b + t).take(b.len() as int) =~= b);
    assert((b + t).skip(b.len() as int) =~= t);
}

pub broadcast proof fn lemma_tag_no_case_reads(b: Seq<u8>, t: Seq<u8>)
    ensures
        #[trigger] g::tag_no_case_rule(b)(b + t) == Outcome::Done(t, ()),
{
    assert((b + t).take(b.len() as int) =~= b);
    assert((b + t).skip(b.len() as int) =~= t);
}

pub proof fn lemma_take_while1_reads(class: spec_fn(u8) -> bool, b: Seq<u8>, t: Seq<u8>)
    requires
        b.len() > 0,
        ascii::all_bytes(b, class),
        t.len() > 0,
        !class(t[0]),
    ensures
        g::take_while1_rule(class)(b + t) == Outcome::Done(t, b),
{
    let n = b.len() as int;
    assert forall|i: int| 0 <= i < n implies class(#[trigger] (b + t)[i]) by {
        assert((b + t)[i] == b[i]);
    }
    g::lemma_run_length_is(b + t, class, n);
    assert((b + t).take(n) =~= b);
    assert((b + t).skip(n) =~= t);
}

pub proof fn lemma_take_while_reads(class: spec_fn(u8) -> bool, b: Seq<u8>, t: Seq<u8>)
    requires
        ascii::all_bytes(b, class),
        t.len() > 0,
        !class(t[0]),
    ensures
        g::take_while_rule(class)(b + t) == Outcome::Done(t, b),
{
    let n = b.len() as int;
    assert forall|i: int| 0 <= i < n implies class(#[trigger] (b + t)[i]) by {
        assert((b + t)[i] == b[i]);
    }
    g::lemma_run_length_is(b + t, class, n);
    assert((b + t).take(n) =~= b);
    assert((b + t).skip(n) =~= t);
}

pub proof fn lemma_take_while1_rejects(class: spec_fn(u8) -> bool, s: Seq<u8>)
    requires
        s.len() > 0,
        !class(s[0]),
    ensures
        g::take_while1_rule(class)(s) == Outcome::<Seq<u8>>::Reject,
{
    g::lemma_run_length_is(s, class, 0);
}

/// A text with another first byte is not read.
pub proof fn lemma_tag_rejects(b: Seq<u8>, s: Seq<u8>)
    requires
        b.len() > 0,
        s.len() > 0,
        b[0] != s[0],
    ensures
        g::tag_rule(b)(s) == Outcome::<()>::Reject,
{
    if s.len() >= b.len() {
        assert(s.take(b.len() as int)[0] == s[0]);
    } else {
        assert(b.take(s.len() as int)[0] == b[0]);
    }
}

/// A text that differs at some place of both is not read.
pub proof fn lemma_tag_no_case_rejects(b: Seq<u8>, s: Seq<u8>, i: int)
    requires
        0 <= i < b.len(),
        i < s.len(),
        upper(b[i]) != upper(s[i]),
    ensures
        g::tag_no_case_rule(b)(s) == Outcome::<()>::Reject,
{
    if s.len() >= b.len() {
        let x = s.take(b.len() as int);
        assert(ascii::uppercase(x)[i] == upper(s[i]));
        assert(ascii::uppercase(b)[i] == upper(b[i]));
    } else {
        let x = b.take(s.len() as int);
        assert(ascii::uppercase(x)[i] == upper(b[i]));
        assert(ascii::uppercase(s)[i] == upper(s[i]));
    }
}

proof fn lemma_repeated_reads<T>(
    sep: Seq<u8>,
    p: Rule<T>,
    follow: spec_fn(Seq<u8>) -> bool,
    parts: Seq<Seq<u8>>,
    vals: Seq<T>,
    t: Seq<u8>,
)
    requires
        sep.len() > 0,
        parts.len() == vals.len(),
        forall|i: int| 0 <= i < parts.len() ==> reads_before(p, #[trigger] parts[i], vals[i], follow),
        forall|r: Seq<u8>| follow(#[trigger] (sep + r)),
        follow(t),
        g::tag_rule(sep)(t) is Reject,
    ensures
        g::repeated_from(g::tag_rule(sep), p, encode::spread(parts, sep) + t) == Outcome::Done(
            t,
            vals,
        ),
        follow(encode::spread(parts, sep) + t),
    decreases parts.len(),
{
    if parts.len() == 0 {
        assert(encode::spread(parts, sep) + t =~= t);
        assert(vals =~= seq![]);
    } else {
        let rest = encode::spread(parts.skip(1), sep) + t;
        let whole = encode::spread(parts, sep) + t;
        assert forall|i: int| 0 <= i < parts.skip(1).len() implies reads_before(
            p,
            #[trigger] parts.skip(1)[i],
            vals.skip(1)[i],
            follow,
        ) by {
            assert(reads_before(p, parts[i + 1], vals[i + 1], follow));
        }
        lemma_repeated_reads(sep, p, follow, parts.skip(1), vals.skip(1), t);
        assert(whole =~= sep + (parts[0] + rest));
        lemma_tag_reads(sep, parts[0] + rest);
        assert(reads_before(p, parts[0], vals[0], follow));
        assert(p(parts[0] + rest) == Outcome::Done(rest, vals[0]));
        assert(seq![vals[0]] + vals.skip(1) =~= vals);
        assert(follow(sep + (parts[0] + rest)));
    }
}

/// A list is read back item by item.
pub proof fn lemma_list_reads<T>(
    sep: Seq<u8>,
    p: Rule<T>,
    follow: spec_fn(Seq<u8>) -> bool,
    parts: Seq<Seq<u8>>,
    vals: Seq<T>,
    t: Seq<u8>,
)
    requires
        sep.len() > 0,
        parts.len() == vals.len(),
        forall|i: int| 0 <= i < parts.len() ==> reads_before(p, #[trigger] parts[i], vals[i], follow),
        forall|r: Seq<u8>| follow(#[trigger] (sep + r)),
        follow(t),
        g::tag_rule(sep)(t) is Reject,
    ensures
        g::repeated(g::tag_rule(sep), p)(encode::spread(parts, sep) + t) == Outcome::Done(t, vals),
        parts.len() > 0 ==> g::separated_list1(g::tag_rule(sep), p)(encode::joined(parts, sep) + t)
            == Outcome::Done(t, vals),
        parts.len() > 0 || p(t) is Reject ==> g::separated_list0(g::tag_rule(sep), p)(
            encode::joined(parts, sep) + t,
        ) == Outcome::Done(t, vals),
{
    lemma_repeated_reads(sep, p, follow, parts, vals, t);
    if parts.len() == 0 {
        assert(encode::joined(parts, sep) + t =~= t);
        assert(vals =~= seq![]);
    } else {
        let rest = encode::spread(parts.skip(1), sep) + t;
        assert forall|i: int| 0 <= i < parts.skip(1).len() implies reads_before(
            p,
            #[trigger] parts.skip(1)[i],
            vals.skip(1)[i],
            follow,
        ) by {
            assert(reads_before(p, parts[i + 1], vals[i + 1], follow));
        }
        lemma_repeated_reads(sep, p, follow, parts.skip(1), vals.skip(1), t);
        assert(encode::joined(parts, sep) + t =~= parts[0] + rest);
        assert(reads_before(p, parts[0], vals[0], follow));
        assert(p(parts[0] + rest) == Outcome::Done(rest, vals[0]));
        assert(seq![vals[0]] + vals.skip(1) =~= vals);
    }
}

pub proof fn lemma_repeated_reads_direct<T>(
    sep: Seq<u8>,
    p: Rule<T>,
    parts: Seq<Seq<u8>>,
    vals: Seq<T>,
    t: Seq<u8>,
)
    requires
        sep.len() > 0,
        parts.len() == vals.len(),
        forall|i: int|
            0 <= i < parts.len() ==> reads_at(p, #[trigger] parts[i], vals[i], rest_of(parts, sep, t, i)),
        g::repeated_from(g::tag_rule(sep), p, t) == Outcome::Done(t, Seq::<T>::empty()),
    ensures
        g::repeated_from(g::tag_rule(sep), p, encode::spread(parts, sep) + t) == Outcome::Done(
            t,
            vals,
        ),
    decreases parts.len(),
{
    if parts.len() == 0 {
        assert(encode::spread(parts, sep) + t =~= t);
        assert(vals =~= seq![]);
    } else {
        let rest = encode::spread(parts.skip(1), sep) + t;
        let whole = encode::spread(parts, sep) + t;
        let tail = parts.skip(1);
        assert forall|i: int| 0 <= i < tail.len() implies reads_at(
            p,
            #[trigger] tail[i],
            vals.skip(1)[i],
            rest_of(tail, sep, t, i),
        ) by {
            assert(reads_at(p, parts[i + 1], vals[i + 1], rest_of(parts, sep, t, i + 1)));
            assert(tail.skip(i + 1) =~= parts.skip(i + 2));
        }
        lemma_repeated_reads_direct(sep, p, tail, vals.skip(1), t);
        assert(whole =~= sep + (parts[0] + rest));
        lemma_tag_reads(sep, parts[0] + rest);
        assert(reads_at(p, parts[0], vals[0], rest_of(parts, sep, t, 0)));
        assert(seq![vals[0]] + vals.skip(1) =~= vals);
    }
}

/// Before this very input, the rule reads exactly `b`, and as `v`.
pub open spec fn reads_at<T>(p: Rule<T>, b: Seq<u8>, v: T, t: Seq<u8>) -> bool {
    p(b + t) == Outcome::Done(t, v)
}

/// What follows the item `i` of a list.
pub open spec fn rest_of(parts: Seq<Seq<u8>>, sep: Seq<u8>, t: Seq<u8>, i: int) -> Seq<u8> {
    encode::spread(parts.skip(i + 1), sep) + t
}

/// A list is read back where each item is read before what follows it there.
pub proof fn lemma_list_reads_direct<T>(
    sep: Seq<u8>,
    p: Rule<T>,
    parts: Seq<Seq<u8>>,
    vals: Seq<T>,
    t: Seq<u8>,
)
    requires
        sep.len() > 0,
        parts.len() == vals.len(),
        forall|i: int|
            0 <= i < parts.len() ==> reads_at(p, #[trigger] parts[i], vals[i], rest_of(parts, sep, t, i)),
        g::repeated_from(g::tag_rule(sep), p, t) == Outcome::Done(t, Seq::<T>::empty()),
    ensures
        g::repeated(g::tag_rule(sep), p)(encode::spread(parts, sep) + t) == Outcome::Done(t, vals),
        parts.len() > 0 ==> g::separated_list1(g::tag_rule(sep), p)(encode::joined(parts, sep) + t)
            == Outcome::Done(t, vals),
        parts.len() > 0 || p(t) is Reject ==> g::separated_list0(g::tag_rule(sep), p)(
            encode::joined(parts, sep) + t,
        ) == Outcome::Done(t, vals),
{
    lemma_repeated_reads_direct(sep, p, parts, vals, t);
    if parts.len() == 0 {
        assert(encode::joined(parts, sep) + t =~= t);
        assert(vals =~= seq![]);
    } else {
        let tail = parts.skip(1);
        let rest = encode::spread(tail, sep) + t;
        assert forall|i: int| 0 <= i < tail.len() implies reads_at(
            p,
            #[trigger] tail[i],
            vals.skip(1)[i],
            rest_of(tail, sep, t, i),
        ) by {
            assert(reads_at(p, parts[i + 1], vals[i + 1], rest_of(parts, sep, t, i + 1)));
            assert(tail.skip(i + 1) =~= parts.skip(i + 2));
        }
        lemma_repeated_reads_direct(sep, p, tail, vals.skip(1), t);
        assert(encode::joined(parts, sep) + t =~= parts[0] + rest);
        assert(reads_at(p, parts[0], vals[0], rest_of(parts, sep, t, 0)));
        assert(seq![vals[0]] + vals.skip(1) =~= vals);
    }
}

/// A list in parentheses is read back item by item.
pub proof fn lemma_parens_reads<T>(p: Rule<T>, parts: Seq<Seq<u8>>, vals: Seq<T>, t: Seq<u8>)
    requires
        parts.len() == vals.len(),
        forall|i: int| 0 <= i < parts.len() ==> reads(p, #[trigger] parts[i], vals[i]),
    ensures
        ({
            let b = ascii::bytes_of("(") + encode::joined(parts, ascii::bytes_of(" "))
                + ascii::bytes_of(")");
            &&& parts.len() > 0 ==> g::paren_list1(p)(b + t) == Outcome::Done(t, vals)
            &&& parts.len() > 0 || (p(ascii::bytes_of(")") + t) is Reject) ==> g::paren_list0(p)(
                b + t,
            ) == Outcome::Done(t, vals)
        }),
{
    reveal_strlit("(");
    reveal_strlit(" ");
    reveal_strlit(")");
    let open = ascii::bytes_of("(");
    let sep = ascii::bytes_of(" ");
    let close = ascii::bytes_of(")");
    let inner = encode::joined(parts, sep);
    let follow = |x: Seq<u8>| ends(x);
    assert forall|i: int| 0 <= i < parts.len() implies reads_before(
        p,
        #[trigger] parts[i],
        vals[i],
        follow,
    ) by {
        assert(reads(p, parts[i], vals[i]));
    }
    assert forall|r: Seq<u8>| follow(#[trigger] (sep + r)) by {
        assert((sep + r)[0] == 0x20);
    }
    assert((close + t)[0] == ')' as u8);
    lemma_tag_rejects(sep, close + t);
    lemma_list_reads(sep, p, follow, parts, vals, close + t);
    let whole = (open + inner + close) + t;
    assert(whole =~= open + (inner + (close + t)));
    lemma_tag_reads(open, inner + (close + t));
    lemma_tag_reads(close, t);
}


/// Words with different first letters are told apart.
pub broadcast proof fn lemma_word_differs(b: Seq<u8>, s: Seq<u8>)
    requires
        b.len() > 0,
        s.len() > 0,
        upper(b[0]) != upper(s[0]),
    ensures
        #[trigger] g::tag_no_case_rule(b)(s) == Outcome::<()>::Reject,
{
    lemma_tag_no_case_rejects(b, s, 0);
}

pub broadcast proof fn lemma_text_differs(b: Seq<u8>, s: Seq<u8>)
    requires
        b.len() > 0,
        s.len() > 0,
        b[0] != s[0],
    ensures
        #[trigger] g::tag_rule(b)(s) == Outcome::<()>::Reject,
{
    lemma_tag_rejects(b, s);
}

pub broadcast group group_reading {
    lemma_tag_reads,
    lemma_tag_no_case_reads,
    lemma_word_differs,
    lemma_text_differs,
}

} // verus!
