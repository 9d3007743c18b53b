//! Streaming grammar rules: what a rule reads from the front of a byte
//! sequence, and what it says of a sequence that ends too early.
//!
//! A rule is a mathematical function from input to [`Outcome`]. The parsers of
//! this crate are executable functions whose contract is [`agrees`] with a rule.
use vstd::prelude::*;

use crate::ascii;
use crate::ascii::upper;

verus! {

/// Why a rule gave up for good, where no alternative may be tried.
#[derive(Clone, Copy, Debug, PartialEq, Eq, Structural)]
pub enum IMAPErrorKind {
    LiteralContainsNull,
    RecursionLimitExceeded,
    Verify,
}

/// What a rule makes of an input.
pub enum Outcome<T> {
    /// A value was read, and this is what is left of the input.
    Done(Seq<u8>, T),
    /// The input ends before anything can be decided. With a number: it ends
    /// right behind the announcement of a literal of that length.
    More(Option<u64>),
    /// The input does not match; an alternative may.
    Reject,
    /// The input is refused, whatever the alternatives.
    Abort(IMAPErrorKind),
}

pub type Rule<T> = spec_fn(Seq<u8>) -> Outcome<T>;

#[derive(Clone, Copy, Debug, PartialEq, Eq, Structural)]
pub enum IMAPParseError {
    Incomplete,
    Literal { length: u64 },
    Error,
    Failure(IMAPErrorKind),
}

/// The unread rest of the input and the value, or why there is none.
pub type IMAPResult<'a, T> = Result<(&'a [u8], T), IMAPParseError>;

pub open spec fn error_outcome<T>(e: IMAPParseError) -> Outcome<T> {
    match e {
        IMAPParseError::Incomplete => Outcome::More(None),
        IMAPParseError::Literal { length } => Outcome::More(Some(length)),
        IMAPParseError::Error => Outcome::Reject,
        IMAPParseError::Failure(kind) => Outcome::Abort(kind),
    }
}

/// The result of a parser is what the rule says: the same rest, the same value,
/// or the same reason for not having one.
pub open spec fn agrees<T: DeepView>(res: IMAPResult<'_, T>, o: Outcome<T::V>) -> bool {
    match res {
        Ok((rest, v)) => o == Outcome::Done(rest@, v.deep_view()),
        Err(e) => o == error_outcome::<T::V>(e),
    }
}

// ---------------------------------------------------------------- combinators

/// An outcome without a value, at another type.
pub open spec fn failure<A, B>(o: Outcome<A>) -> Outcome<B> {
    match o {
        Outcome::Done(_, _) => Outcome::Reject,
        Outcome::More(n) => Outcome::More(n),
        Outcome::Reject => Outcome::Reject,
        Outcome::Abort(k) => Outcome::Abort(k),
    }
}

/// Reads nothing.
pub open spec fn success<T>(v: T) -> Rule<T> {
    |s: Seq<u8>| Outcome::Done(s, v)
}

pub open spec fn never<T>() -> Rule<T> {
    |s: Seq<u8>| Outcome::<T>::Reject
}

pub open spec fn refuse<T>(kind: IMAPErrorKind) -> Rule<T> {
    |s: Seq<u8>| Outcome::<T>::Abort(kind)
}

/// Reads `p`, then the rule that its value selects.
pub open spec fn chain<A, B>(p: Rule<A>, f: spec_fn(A) -> Rule<B>) -> Rule<B> {
    |s: Seq<u8>|
        match p(s) {
            Outcome::Done(r, a) => f(a)(r),
            o => failure::<A, B>(o),
        }
}

/// Reads `p`, then `q`.
pub open spec fn pair<A, B>(p: Rule<A>, q: Rule<B>) -> Rule<(A, B)> {
    |s: Seq<u8>|
        match p(s) {
            Outcome::Done(r, a) => match q(r) {
                Outcome::Done(r2, b) => Outcome::Done(r2, (a, b)),
                o => failure::<B, (A, B)>(o),
            },
            o => failure::<A, (A, B)>(o),
        }
}

/// Reads `p`, then `q`, and keeps the value of `q`.
pub open spec fn preceded<A, B>(p: Rule<A>, q: Rule<B>) -> Rule<B> {
    |s: Seq<u8>|
        match p(s) {
            Outcome::Done(r, a) => q(r),
            o => failure::<A, B>(o),
        }
}

/// Reads `p`, then `q`, and keeps the value of `p`.
pub open spec fn terminated<A, B>(p: Rule<A>, q: Rule<B>) -> Rule<A> {
    |s: Seq<u8>|
        match p(s) {
            Outcome::Done(r, a) => match q(r) {
                Outcome::Done(r2, b) => Outcome::Done(r2, a),
                o => failure::<B, A>(o),
            },
            o => o,
        }
}

pub open spec fn delimited<A, B, C>(p: Rule<A>, q: Rule<B>, r: Rule<C>) -> Rule<B> {
    preceded(p, terminated(q, r))
}

/// Reads `p`, or `q` where `p` rejects.
pub open spec fn alt<T>(p: Rule<T>, q: Rule<T>) -> Rule<T> {
    |s: Seq<u8>|
        match p(s) {
            Outcome::Reject => q(s),
            o => o,
        }
}

pub open spec fn opt<T>(p: Rule<T>) -> Rule<Option<T>> {
    |s: Seq<u8>|
        match p(s) {
            Outcome::Done(r, v) => Outcome::Done(r, Some(v)),
            Outcome::Reject => Outcome::Done(s, None),
            o => failure::<T, Option<T>>(o),
        }
}

pub open spec fn mapped<A, B>(p: Rule<A>, f: spec_fn(A) -> B) -> Rule<B> {
    |s: Seq<u8>|
        match p(s) {
            Outcome::Done(r, v) => Outcome::Done(r, f(v)),
            o => failure::<A, B>(o),
        }
}

/// Reads `p` and rejects where `f` has no value for it.
pub open spec fn map_opt<A, B>(p: Rule<A>, f: spec_fn(A) -> Option<B>) -> Rule<B> {
    |s: Seq<u8>|
        match p(s) {
            Outcome::Done(r, v) => match f(v) {
                Some(w) => Outcome::Done(r, w),
                None => Outcome::Reject,
            },
            o => failure::<A, B>(o),
        }
}

pub open spec fn verify<A>(p: Rule<A>, f: spec_fn(A) -> bool) -> Rule<A> {
    |s: Seq<u8>|
        match p(s) {
            Outcome::Done(r, v) => if f(v) {
                Outcome::Done(r, v)
            } else {
                Outcome::Reject
            },
            o => o,
        }
}

/// Reads `p` and refuses what `f` does not admit.
pub open spec fn insist<A>(p: Rule<A>, f: spec_fn(A) -> bool, kind: IMAPErrorKind) -> Rule<A> {
    |s: Seq<u8>|
        match p(s) {
            Outcome::Done(r, v) => if f(v) {
                Outcome::Done(r, v)
            } else {
                Outcome::Abort(kind)
            },
            o => o,
        }
}

pub open spec fn value<A, B>(v: B, p: Rule<A>) -> Rule<B> {
    mapped(p, |a: A| v)
}

/// Reads exactly these bytes.
pub open spec fn tag_rule(b: Seq<u8>) -> Rule<()> {
    |s: Seq<u8>|
        if s.len() >= b.len() {
            if s.take(b.len() as int) == b {
                Outcome::Done(s.skip(b.len() as int), ())
            } else {
                Outcome::Reject
            }
        } else if s == b.take(s.len() as int) {
            Outcome::More(None)
        } else {
            Outcome::Reject
        }
}

/// Reads these bytes, whatever the case of the letters.
pub open spec fn tag_no_case_rule(b: Seq<u8>) -> Rule<()> {
    |s: Seq<u8>|
        if s.len() >= b.len() {
            if ascii::same_word(s.take(b.len() as int), b) {
                Outcome::Done(s.skip(b.len() as int), ())
            } else {
                Outcome::Reject
            }
        } else if ascii::same_word(s, b.take(s.len() as int)) {
            Outcome::More(None)
        } else {
            Outcome::Reject
        }
}

pub open spec fn text(s: &str) -> Rule<()> {
    tag_rule(ascii::bytes_of(s))
}

pub open spec fn word(s: &str) -> Rule<()> {
    tag_no_case_rule(ascii::bytes_of(s))
}

/// How many bytes at the front of `s` are in the class.
pub open spec fn run_length(s: Seq<u8>, class: spec_fn(u8) -> bool) -> nat
    decreases s.len(),
{
    if s.len() > 0 && class(s[0]) {
        1 + run_length(s.skip(1), class)
    } else {
        0
    }
}

/// Reads the longest non-empty run of bytes in the class. Where the input ends
/// with the run, more of it may follow.
pub open spec fn take_while1_rule(class: spec_fn(u8) -> bool) -> Rule<Seq<u8>> {
    |s: Seq<u8>|
        {
            let n = run_length(s, class);
            if n == s.len() {
                Outcome::More(None)
            } else if n == 0 {
                Outcome::Reject
            } else {
                Outcome::Done(s.skip(n as int), s.take(n as int))
            }
        }
}

/// Reads the longest run of bytes in the class, which may be empty.
pub open spec fn take_while_rule(class: spec_fn(u8) -> bool) -> Rule<Seq<u8>> {
    |s: Seq<u8>|
        {
            let n = run_length(s, class);
            if n == s.len() {
                Outcome::More(None)
            } else {
                Outcome::Done(s.skip(n as int), s.take(n as int))
            }
        }
}

pub open spec fn repeated_from<A, T>(sep: Rule<A>, p: Rule<T>, s: Seq<u8>) -> Outcome<Seq<T>>
    decreases s.len(),
{
    match sep(s) {
        Outcome::Done(r, _) => if r.len() >= s.len() {
            Outcome::Reject
        } else {
            match p(r) {
                Outcome::Done(r2, x) => if r2.len() >= s.len() {
                    Outcome::Reject
                } else {
                    match repeated_from(sep, p, r2) {
                        Outcome::Done(r3, xs) => Outcome::Done(r3, seq![x] + xs),
                        o => o,
                    }
                },
                Outcome::Reject => Outcome::Done(s, seq![]),
                o => failure::<T, Seq<T>>(o),
            }
        },
        Outcome::Reject => Outcome::Done(s, seq![]),
        o => failure::<A, Seq<T>>(o),
    }
}

/// Reads `sep` and `p` as often as they follow each other.
pub open spec fn repeated<A, T>(sep: Rule<A>, p: Rule<T>) -> Rule<Seq<T>> {
    |s: Seq<u8>| repeated_from(sep, p, s)
}

/// Reads one or more `p`, separated by `sep`.
pub open spec fn separated_list1<A, T>(sep: Rule<A>, p: Rule<T>) -> Rule<Seq<T>> {
    |s: Seq<u8>|
        match p(s) {
            Outcome::Done(r, x) => match repeated_from(sep, p, r) {
                Outcome::Done(r2, xs) => Outcome::Done(r2, seq![x] + xs),
                o => o,
            },
            o => failure::<T, Seq<T>>(o),
        }
}

/// Reads zero or more `p`, separated by `sep`.
pub open spec fn separated_list0<A, T>(sep: Rule<A>, p: Rule<T>) -> Rule<Seq<T>> {
    |s: Seq<u8>|
        match p(s) {
            Outcome::Reject => Outcome::Done(s, seq![]),
            _ => separated_list1(sep, p)(s),
        }
}

/// `"(" [p *(SP p)] ")"`.
pub open spec fn paren_list0<T>(p: Rule<T>) -> Rule<Seq<T>> {
    delimited(text("("), separated_list0(text(" "), p), text(")"))
}

/// `"(" p *(SP p) ")"`.
pub open spec fn paren_list1<T>(p: Rule<T>) -> Rule<Seq<T>> {
    delimited(text("("), separated_list1(text(" "), p), text(")"))
}

// ------------------------------------------------------------------- streaming

pub open spec fn is_rest<T>(o: Outcome<T>, s: Seq<u8>) -> bool {
    match o {
        Outcome::Done(r, _) => r.len() <= s.len() && r == s.skip(s.len() - r.len()),
        _ => true,
    }
}

/// The outcome on an input to which `t` was appended.
pub open spec fn extended<T>(o: Outcome<T>, t: Seq<u8>) -> Outcome<T> {
    match o {
        Outcome::Done(r, v) => Outcome::Done(r + t, v),
        _ => o,
    }
}

/// A streaming rule: what it leaves is the end of its input, and once it has
/// decided, no further input changes the decision.
pub open spec fn lawful<T>(p: Rule<T>) -> bool {
    &&& forall|s: Seq<u8>| is_rest(#[trigger] p(s), s)
    &&& forall|s: Seq<u8>, t: Seq<u8>| !(p(s) is More) ==> #[trigger] p(s + t) == extended(p(s), t)
}

/// A message that is cut anywhere is never read, nor refused: for each strict
/// prefix of what a rule reads, the rule asks for more.
pub proof fn law_cut_input_needs_more<T>(p: Rule<T>, s: Seq<u8>, n: int)
    requires
        lawful(p),
        p(s) is Done,
        0 <= n < s.len() - p(s)->Done_0.len(),
    ensures
        p(s.take(n)) is More,
{
    assert(s.take(n) + s.skip(n) =~= s);
    assert(is_rest(p(s.take(n)), s.take(n)));
    if !(p(s.take(n)) is More) {
        assert(p(s.take(n) + s.skip(n)) == extended(p(s.take(n)), s.skip(n)));
    }
}

/// What follows a message does not change how it is read.
pub proof fn law_later_input_is_left_alone<T>(p: Rule<T>, s: Seq<u8>, t: Seq<u8>)
    requires
        lawful(p),
        p(s) is Done,
    ensures
        p(s + t) == Outcome::Done(p(s)->Done_0 + t, p(s)->Done_1),
{
}

pub broadcast proof fn lemma_success_lawful<T>(v: T)
    ensures
        #[trigger] lawful(success(v)),
{
    assert forall|s: Seq<u8>| is_rest(#[trigger] success(v)(s), s) by {
        assert(s =~= s.skip(0));
    }
}

pub broadcast proof fn lemma_never_lawful<T>()
    ensures
        #[trigger] lawful(never::<T>()),
{
}

pub broadcast proof fn lemma_refuse_lawful<T>(kind: IMAPErrorKind)
    ensures
        #[trigger] lawful(refuse::<T>(kind)),
{
}

proof fn lemma_rest_of_rest(s: Seq<u8>, r1: Seq<u8>, r2: Seq<u8>)
    requires
        r1.len() <= s.len(),
        r1 == s.skip(s.len() - r1.len()),
        r2.len() <= r1.len(),
        r2 == r1.skip(r1.len() - r2.len()),
    ensures
        r2.len() <= s.len(),
        r2 == s.skip(s.len() - r2.len()),
{
    assert(r2 =~= s.skip(s.len() - r2.len()));
}

pub broadcast proof fn lemma_chain_lawful<A, B>(p: Rule<A>, f: spec_fn(A) -> Rule<B>)
    requires
        lawful(p),
        forall|a: A| lawful(#[trigger] f(a)),
    ensures
        #[trigger] lawful(chain(p, f)),
{
    let c = chain(p, f);
    assert forall|s: Seq<u8>| is_rest(#[trigger] c(s), s) by {
        assert(is_rest(p(s), s));
        if let Outcome::Done(r, a) = p(s) {
            assert(is_rest(f(a)(r), r));
            if let Outcome::Done(r2, b) = f(a)(r) {
                lemma_rest_of_rest(s, r, r2);
            }
        }
    }
    assert forall|s: Seq<u8>, t: Seq<u8>| !(c(s) is More) implies #[trigger] c(s + t) == extended(
        c(s),
        t,
    ) by {
        assert(!(p(s) is More) ==> p(s + t) == extended(p(s), t));
        if let Outcome::Done(r, a) = p(s) {
            assert(lawful(f(a)));
            assert(!(f(a)(r) is More) ==> f(a)(r + t) == extended(f(a)(r), t));
        }
    }
}

pub broadcast proof fn lemma_pair_lawful<A, B>(p: Rule<A>, q: Rule<B>)
    requires
        lawful(p),
        lawful(q),
    ensures
        #[trigger] lawful(pair(p, q)),
{
    let c = pair(p, q);
    assert forall|s: Seq<u8>| is_rest(#[trigger] c(s), s) by {
        assert(is_rest(p(s), s));
        if let Outcome::Done(r, a) = p(s) {
            assert(is_rest(q(r), r));
            if let Outcome::Done(r2, b) = q(r) {
                lemma_rest_of_rest(s, r, r2);
            }
        }
    }
    assert forall|s: Seq<u8>, t: Seq<u8>| !(c(s) is More) implies #[trigger] c(s + t) == extended(
        c(s),
        t,
    ) by {
        assert(!(p(s) is More) ==> p(s + t) == extended(p(s), t));
        if let Outcome::Done(r, a) = p(s) {
            assert(!(q(r) is More) ==> q(r + t) == extended(q(r), t));
        }
    }
}

pub broadcast proof fn lemma_preceded_lawful<A, B>(p: Rule<A>, q: Rule<B>)
    requires
        lawful(p),
        lawful(q),
    ensures
        #[trigger] lawful(preceded(p, q)),
{
    let c = preceded(p, q);
    assert forall|s: Seq<u8>| is_rest(#[trigger] c(s), s) by {
        assert(is_rest(p(s), s));
        if let Outcome::Done(r, a) = p(s) {
            assert(is_rest(q(r), r));
            if let Outcome::Done(r2, b) = q(r) {
                lemma_rest_of_rest(s, r, r2);
            }
        }
    }
    assert forall|s: Seq<u8>, t: Seq<u8>| !(c(s) is More) implies #[trigger] c(s + t) == extended(
        c(s),
        t,
    ) by {
        assert(!(p(s) is More) ==> p(s + t) == extended(p(s), t));
        if let Outcome::Done(r, a) = p(s) {
            assert(!(q(r) is More) ==> q(r + t) == extended(q(r), t));
        }
    }
}

pub broadcast proof fn lemma_terminated_lawful<A, B>(p: Rule<A>, q: Rule<B>)
    requires
        lawful(p),
        lawful(q),
    ensures
        #[trigger] lawful(terminated(p, q)),
{
    let c = terminated(p, q);
    assert forall|s: Seq<u8>| is_rest(#[trigger] c(s), s) by {
        assert(is_rest(p(s), s));
        if let Outcome::Done(r, a) = p(s) {
            assert(is_rest(q(r), r));
            if let Outcome::Done(r2, b) = q(r) {
                lemma_rest_of_rest(s, r, r2);
            }
        }
    }
    assert forall|s: Seq<u8>, t: Seq<u8>| !(c(s) is More) implies #[trigger] c(s + t) == extended(
        c(s),
        t,
    ) by {
        assert(!(p(s) is More) ==> p(s + t) == extended(p(s), t));
        if let Outcome::Done(r, a) = p(s) {
            assert(!(q(r) is More) ==> q(r + t) == extended(q(r), t));
        }
    }
}

pub broadcast proof fn lemma_delimited_lawful<A, B, C>(p: Rule<A>, q: Rule<B>, r: Rule<C>)
    requires
        lawful(p),
        lawful(q),
        lawful(r),
    ensures
        #[trigger] lawful(delimited(p, q, r)),
{
    lemma_terminated_lawful(q, r);
    lemma_preceded_lawful(p, terminated(q, r));
}

pub broadcast proof fn lemma_alt_lawful<T>(p: Rule<T>, q: Rule<T>)
    requires
        lawful(p),
        lawful(q),
    ensures
        #[trigger] lawful(alt(p, q)),
{
    let c = alt(p, q);
    assert forall|s: Seq<u8>| is_rest(#[trigger] c(s), s) by {
        assert(is_rest(p(s), s));
        assert(is_rest(q(s), s));
    }
    assert forall|s: Seq<u8>, t: Seq<u8>| !(c(s) is More) implies #[trigger] c(s + t) == extended(
        c(s),
        t,
    ) by {
        assert(!(p(s) is More) ==> p(s + t) == extended(p(s), t));
        assert(!(q(s) is More) ==> q(s + t) == extended(q(s), t));
    }
}

pub broadcast proof fn lemma_opt_lawful<T>(p: Rule<T>)
    requires
        lawful(p),
    ensures
        #[trigger] lawful(opt(p)),
{
    let c = opt(p);
    assert forall|s: Seq<u8>| is_rest(#[trigger] c(s), s) by {
        assert(is_rest(p(s), s));
        assert(s =~= s.skip(0));
    }
    assert forall|s: Seq<u8>, t: Seq<u8>| !(c(s) is More) implies #[trigger] c(s + t) == extended(
        c(s),
        t,
    ) by {
        assert(!(p(s) is More) ==> p(s + t) == extended(p(s), t));
    }
}

pub broadcast proof fn lemma_mapped_lawful<A, B>(p: Rule<A>, f: spec_fn(A) -> B)
    requires
        lawful(p),
    ensures
        #[trigger] lawful(mapped(p, f)),
{
    let c = mapped(p, f);
    assert forall|s: Seq<u8>| is_rest(#[trigger] c(s), s) by {
        assert(is_rest(p(s), s));
    }
    assert forall|s: Seq<u8>, t: Seq<u8>| !(c(s) is More) implies #[trigger] c(s + t) == extended(
        c(s),
        t,
    ) by {
        assert(!(p(s) is More) ==> p(s + t) == extended(p(s), t));
    }
}

pub broadcast proof fn lemma_value_lawful<A, B>(v: B, p: Rule<A>)
    requires
        lawful(p),
    ensures
        #[trigger] lawful(value(v, p)),
{
    lemma_mapped_lawful(p, |a: A| v);
}

pub broadcast proof fn lemma_map_opt_lawful<A, B>(p: Rule<A>, f: spec_fn(A) -> Option<B>)
    requires
        lawful(p),
    ensures
        #[trigger] lawful(map_opt(p, f)),
{
    let c = map_opt(p, f);
    assert forall|s: Seq<u8>| is_rest(#[trigger] c(s), s) by {
        assert(is_rest(p(s), s));
    }
    assert forall|s: Seq<u8>, t: Seq<u8>| !(c(s) is More) implies #[trigger] c(s + t) == extended(
        c(s),
        t,
    ) by {
        assert(!(p(s) is More) ==> p(s + t) == extended(p(s), t));
    }
}

pub broadcast proof fn lemma_verify_lawful<A>(p: Rule<A>, f: spec_fn(A) -> bool)
    requires
        lawful(p),
    ensures
        #[trigger] lawful(verify(p, f)),
{
    let c = verify(p, f);
    assert forall|s: Seq<u8>| is_rest(#[trigger] c(s), s) by {
        assert(is_rest(p(s), s));
    }
    assert forall|s: Seq<u8>, t: Seq<u8>| !(c(s) is More) implies #[trigger] c(s + t) == extended(
        c(s),
        t,
    ) by {
        assert(!(p(s) is More) ==> p(s + t) == extended(p(s), t));
    }
}

pub broadcast proof fn lemma_insist_lawful<A>(
    p: Rule<A>,
    f: spec_fn(A) -> bool,
    kind: IMAPErrorKind,
)
    requires
        lawful(p),
    ensures
        #[trigger] lawful(insist(p, f, kind)),
{
    let c = insist(p, f, kind);
    assert forall|s: Seq<u8>| is_rest(#[trigger] c(s), s) by {
        assert(is_rest(p(s), s));
    }
    assert forall|s: Seq<u8>, t: Seq<u8>| !(c(s) is More) implies #[trigger] c(s + t) == extended(
        c(s),
        t,
    ) by {
        assert(!(p(s) is More) ==> p(s + t) == extended(p(s), t));
    }
}

pub broadcast proof fn lemma_tag_lawful(b: Seq<u8>)
    ensures
        #[trigger] lawful(tag_rule(b)),
{
    let c = tag_rule(b);
    assert forall|s: Seq<u8>, t: Seq<u8>| !(c(s) is More) implies #[trigger] c(s + t) == extended(
        c(s),
        t,
    ) by {
        let n = b.len() as int;
        if s.len() >= n {
            assert((s + t).take(n) =~= s.take(n));
            assert((s + t).skip(n) =~= s.skip(n) + t);
        } else {
            let m = s.len() as int;
            if (s + t).len() >= n {
                if (s + t).take(n) == b {
                    assert(s =~= b.take(m));
                }
            } else if (s + t) == b.take((s + t).len() as int) {
                assert(s =~= b.take(m)) by {
                    assert forall|i: int| 0 <= i < m implies s[i] == b[i] by {
                        assert(s[i] == (s + t)[i]);
                    }
                }
            }
        }
    }
}

pub broadcast proof fn lemma_tag_no_case_lawful(b: Seq<u8>)
    ensures
        #[trigger] lawful(tag_no_case_rule(b)),
{
    let c = tag_no_case_rule(b);
    assert forall|s: Seq<u8>, t: Seq<u8>| !(c(s) is More) implies #[trigger] c(s + t) == extended(
        c(s),
        t,
    ) by {
        let n = b.len() as int;
        let m = s.len() as int;
        let st = s + t;
        if m >= n {
            assert(st.take(n) =~= s.take(n));
            assert(st.skip(n) =~= s.skip(n) + t);
        } else {
            let k: int = if st.len() >= n { n } else { st.len() as int };
            if ascii::same_word(st.take(k), b.take(k)) {
                assert(ascii::uppercase(s) =~= ascii::uppercase(b.take(m))) by {
                    assert forall|i: int| 0 <= i < m implies upper(s[i]) == upper(b[i]) by {
                        assert(ascii::uppercase(st.take(k))[i] == upper(s[i]));
                        assert(ascii::uppercase(b.take(k))[i] == upper(b[i]));
                    }
                }
            }
            assert(b.take(n) =~= b);
            assert(st.take(st.len() as int) =~= st);
        }
    }
}

pub proof fn lemma_run_length(s: Seq<u8>, class: spec_fn(u8) -> bool)
    ensures
        run_length(s, class) <= s.len(),
        forall|i: int| 0 <= i < run_length(s, class) ==> class(#[trigger] s[i]),
        run_length(s, class) < s.len() ==> !class(s[run_length(s, class) as int]),
    decreases s.len(),
{
    if s.len() > 0 && class(s[0]) {
        lemma_run_length(s.skip(1), class);
        assert forall|i: int| 0 <= i < run_length(s, class) implies class(#[trigger] s[i]) by {
            if i > 0 {
                assert(s[i] == s.skip(1)[i - 1]);
            }
        }
    }
}

/// The run length is the only place where the class ends.
pub proof fn lemma_run_length_is(s: Seq<u8>, class: spec_fn(u8) -> bool, n: int)
    requires
        0 <= n <= s.len(),
        forall|i: int| 0 <= i < n ==> class(#[trigger] s[i]),
        n < s.len() ==> !class(s[n]),
    ensures
        run_length(s, class) == n,
{
    lemma_run_length(s, class);
    let m = run_length(s, class) as int;
    if m < n {
        assert(class(s[m]));
    } else if n < m {
        assert(class(s[n]));
    }
}

pub broadcast proof fn lemma_take_while1_lawful(class: spec_fn(u8) -> bool)
    ensures
        #[trigger] lawful(take_while1_rule(class)),
{
    let c = take_while1_rule(class);
    assert forall|s: Seq<u8>| is_rest(#[trigger] c(s), s) by {
        lemma_run_length(s, class);
    }
    assert forall|s: Seq<u8>, t: Seq<u8>| !(c(s) is More) implies #[trigger] c(s + t) == extended(
        c(s),
        t,
    ) by {
        lemma_run_length(s, class);
        let n = run_length(s, class) as int;
        assert forall|i: int| 0 <= i < n implies class(#[trigger] (s + t)[i]) by {
            assert((s + t)[i] == s[i]);
        }
        lemma_run_length_is(s + t, class, n);
        assert((s + t).skip(n) =~= s.skip(n) + t);
        assert((s + t).take(n) =~= s.take(n));
    }
}

pub broadcast proof fn lemma_take_while_lawful(class: spec_fn(u8) -> bool)
    ensures
        #[trigger] lawful(take_while_rule(class)),
{
    let c = take_while_rule(class);
    assert forall|s: Seq<u8>| is_rest(#[trigger] c(s), s) by {
        lemma_run_length(s, class);
    }
    assert forall|s: Seq<u8>, t: Seq<u8>| !(c(s) is More) implies #[trigger] c(s + t) == extended(
        c(s),
        t,
    ) by {
        lemma_run_length(s, class);
        let n = run_length(s, class) as int;
        assert forall|i: int| 0 <= i < n implies class(#[trigger] (s + t)[i]) by {
            assert((s + t)[i] == s[i]);
        }
        lemma_run_length_is(s + t, class, n);
        assert((s + t).skip(n) =~= s.skip(n) + t);
        assert((s + t).take(n) =~= s.take(n));
    }
}

proof fn lemma_repeated_rest<A, T>(sep: Rule<A>, p: Rule<T>, s: Seq<u8>)
    requires
        lawful(sep),
        lawful(p),
    ensures
        is_rest(repeated_from(sep, p, s), s),
    decreases s.len(),
{
    assert(s =~= s.skip(0));
    assert(is_rest(sep(s), s));
    if let Outcome::Done(r, a) = sep(s) {
        if r.len() < s.len() {
            assert(is_rest(p(r), r));
            if let Outcome::Done(r2, x) = p(r) {
                lemma_rest_of_rest(s, r, r2);
                lemma_repeated_rest(sep, p, r2);
                if let Outcome::Done(r3, xs) = repeated_from(sep, p, r2) {
                    lemma_rest_of_rest(s, r2, r3);
                }
            }
        }
    }
}

proof fn lemma_repeated_extended<A, T>(sep: Rule<A>, p: Rule<T>, s: Seq<u8>, t: Seq<u8>)
    requires
        lawful(sep),
        lawful(p),
        !(repeated_from(sep, p, s) is More),
    ensures
        repeated_from(sep, p, s + t) == extended(repeated_from(sep, p, s), t),
    decreases s.len(),
{
    assert(is_rest(sep(s), s));
    assert(!(sep(s) is More));
    assert(sep(s + t) == extended(sep(s), t));
    if let Outcome::Done(r, a) = sep(s) {
        if r.len() < s.len() {
            assert(is_rest(p(r), r));
            assert(!(p(r) is More));
            assert(p(r + t) == extended(p(r), t));
            if let Outcome::Done(r2, x) = p(r) {
                lemma_repeated_extended(sep, p, r2, t);
            }
        }
    }
}

pub broadcast proof fn lemma_repeated_lawful<A, T>(sep: Rule<A>, p: Rule<T>)
    requires
        lawful(sep),
        lawful(p),
    ensures
        #[trigger] lawful(repeated(sep, p)),
{
    let c = repeated(sep, p);
    assert forall|s: Seq<u8>| is_rest(#[trigger] c(s), s) by {
        lemma_repeated_rest(sep, p, s);
    }
    assert forall|s: Seq<u8>, t: Seq<u8>| !(c(s) is More) implies #[trigger] c(s + t) == extended(
        c(s),
        t,
    ) by {
        lemma_repeated_extended(sep, p, s, t);
    }
}

pub broadcast proof fn lemma_separated_list1_lawful<A, T>(sep: Rule<A>, p: Rule<T>)
    requires
        lawful(sep),
        lawful(p),
    ensures
        #[trigger] lawful(separated_list1(sep, p)),
{
    let c = separated_list1(sep, p);
    assert forall|s: Seq<u8>| is_rest(#[trigger] c(s), s) by {
        assert(is_rest(p(s), s));
        if let Outcome::Done(r, x) = p(s) {
            lemma_repeated_rest(sep, p, r);
            if let Outcome::Done(r2, xs) = repeated_from(sep, p, r) {
                lemma_rest_of_rest(s, r, r2);
            }
        }
    }
    assert forall|s: Seq<u8>, t: Seq<u8>| !(c(s) is More) implies #[trigger] c(s + t) == extended(
        c(s),
        t,
    ) by {
        assert(!(p(s) is More) ==> p(s + t) == extended(p(s), t));
        if let Outcome::Done(r, x) = p(s) {
            lemma_repeated_extended(sep, p, r, t);
        }
    }
}

pub broadcast proof fn lemma_separated_list0_lawful<A, T>(sep: Rule<A>, p: Rule<T>)
    requires
        lawful(sep),
        lawful(p),
    ensures
        #[trigger] lawful(separated_list0(sep, p)),
{
    lemma_separated_list1_lawful(sep, p);
    let c = separated_list0(sep, p);
    let d = separated_list1(sep, p);
    assert forall|s: Seq<u8>| is_rest(#[trigger] c(s), s) by {
        assert(is_rest(d(s), s));
        assert(s =~= s.skip(0));
    }
    assert forall|s: Seq<u8>, t: Seq<u8>| !(c(s) is More) implies #[trigger] c(s + t) == extended(
        c(s),
        t,
    ) by {
        assert(!(p(s) is More) ==> p(s + t) == extended(p(s), t));
        assert(!(d(s) is More) ==> d(s + t) == extended(d(s), t));
    }
}

pub broadcast proof fn lemma_paren_list0_lawful<T>(p: Rule<T>)
    requires
        lawful(p),
    ensures
        #[trigger] lawful(paren_list0(p)),
{
    lemma_tag_lawful(ascii::bytes_of("("));
    lemma_tag_lawful(ascii::bytes_of(" "));
    lemma_tag_lawful(ascii::bytes_of(")"));
    lemma_separated_list0_lawful(text(" "), p);
    lemma_delimited_lawful(text("("), separated_list0(text(" "), p), text(")"));
}

pub broadcast proof fn lemma_paren_list1_lawful<T>(p: Rule<T>)
    requires
        lawful(p),
    ensures
        #[trigger] lawful(paren_list1(p)),
{
    lemma_tag_lawful(ascii::bytes_of("("));
    lemma_tag_lawful(ascii::bytes_of(" "));
    lemma_tag_lawful(ascii::bytes_of(")"));
    lemma_separated_list1_lawful(text(" "), p);
    lemma_delimited_lawful(text("("), separated_list1(text(" "), p), text(")"));
}

pub broadcast proof fn lemma_text_lawful(s: &str)
    ensures
        #[trigger] lawful(text(s)),
{
    lemma_tag_lawful(ascii::bytes_of(s));
}

pub broadcast proof fn lemma_word_lawful(s: &str)
    ensures
        #[trigger] lawful(word(s)),
{
    lemma_tag_no_case_lawful(ascii::bytes_of(s));
}

pub broadcast group group_lawful {
    lemma_success_lawful,
    lemma_never_lawful,
    lemma_refuse_lawful,
    lemma_chain_lawful,
    lemma_pair_lawful,
    lemma_preceded_lawful,
    lemma_terminated_lawful,
    lemma_delimited_lawful,
    lemma_alt_lawful,
    lemma_opt_lawful,
    lemma_mapped_lawful,
    lemma_value_lawful,
    lemma_map_opt_lawful,
    lemma_verify_lawful,
    lemma_insist_lawful,
    lemma_tag_lawful,
    lemma_tag_no_case_lawful,
    lemma_text_lawful,
    lemma_word_lawful,
    lemma_take_while1_lawful,
    lemma_take_while_lawful,
    lemma_repeated_lawful,
    lemma_separated_list1_lawful,
    lemma_separated_list0_lawful,
    lemma_paren_list0_lawful,
    lemma_paren_list1_lawful,
}

// ---------------------------------------------------------- executable parsers

/// Reads exactly the ASCII text `b`.
pub fn tag<'a>(input: &'a [u8], b: &str) -> (res: IMAPResult<'a, ()>)
    ensures
        agrees(res, text(b)(input@)),
{
    let bytes: Vec<u8> = ascii::text_bytes(b);
    let n: usize = if input.len() < bytes.len() {
        input.len()
    } else {
        bytes.len()
    };
    let mut i: usize = 0;
    while i < n
        invariant
            i <= n,
            n <= input@.len(),
            n <= bytes@.len(),
            bytes@ == ascii::bytes_of(b),
            forall|j: int| 0 <= j < i ==> input@[j] == bytes@[j],
        decreases n - i,
    {
        if input[i] != bytes[i] {
            proof {
                if input@.len() >= bytes@.len() {
                    assert(input@.take(bytes@.len() as int)[i as int] == input@[i as int]);
                } else {
                    assert(bytes@.take(input@.len() as int)[i as int] == bytes@[i as int]);
                }
            }
            return Err(IMAPParseError::Error);
        }
        i = i + 1;
    }
    if input.len() < bytes.len() {
        assert(input@ =~= bytes@.take(input@.len() as int));
        return Err(IMAPParseError::Incomplete);
    }
    assert(input@.take(bytes@.len() as int) =~= bytes@);
    Ok((&input[n..input.len()], ()))
}

/// Reads the ASCII text `b`, whatever the case of the letters.
pub fn tag_no_case<'a>(input: &'a [u8], b: &str) -> (res: IMAPResult<'a, ()>)
    ensures
        agrees(res, word(b)(input@)),
{
    let bytes: Vec<u8> = ascii::text_bytes(b);
    let n: usize = if input.len() < bytes.len() {
        input.len()
    } else {
        bytes.len()
    };
    let mut i: usize = 0;
    while i < n
        invariant
            i <= n,
            n <= input@.len(),
            n <= bytes@.len(),
            bytes@ == ascii::bytes_of(b),
            forall|j: int| 0 <= j < i ==> upper(#[trigger] input@[j]) == upper(bytes@[j]),
        decreases n - i,
    {
        if upper(input[i]) != upper(bytes[i]) {
            proof {
                let k = i as int;
                if input@.len() >= bytes@.len() {
                    let x = input@.take(bytes@.len() as int);
                    assert(ascii::uppercase(x)[k] == upper(x[k]));
                    assert(ascii::uppercase(bytes@)[k] == upper(bytes@[k]));
                } else {
                    let x = bytes@.take(input@.len() as int);
                    assert(ascii::uppercase(x)[k] == upper(x[k]));
                    assert(ascii::uppercase(input@)[k] == upper(input@[k]));
                }
            }
            return Err(IMAPParseError::Error);
        }
        i = i + 1;
    }
    if input.len() < bytes.len() {
        assert(ascii::uppercase(input@) =~= ascii::uppercase(bytes@.take(input@.len() as int)));
        return Err(IMAPParseError::Incomplete);
    }
    assert(ascii::uppercase(input@.take(bytes@.len() as int)) =~= ascii::uppercase(bytes@));
    Ok((&input[n..input.len()], ()))
}

fn run<F: Fn(u8) -> bool>(input: &[u8], f: F, Ghost(class): Ghost<spec_fn(u8) -> bool>) -> (n: usize)
    requires
        forall|b: u8| call_requires(f, (b,)),
        forall|b: u8, r: bool| call_ensures(f, (b,), r) ==> r == class(b),
    ensures
        n == run_length(input@, class),
        n <= input@.len(),
{
    let mut n: usize = 0;
    while n < input.len()
        invariant
            n <= input@.len(),
            forall|b: u8| call_requires(f, (b,)),
            forall|b: u8, r: bool| call_ensures(f, (b,), r) ==> r == class(b),
            forall|i: int| 0 <= i < n ==> class(#[trigger] input@[i]),
        decreases input@.len() - n,
    {
        if !f(input[n]) {
            proof {
                lemma_run_length_is(input@, class, n as int);
            }
            return n;
        }
        n = n + 1;
    }
    proof {
        lemma_run_length_is(input@, class, n as int);
    }
    n
}

/// Reads the longest non-empty run of bytes of a class.
pub fn take_while1<'a, F: Fn(u8) -> bool>(
    input: &'a [u8],
    f: F,
    Ghost(class): Ghost<spec_fn(u8) -> bool>,
) -> (res: IMAPResult<'a, Vec<u8>>)
    requires
        forall|b: u8| call_requires(f, (b,)),
        forall|b: u8, r: bool| call_ensures(f, (b,), r) ==> r == class(b),
    ensures
        agrees(res, take_while1_rule(class)(input@)),
{
    let n: usize = run(input, f, Ghost(class));
    if n == input.len() {
        return Err(IMAPParseError::Incomplete);
    }
    if n == 0 {
        return Err(IMAPParseError::Error);
    }
    let v: Vec<u8> = vstd::slice::slice_to_vec(&input[0..n]);
    assert(v.deep_view() =~= input@.take(n as int));
    Ok((&input[n..input.len()], v))
}

/// Reads the longest run of bytes of a class.
pub fn take_while<'a, F: Fn(u8) -> bool>(
    input: &'a [u8],
    f: F,
    Ghost(class): Ghost<spec_fn(u8) -> bool>,
) -> (res: IMAPResult<'a, Vec<u8>>)
    requires
        forall|b: u8| call_requires(f, (b,)),
        forall|b: u8, r: bool| call_ensures(f, (b,), r) ==> r == class(b),
    ensures
        agrees(res, take_while_rule(class)(input@)),
{
    let n: usize = run(input, f, Ghost(class));
    if n == input.len() {
        return Err(IMAPParseError::Incomplete);
    }
    let v: Vec<u8> = vstd::slice::slice_to_vec(&input[0..n]);
    assert(v.deep_view() =~= input@.take(n as int));
    Ok((&input[n..input.len()], v))
}

/// Runs a parser that may find nothing.
pub open spec fn parses<T: DeepView, F: Fn(&[u8]) -> IMAPResult<'_, T>>(f: F, p: Rule<T::V>) -> bool {
    &&& forall|i: &[u8]| call_requires(f, (i,))
    &&& forall|i: &[u8], r: IMAPResult<'_, T>| call_ensures(f, (i,), r) ==> agrees(r, p(i@))
}

/// What [`repeated_from`] makes of the input from which `read` was already read.
pub open spec fn after<T>(read: Seq<T>, o: Outcome<Seq<T>>) -> Outcome<Seq<T>> {
    match o {
        Outcome::Done(r, xs) => Outcome::Done(r, read + xs),
        _ => o,
    }
}

fn repeat_into<'a, T: DeepView, F: Fn(&[u8]) -> IMAPResult<'_, T>>(
    input: &'a [u8],
    first: Vec<T>,
    sep: &str,
    f: F,
    Ghost(p): Ghost<Rule<T::V>>,
) -> (res: IMAPResult<'a, Vec<T>>)
    requires
        parses(f, p),
    ensures
        agrees(res, after(first.deep_view(), repeated_from(text(sep), p, input@))),
{
    let ghost whole = after(first.deep_view(), repeated_from(text(sep), p, input@));
    let mut read = first;
    let mut at: &'a [u8] = input;
    loop
        invariant
            parses(f, p),
            whole == after(first.deep_view(), repeated_from(text(sep), p, input@)),
            whole == after(read.deep_view(), repeated_from(text(sep), p, at@)),
        decreases at@.len(),
    {
        let behind: &'a [u8] = match tag(at, sep) {
            Ok((rest, _)) => rest,
            Err(IMAPParseError::Error) => {
                assert(read.deep_view() + seq![] =~= read.deep_view());
                return Ok((at, read));
            },
            Err(e) => return Err(e),
        };
        if behind.len() >= at.len() {
            return Err(IMAPParseError::Error);
        }
        match f(behind) {
            Ok((rest, x)) => {
                if rest.len() >= at.len() {
                    return Err(IMAPParseError::Error);
                }
                let ghost before = read.deep_view();
                let ghost seen = x.deep_view();
                read.push(x);
                proof {
                    assert(read.deep_view() =~= before.push(seen));
                    if let Outcome::Done(r, xs) = repeated_from(text(sep), p, rest@) {
                        assert(before + (seq![seen] + xs) =~= before.push(seen) + xs);
                    }
                }
                at = rest;
            },
            Err(IMAPParseError::Error) => {
                assert(read.deep_view() + seq![] =~= read.deep_view());
                return Ok((at, read));
            },
            Err(e) => return Err(e),
        }
    }
}

/// Reads the text `sep` and an item as often as they follow each other.
pub fn repeat<'a, T: DeepView, F: Fn(&[u8]) -> IMAPResult<'_, T>>(
    input: &'a [u8],
    sep: &str,
    f: F,
    Ghost(p): Ghost<Rule<T::V>>,
) -> (res: IMAPResult<'a, Vec<T>>)
    requires
        parses(f, p),
    ensures
        agrees(res, repeated(text(sep), p)(input@)),
{
    let none: Vec<T> = Vec::new();
    assert(none.deep_view() =~= seq![]);
    proof {
        if let Outcome::Done(r, xs) = repeated_from(text(sep), p, input@) {
            assert(Seq::<T::V>::empty() + xs =~= xs);
        }
    }
    repeat_into(input, none, sep, f, Ghost(p))
}

/// Reads one or more items, separated by the text `sep`.
pub fn list1<'a, T: DeepView, F: Fn(&[u8]) -> IMAPResult<'_, T>>(
    input: &'a [u8],
    sep: &str,
    f: F,
    Ghost(p): Ghost<Rule<T::V>>,
) -> (res: IMAPResult<'a, Vec<T>>)
    requires
        parses(f, p),
    ensures
        agrees(res, separated_list1(text(sep), p)(input@)),
{
    let (rest, x) = f(input)?;
    let mut read: Vec<T> = Vec::new();
    read.push(x);
    assert(read.deep_view() =~= seq![x.deep_view()]);
    repeat_into(rest, read, sep, f, Ghost(p))
}

/// Reads zero or more items, separated by the text `sep`.
pub fn list0<'a, T: DeepView, F: Fn(&[u8]) -> IMAPResult<'_, T>>(
    input: &'a [u8],
    sep: &str,
    f: F,
    Ghost(p): Ghost<Rule<T::V>>,
) -> (res: IMAPResult<'a, Vec<T>>)
    requires
        parses(f, p),
    ensures
        agrees(res, separated_list0(text(sep), p)(input@)),
{
    match f(input) {
        Err(IMAPParseError::Error) => {
            let none: Vec<T> = Vec::new();
            assert(none.deep_view() =~= seq![]);
            Ok((input, none))
        },
        Err(e) => Err(e),
        Ok((rest, x)) => {
            let mut read: Vec<T> = Vec::new();
            read.push(x);
            assert(read.deep_view() =~= seq![x.deep_view()]);
            repeat_into(rest, read, sep, f, Ghost(p))
        },
    }
}

/// `"(" [item *(SP item)] ")"`.
pub fn parens0<'a, T: DeepView, F: Fn(&[u8]) -> IMAPResult<'_, T>>(
    input: &'a [u8],
    f: F,
    Ghost(p): Ghost<Rule<T::V>>,
) -> (res: IMAPResult<'a, Vec<T>>)
    requires
        parses(f, p),
    ensures
        agrees(res, paren_list0(p)(input@)),
{
    let (rest, _) = tag(input, "(")?;
    let (rest, items) = list0(rest, " ", f, Ghost(p))?;
    let (rest, _) = tag(rest, ")")?;
    Ok((rest, items))
}

/// `"(" item *(SP item) ")"`.
pub fn parens1<'a, T: DeepView, F: Fn(&[u8]) -> IMAPResult<'_, T>>(
    input: &'a [u8],
    f: F,
    Ghost(p): Ghost<Rule<T::V>>,
) -> (res: IMAPResult<'a, Vec<T>>)
    requires
        parses(f, p),
    ensures
        agrees(res, paren_list1(p)(input@)),
{
    let (rest, _) = tag(input, "(")?;
    let (rest, items) = list1(rest, " ", f, Ghost(p))?;
    let (rest, _) = tag(rest, ")")?;
    Ok((rest, items))
}

} // verus!
