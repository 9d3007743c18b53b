//! Threads: messages and the answers to them.
use vstd::prelude::*;

use crate::arguments as args;
use crate::ascii;
use crate::encode;
use crate::encode::{join_serializable, EncodeContext, Token};
use crate::grammar as g;
use crate::grammar::{list1, tag, IMAPErrorKind, IMAPParseError, IMAPResult, Outcome, Rule};
use crate::number;
use crate::number::nz_number;
use crate::reading;
use crate::shapes;

verus! {

/// Messages each of which answers the one before, and the threads that answer
/// the last of them. Without messages, the answers have lost what they answer.
#[derive(Debug, PartialEq, Eq, Hash)]
pub struct Thread {
    pub members: Vec<u32>,
    pub answers: Vec<Thread>,
}

pub struct ThreadView {
    pub members: Seq<u32>,
    pub answers: Seq<ThreadView>,
}

pub open spec fn thread_view(t: Thread) -> ThreadView
    decreases t,
{
    ThreadView {
        members: t.members@,
        answers: Seq::new(
            t.answers@.len(),
            |i: int|
                if 0 <= i < t.answers@.len() {
                    thread_view(t.answers@[i])
                } else {
                    arbitrary()
                },
        ),
    }
}

impl DeepView for Thread {
    type V = ThreadView;

    open spec fn deep_view(&self) -> ThreadView {
        thread_view(*self)
    }
}

proof fn lemma_thread_view(t: Thread)
    ensures
        t.deep_view().members == t.members.deep_view(),
        t.deep_view().answers == t.answers.deep_view(),
{
    assert(t.members.deep_view() =~= t.members@);
    assert(t.deep_view().answers =~= t.answers.deep_view());
}

// ----------------------------------------------------------------------- rules

/// How deep threads may nest.
pub const THREAD_DEPTH: usize = 16;

/// `thread-nested = 2*thread-list`.
pub open spec fn nested_rule(p: Rule<ThreadView>) -> Rule<Seq<ThreadView>> {
    g::verify(shapes::row(p), |v: Seq<ThreadView>| v.len() >= 2)
}

/// `thread-members = nz-number *(SP nz-number) [SP thread-nested]`.
pub open spec fn members_rule(p: Rule<ThreadView>) -> Rule<ThreadView> {
    g::mapped(
        g::pair(
            g::separated_list1(g::text(" "), number::nz_number_rule()),
            g::opt(args::sp(nested_rule(p))),
        ),
        |q: (Seq<u32>, Option<Seq<ThreadView>>)|
            ThreadView {
                members: q.0,
                answers: match q.1 {
                    Some(v) => v,
                    None => seq![],
                },
            },
    )
}

/// `thread-list = "(" (thread-members / thread-nested) ")"`, behind its opening
/// parenthesis.
#[verifier::opaque]
pub open spec fn thread_rule(depth: nat) -> Rule<ThreadView>
    decreases depth,
{
    if depth == 0 {
        g::refuse(IMAPErrorKind::RecursionLimitExceeded)
    } else {
        shapes::closing(
            g::alt(
                members_rule(thread_rule((depth - 1) as nat)),
                g::mapped(
                    nested_rule(thread_rule((depth - 1) as nat)),
                    |v: Seq<ThreadView>| ThreadView { members: seq![], answers: v },
                ),
            ),
        )
    }
}

/// `[SP 1*thread-list]`.
#[verifier::opaque]
pub open spec fn threads_rule() -> Rule<Seq<ThreadView>> {
    g::mapped(
        g::opt(args::sp(shapes::row(thread_rule(THREAD_DEPTH as nat)))),
        |o: Option<Seq<ThreadView>>|
            match o {
                Some(v) => v,
                None => seq![],
            },
    )
}

// ------------------------------------------------------------------- encodings

/// The messages of a thread, and the answers to the last of them.
pub open spec fn body_tokens(members: Seq<u32>, answers: Seq<Seq<Token>>) -> Seq<Token> {
    if members.len() == 0 {
        shapes::row_tokens(answers)
    } else {
        encode::joined(encode::parts::<u32>(members), encode::word(" ")) + answers_tokens(answers)
    }
}

pub open spec fn answers_tokens(answers: Seq<Seq<Token>>) -> Seq<Token> {
    if answers.len() == 0 {
        seq![]
    } else {
        args::argument(shapes::row_tokens(answers))
    }
}

/// A thread, behind its opening parenthesis.
pub open spec fn thread_tokens(t: ThreadView) -> Seq<Token>
    decreases t,
{
    shapes::closing_tokens(body_tokens(t.members, thread_parts(t.answers)))
}

/// What is written for each of the threads.
pub open spec fn thread_parts(v: Seq<ThreadView>) -> Seq<Seq<Token>>
    decreases v,
{
    if v.len() == 0 {
        seq![]
    } else {
        thread_parts(v.drop_last()).push(thread_tokens(v[v.len() - 1]))
    }
}

proof fn lemma_thread_parts(v: Seq<ThreadView>)
    ensures
        thread_parts(v) == v.map_values(|t: ThreadView| thread_tokens(t)),
    decreases v.len(),
{
    let all = v.map_values(|t: ThreadView| thread_tokens(t));
    if v.len() > 0 {
        lemma_thread_parts(v.drop_last());
        assert(thread_parts(v) =~= all);
    } else {
        assert(thread_parts(v) =~= all);
    }
}

/// Threads behind the name of the response.
pub open spec fn threads_tokens(v: Seq<ThreadView>) -> Seq<Token> {
    answers_tokens(thread_parts(v))
}

// -------------------------------------------------------------- well-formedness

/// A thread that is nested at most `depth` levels deep.
pub open spec fn thread_wf(t: ThreadView, depth: nat) -> bool
    decreases depth,
{
    &&& depth >= 1
    &&& args::all_wf(t.members, |n: u32| n > 0)
    &&& t.members.len() > 0 || t.answers.len() > 0
    &&& t.answers.len() != 1
    &&& t.answers.len() > 0 ==> depth >= 2 && forall|i: int|
        0 <= i < t.answers.len() ==> thread_wf(#[trigger] t.answers[i], (depth - 1) as nat)
}

pub open spec fn threads_wf(v: Seq<ThreadView>) -> bool {
    args::all_wf(v, |t: ThreadView| thread_wf(t, THREAD_DEPTH as nat))
}

// ------------------------------------------------------------------- streaming

proof fn lemma_thread_lawful(depth: nat)
    ensures
        g::lawful(thread_rule(depth)),
    decreases depth,
{
    broadcast use g::group_lawful;

    reveal_with_fuel(thread_rule, 1);
    if depth > 0 {
        lemma_thread_lawful((depth - 1) as nat);
        number::lemma_numbers_lawful();
    }
}

pub proof fn lemma_threads_lawful()
    ensures
        g::lawful(threads_rule()),
{
    broadcast use g::group_lawful;

    reveal(threads_rule);
    lemma_thread_lawful(THREAD_DEPTH as nat);
}

// --------------------------------------------------------------------- reading

/// Numbers do not go on before answers in parentheses, nor at the end.
proof fn lemma_numbers_end(r: Seq<u8>)
    requires
        r.len() > 0,
        r[0] == ')' as u8 || (r.len() > 1 && r[0] == 0x20 && r[1] == '(' as u8),
    ensures
        g::repeated_from(g::text(" "), number::nz_number_rule(), r) == Outcome::Done(
            r,
            Seq::<u32>::empty(),
        ),
{
    let space = ascii::bytes_of(" ");
    reveal_strlit(" ");
    if r[0] == ')' as u8 {
        reading::lemma_tag_rejects(space, r);
    } else {
        let behind = r.skip(1);
        assert(r =~= space + behind);
        reading::lemma_tag_reads(space, behind);
        number::lemma_number_rejects(behind);
    }
}

proof fn lemma_members_read(members: Seq<u32>, r: Seq<u8>)
    requires
        members.len() > 0,
        args::all_wf(members, |n: u32| n > 0),
        r.len() > 0,
        r[0] == ')' as u8 || (r.len() > 1 && r[0] == 0x20 && r[1] == '(' as u8),
    ensures
        g::separated_list1(g::text(" "), number::nz_number_rule())(
            encode::flat(encode::joined(encode::parts::<u32>(members), encode::word(" "))) + r,
        ) == Outcome::Done(r, members),
{
    let tokens = encode::parts::<u32>(members);
    let parts = encode::flat_parts(tokens);
    let space = ascii::bytes_of(" ");
    reveal_strlit(" ");
    encode::lemma_flat_joined(tokens, encode::word(" "));
    encode::lemma_flat_word(" ");
    lemma_numbers_end(r);
    assert forall|i: int| 0 <= i < parts.len() implies reading::reads_at(
        number::nz_number_rule(),
        #[trigger] parts[i],
        members[i],
        reading::rest_of(parts, space, r, i),
    ) by {
        let wf = |n: u32| n > 0;
        assert(wf(members[i]));
        encode::lemma_flat_plain(number::decimal(members[i] as nat));
        let rest = reading::rest_of(parts, space, r, i);
        if parts.skip(i + 1).len() == 0 {
            assert(rest =~= r);
        } else {
            assert(rest[0] == 0x20);
        }
        number::lemma_number_reads(members[i], rest);
    }
    reading::lemma_list_reads_direct(space, number::nz_number_rule(), parts, members, r);
}

/// Answers are read back before a closing parenthesis.
proof fn lemma_answers_read(
    p: Rule<ThreadView>,
    tokens: Seq<Seq<Token>>,
    answers: Seq<ThreadView>,
    r: Seq<u8>,
)
    requires
        tokens.len() == answers.len(),
        answers.len() != 1,
        forall|i: int| 0 <= i < answers.len() ==> shapes::reads_alone(
            p,
            encode::flat(#[trigger] tokens[i]),
            answers[i],
        ),
        r.len() > 0,
        r[0] == ')' as u8,
    ensures
        answers.len() > 0 ==> nested_rule(p)(encode::flat(shapes::row_tokens(tokens)) + r)
            == Outcome::Done(r, answers),
        ({
            let s = encode::flat(answers_tokens(tokens)) + r;
            &&& g::opt(args::sp(nested_rule(p)))(s) == Outcome::Done(
                r,
                if answers.len() == 0 {
                    None
                } else {
                    Some(answers)
                },
            )
            &&& s.len() > 0
            &&& s[0] == ')' as u8 || (s.len() > 1 && s[0] == 0x20 && s[1] == '(' as u8)
        }),
{
    reveal_strlit(" ");
    if answers.len() > 0 {
        let row = shapes::row_tokens(tokens);
        shapes::lemma_row_reads(p, tokens, answers, r);
        shapes::lemma_row_start(tokens, r);
        args::lemma_argument_reads(nested_rule(p), row, answers, r);
        let s = encode::flat(args::argument(row)) + r;
        assert(s.skip(1)[0] == s[1]);
    } else {
        assert(encode::flat(answers_tokens(tokens)) + r =~= r);
        reading::lemma_tag_rejects(ascii::bytes_of(" "), r);
    }
}

proof fn lemma_thread_reads(v: ThreadView, depth: nat)
    requires
        thread_wf(v, depth),
    ensures
        shapes::reads_alone(thread_rule(depth), encode::flat(thread_tokens(v)), v),
    decreases depth,
{
    reveal_with_fuel(thread_rule, 1);
    let inner = thread_rule((depth - 1) as nat);
    let tokens = thread_parts(v.answers);
    let body = body_tokens(v.members, tokens);
    lemma_thread_parts(v.answers);
    assert forall|i: int| 0 <= i < v.answers.len() implies shapes::reads_alone(
        inner,
        encode::flat(#[trigger] tokens[i]),
        v.answers[i],
    ) by {
        assert(thread_wf(v.answers[i], (depth - 1) as nat));
        lemma_thread_reads(v.answers[i], (depth - 1) as nat);
    }
    let close = ascii::bytes_of(")");
    reveal_strlit(")");
    assert forall|t: Seq<u8>| #[trigger] thread_rule(depth)(encode::flat(thread_tokens(v)) + t)
        == Outcome::Done(t, v) by {
        let r = close + t;
        assert(r[0] == ')' as u8);
        args::lemma_flat_then(body, encode::word(")"), t);
        encode::lemma_flat_word(")");
        reading::lemma_tag_reads(close, t);
        lemma_answers_read(inner, tokens, v.answers, r);
        if v.members.len() == 0 {
            shapes::lemma_row_start(tokens, r);
            number::lemma_number_rejects(encode::flat(body) + r);
            assert(v.members =~= Seq::<u32>::empty());
        } else {
            let numbers = encode::joined(encode::parts::<u32>(v.members), encode::word(" "));
            args::lemma_flat_then(numbers, answers_tokens(tokens), r);
            lemma_members_read(v.members, encode::flat(answers_tokens(tokens)) + r);
            assert(v.answers.len() == 0 ==> v.answers =~= Seq::<ThreadView>::empty());
        }
    }
}

/// Threads are read back before the end of the line.
pub proof fn lemma_threads_read(v: Seq<ThreadView>, t: Seq<u8>)
    requires
        threads_wf(v),
        args::line_end(t),
    ensures
        threads_rule()(encode::flat(threads_tokens(v)) + t) == Outcome::Done(t, v),
        (encode::flat(threads_tokens(v)) + t).len() > 0,
        (encode::flat(threads_tokens(v)) + t)[0] == 0x20 || (encode::flat(threads_tokens(v))
            + t)[0] == 0x0d,
{
    reveal(threads_rule);
    reveal_strlit(" ");
    let p = thread_rule(THREAD_DEPTH as nat);
    let tokens = thread_parts(v);
    lemma_thread_parts(v);
    if v.len() == 0 {
        assert(encode::flat(threads_tokens(v)) + t =~= t);
        reading::lemma_tag_rejects(ascii::bytes_of(" "), t);
        assert(v =~= Seq::<ThreadView>::empty());
    } else {
        assert forall|i: int| 0 <= i < v.len() implies shapes::reads_alone(
            p,
            encode::flat(#[trigger] tokens[i]),
            v[i],
        ) by {
            let wf = |t: ThreadView| thread_wf(t, THREAD_DEPTH as nat);
            assert(wf(v[i]));
            lemma_thread_reads(v[i], THREAD_DEPTH as nat);
        }
        shapes::lemma_row_reads(p, tokens, v, t);
        args::lemma_argument_reads(shapes::row(p), shapes::row_tokens(tokens), v, t);
    }
}

// ------------------------------------------------------------------ executable

/// Reads threads, one right behind the other, as long as they follow.
fn thread_row<'a>(input: &'a [u8], depth: usize) -> (res: IMAPResult<'a, Vec<Thread>>)
    ensures
        g::agrees(res, shapes::row(thread_rule(depth as nat))(input@)),
    decreases depth, 1int,
{
    let ghost p = thread_rule(depth as nat);
    let ghost whole = g::repeated_from(g::text("("), p, input@);
    let mut read: Vec<Thread> = Vec::new();
    let mut at: &'a [u8] = input;
    proof {
        assert(read.deep_view() =~= seq![]);
        if let Outcome::Done(r, xs) = whole {
            assert(Seq::<ThreadView>::empty() + xs =~= xs);
        }
    }
    loop
        invariant
            p == thread_rule(depth as nat),
            whole == g::repeated_from(g::text("("), p, input@),
            whole == g::after(read.deep_view(), g::repeated_from(g::text("("), p, at@)),
        decreases at@.len(),
    {
        let behind: Option<&'a [u8]> = match tag(at, "(") {
            Ok((rest, _)) => Some(rest),
            Err(IMAPParseError::Error) => None,
            Err(e) => return Err(e),
        };
        let next: Option<(&'a [u8], Thread)> = match behind {
            None => None,
            Some(behind) => {
                if behind.len() >= at.len() {
                    return Err(IMAPParseError::Error);
                }
                match thread(behind, depth) {
                    Ok((rest, x)) => Some((rest, x)),
                    Err(IMAPParseError::Error) => None,
                    Err(e) => return Err(e),
                }
            },
        };
        match next {
            None => {
                assert(read.deep_view() + seq![] =~= read.deep_view());
                if read.len() == 0 {
                    return Err(IMAPParseError::Error);
                }
                return Ok((at, read));
            },
            Some((rest, x)) => {
                if rest.len() >= at.len() {
                    return Err(IMAPParseError::Error);
                }
                let ghost before = read.deep_view();
                let ghost seen = x.deep_view();
                read.push(x);
                proof {
                    assert(read.deep_view() =~= before.push(seen));
                    if let Outcome::Done(r, xs) = g::repeated_from(g::text("("), p, rest@) {
                        assert(before + (seq![seen] + xs) =~= before.push(seen) + xs);
                    }
                }
                at = rest;
            },
        }
    }
}

fn nested<'a>(input: &'a [u8], depth: usize) -> (res: IMAPResult<'a, Vec<Thread>>)
    ensures
        g::agrees(res, nested_rule(thread_rule(depth as nat))(input@)),
    decreases depth, 2int,
{
    let (rest, v) = thread_row(input, depth)?;
    if v.len() < 2 {
        return Err(IMAPParseError::Error);
    }
    Ok((rest, v))
}

/// Reads the answers behind a space, where there are some.
fn answers<'a>(input: &'a [u8], depth: usize) -> (res: IMAPResult<'a, Option<Vec<Thread>>>)
    ensures
        g::agrees(res, g::opt(args::sp(nested_rule(thread_rule(depth as nat))))(input@)),
    decreases depth, 3int,
{
    let behind: &[u8] = match tag(input, " ") {
        Ok((behind, _)) => behind,
        Err(IMAPParseError::Error) => return Ok((input, None)),
        Err(e) => return Err(e),
    };
    match nested(behind, depth) {
        Ok((rest, v)) => Ok((rest, Some(v))),
        Err(IMAPParseError::Error) => Ok((input, None)),
        Err(e) => Err(e),
    }
}

fn members<'a>(input: &'a [u8], depth: usize) -> (res: IMAPResult<'a, Thread>)
    ensures
        g::agrees(res, members_rule(thread_rule(depth as nat))(input@)),
    decreases depth, 4int,
{
    let (rest, members) = list1(input, " ", nz_number, Ghost(number::nz_number_rule()))?;
    let (rest, found) = answers(rest, depth)?;
    let answers: Vec<Thread> = match found {
        Some(v) => v,
        None => Vec::new(),
    };
    let t = Thread { members, answers };
    proof {
        lemma_thread_view(t);
        assert(found is None ==> answers.deep_view() =~= Seq::<ThreadView>::empty());
    }
    Ok((rest, t))
}

fn thread<'a>(input: &'a [u8], depth: usize) -> (res: IMAPResult<'a, Thread>)
    ensures
        g::agrees(res, thread_rule(depth as nat)(input@)),
    decreases depth, 0int,
{
    proof {
        reveal_with_fuel(thread_rule, 1);
    }
    if depth == 0 {
        return Err(IMAPParseError::Failure(IMAPErrorKind::RecursionLimitExceeded));
    }
    let (rest, t) = match members(input, depth - 1) {
        Ok((rest, t)) => (rest, t),
        Err(IMAPParseError::Error) => {
            let (rest, answers) = nested(input, depth - 1)?;
            let t = Thread { members: Vec::new(), answers };
            proof {
                lemma_thread_view(t);
                assert(t.members.deep_view() =~= Seq::<u32>::empty());
            }
            (rest, t)
        },
        Err(e) => return Err(e),
    };
    let (rest, _) = tag(rest, ")")?;
    Ok((rest, t))
}

pub fn threads<'a>(input: &'a [u8]) -> (res: IMAPResult<'a, Vec<Thread>>)
    ensures
        g::agrees(res, threads_rule()(input@)),
{
    proof {
        reveal(threads_rule);
    }
    let none: Vec<Thread> = Vec::new();
    assert(none.deep_view() =~= Seq::<ThreadView>::empty());
    let behind: &[u8] = match tag(input, " ") {
        Ok((behind, _)) => behind,
        Err(IMAPParseError::Error) => return Ok((input, none)),
        Err(e) => return Err(e),
    };
    match thread_row(behind, THREAD_DEPTH) {
        Ok((rest, v)) => Ok((rest, v)),
        Err(IMAPParseError::Error) => Ok((input, none)),
        Err(e) => Err(e),
    }
}

fn write_row(items: &Vec<Thread>, ctx: &mut EncodeContext)
    ensures
        final(ctx)@ == old(ctx)@ + shapes::row_tokens(thread_parts(items.deep_view())),
    decreases items, 0int,
{
    let ghost open = encode::word("(");
    let ghost all = items.deep_view().map_values(|t: ThreadView| thread_tokens(t));
    proof {
        lemma_thread_parts(items.deep_view());
        assert(all.take(0) =~= seq![]);
        assert(ctx@ + encode::spread(all.take(0), open) =~= ctx@);
    }
    let ghost start = ctx@;
    let mut i: usize = 0;
    while i < items.len()
        invariant
            i <= items@.len(),
            open == encode::word("("),
            all == items.deep_view().map_values(|t: ThreadView| thread_tokens(t)),
            all.len() == items@.len(),
            ctx@ == start + encode::spread(all.take(i as int), open),
        decreases items@.len() - i,
    {
        proof {
            encode::lemma_spread_push(all.take(i as int), all[i as int], open);
            assert(all.take(i + 1) =~= all.take(i as int).push(all[i as int]));
            assert(items.deep_view()[i as int] == items@[i as int].deep_view());
        }
        ctx.write_text("(");
        assert(decreases_to!(*items => items@[i as int]));
        write_thread(&items[i], ctx);
        assert(ctx@ =~= start + (encode::spread(all.take(i as int), open) + open + all[i as int]));
        i = i + 1;
    }
    assert(all.take(i as int) =~= all);
}

fn write_thread(t: &Thread, ctx: &mut EncodeContext)
    ensures
        final(ctx)@ == old(ctx)@ + thread_tokens(t.deep_view()),
    decreases t, 1int,
{
    proof {
        lemma_thread_view(*t);
        lemma_thread_parts(t.answers.deep_view());
    }
    join_serializable(t.members.as_slice(), " ", ctx);
    if t.answers.len() > 0 {
        if t.members.len() > 0 {
            ctx.write_text(" ");
        }
        assert(decreases_to!(*t => t.answers));
        write_row(&t.answers, ctx);
    }
    ctx.write_text(")");
    assert(ctx@ =~= old(ctx)@ + thread_tokens(t.deep_view()));
}

/// Writes threads behind a space, where there are some.
pub fn write_threads(v: &Vec<Thread>, ctx: &mut EncodeContext)
    ensures
        final(ctx)@ == old(ctx)@ + threads_tokens(v.deep_view()),
{
    proof {
        lemma_thread_parts(v.deep_view());
    }
    if v.len() > 0 {
        ctx.write_text(" ");
        write_row(v, ctx);
    }
    assert(ctx@ =~= old(ctx)@ + threads_tokens(v.deep_view()));
}

} // verus!
