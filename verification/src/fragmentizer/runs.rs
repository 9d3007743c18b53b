//! What holds of a decoder over all that is done with it.
use vstd::prelude::*;

use crate::ascii;
use crate::encode;
use crate::encode::{LiteralMode, Token};
use crate::fragmentizer as lines;
use crate::fragmentizer::streaming as steps;
use crate::fragmentizer::streaming::{
    DecoderView, EventView, LiteralDescriptor, StepResult, INPUT_BUFFER,
};
use crate::fragmentizer::{FragmentInfo, LatestByte, LineEnding, LiteralAnnouncement};
use crate::grammar::Outcome;
use crate::payloads;
use crate::response;
use crate::response::ResponseView;
use crate::spelling as sp;
use crate::strings;

verus! {

/// What can be done with a decoder.
pub enum Operation {
    EnqueueInput(Seq<u8>),
    Next,
    TakeConsumedInput,
    TakeUnparsedAfterMessage,
}

pub open spec fn operated(s: DecoderView, o: Operation) -> DecoderView {
    match o {
        Operation::EnqueueInput(bytes) => steps::enqueued(s, bytes).0,
        Operation::Next => steps::stepped(s).0,
        Operation::TakeConsumedInput => DecoderView { consumed: 0, ..s },
        Operation::TakeUnparsedAfterMessage => if s.complete {
            DecoderView { input: seq![], ..s }
        } else {
            s
        },
    }
}

/// The state of a new decoder after these operations.
pub open spec fn reached(maximum: usize, operations: Seq<Operation>) -> DecoderView
    decreases operations.len(),
{
    if operations.len() == 0 {
        steps::initial(maximum)
    } else {
        operated(reached(maximum, operations.drop_last()), operations.last())
    }
}

/// A state that a decoder can come into.
pub open spec fn reachable(s: DecoderView) -> bool {
    exists|maximum: usize, operations: Seq<Operation>| s == #[trigger] reached(maximum, operations)
}

/// The markers of the first literals of a message.
pub open spec fn markers(n: nat) -> Seq<Seq<u8>> {
    Seq::new(n, |i: int| steps::marker(i as u32))
}

/// Memory is bounded, descriptors have their places, and a message that is
/// complete has no literal left to come.
pub open spec fn is_bounded(s: DecoderView) -> bool {
    &&& steps::accounted(s) <= s.maximum
    &&& s.input.len() <= INPUT_BUFFER
    &&& steps::indexed(s.literals)
    &&& s.complete ==> s.remaining is None
    &&& s.remaining is Some ==> s.literals.len() > 0
}

/// What a decoder has collected of a message: the line has not ended yet, and
/// in the text for the codec each literal is the marker of its descriptor.
pub open spec fn is_collecting(s: DecoderView) -> bool {
    &&& sp::no_line_feed(s.line)
    &&& s.latest_byte == lines::advanced(LatestByte::Other, s.line)
    &&& s.complete ==> s.line.len() == 0
    &&& s.remaining is Some ==> s.line.len() == 0
    &&& !s.complete ==> sp::spelled(s.normalized, markers(s.literals.len()))
}

pub open spec fn is_kept(s: DecoderView) -> bool {
    is_bounded(s) && (!s.failed ==> is_collecting(s))
}

// ---------------------------------------------------------------------- lemmas

proof fn lemma_marker(index: u32)
    ensures
        steps::marker(index).len() == 29,
        sp::no_line_feed(steps::marker(index)),
        !ascii::same_word(steps::marker(index), ascii::bytes_of("INBOX")),
{
    let m = steps::marker(index);
    let d = steps::hex(index, 8);
    steps::lemma_power16_8();
    steps::lemma_hex(index, 8);
    reveal_strlit("~imap-stream-literal~");
    reveal_strlit("INBOX");
    assert forall|i: int| 0 <= i < m.len() implies #[trigger] m[i] != 0x0a by {
        if i >= 21 {
            assert(m[i] == d[i - 21]);
            assert(steps::hex_value(d[i - 21]) is Some);
        } else {
            assert(i == 0 || i == 1 || i == 2 || i == 3 || i == 4 || i == 5 || i == 6 || i == 7 || i
                == 8 || i == 9 || i == 10 || i == 11 || i == 12 || i == 13 || i == 14 || i == 15
                || i == 16 || i == 17 || i == 18 || i == 19 || i == 20);
        }
    }
    ascii::lemma_same_word_head(m, ascii::bytes_of("INBOX"));
}

proof fn lemma_replacement_spelled(index: u32)
    ensures
        sp::spelled(steps::replacement(index), seq![steps::marker(index)]),
{
    let m = steps::marker(index);
    let text = strings::announcement_text(29, LiteralMode::Sync);
    lemma_marker(index);
    lines::lemma_announcement_text(29, LiteralMode::Sync);
    lines::lemma_announcement_advances(LatestByte::Other, 29, LiteralMode::Sync);
    let line = text.drop_last();
    assert forall|i: int| 0 <= i < line.len() implies #[trigger] line[i] != 0x0a by {
        assert(text[i] != 0x0a);
    }
    sp::lemma_spelled_literal(line, m);
    encode::lemma_flat_add(encode::plain(text), seq![Token::Literal(m, LiteralMode::Sync)]);
    encode::lemma_flat_plain(text);
    encode::lemma_flat_literal(m, LiteralMode::Sync);
    assert(steps::replacement(index) =~= line + seq![0x0au8] + m);
}

proof fn lemma_carriage_return(x: Seq<u8>)
    requires
        lines::advanced(LatestByte::Other, x) is Cr,
    ensures
        x.len() > 0,
{
}

/// What is there when a line has come to its end.
spec fn line_has_ended(taken: DecoderView) -> bool {
    &&& taken.line.len() >= 2
    &&& taken.line.last() == 0x0a
    &&& sp::no_line_feed(taken.line.drop_last())
    &&& taken.latest_byte == LatestByte::Other
}

proof fn lemma_line_taken(t: DecoderView)
    requires
        is_collecting(t),
        !t.complete,
        t.remaining is None,
    ensures
        ({
            let taken = steps::line_taken(t);
            let n = lines::line_feed(t.input) as int;
            let info = lines::line_info(lines::advanced(t.latest_byte, t.input.take(n)));
            &&& n == t.input.len() ==> is_collecting(taken)
            &&& n < t.input.len() && info->ending == LineEnding::CrLf ==> line_has_ended(taken)
        }),
{
    let taken = steps::line_taken(t);
    let n = lines::line_feed(t.input) as int;
    lines::lemma_line_feed(t.input);
    lines::lemma_advanced_add(LatestByte::Other, t.line, t.input.take(n));
    assert forall|i: int| 0 <= i < t.line.len() + n implies #[trigger] (t.line + t.input)[i]
        != 0x0a by {
        if i < t.line.len() {
            assert(t.line[i] != 0x0a);
        } else {
            assert(t.input[i - t.line.len()] != 0x0a);
        }
    }
    if n == t.input.len() {
        assert(t.input.take(n) =~= t.input);
        assert forall|i: int| 0 <= i < taken.line.len() implies #[trigger] taken.line[i] != 0x0a by {
            assert(taken.line[i] == (t.line + t.input)[i]);
        }
    } else {
        let x = t.line + t.input.take(n);
        assert(taken.line =~= x + seq![0x0au8]);
        assert(taken.line.drop_last() =~= x);
        assert forall|i: int| 0 <= i < x.len() implies #[trigger] x[i] != 0x0a by {
            assert(x[i] == (t.line + t.input)[i]);
        }
        if lines::advanced(t.latest_byte, t.input.take(n)) is Cr {
            lemma_carriage_return(x);
        }
    }
}

/// A line whose announcement is replaced adds the marker of its literal.
proof fn lemma_replaced(normalized: Seq<u8>, n: nat, head: Seq<u8>)
    requires
        sp::spelled(normalized, markers(n)),
        sp::no_line_feed(head),
        n <= u32::MAX,
    ensures
        sp::spelled(normalized + head + steps::replacement(n as u32), markers(n + 1)),
{
    let index = n as u32;
    let before = markers(n);
    let none = Seq::<Seq<u8>>::empty();
    let added = seq![steps::marker(index)];
    assert(sp::spelled(normalized + head, before)) by {
        sp::lemma_quiet_text(head);
        sp::lemma_spelled_add(normalized, before, head, none);
        assert(before + none =~= before);
    }
    lemma_replacement_spelled(index);
    sp::lemma_spelled_add(normalized + head, before, steps::replacement(index), added);
    assert(before + added =~= markers(n + 1));
}

#[verifier::spinoff_prover]
proof fn lemma_started(taken: DecoderView, a: LiteralAnnouncement)
    requires
        line_has_ended(taken),
        !taken.complete,
        sp::spelled(taken.normalized, markers(taken.literals.len())),
    ensures
        steps::literal_start(taken, a).1 is Err || is_collecting(steps::literal_start(taken, a).0),
        steps::literal_start(taken, a).0.complete == taken.complete,
        !(steps::literal_start(taken, a).1 matches Ok(Some(EventView::Complete { .. }))),
{
    let (after, r) = steps::literal_start(taken, a);
    if r is Ok {
        steps::lemma_last_bracket(taken.line);
        let start = steps::last_bracket(taken.line)->0;
        let head = taken.line.take(start);
        assert forall|i: int| 0 <= i < head.len() implies #[trigger] head[i] != 0x0a by {
            assert(taken.line.drop_last()[i] == head[i]);
        }
        lemma_replaced(taken.normalized, taken.literals.len(), head);
        assert(after.line.len() == 0);
    }
}

/// A message that is complete holds the markers of its literals.
proof fn lemma_completed(taken: DecoderView, v: ResponseView)
    requires
        line_has_ended(taken),
        sp::spelled(taken.normalized, markers(taken.literals.len())),
        response::response_rule()(taken.normalized + taken.line) == Outcome::Done(
            Seq::<u8>::empty(),
            v,
        ),
    ensures
        payloads::literal_payloads(v) == markers(taken.literals.len()),
{
    let n = taken.literals.len();
    let text = taken.normalized + taken.line;
    let head = taken.line.take(taken.line.len() - 2);
    assert forall|i: int| 0 <= i < head.len() implies #[trigger] head[i] != 0x0a by {
        assert(taken.line.drop_last()[i] == head[i]);
    }
    sp::lemma_quiet_text(head);
    sp::lemma_spelled_add(taken.normalized, markers(n), head, seq![]);
    assert(markers(n) + Seq::<Seq<u8>>::empty() =~= markers(n));
    assert(text.take(text.len() - 2) =~= taken.normalized + head);
    assert forall|i: int| 0 <= i < n implies !ascii::same_word(
        #[trigger] markers(n)[i],
        ascii::bytes_of("INBOX"),
    ) by {
        lemma_marker(i as u32);
    }
    payloads::law_response_holds_its_literals(text, markers(n));
}

/// A step keeps what is collected, and a complete message holds its markers.
spec fn step_is_good(t: DecoderView, after: DecoderView, r: StepResult) -> bool {
    &&& r is Err || is_collecting(after)
    &&& r matches Ok(Some(EventView::Complete { structure })) ==> after.literals == t.literals
        && after.complete && payloads::literal_payloads(structure) == markers(t.literals.len())
    &&& after.complete ==> after.remaining is None
    &&& after.remaining is Some ==> after.literals.len() > 0
}

proof fn lemma_announced_is_good(taken: DecoderView, a: LiteralAnnouncement)
    requires
        line_has_ended(taken),
        !taken.complete,
        taken.remaining is None,
        sp::spelled(taken.normalized, markers(taken.literals.len())),
    ensures
        step_is_good(
            taken,
            steps::announced_step(taken, a).0,
            steps::announced_step(taken, a).1,
        ),
{
    lemma_started(taken, a);
    match response::response_rule()(taken.normalized + taken.line) {
        Outcome::Done(rest, v) => {
            if rest.len() == 0 {
                assert(rest =~= Seq::<u8>::empty());
                lemma_completed(taken, v);
            }
        },
        _ => {},
    }
}

proof fn lemma_final_is_good(taken: DecoderView)
    requires
        line_has_ended(taken),
        !taken.complete,
        taken.remaining is None,
        sp::spelled(taken.normalized, markers(taken.literals.len())),
    ensures
        step_is_good(taken, steps::final_step(taken).0, steps::final_step(taken).1),
{
    match response::response_rule()(taken.normalized + taken.line) {
        Outcome::Done(rest, v) => {
            if rest.len() == 0 {
                assert(rest =~= Seq::<u8>::empty());
                lemma_completed(taken, v);
            }
        },
        _ => {},
    }
}

proof fn lemma_line_step_is_good(t: DecoderView)
    requires
        is_collecting(t),
        !t.complete,
        t.remaining is None,
    ensures
        step_is_good(t, steps::line_step(t).0, steps::line_step(t).1),
{
    let taken = steps::line_taken(t);
    lemma_line_taken(t);
    if steps::fits(t, lines::line_bytes(t.input) as int) && lines::line_feed(t.input)
        < t.input.len() {
        let FragmentInfo::Line { announcement, ending } = lines::line_info(
            lines::advanced(t.latest_byte, t.input.take(lines::line_feed(t.input) as int)),
        );
        if ending == LineEnding::CrLf {
            match announcement {
                Some(a) => {
                    lemma_announced_is_good(taken, a);
                },
                None => {
                    lemma_final_is_good(taken);
                },
            }
        }
    } else {
        lines::lemma_line_feed(t.input);
    }
}

proof fn lemma_step_is_good(s: DecoderView)
    requires
        is_kept(s),
        !s.failed,
    ensures
        step_is_good(steps::renewed(s), steps::stepped(s).0, steps::stepped(s).1),
{
    let t = steps::renewed(s);
    assert(is_collecting(t)) by {
        if s.complete {
            let none: Seq<u8> = t.normalized;
            assert(none.len() == 0);
            sp::lemma_quiet_text(none);
            assert(markers(0) =~= seq![]);
        }
    }
    if t.remaining is None {
        lemma_line_step_is_good(t);
    }
}

proof fn lemma_operation_keeps(s: DecoderView, o: Operation)
    requires
        is_kept(s),
    ensures
        is_kept(operated(s, o)),
        operated(s, o).maximum == s.maximum,
{
    match o {
        Operation::EnqueueInput(bytes) => {
            steps::law_memory_is_bounded(s, bytes);
        },
        Operation::Next => {
            steps::law_memory_is_bounded(s, seq![]);
            steps::law_descriptors_are_indexed(s);
            if !s.failed {
                lemma_step_is_good(s);
            }
        },
        _ => {},
    }
}

// ------------------------------------------------------------------------ laws

/// Whatever is done with a decoder, its syntax takes no more memory than the
/// maximum that it was made with, no more input waits than the buffer holds,
/// descriptors have their places, a complete message has no literal left to
/// come, and until a failure the text for the codec has a marker for each
/// literal.
pub proof fn law_every_state_is_kept(maximum: usize, operations: Seq<Operation>)
    ensures
        is_kept(reached(maximum, operations)),
        reached(maximum, operations).maximum == maximum,
    decreases operations.len(),
{
    if operations.len() == 0 {
        let s = steps::initial(maximum);
        assert(s.literals.len() * vstd::layout::size_of::<LiteralDescriptor>() == 0);
        let none: Seq<u8> = s.normalized;
        assert(none.len() == 0);
        sp::lemma_quiet_text(none);
        assert(markers(0) =~= seq![]);
    } else {
        law_every_state_is_kept(maximum, operations.drop_last());
        lemma_operation_keeps(reached(maximum, operations.drop_last()), operations.last());
    }
}

/// The literals of a response that was streamed are the markers of its
/// descriptors, in their order: each of them resolves to one descriptor.
pub proof fn law_streamed_literals_resolve(s: DecoderView)
    requires
        reachable(s),
        steps::stepped(s).1 matches Ok(Some(EventView::Complete { .. })),
    ensures
        ({
            let structure = steps::stepped(s).1->Ok_0->Some_0->structure;
            let literals = steps::stepped(s).0.literals;
            let found = payloads::literal_payloads(structure);
            &&& found.len() == literals.len()
            &&& forall|k: int|
                0 <= k < literals.len() ==> #[trigger] found[k] == steps::marker(k as u32)
                    && steps::referenced(found[k], literals) == Some(literals[k])
        }),
{
    let (maximum, operations) = choose|maximum: usize, operations: Seq<Operation>|
        s == #[trigger] reached(maximum, operations);
    law_every_state_is_kept(maximum, operations);
    lemma_step_is_good(s);
    steps::law_descriptors_are_indexed(s);
    let structure = steps::stepped(s).1->Ok_0->Some_0->structure;
    let literals = steps::stepped(s).0.literals;
    let found = payloads::literal_payloads(structure);
    assert forall|k: int| 0 <= k < literals.len() implies #[trigger] found[k] == steps::marker(
        k as u32,
    ) && steps::referenced(found[k], literals) == Some(literals[k]) by {
        assert(literals[k].index == k);
        steps::law_marker_refers_to_its_literal(literals, k as u32);
    }
}

} // verus!
