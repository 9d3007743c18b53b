//! How input is cut into pieces does not matter.
use vstd::prelude::*;

use crate::fragmentizer as lines;
use crate::fragmentizer::streaming as steps;
use crate::fragmentizer::streaming::{
    DecoderView, EventView, LiteralDescriptor, StreamingResponseError, INPUT_BUFFER,
};

verus! {

// ----------------------------------------------------------------------- events

/// One more event. A chunk is joined with the chunk of the same literal before it.
pub open spec fn with_event(events: Seq<EventView>, e: EventView) -> Seq<EventView> {
    if events.len() == 0 {
        seq![e]
    } else {
        match (events.last(), e) {
            (
                EventView::LiteralChunk { index: i, data: a },
                EventView::LiteralChunk { index: j, data: b },
            ) => if i == j {
                events.drop_last().push(EventView::LiteralChunk { index: i, data: a + b })
            } else {
                events.push(e)
            },
            _ => events.push(e),
        }
    }
}

/// More events behind those that are there.
pub open spec fn joined_to(events: Seq<EventView>, more: Seq<EventView>) -> Seq<EventView>
    decreases more.len(),
{
    if more.len() == 0 {
        events
    } else {
        with_event(joined_to(events, more.drop_last()), more.last())
    }
}

/// The events with neighbouring chunks of one literal joined.
pub open spec fn joined(events: Seq<EventView>) -> Seq<EventView> {
    joined_to(seq![], events)
}

proof fn lemma_joined_add(start: Seq<EventView>, a: Seq<EventView>, b: Seq<EventView>)
    ensures
        joined_to(start, a + b) == joined_to(joined_to(start, a), b),
    decreases b.len(),
{
    if b.len() == 0 {
        assert(a + b =~= a);
    } else {
        lemma_joined_add(start, a, b.drop_last());
        assert((a + b).drop_last() =~= a + b.drop_last());
        assert((a + b).last() == b.last());
    }
}

proof fn lemma_chunks_merge(events: Seq<EventView>, i: u32, a: Seq<u8>, b: Seq<u8>)
    ensures
        with_event(
            with_event(events, EventView::LiteralChunk { index: i, data: a }),
            EventView::LiteralChunk { index: i, data: b },
        ) == with_event(events, EventView::LiteralChunk { index: i, data: a + b }),
{
    let ea = EventView::LiteralChunk { index: i, data: a };
    let eb = EventView::LiteralChunk { index: i, data: b };
    let eab = EventView::LiteralChunk { index: i, data: a + b };
    let first = with_event(events, ea);
    assert(first.len() > 0);
    if events.len() == 0 {
        assert(first.drop_last() =~= seq![]);
        assert(with_event(first, eb) =~= with_event(events, eab));
    } else {
        match events.last() {
            EventView::LiteralChunk { index: j, data: c } => {
                if i == j {
                    assert((c + a) + b =~= c + (a + b));
                    assert(first.drop_last() =~= events.drop_last());
                } else {
                    assert(first.drop_last() =~= events);
                }
            },
            _ => {
                assert(first.drop_last() =~= events);
            },
        }
        assert(with_event(first, eb) =~= with_event(events, eab));
    }
}

/// Events may be joined before others come in front of them.
proof fn lemma_joined_again(start: Seq<EventView>, b: Seq<EventView>)
    ensures
        joined_to(start, b) == joined_to(start, joined(b)),
    decreases b.len(),
{
    if b.len() > 0 {
        let b0 = b.drop_last();
        let e = b.last();
        lemma_joined_again(start, b0);
        let j0 = joined(b0);
        let j = joined(b);
        assert(j == with_event(j0, e));
        if j0.len() == 0 {
            assert(j.drop_last() =~= seq![]);
            assert(j0 =~= seq![]);
            assert(joined_to(start, j.drop_last()) == start);
        } else {
            match (j0.last(), e) {
                (
                    EventView::LiteralChunk { index: i, data: x },
                    EventView::LiteralChunk { index: k, data: y },
                ) => {
                    if i == k {
                        assert(j.drop_last() =~= j0.drop_last());
                        lemma_chunks_merge(joined_to(start, j0.drop_last()), i, x, y);
                    } else {
                        assert(j.drop_last() =~= j0);
                    }
                },
                _ => {
                    assert(j.drop_last() =~= j0);
                },
            }
        }
    }
}

proof fn lemma_joined_parts(
    a: Seq<EventView>,
    a2: Seq<EventView>,
    b: Seq<EventView>,
    b2: Seq<EventView>,
)
    requires
        joined(a) == joined(a2),
        joined(b) == joined(b2),
    ensures
        joined(a + b) == joined(a2 + b2),
{
    lemma_joined_add(seq![], a, b);
    lemma_joined_add(seq![], a2, b2);
    lemma_joined_again(joined(a), b);
    lemma_joined_again(joined(a2), b2);
}

// ------------------------------------------------------------------------- runs

/// What came out of a decoder: its events, and the error that ended it.
pub struct Drained {
    pub state: DecoderView,
    pub events: Seq<EventView>,
    pub error: Option<StreamingResponseError>,
}

pub open spec fn measure(s: DecoderView) -> nat {
    2 * s.input.len() + if s.remaining is Some {
        1nat
    } else {
        0nat
    }
}

pub proof fn lemma_step_shrinks(s: DecoderView)
    ensures
        steps::stepped(s).1 matches Ok(Some(_)) ==> measure(steps::stepped(s).0) < measure(s),
{
    lines::lemma_line_feed(s.input);
}

/// The next events, until more input is needed or an error comes.
pub open spec fn drained(s: DecoderView) -> Drained
    decreases measure(s),
{
    match steps::stepped(s).1 {
        Err(e) => Drained { state: steps::stepped(s).0, events: seq![], error: Some(e) },
        Ok(None) => Drained { state: steps::stepped(s).0, events: seq![], error: None },
        Ok(Some(e)) => {
            proof {
                lemma_step_shrinks(s);
            }
            let rest = drained(steps::stepped(s).0);
            Drained { events: seq![e] + rest.events, ..rest }
        },
    }
}

/// A piece of input is handed over, and what comes of it is taken.
pub open spec fn fed(s: DecoderView, piece: Seq<u8>) -> Drained {
    match steps::enqueued(s, piece).1 {
        Err(e) => Drained { state: steps::enqueued(s, piece).0, events: seq![], error: Some(e) },
        Ok(_) => drained(steps::enqueued(s, piece).0),
    }
}

/// The pieces are handed over one by one.
pub open spec fn fed_all(s: DecoderView, pieces: Seq<Seq<u8>>) -> Drained
    decreases pieces.len(),
{
    if pieces.len() == 0 {
        Drained { state: s, events: seq![], error: None }
    } else {
        let before = fed_all(s, pieces.drop_last());
        if before.error is Some {
            before
        } else {
            let last = fed(before.state, pieces.last());
            Drained { events: before.events + last.events, ..last }
        }
    }
}

/// The input that was cut into the pieces.
pub open spec fn whole(pieces: Seq<Seq<u8>>) -> Seq<u8>
    decreases pieces.len(),
{
    if pieces.len() == 0 {
        seq![]
    } else {
        whole(pieces.drop_last()) + pieces.last()
    }
}

/// The input cut into single bytes.
spec fn singles(input: Seq<u8>) -> Seq<Seq<u8>> {
    Seq::new(input.len(), |i: int| seq![input[i]])
}

/// Nothing comes of it without more input.
pub open spec fn is_settled(s: DecoderView) -> bool {
    &&& !s.failed
    &&& s.input.len() == 0
    &&& steps::stepped(s) == (s, Ok::<Option<EventView>, StreamingResponseError>(None))
}

// ---------------------------------------------------------------------- lemmas

/// The state with this input in place of its own.
pub open spec fn with_input(s: DecoderView, input: Seq<u8>) -> DecoderView {
    DecoderView { input, ..s }
}

proof fn lemma_drained_settles(s: DecoderView)
    requires
        drained(s).error is None,
    ensures
        is_settled(drained(s).state),
    decreases measure(s),
{
    match steps::stepped(s).1 {
        Ok(Some(e)) => {
            lemma_step_shrinks(s);
            lemma_drained_settles(steps::stepped(s).0);
        },
        Ok(None) => {
            lemma_waiting_settles(s);
        },
        Err(e) => {},
    }
}

proof fn lemma_waiting_settles(s: DecoderView)
    requires
        steps::stepped(s).1 == Ok::<Option<EventView>, StreamingResponseError>(None),
    ensures
        is_settled(steps::stepped(s).0),
{
    let t = steps::renewed(s);
    let after = steps::stepped(s).0;
    if t.remaining is None {
        lines::lemma_line_feed(t.input);
        assert(after == steps::line_taken(t));
        assert(t.input.take(t.input.len() as int) =~= t.input);
        assert(t.input.skip(t.input.len() as int) =~= seq![]);
        assert(after.input.len() == 0);
        assert(after.line + after.input.take(0) =~= after.line);
        assert(after.input.skip(0) =~= after.input);
        assert(steps::line_taken(after) == after);
    }
}

proof fn lemma_drained_counts(s: DecoderView)
    requires
        s.consumed + s.input.len() <= usize::MAX,
    ensures
        drained(s).state.consumed + drained(s).state.input.len() == s.consumed + s.input.len(),
    decreases measure(s),
{
    steps::law_consumed_input_is_counted(s);
    if let Ok(Some(e)) = steps::stepped(s).1 {
        lemma_step_shrinks(s);
        lemma_drained_counts(steps::stepped(s).0);
    }
}

/// Input behind the line does not change how the line is taken.
proof fn lemma_line_step_frame(t: DecoderView, x: Seq<u8>, y: Seq<u8>)
    requires
        lines::line_feed(x) < x.len(),
    ensures
        ({
            let alone = steps::line_step(with_input(t, x));
            let followed = steps::line_step(with_input(t, x + y));
            &&& followed.1 == alone.1
            &&& followed.0 == with_input(alone.0, alone.0.input + y)
            &&& alone.1 != Ok::<Option<EventView>, StreamingResponseError>(None)
        }),
{
    let n = lines::line_feed(x) as int;
    lines::lemma_line_feed(x);
    let a = with_input(t, x);
    let w = with_input(t, x + y);
    assert forall|i: int| 0 <= i < n implies #[trigger] (x + y)[i] != 0x0a by {
        assert((x + y)[i] == x[i]);
    }
    assert((x + y)[n] == x[n]);
    lines::lemma_line_feed_is(x + y, n);
    assert((x + y).take(n) =~= x.take(n));
    assert((x + y).take(n + 1) =~= x.take(n + 1));
    assert((x + y).skip(n + 1) =~= x.skip(n + 1) + y);
    let ta = steps::line_taken(a);
    let tw = steps::line_taken(w);
    assert(tw == with_input(ta, ta.input + y));
    assert(steps::final_step(tw) == (
        with_input(steps::final_step(ta).0, ta.input + y),
        steps::final_step(ta).1,
    ));
}

/// Two pieces, one after the other.
spec fn in_two(s: DecoderView, x: Seq<u8>, y: Seq<u8>) -> Drained {
    let first = drained(with_input(s, x));
    let second = drained(with_input(first.state, y));
    Drained { events: first.events + second.events, ..second }
}

/// One event comes first in both runs, and the rest is alike.
proof fn lemma_first_event(s: DecoderView, s2: DecoderView, e: EventView, x: Seq<u8>, x2: Seq<u8>, y: Seq<u8>)
    requires
        steps::stepped(with_input(s, x)) == (
            with_input(s2, x2),
            Ok::<Option<EventView>, StreamingResponseError>(Some(e)),
        ),
        steps::stepped(with_input(s, x + y)) == (
            with_input(s2, x2 + y),
            Ok::<Option<EventView>, StreamingResponseError>(Some(e)),
        ),
        drained(with_input(s2, x2)).error is None,
        in_two(s2, x2, y).error is None,
        in_two(s2, x2, y).state == drained(with_input(s2, x2 + y)).state,
        joined(in_two(s2, x2, y).events) == joined(drained(with_input(s2, x2 + y)).events),
    ensures
        drained(with_input(s, x)).error is None,
        in_two(s, x, y).error is None,
        in_two(s, x, y).state == drained(with_input(s, x + y)).state,
        joined(in_two(s, x, y).events) == joined(drained(with_input(s, x + y)).events),
{
    let first = drained(with_input(s, x));
    let rest = drained(with_input(s2, x2));
    let second = drained(with_input(rest.state, y));
    assert(first.events == seq![e] + rest.events);
    assert(first.state == rest.state);
    assert(in_two(s, x, y).events =~= seq![e] + in_two(s2, x2, y).events);
    lemma_joined_parts(
        seq![e],
        seq![e],
        in_two(s2, x2, y).events,
        drained(with_input(s2, x2 + y)).events,
    );
}

/// The first piece is taken without an event, and the second goes on as the
/// whole input would.
proof fn lemma_kept_piece(s: DecoderView, x: Seq<u8>, y: Seq<u8>)
    requires
        drained(with_input(s, x + y)).error is None,
        steps::stepped(with_input(s, x)).1 == Ok::<Option<EventView>, StreamingResponseError>(None),
        steps::stepped(with_input(steps::stepped(with_input(s, x)).0, y)) == steps::stepped(
            with_input(s, x + y),
        ),
    ensures
        drained(with_input(s, x)).error is None,
        in_two(s, x, y).error is None,
        in_two(s, x, y).state == drained(with_input(s, x + y)).state,
        joined(in_two(s, x, y).events) == joined(drained(with_input(s, x + y)).events),
{
    let first = drained(with_input(s, x));
    let second = drained(with_input(first.state, y));
    assert(first.events + second.events =~= second.events);
    assert(second == drained(with_input(s, x + y)));
}

/// Where a literal goes beyond the first piece.
proof fn lemma_chunk_split(s: DecoderView, x: Seq<u8>, y: Seq<u8>)
    requires
        !s.failed,
        !s.complete,
        s.literals.len() > 0,
        s.remaining matches Some(r) && r > x.len(),
        x.len() > 0,
        s.consumed + x.len() + y.len() <= usize::MAX,
        drained(with_input(s, x + y)).error is None,
    ensures
        drained(with_input(s, x)).error is None,
        in_two(s, x, y).error is None,
        in_two(s, x, y).state == drained(with_input(s, x + y)).state,
        joined(in_two(s, x, y).events) == joined(drained(with_input(s, x + y)).events),
{
    let r = s.remaining->0;
    let index = s.literals.last().index;
    let sx = with_input(s, x);
    let sw = with_input(s, x + y);
    let s1 = DecoderView {
        input: seq![],
        remaining: Some((r - x.len()) as u64),
        consumed: (s.consumed + x.len()) as usize,
        ..s
    };
    let all = if r <= x.len() + y.len() {
        r as int
    } else {
        (x.len() + y.len()) as int
    };
    let more = all - x.len();
    assert(x.take(x.len() as int) =~= x);
    assert(x.skip(x.len() as int) =~= seq![]);
    assert((x + y).take(all) =~= x + y.take(more));
    assert((x + y).skip(all) =~= y.skip(more));
    if !s.literals.last().binary && x.contains(0) {
        let i = choose|i: int| 0 <= i < x.len() && x[i] == 0;
        assert((x + y).take(all)[i] == 0);
        assert((x + y).take(all).contains(0));
    }
    let ex = EventView::LiteralChunk { index, data: x };
    assert(steps::stepped(sx) == (
        s1,
        Ok::<Option<EventView>, StreamingResponseError>(Some(ex)),
    ));
    assert(steps::stepped(s1) == (s1, Ok::<Option<EventView>, StreamingResponseError>(None)));
    let first = drained(sx);
    assert(drained(s1) == (Drained { state: s1, events: seq![], error: None }));
    assert(first.events =~= seq![ex]);
    assert(first.state == s1);
    if y.len() == 0 {
        assert(x + y =~= x);
        assert(with_input(s1, y) == s1) by {
            assert(y =~= s1.input);
        }
        assert(in_two(s, x, y).events =~= first.events);
    } else {
        let sy = with_input(s1, y);
        let data = y.take(more);
        if !s.literals.last().binary && data.contains(0) {
            let i = choose|i: int| 0 <= i < data.len() && data[i] == 0;
            assert((x + y).take(all)[x.len() + i] == 0);
            assert((x + y).take(all).contains(0));
        }
        let ey = EventView::LiteralChunk { index, data };
        let ew = EventView::LiteralChunk { index, data: x + data };
        let after = steps::stepped(sw).0;
        assert(steps::stepped(sw).1 == Ok::<Option<EventView>, StreamingResponseError>(Some(ew)));
        assert(steps::stepped(sy) == (
            after,
            Ok::<Option<EventView>, StreamingResponseError>(Some(ey)),
        ));
        let rest = drained(after).events;
        assert(in_two(s, x, y).events =~= seq![ex, ey] + rest);
        assert(drained(sw).events == seq![ew] + rest);
        assert(joined(seq![ex, ey]) == joined(seq![ew])) by {
            let none = Seq::<EventView>::empty();
            assert(seq![ex, ey].drop_last() =~= seq![ex]);
            assert(seq![ex].drop_last() =~= none);
            assert(seq![ew].drop_last() =~= none);
            assert(joined(none) == none);
            assert(joined(seq![ex]) == with_event(none, ex));
            lemma_chunks_merge(none, index, x, data);
        }
        lemma_joined_parts(seq![ex, ey], seq![ew], rest, rest);
    }
}

/// Input in two pieces comes to the same as the whole.
proof fn lemma_split(s: DecoderView, x: Seq<u8>, y: Seq<u8>)
    requires
        !s.failed,
        s.consumed + x.len() + y.len() <= usize::MAX,
        drained(with_input(s, x + y)).error is None,
    ensures
        drained(with_input(s, x)).error is None,
        in_two(s, x, y).error is None,
        in_two(s, x, y).state == drained(with_input(s, x + y)).state,
        joined(in_two(s, x, y).events) == joined(drained(with_input(s, x + y)).events),
    decreases measure(with_input(s, x + y)),
{
    let w = with_input(s, x + y);
    let t = steps::renewed(s);
    lemma_step_shrinks(w);
    if s.remaining is Some {
        let r = s.remaining->0;
        assert(!s.complete && s.literals.len() > 0);
        if r == 0 {
            let e = EventView::LiteralEnd { index: s.literals.last().index };
            let s2 = DecoderView { remaining: None, ..s };
            lemma_split(s2, x, y);
            lemma_first_event(s, s2, e, x, x, y);
        } else if x.len() == 0 {
            assert(x + y =~= y);
            let sx = with_input(s, x);
            assert(steps::stepped(sx) == (
                sx,
                Ok::<Option<EventView>, StreamingResponseError>(None),
            ));
            assert(with_input(sx, y) == with_input(s, x + y));
            lemma_kept_piece(s, x, y);
        } else if r <= x.len() {
            let n = r as int;
            assert((x + y).take(n) =~= x.take(n));
            assert((x + y).skip(n) =~= x.skip(n) + y);
            let e = EventView::LiteralChunk { index: s.literals.last().index, data: x.take(n) };
            let s2 = DecoderView {
                remaining: Some(0u64),
                consumed: (s.consumed + n) as usize,
                ..s
            };
            assert(steps::stepped(w).0 == with_input(s2, x.skip(n) + y));
            lemma_split(s2, x.skip(n), y);
            lemma_first_event(s, s2, e, x, x.skip(n), y);
        } else {
            lemma_chunk_split(s, x, y);
        }
    } else {
        lines::lemma_line_feed(x);
        lines::lemma_line_feed(x + y);
        let sx = with_input(s, x);
        assert(steps::renewed(sx) == with_input(t, x));
        assert(steps::renewed(w) == with_input(t, x + y));
        if lines::line_feed(x) < x.len() {
            lemma_line_step_frame(t, x, y);
            let alone = steps::stepped(sx);
            let followed = steps::stepped(w);
            assert(alone.1 == followed.1);
            if let Ok(Some(e)) = alone.1 {
                let s2 = alone.0;
                let x2 = alone.0.input;
                assert(with_input(s2, x2) == s2);
                assert(followed.0 == with_input(s2, x2 + y));
                steps::law_consumed_input_is_counted(sx);
                lemma_split(s2, x2, y);
                lemma_first_event(s, s2, e, x, x2, y);
            }
        } else {
            let t0 = with_input(t, seq![]);
            let n = lines::line_bytes(x + y) as int;
            assert(n >= x.len()) by {
                if lines::line_feed(x + y) < x.len() {
                    let k = lines::line_feed(x + y) as int;
                    assert((x + y)[k] == x[k]);
                }
            }
            assert(steps::fits(with_input(t, x + y), n));
            assert(steps::fits(t0, x.len() as int));
            steps::law_lines_may_come_in_pieces(t0, x, y);
            assert(with_input(t0, x) == with_input(t, x));
            assert(with_input(t0, x + y) == with_input(t, x + y));
            let first = steps::stepped(with_input(t, x)).0;
            assert(steps::stepped(sx) == steps::stepped(with_input(t, x)));
            assert(steps::stepped(w) == steps::stepped(with_input(t, x + y)));
            lemma_waiting_settles(sx);
            assert(first.input + y =~= y);
            lemma_kept_piece(s, x, y);
        }
    }
}

proof fn lemma_settled_input(s: DecoderView, piece: Seq<u8>)
    requires
        is_settled(s),
        piece.len() <= INPUT_BUFFER,
    ensures
        fed(s, piece) == drained(with_input(s, piece)),
{
    assert(s.input + piece =~= piece);
}

/// A piece comes to the same as its bytes, one by one.
proof fn lemma_bytes(s: DecoderView, piece: Seq<u8>)
    requires
        is_settled(s),
        s.consumed + piece.len() <= usize::MAX,
        drained(with_input(s, piece)).error is None,
    ensures
        fed_all(s, singles(piece)).error is None,
        fed_all(s, singles(piece)).state == drained(with_input(s, piece)).state,
        joined(fed_all(s, singles(piece)).events) == joined(
            drained(with_input(s, piece)).events,
        ),
    decreases piece.len(),
{
    if piece.len() == 0 {
        assert(piece =~= s.input);
        assert(with_input(s, piece) == s);
        assert(singles(piece).len() == 0);
    } else {
        let q = piece.drop_last();
        let last = seq![piece.last()];
        assert(piece =~= q + last);
        lemma_split(s, q, last);
        lemma_bytes(s, q);
        let first = drained(with_input(s, q));
        let second = drained(with_input(first.state, last));
        lemma_drained_settles(with_input(s, q));
        lemma_settled_input(first.state, last);
        let before = fed_all(s, singles(q));
        assert(singles(piece).drop_last() =~= singles(q));
        assert(singles(piece).last() =~= last);
        assert(fed_all(s, singles(piece)).events == before.events + second.events);
        lemma_joined_parts(before.events, first.events, second.events, second.events);
    }
}

proof fn lemma_fed_add(s: DecoderView, a: Seq<Seq<u8>>, b: Seq<Seq<u8>>)
    requires
        fed_all(s, a).error is None,
    ensures
        ({
            let after = fed_all(fed_all(s, a).state, b);
            fed_all(s, a + b) == (Drained { events: fed_all(s, a).events + after.events, ..after })
        }),
    decreases b.len(),
{
    let first = fed_all(s, a);
    if b.len() == 0 {
        assert(a + b =~= a);
        assert(first.events + Seq::<EventView>::empty() =~= first.events);
    } else {
        lemma_fed_add(s, a, b.drop_last());
        assert((a + b).drop_last() =~= a + b.drop_last());
        assert((a + b).last() == b.last());
        let inner = fed_all(first.state, b.drop_last());
        if inner.error is None {
            let last = fed(inner.state, b.last());
            assert((first.events + inner.events) + last.events =~= first.events + (inner.events
                + last.events));
        }
    }
}

/// Any pieces come to the same as their bytes, one by one.
proof fn lemma_pieces(s: DecoderView, pieces: Seq<Seq<u8>>)
    requires
        is_settled(s),
        s.consumed + whole(pieces).len() <= usize::MAX,
        fed_all(s, pieces).error is None,
    ensures
        is_settled(fed_all(s, pieces).state),
        fed_all(s, pieces).state.consumed == s.consumed + whole(pieces).len(),
        fed_all(s, singles(whole(pieces))).error is None,
        fed_all(s, singles(whole(pieces))).state == fed_all(s, pieces).state,
        joined(fed_all(s, singles(whole(pieces))).events) == joined(fed_all(s, pieces).events),
    decreases pieces.len(),
{
    if pieces.len() == 0 {
        assert(singles(whole(pieces)).len() == 0);
    } else {
        let init = pieces.drop_last();
        let piece = pieces.last();
        lemma_pieces(s, init);
        let before = fed_all(s, init);
        let bytes = fed_all(s, singles(whole(init)));
        let last = fed(before.state, piece);
        lemma_settled_input(before.state, piece);
        lemma_drained_counts(with_input(before.state, piece));
        lemma_drained_settles(with_input(before.state, piece));
        lemma_bytes(before.state, piece);
        let slow = fed_all(before.state, singles(piece));
        lemma_fed_add(s, singles(whole(init)), singles(piece));
        assert(singles(whole(pieces)) =~= singles(whole(init)) + singles(piece));
        lemma_joined_parts(bytes.events, before.events, slow.events, last.events);
    }
}

// ------------------------------------------------------------------------- law

/// Where the same input comes in different pieces, each handed over and drained
/// and none refused, the events are the same once neighbouring chunks of one
/// literal are joined, and so is the state at the end: syntax, literals,
/// completeness and the count of consumed input.
pub proof fn law_cuts_do_not_matter(maximum: usize, a: Seq<Seq<u8>>, b: Seq<Seq<u8>>)
    requires
        whole(a) == whole(b),
        whole(a).len() <= usize::MAX,
        fed_all(steps::initial(maximum), a).error is None,
        fed_all(steps::initial(maximum), b).error is None,
    ensures
        joined(fed_all(steps::initial(maximum), a).events) == joined(
            fed_all(steps::initial(maximum), b).events,
        ),
        fed_all(steps::initial(maximum), a).state == fed_all(steps::initial(maximum), b).state,
{
    let s = steps::initial(maximum);
    assert(is_settled(s)) by {
        assert(s.literals.len() * vstd::layout::size_of::<LiteralDescriptor>() == 0);
        assert(s.line + s.input.take(0) =~= s.line);
        assert(s.input.skip(0) =~= s.input);
        assert(steps::line_taken(s) == s);
    }
    lemma_pieces(s, a);
    lemma_pieces(s, b);
}

} // verus!
