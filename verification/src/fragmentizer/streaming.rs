//! Bounded streaming of response literals. Literal bytes never enter the message
//! syntax buffer. The final typed response contains private reference markers,
//! resolved with `literal_reference`. It must not be used as a materialized
//! response.
use vstd::prelude::*;

use crate::ascii;
use crate::codec::{ResponseCodec, ResponseDecodeError};
use crate::encode;
use crate::encode::LiteralMode;
use crate::fragmentizer as lines;
use crate::fragmentizer::{FragmentInfo, LatestByte, LineEnding, LineParser, LiteralAnnouncement};
use crate::grammar::Outcome;
use crate::response;
use crate::response::{Response, ResponseView};
use crate::strings;
use crate::strings::StringView;

verus! {

/// How many bytes of input may wait to be parsed.
pub const INPUT_BUFFER: usize = 65536;

/// A literal of the response that is being streamed.
#[derive(Clone, Copy, Debug, PartialEq, Eq, Structural)]
pub struct LiteralDescriptor {
    pub index: u32,
    pub length: u64,
    pub binary: bool,
}

#[derive(Debug)]
pub enum StreamingResponseEvent {
    /// A literal begins. The prefix is the line that announces it.
    LiteralStart { literal: LiteralDescriptor, prefix: Vec<u8> },
    LiteralChunk { index: u32, data: Vec<u8> },
    LiteralEnd { index: u32 },
    /// The response is complete, with markers in place of its literals.
    Complete { structure: Response },
}

pub enum EventView {
    LiteralStart { literal: LiteralDescriptor, prefix: Seq<u8> },
    LiteralChunk { index: u32, data: Seq<u8> },
    LiteralEnd { index: u32 },
    Complete { structure: ResponseView },
}

impl DeepView for StreamingResponseEvent {
    type V = EventView;

    open spec fn deep_view(&self) -> EventView {
        match self {
            StreamingResponseEvent::LiteralStart { literal, prefix } => EventView::LiteralStart {
                literal: *literal,
                prefix: prefix@,
            },
            StreamingResponseEvent::LiteralChunk { index, data } => EventView::LiteralChunk {
                index: *index,
                data: data@,
            },
            StreamingResponseEvent::LiteralEnd { index } => EventView::LiteralEnd {
                index: *index,
            },
            StreamingResponseEvent::Complete { structure } => EventView::Complete {
                structure: structure.deep_view(),
            },
        }
    }
}

#[derive(Clone, Copy, Debug, PartialEq, Eq, Structural)]
pub enum StreamingResponseError {
    BufferLimit,
    Syntax,
    NonSyncResponse,
    NullLiteral,
    Failed,
}

pub open spec fn error_name(e: StreamingResponseError) -> Seq<char> {
    match e {
        StreamingResponseError::BufferLimit => "BufferLimit"@,
        StreamingResponseError::Syntax => "Syntax"@,
        StreamingResponseError::NonSyncResponse => "NonSyncResponse"@,
        StreamingResponseError::NullLiteral => "NullLiteral"@,
        StreamingResponseError::Failed => "Failed"@,
    }
}

impl StreamingResponseError {
    /// The error in words.
    pub fn message(&self) -> (r: String)
        ensures
            r@ == "IMAP response streaming: "@ + error_name(*self),
    {
        let mut r: String = "IMAP response streaming: ".to_owned();
        match self {
            StreamingResponseError::BufferLimit => r.append("BufferLimit"),
            StreamingResponseError::Syntax => r.append("Syntax"),
            StreamingResponseError::NonSyncResponse => r.append("NonSyncResponse"),
            StreamingResponseError::NullLiteral => r.append("NullLiteral"),
            StreamingResponseError::Failed => r.append("Failed"),
        }
        r
    }
}

// --------------------------------------------------------------------- markers

#[verifier::allow_in_spec]
pub fn hex_digit(n: u32) -> u8
    returns
        (if n < 10 {
            ('0' as u8 + n) as u8
        } else if n < 16 {
            ('A' as u8 + n - 10) as u8
        } else {
            '0' as u8
        }),
{
    if n < 10 {
        '0' as u8 + n as u8
    } else if n < 16 {
        'A' as u8 + (n as u8 - 10)
    } else {
        '0' as u8
    }
}

#[verifier::allow_in_spec]
pub fn hex_value(b: u8) -> Option<u32>
    returns
        (if '0' as u8 <= b && b <= '9' as u8 {
            Some((b - '0' as u8) as u32)
        } else if 'A' as u8 <= b && b <= 'F' as u8 {
            Some((b - 'A' as u8 + 10) as u32)
        } else if 'a' as u8 <= b && b <= 'f' as u8 {
            Some((b - 'a' as u8 + 10) as u32)
        } else {
            None
        }),
{
    if '0' as u8 <= b && b <= '9' as u8 {
        Some((b - '0' as u8) as u32)
    } else if 'A' as u8 <= b && b <= 'F' as u8 {
        Some((b - 'A' as u8 + 10) as u32)
    } else if 'a' as u8 <= b && b <= 'f' as u8 {
        Some((b - 'a' as u8 + 10) as u32)
    } else {
        None
    }
}

/// The last `k` digits of a number in base 16.
pub open spec fn hex(n: u32, k: nat) -> Seq<u8>
    decreases k,
{
    if k == 0 {
        seq![]
    } else {
        hex(n / 16, (k - 1) as nat).push(hex_digit(n % 16))
    }
}

pub open spec fn all_hex(d: Seq<u8>) -> bool {
    forall|i: int| 0 <= i < d.len() ==> hex_value(#[trigger] d[i]) is Some
}

/// The value of digits in base 16.
pub open spec fn hex_number(d: Seq<u8>) -> nat
    decreases d.len(),
{
    if d.len() == 0 {
        0
    } else {
        hex_number(d.drop_last()) * 16 + hex_value(d.last())->0 as nat
    }
}

pub open spec fn marker_prefix() -> Seq<u8> {
    ascii::bytes_of("~imap-stream-literal~")
}

/// What stands for the literal of this index in the final response.
pub open spec fn marker(index: u32) -> Seq<u8> {
    marker_prefix() + hex(index, 8)
}

/// Eight characters of a number in base 16, of which the first may be a sign.
pub open spec fn reference_number(d: Seq<u8>) -> Option<nat> {
    if d.len() != 8 {
        None
    } else if d[0] == '+' as u8 && all_hex(d.skip(1)) {
        Some(hex_number(d.skip(1)))
    } else if all_hex(d) {
        Some(hex_number(d))
    } else {
        None
    }
}

/// The index that a marker holds.
pub open spec fn marked_index(data: Seq<u8>) -> Option<nat> {
    if marker_prefix().is_prefix_of(data) {
        reference_number(data.skip(marker_prefix().len() as int))
    } else {
        None
    }
}

/// The descriptor that a marker refers to.
pub open spec fn referenced(data: Seq<u8>, literals: Seq<LiteralDescriptor>) -> Option<
    LiteralDescriptor,
> {
    match marked_index(data) {
        Some(n) => if n < literals.len() && literals[n as int].index == n {
            Some(literals[n as int])
        } else {
            None
        },
        None => None,
    }
}

/// Each descriptor has the index of its place.
pub open spec fn indexed(literals: Seq<LiteralDescriptor>) -> bool {
    forall|i: int| 0 <= i < literals.len() ==> (#[trigger] literals[i]).index == i
}

// ----------------------------------------------------------------------- state

pub struct DecoderView {
    pub input: Seq<u8>,
    pub latest_byte: LatestByte,
    pub line: Seq<u8>,
    pub syntax: Seq<u8>,
    pub normalized: Seq<u8>,
    pub literals: Seq<LiteralDescriptor>,
    pub remaining: Option<u64>,
    pub maximum: usize,
    pub consumed: usize,
    pub complete: bool,
    pub failed: bool,
}

pub type StepResult = Result<Option<EventView>, StreamingResponseError>;

pub open spec fn result_view(
    r: Result<Option<StreamingResponseEvent>, StreamingResponseError>,
) -> StepResult {
    match r {
        Ok(Some(e)) => Ok(Some(e.deep_view())),
        Ok(None) => Ok(None),
        Err(e) => Err(e),
    }
}

pub open spec fn initial(maximum: usize) -> DecoderView {
    DecoderView {
        input: seq![],
        latest_byte: LatestByte::Other,
        line: seq![],
        syntax: seq![],
        normalized: seq![],
        literals: seq![],
        remaining: None,
        maximum,
        consumed: 0,
        complete: false,
        failed: false,
    }
}

/// How much memory the syntax of the message takes.
pub open spec fn accounted(s: DecoderView) -> nat {
    s.syntax.len() + s.normalized.len() + s.line.len() + s.literals.len()
        * vstd::layout::size_of::<LiteralDescriptor>()
}

pub open spec fn fits(s: DecoderView, additional: int) -> bool {
    accounted(s) + additional <= s.maximum
}

/// What is there of a message that is complete goes before the next one comes.
pub open spec fn renewed(s: DecoderView) -> DecoderView {
    if s.complete {
        DecoderView {
            complete: false,
            syntax: seq![],
            normalized: seq![],
            literals: seq![],
            ..s
        }
    } else {
        s
    }
}

/// Takes bytes from the input.
pub open spec fn consume(s: DecoderView, count: int) -> DecoderView {
    DecoderView {
        input: s.input.skip(count),
        consumed: (s.consumed + count) as usize,
        ..s
    }
}

/// A step inside of a literal.
pub open spec fn literal_step(s: DecoderView, remaining: u64) -> (DecoderView, StepResult) {
    if s.literals.len() == 0 {
        (s, Err(StreamingResponseError::Syntax))
    } else if remaining == 0 {
        (
            DecoderView { remaining: None, ..s },
            Ok(Some(EventView::LiteralEnd { index: s.literals.last().index })),
        )
    } else if s.input.len() == 0 {
        (s, Ok(None))
    } else {
        let count = if remaining <= s.input.len() {
            remaining as int
        } else {
            s.input.len() as int
        };
        let data = s.input.take(count);
        let after = consume(s, count);
        if !s.literals.last().binary && data.contains(0) {
            (after, Err(StreamingResponseError::NullLiteral))
        } else {
            (
                DecoderView { remaining: Some((remaining - count) as u64), ..after },
                Ok(Some(EventView::LiteralChunk { index: s.literals.last().index, data })),
            )
        }
    }
}

/// Where the last opening bracket stands.
pub open spec fn last_bracket(line: Seq<u8>) -> Option<int>
    decreases line.len(),
{
    if line.len() == 0 {
        None
    } else if line.last() == '{' as u8 {
        Some(line.len() - 1)
    } else {
        last_bracket(line.drop_last())
    }
}

pub open spec fn descriptor(
    s: DecoderView,
    announcement: LiteralAnnouncement,
    start: int,
) -> LiteralDescriptor {
    LiteralDescriptor {
        index: s.literals.len() as u32,
        length: announcement.length,
        binary: start > 0 && s.line[start - 1] == '~' as u8,
    }
}

/// A literal that holds the marker of this index.
pub open spec fn replacement(index: u32) -> Seq<u8> {
    encode::flat(strings::literal_tokens(marker(index), LiteralMode::Sync))
}

/// A line ends with the announcement of a literal, and the response goes on.
pub open spec fn literal_start(s: DecoderView, announcement: LiteralAnnouncement) -> (
    DecoderView,
    StepResult,
) {
    if announcement.mode != LiteralMode::Sync {
        (s, Err(StreamingResponseError::NonSyncResponse))
    } else {
        match last_bracket(s.line) {
            None => (s, Err(StreamingResponseError::Syntax)),
            Some(start) => {
                let literal = descriptor(s, announcement, start);
                if s.literals.len() > u32::MAX || !fits(
                    s,
                    s.line.len() + start + replacement(literal.index).len()
                        + vstd::layout::size_of::<LiteralDescriptor>(),
                ) {
                    (s, Err(StreamingResponseError::BufferLimit))
                } else {
                    (
                        DecoderView {
                            syntax: s.syntax + s.line,
                            normalized: s.normalized + s.line.take(start) + replacement(
                                literal.index,
                            ),
                            literals: s.literals.push(literal),
                            remaining: Some(literal.length),
                            line: seq![],
                            ..s
                        },
                        Ok(Some(EventView::LiteralStart { literal, prefix: s.line })),
                    )
                }
            },
        }
    }
}

/// A line ends like the announcement of a literal. Whether it is one, only the
/// response tells: a text can end in the same way.
pub open spec fn announced_step(s: DecoderView, announcement: LiteralAnnouncement) -> (
    DecoderView,
    StepResult,
) {
    let whole = DecoderView { normalized: s.normalized + s.line, ..s };
    if !fits(s, s.line.len() as int) {
        (s, Err(StreamingResponseError::BufferLimit))
    } else {
        match response::response_rule()(whole.normalized) {
            Outcome::Done(rest, v) => if rest.len() == 0 {
                (
                    DecoderView {
                        syntax: s.syntax + s.line,
                        line: seq![],
                        complete: true,
                        ..whole
                    },
                    Ok(Some(EventView::Complete { structure: v })),
                )
            } else {
                (whole, Err(StreamingResponseError::Syntax))
            },
            Outcome::More(Some(length)) => if length == announcement.length {
                literal_start(s, announcement)
            } else {
                (whole, Err(StreamingResponseError::Syntax))
            },
            _ => (whole, Err(StreamingResponseError::Syntax)),
        }
    }
}

/// A line ends without an announcement, and with it the response.
pub open spec fn final_step(s: DecoderView) -> (DecoderView, StepResult) {
    let whole = DecoderView {
        syntax: s.syntax + s.line,
        normalized: s.normalized + s.line,
        line: seq![],
        ..s
    };
    if !fits(s, s.line.len() as int * 2) {
        (s, Err(StreamingResponseError::BufferLimit))
    } else {
        match response::response_rule()(whole.normalized) {
            Outcome::Done(rest, v) => if rest.len() == 0 {
                (
                    DecoderView { complete: true, ..whole },
                    Ok(Some(EventView::Complete { structure: v })),
                )
            } else {
                (whole, Err(StreamingResponseError::Syntax))
            },
            _ => (whole, Err(StreamingResponseError::Syntax)),
        }
    }
}

/// The state when the end of a line has come or the input is used up.
pub open spec fn line_taken(s: DecoderView) -> DecoderView {
    let count = lines::line_bytes(s.input) as int;
    DecoderView {
        line: s.line + s.input.take(count),
        latest_byte: if lines::line_feed(s.input) < s.input.len() {
            LatestByte::Other
        } else {
            lines::advanced(s.latest_byte, s.input)
        },
        ..consume(s, count)
    }
}

/// A step outside of a literal.
pub open spec fn line_step(s: DecoderView) -> (DecoderView, StepResult) {
    let taken = line_taken(s);
    if !fits(s, lines::line_bytes(s.input) as int) {
        (
            DecoderView { latest_byte: taken.latest_byte, ..s },
            Err(StreamingResponseError::BufferLimit),
        )
    } else if lines::line_feed(s.input) == s.input.len() {
        (taken, Ok(None))
    } else {
        let FragmentInfo::Line { announcement, ending } = lines::line_info(
            lines::advanced(s.latest_byte, s.input.take(lines::line_feed(s.input) as int)),
        );
        if ending != LineEnding::CrLf {
            (taken, Err(StreamingResponseError::Syntax))
        } else {
            match announcement {
                Some(a) => announced_step(taken, a),
                None => final_step(taken),
            }
        }
    }
}

pub open spec fn progressed(s: DecoderView) -> (DecoderView, StepResult) {
    match renewed(s).remaining {
        Some(remaining) => literal_step(renewed(s), remaining),
        None => line_step(renewed(s)),
    }
}

/// One step: the state after it and what it gives.
pub open spec fn stepped(s: DecoderView) -> (DecoderView, StepResult) {
    if s.failed {
        (s, Err(StreamingResponseError::Failed))
    } else {
        let (after, r) = progressed(s);
        (DecoderView { failed: r is Err, ..after }, r)
    }
}

/// The state after input was handed over.
pub open spec fn enqueued(s: DecoderView, bytes: Seq<u8>) -> (
    DecoderView,
    Result<(), StreamingResponseError>,
) {
    if s.failed {
        (s, Err(StreamingResponseError::Failed))
    } else if s.input.len() + bytes.len() > INPUT_BUFFER {
        (DecoderView { failed: true, ..s }, Err(StreamingResponseError::BufferLimit))
    } else {
        (DecoderView { input: s.input + bytes, ..s }, Ok(()))
    }
}

// ---------------------------------------------------------------------- lemmas

pub open spec fn power16(k: nat) -> nat
    decreases k,
{
    if k == 0 {
        1
    } else {
        16 * power16((k - 1) as nat)
    }
}

pub proof fn lemma_hex(n: u32, k: nat)
    requires
        n < power16(k),
    ensures
        hex(n, k).len() == k,
        all_hex(hex(n, k)),
        hex_number(hex(n, k)) == n,
        k > 0 ==> hex(n, k)[0] != '+' as u8,
    decreases k,
{
    if k > 0 {
        lemma_hex(n / 16, (k - 1) as nat);
        let d = hex(n, k);
        assert(d.drop_last() =~= hex(n / 16, (k - 1) as nat));
        assert forall|i: int| 0 <= i < d.len() implies hex_value(#[trigger] d[i]) is Some by {
            if i < d.len() - 1 {
                assert(d[i] == hex(n / 16, (k - 1) as nat)[i]);
            }
        }
        if k > 1 {
            assert(d[0] == hex(n / 16, (k - 1) as nat)[0]);
        }
    }
}

pub proof fn lemma_power16_8()
    ensures
        power16(8) == 0x1_0000_0000,
        power16(7) == 0x1000_0000,
{
    reveal_with_fuel(power16, 9);
}

pub proof fn lemma_last_bracket(line: Seq<u8>)
    ensures
        last_bracket(line) matches Some(i) ==> 0 <= i < line.len() && line[i] == '{' as u8,
    decreases line.len(),
{
    if line.len() > 0 && line.last() != '{' as u8 {
        lemma_last_bracket(line.drop_last());
    }
}

// ------------------------------------------------------------------------ laws

/// The marker of a literal refers to the descriptor of that literal.
pub proof fn law_marker_refers_to_its_literal(literals: Seq<LiteralDescriptor>, index: u32)
    requires
        indexed(literals),
        index < literals.len(),
    ensures
        referenced(marker(index), literals) == Some(literals[index as int]),
{
    lemma_power16_8();
    lemma_hex(index, 8);
    let m = marker(index);
    assert(m.skip(marker_prefix().len() as int) =~= hex(index, 8));
    assert(marker_prefix() =~= m.take(marker_prefix().len() as int));
    let d = hex(index, 8);
    assert(d[0] != '+' as u8);
}

/// What replaces a literal is a literal that holds its marker.
pub proof fn law_replacement_holds_the_marker(index: u32, t: Seq<u8>)
    requires
        t.len() > 0,
    ensures
        strings::literal_rule()(replacement(index) + t) == Outcome::Done(
            t,
            StringView::Literal(marker(index), LiteralMode::Sync),
        ),
        strings::literal8_rule()(ascii::bytes_of("~") + replacement(index) + t) == Outcome::Done(
            t,
            StringView::Literal(marker(index), LiteralMode::Sync),
        ),
{
    lemma_power16_8();
    lemma_hex(index, 8);
    let m = marker(index);
    let d = hex(index, 8);
    let n = marker_prefix().len() as int;
    reveal_strlit("~imap-stream-literal~");
    assert forall|i: int| 0 <= i < m.len() implies #[trigger] m[i] != 0 by {
        if i >= n {
            assert(m[i] == d[i - n]);
            assert(hex_value(d[i - n]) is Some);
        } else {
            lemma_prefix_is_visible(i);
        }
    }
    strings::lemma_literal_reads(m, LiteralMode::Sync, t);
}

proof fn lemma_prefix_is_visible(i: int)
    requires
        0 <= i < marker_prefix().len(),
    ensures
        marker_prefix()[i] != 0,
{
    reveal_strlit("~imap-stream-literal~");
    assert(i == 0 || i == 1 || i == 2 || i == 3 || i == 4 || i == 5 || i == 6 || i == 7 || i == 8
        || i == 9 || i == 10 || i == 11 || i == 12 || i == 13 || i == 14 || i == 15 || i == 16 || i
        == 17 || i == 18 || i == 19 || i == 20);
}

/// Markers of different literals differ.
pub proof fn law_markers_differ(a: u32, b: u32)
    requires
        a != b,
    ensures
        marker(a) != marker(b),
{
    lemma_power16_8();
    lemma_hex(a, 8);
    lemma_hex(b, 8);
    let n = marker_prefix().len() as int;
    assert(marker(a).skip(n) =~= hex(a, 8));
    assert(marker(b).skip(n) =~= hex(b, 8));
}

/// A decoder that failed stays as it is.
pub proof fn law_failure_is_final(s: DecoderView, bytes: Seq<u8>)
    requires
        s.failed,
    ensures
        stepped(s) == (s, Err::<Option<EventView>, StreamingResponseError>(
            StreamingResponseError::Failed,
        )),
        enqueued(s, bytes) == (s, Err::<(), StreamingResponseError>(
            StreamingResponseError::Failed,
        )),
{
}

/// Syntax takes no more memory than the maximum, and no more input waits than
/// the buffer holds, whatever comes and even when it fails.
pub proof fn law_memory_is_bounded(s: DecoderView, bytes: Seq<u8>)
    requires
        accounted(s) <= s.maximum,
        s.input.len() <= INPUT_BUFFER,
    ensures
        accounted(stepped(s).0) <= stepped(s).0.maximum,
        stepped(s).0.maximum == s.maximum,
        stepped(s).0.input.len() <= INPUT_BUFFER,
        accounted(enqueued(s, bytes).0) <= s.maximum,
        enqueued(s, bytes).0.maximum == s.maximum,
        enqueued(s, bytes).0.input.len() <= INPUT_BUFFER,
{
    let t = renewed(s);
    assert(accounted(t) <= s.maximum) by {
        if s.complete {
            assert(t.literals.len() * vstd::layout::size_of::<LiteralDescriptor>() == 0);
        }
    }
    if !s.failed {
        if t.remaining is None {
            lemma_line_step_bounded(t);
        }
    }
}

proof fn lemma_line_step_bounded(t: DecoderView)
    requires
        accounted(t) <= t.maximum,
    ensures
        accounted(line_step(t).0) <= t.maximum,
        line_step(t).0.maximum == t.maximum,
        line_step(t).0.input.len() <= t.input.len(),
{
    let taken = line_taken(t);
    lines::lemma_line_feed(t.input);
    lemma_last_bracket(taken.line);
    let size = vstd::layout::size_of::<LiteralDescriptor>();
    let n = taken.literals.len();
    assert((n + 1) * size == n * size + size) by (nonlinear_arith);
    assert(taken.literals.push(arbitrary()).len() == n + 1);
}

/// Inside of a literal only the input and the count of what is left change: no
/// byte of a literal gets into the syntax of the message.
pub proof fn law_literal_bytes_stay_out_of_the_syntax(s: DecoderView)
    requires
        !s.failed,
        !s.complete,
        s.remaining is Some,
    ensures
        ({
            let after = stepped(s).0;
            after.syntax == s.syntax && after.normalized == s.normalized && after.line == s.line
                && after.literals == s.literals
        }),
{
}

/// A literal comes out whole and in order, and ends where it ends: a chunk is
/// the front of the input, it counts against what is left, and the end comes
/// when nothing is left.
pub proof fn law_literal_comes_out_whole(s: DecoderView)
    requires
        !s.failed,
        !s.complete,
        s.literals.len() > 0,
        s.remaining is Some,
    ensures
        ({
            let (after, r) = stepped(s);
            match r {
                Ok(Some(EventView::LiteralChunk { index, data })) => index
                    == s.literals.last().index && data.len() > 0 && s.input == data + after.input
                    && after.remaining == Some((s.remaining->0 - data.len()) as u64) && data.len()
                    <= s.remaining->0 && (s.literals.last().binary || !data.contains(0)),
                Ok(Some(EventView::LiteralEnd { index })) => index == s.literals.last().index
                    && s.remaining == Some(0u64) && after.remaining is None && after.input
                    == s.input,
                Ok(None) => s.remaining->0 > 0 && s.input.len() == 0 && after == s,
                Err(e) => e == StreamingResponseError::NullLiteral && !s.literals.last().binary,
                _ => false,
            }
        }),
{
    if s.remaining->0 > 0 && s.input.len() > 0 {
        let count = if s.remaining->0 <= s.input.len() {
            s.remaining->0 as int
        } else {
            s.input.len() as int
        };
        assert(s.input =~= s.input.take(count) + s.input.skip(count));
    }
}

/// A literal that waits in the input as a whole comes as one chunk, and then
/// ends.
pub proof fn law_waiting_literal_is_one_chunk(s: DecoderView, data: Seq<u8>, rest: Seq<u8>)
    requires
        !s.failed,
        !s.complete,
        s.literals.len() > 0,
        s.remaining == Some(data.len() as u64),
        0 < data.len() <= u64::MAX,
        s.literals.last().binary || !data.contains(0),
        s.input == data + rest,
    ensures
        ({
            let index = s.literals.last().index;
            let (after, r) = stepped(s);
            let (ended, end) = stepped(after);
            &&& r == Ok::<Option<EventView>, StreamingResponseError>(
                Some(EventView::LiteralChunk { index, data }),
            )
            &&& end == Ok::<Option<EventView>, StreamingResponseError>(
                Some(EventView::LiteralEnd { index }),
            )
            &&& ended.input == rest
            &&& ended.remaining is None
        }),
{
    assert(s.input.take(data.len() as int) =~= data);
    assert(s.input.skip(data.len() as int) =~= rest);
}

/// Descriptors are numbered by their places, and those that are there stay
/// until the next message.
pub proof fn law_descriptors_are_indexed(s: DecoderView)
    requires
        indexed(s.literals),
    ensures
        indexed(stepped(s).0.literals),
        !s.complete ==> s.literals.is_prefix_of(stepped(s).0.literals),
        stepped(s).1 matches Ok(Some(EventView::LiteralStart { literal, .. })) ==> literal
            == stepped(s).0.literals.last() && stepped(s).0.remaining == Some(literal.length),
{
    let t = if s.failed {
        s
    } else {
        renewed(s)
    };
    let after = stepped(s).0;
    if after.literals.len() == t.literals.len() + 1 {
        assert(after.literals.drop_last() =~= t.literals);
        assert forall|i: int| 0 <= i < after.literals.len() implies (
        #[trigger] after.literals[i]).index == i by {
            if i < t.literals.len() {
                assert(after.literals[i] == t.literals[i]);
            }
        }
        assert(t.literals =~= after.literals.take(t.literals.len() as int));
    } else {
        assert(after.literals == t.literals);
        assert(t.literals =~= after.literals.take(t.literals.len() as int));
    }
}

/// Every byte that leaves the input is counted as consumed.
pub proof fn law_consumed_input_is_counted(s: DecoderView)
    requires
        s.consumed + s.input.len() <= usize::MAX,
    ensures
        stepped(s).0.consumed + stepped(s).0.input.len() == s.consumed + s.input.len(),
{
    lines::lemma_line_feed(s.input);
}

/// A line may come in pieces: input without a line feed is kept, and when the
/// rest of the line comes, it is as if the line had come at once.
pub proof fn law_lines_may_come_in_pieces(s: DecoderView, a: Seq<u8>, b: Seq<u8>)
    requires
        !s.failed,
        !s.complete,
        s.remaining is None,
        s.input.len() == 0,
        lines::line_feed(a) == a.len(),
        fits(s, a.len() as int),
        s.consumed + a.len() + b.len() <= usize::MAX,
    ensures
        ({
            let (first, r) = stepped(DecoderView { input: a, ..s });
            let pieces = stepped(DecoderView { input: first.input + b, ..first });
            let whole = stepped(DecoderView { input: a + b, ..s });
            &&& r == Ok::<Option<EventView>, StreamingResponseError>(None)
            &&& pieces.1 == whole.1
            &&& pieces.1 != Err::<Option<EventView>, StreamingResponseError>(
                StreamingResponseError::BufferLimit,
            ) ==> pieces.0 == whole.0
        }),
{
    let sa = DecoderView { input: a, ..s };
    let (first, r) = stepped(sa);
    let sb = DecoderView { input: first.input + b, ..first };
    let sw = DecoderView { input: a + b, ..s };
    lines::lemma_line_feed(a);
    lines::lemma_line_feed(b);
    let n = lines::line_feed(b) as int;
    assert forall|i: int| 0 <= i < a.len() + n implies #[trigger] (a + b)[i] != 0x0a by {
        if i >= a.len() {
            assert((a + b)[i] == b[i - a.len()]);
        }
    }
    lines::lemma_line_feed_is(a + b, a.len() + n);
    assert(a.take(a.len() as int) =~= a);
    assert(a.skip(a.len() as int) =~= seq![]);
    assert(first.input + b =~= b);
    let cb = lines::line_bytes(b) as int;
    assert(lines::line_bytes(a + b) == a.len() + cb);
    assert((s.line + a) + b.take(cb) =~= s.line + (a + b).take(a.len() + cb));
    assert((a + b).skip(a.len() + cb) =~= b.skip(cb));
    assert((a + b).take(a.len() + n) =~= a + b.take(n));
    lines::lemma_advanced_add(s.latest_byte, a, b.take(n));
    lines::lemma_advanced_add(s.latest_byte, a, b);
    assert(line_taken(sb).line == line_taken(sw).line);
    assert(line_taken(sb) == line_taken(sw));
}

/// A message on one line that announces no literal is decoded as the codec
/// decodes it, and nothing behind it is touched.
pub proof fn law_plain_message_is_decoded(s: DecoderView, line: Seq<u8>, v: ResponseView, rest: Seq<u8>)
    requires
        !s.failed,
        s.remaining is None,
        s.line.len() == 0,
        s.latest_byte == LatestByte::Other,
        s.complete || (s.syntax.len() == 0 && s.normalized.len() == 0 && s.literals.len() == 0),
        s.input == line + rest,
        line.len() > 0,
        lines::line_feed(line) == line.len() - 1,
        lines::line_info(lines::advanced(LatestByte::Other, line.drop_last()))
            matches FragmentInfo::Line { ending, .. } && ending == LineEnding::CrLf,
        response::response_rule()(line) == Outcome::Done(Seq::<u8>::empty(), v),
        line.len() * 3 <= s.maximum,
        s.consumed + s.input.len() <= usize::MAX,
    ensures
        ({
            let (after, r) = stepped(s);
            &&& r == Ok::<Option<EventView>, StreamingResponseError>(
                Some(EventView::Complete { structure: v }),
            )
            &&& after.complete
            &&& after.literals.len() == 0
            &&& after.syntax == line
            &&& after.input == rest
        }),
{
    let t = renewed(s);
    lines::lemma_line_feed(line);
    let n = line.len() - 1;
    assert forall|i: int| 0 <= i < n implies #[trigger] t.input[i] != 0x0a by {
        assert(t.input[i] == line[i]);
    }
    assert(t.input[n] == line[n]);
    lines::lemma_line_feed_is(t.input, n);
    assert(t.input.take(n) =~= line.drop_last());
    assert(t.input.take(n + 1) =~= line);
    assert(t.input.skip(n + 1) =~= rest);
    let taken = line_taken(t);
    assert(taken.line =~= line);
    assert(taken.normalized + taken.line =~= line);
    assert(taken.syntax + taken.line =~= line);
    assert(t.literals.len() * vstd::layout::size_of::<LiteralDescriptor>() == 0);
}

// ------------------------------------------------------------------ executable

fn hex_digits(n: u32, k: usize) -> (r: Vec<u8>)
    ensures
        r@ == hex(n, k as nat),
    decreases k,
{
    if k == 0 {
        let r: Vec<u8> = Vec::new();
        assert(r@ =~= seq![]);
        r
    } else {
        let mut r: Vec<u8> = hex_digits(n / 16, k - 1);
        r.push(hex_digit(n % 16));
        r
    }
}

/// The value of digits in base 16, where all are.
fn parse_hex(d: &[u8]) -> (r: Option<u32>)
    requires
        d@.len() <= 8,
    ensures
        r matches Some(n) ==> all_hex(d@) && n == hex_number(d@),
        r is None ==> !all_hex(d@),
{
    let mut n: u64 = 0;
    let mut i: usize = 0;
    assert(d@.take(0) =~= seq![]);
    proof {
        reveal_with_fuel(power16, 9);
    }
    while i < d.len()
        invariant
            i <= d@.len() <= 8,
            n == hex_number(d@.take(i as int)),
            all_hex(d@.take(i as int)),
            n < power16(i as nat),
            power16(8) == 0x1_0000_0000,
        decreases d@.len() - i,
    {
        let v: u32 = match hex_value(d[i]) {
            Some(v) => v,
            None => {
                assert(hex_value(d@[i as int]) is None);
                return None;
            },
        };
        proof {
            assert(d@.take(i + 1).drop_last() =~= d@.take(i as int));
            assert forall|j: int| 0 <= j < i + 1 implies hex_value(
                #[trigger] d@.take(i + 1)[j],
            ) is Some by {
                if j < i {
                    assert(d@.take(i as int)[j] == d@[j]);
                }
            }
            lemma_power16_grows(i as nat, 8);
        }
        n = n * 16 + v as u64;
        i = i + 1;
    }
    proof {
        assert(d@.take(i as int) =~= d@);
        lemma_power16_grows(i as nat, 8);
    }
    Some(n as u32)
}

proof fn lemma_power16_grows(a: nat, b: nat)
    requires
        a <= b,
    ensures
        power16(a) <= power16(b),
    decreases b,
{
    if a < b {
        lemma_power16_grows(a, (b - 1) as nat);
    }
}

fn parse_reference(d: &[u8]) -> (r: Option<u32>)
    ensures
        match r {
            Some(n) => reference_number(d@) == Some(n as nat),
            None => reference_number(d@) is None,
        },
{
    if d.len() != 8 {
        return None;
    }
    if d[0] == '+' as u8 {
        assert(hex_value(d@[0]) is None);
        let rest: &[u8] = &d[1..d.len()];
        assert(rest@ =~= d@.skip(1));
        parse_hex(rest)
    } else {
        parse_hex(d)
    }
}

/// Returns the descriptor represented by a literal in a streamed response
/// structure. Every literal in that structure must resolve to one descriptor.
pub fn literal_reference<'a>(data: &[u8], literals: &'a [LiteralDescriptor]) -> (r: Option<
    &'a LiteralDescriptor,
>)
    ensures
        match r {
            Some(d) => referenced(data@, literals@) == Some(*d),
            None => referenced(data@, literals@) is None,
        },
{
    let prefix: Vec<u8> = ascii::text_bytes("~imap-stream-literal~");
    if data.len() < prefix.len() {
        return None;
    }
    let n: usize = prefix.len();
    let start: &[u8] = &data[0..n];
    assert(start@ =~= data@.take(n as int));
    if !ascii::bytes_equal(start, prefix.as_slice()) {
        return None;
    }
    assert(marker_prefix().is_prefix_of(data@));
    let digits: &[u8] = &data[n..data.len()];
    assert(digits@ =~= data@.skip(n as int));
    match parse_reference(digits) {
        Some(index) => {
            if (index as usize) < literals.len() && literals[index as usize].index == index {
                Some(&literals[index as usize])
            } else {
                None
            }
        },
        None => None,
    }
}

fn contains_nul(b: &[u8]) -> (r: bool)
    ensures
        r == b@.contains(0),
{
    let mut i: usize = 0;
    while i < b.len()
        invariant
            i <= b@.len(),
            forall|j: int| 0 <= j < i ==> b@[j] != 0,
        decreases b@.len() - i,
    {
        if b[i] == 0 {
            return true;
        }
        i = i + 1;
    }
    false
}

fn find_last_bracket(line: &[u8]) -> (r: Option<usize>)
    ensures
        match r {
            Some(i) => last_bracket(line@) == Some(i as int) && i < line@.len(),
            None => last_bracket(line@) is None,
        },
{
    let mut n: usize = line.len();
    assert(line@.take(n as int) =~= line@);
    while n > 0
        invariant
            n <= line@.len(),
            last_bracket(line@) == last_bracket(line@.take(n as int)),
        decreases n,
    {
        assert(line@.take(n as int).drop_last() =~= line@.take(n - 1));
        if line[n - 1] == '{' as u8 {
            return Some(n - 1);
        }
        n = n - 1;
    }
    None
}

/// The bytes of a literal that holds the marker of this index.
fn marker_literal(index: u32) -> (r: Vec<u8>)
    ensures
        r@ == replacement(index),
{
    let mut m: Vec<u8> = ascii::text_bytes("~imap-stream-literal~");
    let digits: Vec<u8> = hex_digits(index, 8);
    m.extend_from_slice(digits.as_slice());
    assert(m@ =~= marker(index));
    let mut ctx = encode::EncodeContext::new();
    strings::write_literal(&mut ctx, m.as_slice(), LiteralMode::Sync);
    proof {
        encode::lemma_empty_concat(strings::literal_tokens(m@, LiteralMode::Sync));
    }
    let encoded = ctx.into_encoded();
    encoded.dump()
}

/// Decodes responses from input that comes in pieces, and hands out the literals
/// as they come.
pub struct StreamingResponseDecoder {
    input: Vec<u8>,
    line_parser: LineParser,
    line: Vec<u8>,
    syntax: Vec<u8>,
    normalized: Vec<u8>,
    literals: Vec<LiteralDescriptor>,
    remaining: Option<u64>,
    maximum: usize,
    consumed: usize,
    complete: bool,
    failed: bool,
}

impl View for StreamingResponseDecoder {
    type V = DecoderView;

    closed spec fn view(&self) -> DecoderView {
        DecoderView {
            input: self.input@,
            latest_byte: self.line_parser.latest_byte,
            line: self.line@,
            syntax: self.syntax@,
            normalized: self.normalized@,
            literals: self.literals@,
            remaining: self.remaining,
            maximum: self.maximum,
            consumed: self.consumed,
            complete: self.complete,
            failed: self.failed,
        }
    }
}

impl StreamingResponseDecoder {
    pub fn new(maximum_syntax_bytes: usize) -> (r: Self)
        ensures
            r@ == initial(maximum_syntax_bytes),
    {
        let r = StreamingResponseDecoder {
            input: Vec::new(),
            line_parser: LineParser::new(),
            line: Vec::new(),
            syntax: Vec::new(),
            normalized: Vec::new(),
            literals: Vec::new(),
            remaining: None,
            maximum: maximum_syntax_bytes,
            consumed: 0,
            complete: false,
            failed: false,
        };
        assert(r@ == initial(maximum_syntax_bytes));
        r
    }

    pub fn enqueue_input(&mut self, bytes: &[u8]) -> (r: Result<(), StreamingResponseError>)
        ensures
            (final(self)@, r) == enqueued(old(self)@, bytes@),
    {
        if self.failed {
            return Err(StreamingResponseError::Failed);
        }
        if self.input.len() > INPUT_BUFFER || bytes.len() > INPUT_BUFFER - self.input.len() {
            self.failed = true;
            return Err(StreamingResponseError::BufferLimit);
        }
        self.input.extend_from_slice(bytes);
        assert(self.input@ =~= old(self).input@ + bytes@);
        Ok(())
    }

    /// How many bytes of input were consumed since the last call.
    pub fn take_consumed_input(&mut self) -> (r: usize)
        ensures
            r == old(self)@.consumed,
            final(self)@ == (DecoderView { consumed: 0, ..old(self)@ }),
            final(self)@.input.len() <= usize::MAX,
    {
        assert(self.input.len() <= usize::MAX);
        let r: usize = self.consumed;
        self.consumed = 0;
        r
    }

    /// The message without its literals.
    pub fn syntax_bytes(&self) -> (r: &[u8])
        ensures
            r@ == self@.syntax,
    {
        self.syntax.as_slice()
    }

    pub fn literals(&self) -> (r: &[LiteralDescriptor])
        ensures
            r@ == self@.literals,
    {
        self.literals.as_slice()
    }

    pub fn is_message_complete(&self) -> (r: bool)
        ensures
            r == self@.complete,
    {
        self.complete
    }

    /// How many bytes of input wait to be parsed.
    pub fn buffered(&self) -> (r: usize)
        ensures
            r == self@.input.len(),
    {
        self.input.len()
    }

    /// The buffers for the syntax, for its form with markers, and for the line.
    pub fn buffers(&self) -> (r: (&Vec<u8>, &Vec<u8>, &Vec<u8>))
        ensures
            r.0@ == self@.syntax,
            r.1@ == self@.normalized,
            r.2@ == self@.line,
    {
        (&self.syntax, &self.normalized, &self.line)
    }

    /// The input behind a complete message, for another protocol to go on with.
    pub fn take_unparsed_after_message(&mut self) -> (r: Option<Vec<u8>>)
        ensures
            match r {
                Some(b) => old(self)@.complete && b@ == old(self)@.input && final(self)@ == (
                DecoderView { input: seq![], ..old(self)@ }),
                None => !old(self)@.complete && final(self)@ == old(self)@,
            },
    {
        if self.complete {
            let mut input: Vec<u8> = Vec::new();
            assert(input@ =~= seq![]);
            std::mem::swap(&mut input, &mut self.input);
            Some(input)
        } else {
            None
        }
    }

    /// The next event, or nothing where more input is needed. After an error no
    /// other event comes. What is counted as consumed has to fit into a `usize`
    /// until [`StreamingResponseDecoder::take_consumed_input`] resets the count.
    pub fn next(&mut self) -> (r: Result<Option<StreamingResponseEvent>, StreamingResponseError>)
        requires
            old(self)@.consumed + old(self)@.input.len() <= usize::MAX,
        ensures
            (final(self)@, result_view(r)) == stepped(old(self)@),
    {
        if self.failed {
            return Err(StreamingResponseError::Failed);
        }
        let result = self.progress();
        if result.is_err() {
            self.failed = true;
        }
        result
    }

    fn account_syntax(&self, additional: u128) -> (r: Result<(), StreamingResponseError>)
        requires
            additional <= 0xffff_ffff_ffff_ffff_ffff,
        ensures
            match r {
                Ok(_) => fits(self@, additional as int),
                Err(e) => !fits(self@, additional as int) && e
                    == StreamingResponseError::BufferLimit,
            },
    {
        let size: usize = std::mem::size_of::<LiteralDescriptor>();
        match self.literals.len().checked_mul(size) {
            Some(n) => {
                let total: u128 = self.syntax.len() as u128 + self.normalized.len() as u128
                    + self.line.len() as u128 + n as u128 + additional;
                if total <= self.maximum as u128 {
                    Ok(())
                } else {
                    Err(StreamingResponseError::BufferLimit)
                }
            },
            None => Err(StreamingResponseError::BufferLimit),
        }
    }

    /// Takes bytes from the front of the input.
    fn take_input(&mut self, count: usize) -> (r: Vec<u8>)
        requires
            count <= old(self)@.input.len(),
            old(self)@.consumed + count <= usize::MAX,
        ensures
            r@ == old(self)@.input.take(count as int),
            final(self)@ == consume(old(self)@, count as int),
    {
        let mut front: Vec<u8> = self.input.split_off(count);
        std::mem::swap(&mut front, &mut self.input);
        self.consumed = self.consumed + count;
        assert(front@ =~= old(self).input@.take(count as int));
        assert(self.input@ =~= old(self).input@.skip(count as int));
        front
    }

    fn progress_literal(&mut self, remaining: u64) -> (r: Result<
        Option<StreamingResponseEvent>,
        StreamingResponseError,
    >)
        requires
            old(self)@.consumed + old(self)@.input.len() <= usize::MAX,
        ensures
            (final(self)@, result_view(r)) == literal_step(old(self)@, remaining),
    {
        if self.literals.len() == 0 {
            return Err(StreamingResponseError::Syntax);
        }
        let literal: LiteralDescriptor = self.literals[self.literals.len() - 1];
        if remaining == 0 {
            self.remaining = None;
            return Ok(Some(StreamingResponseEvent::LiteralEnd { index: literal.index }));
        }
        if self.input.len() == 0 {
            return Ok(None);
        }
        let count: usize = if remaining <= self.input.len() as u64 {
            remaining as usize
        } else {
            self.input.len()
        };
        let data: Vec<u8> = self.take_input(count);
        if !literal.binary && contains_nul(data.as_slice()) {
            return Err(StreamingResponseError::NullLiteral);
        }
        self.remaining = Some(remaining - count as u64);
        Ok(Some(StreamingResponseEvent::LiteralChunk { index: literal.index, data }))
    }

    fn start_literal(&mut self, announcement: LiteralAnnouncement) -> (r: Result<
        Option<StreamingResponseEvent>,
        StreamingResponseError,
    >)
        ensures
            (final(self)@, result_view(r)) == literal_start(old(self)@, announcement),
    {
        if announcement.mode != LiteralMode::Sync {
            return Err(StreamingResponseError::NonSyncResponse);
        }
        let start: usize = match find_last_bracket(self.line.as_slice()) {
            Some(start) => start,
            None => return Err(StreamingResponseError::Syntax),
        };
        if self.literals.len() as u64 > u32::MAX as u64 {
            return Err(StreamingResponseError::BufferLimit);
        }
        let literal = LiteralDescriptor {
            index: self.literals.len() as u32,
            length: announcement.length,
            binary: start > 0 && self.line[start - 1] == '~' as u8,
        };
        let marker: Vec<u8> = marker_literal(literal.index);
        let size: usize = std::mem::size_of::<LiteralDescriptor>();
        self.account_syntax(
            self.line.len() as u128 + start as u128 + marker.len() as u128 + size as u128,
        )?;
        self.syntax.extend_from_slice(self.line.as_slice());
        self.normalized.extend_from_slice(&self.line.as_slice()[0..start]);
        self.normalized.extend_from_slice(marker.as_slice());
        self.literals.push(literal);
        self.remaining = Some(literal.length);
        let mut prefix: Vec<u8> = Vec::new();
        assert(prefix@ =~= seq![]);
        std::mem::swap(&mut prefix, &mut self.line);
        assert(self.syntax@ =~= old(self).syntax@ + old(self).line@);
        assert(self.normalized@ =~= old(self).normalized@ + old(self).line@.take(start as int)
            + marker@);
        Ok(Some(StreamingResponseEvent::LiteralStart { literal, prefix }))
    }

    fn progress_announced(&mut self, announcement: LiteralAnnouncement) -> (r: Result<
        Option<StreamingResponseEvent>,
        StreamingResponseError,
    >)
        ensures
            (final(self)@, result_view(r)) == announced_step(old(self)@, announcement),
    {
        let previous: usize = self.normalized.len();
        self.account_syntax(self.line.len() as u128)?;
        self.normalized.extend_from_slice(self.line.as_slice());
        assert(self.normalized@ =~= old(self).normalized@ + old(self).line@);
        match ResponseCodec.decode(self.normalized.as_slice()) {
            Ok((rest, structure)) => {
                if rest.len() > 0 {
                    return Err(StreamingResponseError::Syntax);
                }
                self.syntax.extend_from_slice(self.line.as_slice());
                self.line.clear();
                self.complete = true;
                assert(self.syntax@ =~= old(self).syntax@ + old(self).line@);
                return Ok(Some(StreamingResponseEvent::Complete { structure }));
            },
            Err(ResponseDecodeError::LiteralFound { length }) => {
                if length != announcement.length {
                    return Err(StreamingResponseError::Syntax);
                }
            },
            Err(_) => return Err(StreamingResponseError::Syntax),
        }
        self.normalized.truncate(previous);
        assert(self.normalized@ =~= old(self).normalized@);
        self.start_literal(announcement)
    }

    fn progress_final(&mut self) -> (r: Result<
        Option<StreamingResponseEvent>,
        StreamingResponseError,
    >)
        ensures
            (final(self)@, result_view(r)) == final_step(old(self)@),
    {
        self.account_syntax(self.line.len() as u128 * 2)?;
        self.syntax.extend_from_slice(self.line.as_slice());
        self.normalized.extend_from_slice(self.line.as_slice());
        self.line.clear();
        assert(self.syntax@ =~= old(self).syntax@ + old(self).line@);
        assert(self.normalized@ =~= old(self).normalized@ + old(self).line@);
        match ResponseCodec.decode(self.normalized.as_slice()) {
            Ok((rest, structure)) => {
                if rest.len() > 0 {
                    return Err(StreamingResponseError::Syntax);
                }
                self.complete = true;
                Ok(Some(StreamingResponseEvent::Complete { structure }))
            },
            Err(_) => Err(StreamingResponseError::Syntax),
        }
    }

    fn progress_line(&mut self) -> (r: Result<
        Option<StreamingResponseEvent>,
        StreamingResponseError,
    >)
        requires
            old(self)@.consumed + old(self)@.input.len() <= usize::MAX,
        ensures
            (final(self)@, result_view(r)) == line_step(old(self)@),
    {
        proof {
            lines::lemma_line_feed(self.input@);
        }
        let (count, fragment) = self.line_parser.parse(self.input.as_slice());
        self.account_syntax(count as u128)?;
        let taken: Vec<u8> = self.take_input(count);
        self.line.extend_from_slice(taken.as_slice());
        assert(self.line@ =~= old(self).line@ + taken@);
        assert(self@ == line_taken(old(self)@));
        match fragment {
            None => Ok(None),
            Some(FragmentInfo::Line { announcement, ending }) => {
                if ending != LineEnding::CrLf {
                    return Err(StreamingResponseError::Syntax);
                }
                match announcement {
                    Some(announcement) => self.progress_announced(announcement),
                    None => self.progress_final(),
                }
            },
        }
    }

    fn progress(&mut self) -> (r: Result<Option<StreamingResponseEvent>, StreamingResponseError>)
        requires
            old(self)@.consumed + old(self)@.input.len() <= usize::MAX,
        ensures
            (final(self)@, result_view(r)) == progressed(old(self)@),
    {
        if self.complete {
            self.complete = false;
            self.syntax.clear();
            self.normalized.clear();
            self.literals.clear();
        }
        assert(self@ == renewed(old(self)@));
        match self.remaining {
            Some(remaining) => self.progress_literal(remaining),
            None => self.progress_line(),
        }
    }
}

} // verus!
