//! Literals of FETCH responses on their way through a decoder.
use vstd::prelude::*;

use crate::arguments as args;
use crate::ascii;
use crate::encode;
use crate::encode::{LiteralMode, Token};
use crate::extensions::texts;
use crate::fetch;
use crate::fragmentizer::streaming as steps;
use crate::fragmentizer::streaming::{
    DecoderView, EventView, LiteralDescriptor, StreamingResponseError,
};
use crate::fragmentizer::transfers;
use crate::grammar::Outcome;
use crate::number;
use crate::reading;
use crate::response;
use crate::response::{DataView, ItemView, MessageDataItem, NString8View, ResponseView};
use crate::strings;
use crate::strings::StringView;

verus! {

// ------------------------------------------------------------------ definitions

/// Numbers with dots between them.
pub open spec fn dotted(v: Seq<u32>) -> Seq<u8>
    decreases v.len(),
{
    if v.len() == 0 {
        seq![]
    } else if v.len() == 1 {
        number::decimal(v[0] as nat)
    } else {
        number::decimal(v[0] as nat) + seq![46u8] + dotted(v.skip(1))
    }
}

/// What stands before the bracket that announces the data of a binary part.
pub open spec fn binary_head(message: u32, section: Seq<u32>) -> Seq<u8> {
    ascii::bytes_of("* ") + number::decimal(message as nat) + ascii::bytes_of(" FETCH (BINARY[")
        + dotted(section) + ascii::bytes_of("] ~")
}

/// The same for a whole message.
pub open spec fn message_head(message: u32) -> Seq<u8> {
    ascii::bytes_of("* ") + number::decimal(message as nat) + ascii::bytes_of(" FETCH (BODY[] ")
}

/// The end of the list and of the line.
pub open spec fn list_end() -> Seq<u8> {
    seq![41u8, 13u8, 10u8]
}

/// The literal that names the first place.
pub open spec fn first_name() -> StringView {
    StringView::Literal(transfers::stand_in(0).skip(6), LiteralMode::Sync)
}

pub open spec fn binary_item(section: Seq<u32>) -> ItemView {
    ItemView::Binary { section, value: NString8View::Literal8(first_name()) }
}

pub open spec fn message_item() -> ItemView {
    ItemView::BodyExt { section: None, origin: None, data: Some(first_name()) }
}

pub open spec fn fetched(message: u32, item: ItemView) -> ResponseView {
    ResponseView::Data(DataView::Fetch { seq: message, items: seq![item] })
}

// ---------------------------------------------------------------------- lemmas

proof fn lemma_dotted(v: Seq<u32>)
    ensures
        encode::flat(fetch::part_tokens(v)) == dotted(v),
{
    let tokens = encode::parts::<u32>(v);
    let parts = encode::flat_parts(tokens);
    encode::lemma_flat_joined(tokens, encode::word("."));
    encode::lemma_flat_word(".");
    reveal_strlit(".");
    assert(ascii::bytes_of(".") =~= seq![46u8]);
    assert forall|i: int| 0 <= i < v.len() implies #[trigger] parts[i] == number::decimal(
        v[i] as nat,
    ) by {
        encode::lemma_flat_plain(number::decimal(v[i] as nat));
    }
    lemma_dotted_parts(v, parts);
}

proof fn lemma_dotted_parts(v: Seq<u32>, parts: Seq<Seq<u8>>)
    requires
        parts.len() == v.len(),
        forall|i: int|
            0 <= i < v.len() ==> #[trigger] parts[i] == number::decimal(v[i] as nat),
    ensures
        encode::joined(parts, seq![46u8]) == dotted(v),
    decreases v.len(),
{
    if v.len() > 0 {
        texts::lemma_joined_first(parts, seq![46u8]);
        assert(parts[0] == number::decimal(v[0] as nat));
        if v.len() > 1 {
            let w = v.skip(1);
            let rest = parts.skip(1);
            assert forall|i: int| 0 <= i < w.len() implies #[trigger] rest[i] == number::decimal(
                w[i] as nat,
            ) by {
                assert(rest[i] == parts[i + 1]);
            }
            lemma_dotted_parts(w, rest);
            encode::lemma_concat_assoc(parts[0], seq![46u8], dotted(w));
        }
    }
}

/// Numbers and dots have no line feed.
proof fn lemma_dotted_bytes(v: Seq<u32>)
    ensures
        forall|i: int| 0 <= i < dotted(v).len() ==> 46 <= #[trigger] dotted(v)[i] <= 57,
    decreases v.len(),
{
    if v.len() > 0 {
        let d = number::decimal(v[0] as nat);
        lemma_decimal_bytes(v[0] as nat);
        let t = dotted(v);
        if v.len() > 1 {
            let w = v.skip(1);
            lemma_dotted_bytes(w);
            assert forall|i: int| 0 <= i < t.len() implies 46 <= #[trigger] t[i] <= 57 by {
                if i < d.len() {
                    assert(t[i] == d[i]);
                } else if i > d.len() {
                    assert(t[i] == dotted(w)[i - d.len() - 1]);
                }
            }
        }
    }
}

proof fn lemma_decimal_bytes(n: nat)
    ensures
        transfers::is_numeral(number::decimal(n)),
        number::digits_value(number::decimal(n)) == n,
{
    number::lemma_decimal(n);
    let d = number::decimal(n);
    let class = |x: u8| ascii::is_digit(x);
    assert forall|i: int| 0 <= i < d.len() implies 48 <= #[trigger] d[i] <= 57 by {
        assert(class(d[i]));
    }
}

/// The text of an announcement.
proof fn lemma_announcement(length: u64)
    ensures
        strings::announcement_text(length as nat, LiteralMode::Sync) == seq![123u8]
            + transfers::length_text(number::decimal(length as nat)),
{
    reveal_strlit("{");
    reveal_strlit("}");
    reveal_strlit("\r\n");
    assert(strings::announcement_text(length as nat, LiteralMode::Sync) =~= seq![123u8]
        + transfers::length_text(number::decimal(length as nat)));
}

/// An announcement alone asks for the literal.
proof fn lemma_announcement_asks(length: u64)
    ensures
        ({
            let text = seq![123u8] + transfers::length_text(number::decimal(length as nat));
            &&& strings::literal_rule()(text) == Outcome::<StringView>::More(Some(length))
            &&& strings::literal8_rule()(seq![126u8] + text) == Outcome::<StringView>::More(
                Some(length),
            )
        }),
{
    let text = seq![123u8] + transfers::length_text(number::decimal(length as nat));
    let none = Seq::<u8>::empty();
    lemma_announcement(length);
    strings::lemma_announcement_reads(length, LiteralMode::Sync, none);
    assert(text + none =~= text);
    reveal(strings::literal_rule);
    reveal(strings::literal8_rule);
    reveal_strlit("~");
    assert(ascii::bytes_of("~") =~= seq![126u8]);
    reading::lemma_tag_reads(ascii::bytes_of("~"), text);
}

/// An item that asks for a literal makes its response ask for it.
#[verifier::spinoff_prover]
proof fn lemma_fetch_asks(message: u32, x: Seq<u8>, length: u64)
    requires
        message > 0,
        response::item_rule()(x) == Outcome::<ItemView>::More(Some(length)),
    ensures
        response::response_rule()(
            ascii::bytes_of("* ") + (number::decimal(message as nat) + (ascii::bytes_of(" FETCH (")
                + x)),
        ) == Outcome::<ResponseView>::More(Some(length)),
{
    reveal_strlit("* ");
    reveal_strlit("+ ");
    reveal_strlit(" FETCH (");
    reveal_strlit("FETCH ");
    reveal_strlit("(");
    reveal_strlit(" ");
    reveal_strlit("EXISTS");
    reveal_strlit("RECENT");
    reveal_strlit("EXPUNGE");
    let star = ascii::bytes_of("* ");
    let open = ascii::bytes_of("(");
    let w = ascii::bytes_of("FETCH ");
    let sp = ascii::bytes_of(" ");
    let list = open + x;
    let named = w + list;
    let numbered = sp + named;
    let d = number::decimal(message as nat);
    assert(ascii::bytes_of(" FETCH (") + x =~= numbered);
    let s = d + numbered;
    reading::lemma_tag_reads(star, s);
    assert((star + s)[0] == '*' as u8);
    reading::lemma_tag_rejects(ascii::bytes_of("+ "), star + s);
    assert(numbered[0] == 32);
    number::lemma_number_reads(message, numbered);
    reading::lemma_tag_reads(sp, named);
    assert(named[0] == 'F' as u8);
    reading::lemma_tag_no_case_rejects(ascii::bytes_of("EXISTS"), named, 0);
    reading::lemma_tag_no_case_rejects(ascii::bytes_of("RECENT"), named, 0);
    reading::lemma_tag_no_case_rejects(ascii::bytes_of("EXPUNGE"), named, 0);
    reading::lemma_tag_no_case_reads(w, list);
    reading::lemma_tag_reads(open, x);
    assert(response::numbered_rule(message)(named) == Outcome::<ResponseView>::More(Some(length)));
    assert(response::untagged_rule()(s) == Outcome::<ResponseView>::More(Some(length))) by {
        reveal(response::untagged_rule);
    }
    reveal(response::response_rule);
}

proof fn lemma_binary_asks(section: Seq<u32>, length: u64)
    requires
        fetch::part_wf(section),
    ensures
        response::item_rule()(
            ascii::bytes_of("BINARY") + (encode::flat(fetch::binary_section_tokens(section)) + (
            seq![32u8] + (seq![126u8] + (seq![123u8] + transfers::length_text(
                number::decimal(length as nat),
            ))))),
        ) == Outcome::<ItemView>::More(Some(length)),
{
    let text = seq![123u8] + transfers::length_text(number::decimal(length as nat));
    let value = seq![126u8] + text;
    let w = ascii::bytes_of("BINARY");
    let section_text = encode::flat(fetch::binary_section_tokens(section));
    reveal_strlit(" ");
    let sp = ascii::bytes_of(" ");
    assert(sp =~= seq![32u8]);
    let a = sp + value;
    lemma_announcement_asks(length);
    assert(response::nstring8_rule()(value) == Outcome::<NString8View>::More(Some(length))) by {
        reveal(response::nstring8_rule);
    }
    reading::lemma_tag_reads(sp, value);
    fetch::lemma_special_items();
    fetch::lemma_binary_section_reads(section, a);
    let r = section_text + a;
    assert(r[0] == '[' as u8);
    reading::lemma_take_while1_reads(|b: u8| fetch::is_item_char(b), w, r);
    assert(response::item_value_rule(w)(r) == Outcome::<ItemView>::More(Some(length)));
    reveal(response::item_rule);
}

proof fn lemma_message_asks(length: u64)
    ensures
        response::item_rule()(
            ascii::bytes_of("BODY") + (encode::flat(fetch::body_section_tokens(None)) + (seq![32u8]
                + (seq![123u8] + transfers::length_text(number::decimal(length as nat))))),
        ) == Outcome::<ItemView>::More(Some(length)),
{
    let text = seq![123u8] + transfers::length_text(number::decimal(length as nat));
    let w = ascii::bytes_of("BODY");
    let section_text = encode::flat(fetch::body_section_tokens(None));
    reveal_strlit(" ");
    reveal_strlit("<");
    reveal_strlit("\"");
    let sp = ascii::bytes_of(" ");
    assert(sp =~= seq![32u8]);
    let a = sp + text;
    lemma_announcement_asks(length);
    assert(text[0] == '{' as u8);
    assert(strings::nstring_rule()(text) == Outcome::<Option<StringView>>::More(Some(length))) by {
        reveal(strings::nstring_rule);
        reveal(strings::string_rule);
        reveal(strings::quoted_rule);
        reading::lemma_tag_rejects(ascii::bytes_of("\""), text);
    }
    reading::lemma_tag_reads(sp, text);
    assert(a[0] == 32);
    reading::lemma_tag_rejects(ascii::bytes_of("<"), a);
    fetch::lemma_plain_item(fetch::PlainItem::Body);
    fetch::lemma_body_section_reads(None, a);
    let r = section_text + a;
    assert(r[0] == '[' as u8);
    reading::lemma_take_while1_reads(|b: u8| fetch::is_item_char(b), w, r);
    assert(response::body_item_rule()(r) == Outcome::<ItemView>::More(Some(length))) by {
        reveal(response::body_item_rule);
    }
    assert(response::item_value_rule(w)(r) == Outcome::<ItemView>::More(Some(length)));
    reveal(response::item_rule);
}

/// The literal that names the first place, as it is written.
proof fn lemma_first_name()
    ensures
        encode::flat(strings::string_tokens(first_name())) == transfers::stand_in(0),
        first_name() matches StringView::Literal(b, _) && b.len() == 29 && !b.contains(0)
            && strings::string_wf(first_name()),
{
    let b = transfers::stand_in(0).skip(6);
    transfers::lemma_stand_in(0);
    transfers::lemma_stand_in_marker(0);
    reveal(strings::string_tokens);
    assert(b.len() == 29);
    assert forall|i: int| 0 <= i < b.len() implies #[trigger] b[i] != 0 by {
        assert(b[i] == transfers::stand_in(0)[i + 6]);
    }
}

/// The line of a FETCH response with one item.
proof fn lemma_fetched_text(message: u32, item: ItemView)
    ensures
        encode::flat(response::response_tokens(fetched(message, item))) == ascii::bytes_of("* ")
            + number::decimal(message as nat) + ascii::bytes_of(" FETCH (") + encode::flat(
            response::item_tokens(item),
        ) + list_end(),
{
    let items = seq![item];
    let tokens = encode::parts::<MessageDataItem>(items);
    let parts = encode::flat_parts(tokens);
    let star = encode::word("* ");
    let n = response::number_tokens(message as u64);
    let w = encode::word(" FETCH ");
    let list = encode::paren_tokens(tokens);
    let r = fetched(message, item);
    encode::lemma_flat_word("* ");
    encode::lemma_flat_word(" FETCH ");
    encode::lemma_flat_word("\r\n");
    encode::lemma_flat_plain(number::decimal(message as nat));
    encode::lemma_flat_add(star, n);
    encode::lemma_flat_add(star + n, w);
    encode::lemma_flat_add(star + n + w, list);
    encode::lemma_flat_add(response::line_tokens(r), encode::word("\r\n"));
    encode::lemma_flat_paren(tokens);
    texts::lemma_joined_first(parts, ascii::bytes_of(" "));
    assert(parts[0] == encode::flat(response::item_tokens(item)));
    reveal_strlit(" FETCH ");
    reveal_strlit(" FETCH (");
    reveal_strlit("(");
    reveal_strlit(")");
    reveal_strlit("\r\n");
    let a = ascii::bytes_of("* ") + number::decimal(message as nat);
    let f = ascii::bytes_of(" FETCH ");
    let open = ascii::bytes_of("(");
    let close = ascii::bytes_of(")");
    let crlf = ascii::bytes_of("\r\n");
    assert(ascii::bytes_of(" FETCH (") =~= f + open);
    assert(list_end() =~= close + crlf);
    let x = parts[0];
    assert(a + f + (open + x + close) + crlf =~= a + (f + open) + x + (close + crlf));
}

#[verifier::spinoff_prover]
proof fn lemma_binary_text(message: u32, section: Seq<u32>)
    ensures
        encode::flat(response::response_tokens(fetched(message, binary_item(section))))
            == binary_head(message, section) + transfers::stand_in(0) + list_end(),
        binary_head(message, section) == ascii::bytes_of("* ") + (number::decimal(message as nat)
            + (ascii::bytes_of(" FETCH (") + (ascii::bytes_of("BINARY") + (encode::flat(
            fetch::binary_section_tokens(section),
        ) + (seq![32u8] + seq![126u8]))))),
{
    let item = binary_item(section);
    let name = encode::word("BINARY");
    let sec = fetch::binary_section_tokens(section);
    let value = response::nstring8_tokens(NString8View::Literal8(first_name()));
    lemma_fetched_text(message, item);
    lemma_first_name();
    lemma_dotted(section);
    encode::lemma_flat_word("BINARY");
    encode::lemma_flat_word("[");
    encode::lemma_flat_word("]");
    encode::lemma_flat_word(" ");
    encode::lemma_flat_word("~");
    encode::lemma_flat_add(encode::word("["), fetch::part_tokens(section));
    encode::lemma_flat_add(encode::word("[") + fetch::part_tokens(section), encode::word("]"));
    encode::lemma_flat_add(name, sec);
    encode::lemma_flat_add(name + sec, args::argument(value));
    encode::lemma_flat_add(encode::word(" "), value);
    encode::lemma_flat_add(encode::word("~"), strings::string_tokens(first_name()));
    reveal_strlit("BINARY");
    reveal_strlit("[");
    reveal_strlit("]");
    reveal_strlit(" ");
    reveal_strlit("~");
    reveal_strlit("] ~");
    reveal_strlit(" FETCH (");
    reveal_strlit(" FETCH (BINARY[");
    let b = ascii::bytes_of("BINARY");
    let f = ascii::bytes_of(" FETCH (");
    let o = ascii::bytes_of("[");
    let c = ascii::bytes_of("]");
    let a = ascii::bytes_of("* ");
    let n = number::decimal(message as nat);
    let d = dotted(section);
    let m = transfers::stand_in(0);
    assert(ascii::bytes_of(" ") =~= seq![32u8]);
    assert(ascii::bytes_of("~") =~= seq![126u8]);
    assert(ascii::bytes_of(" FETCH (BINARY[") =~= f + (b + o));
    assert(ascii::bytes_of("] ~") =~= c + (seq![32u8] + seq![126u8]));
    lemma_binary_groups(a, n, f, b, o, d, c, m);
}

proof fn lemma_binary_groups(
    a: Seq<u8>,
    n: Seq<u8>,
    f: Seq<u8>,
    b: Seq<u8>,
    o: Seq<u8>,
    d: Seq<u8>,
    c: Seq<u8>,
    m: Seq<u8>,
)
    ensures
        a + n + f + ((b + (o + d + c)) + (seq![32u8] + (seq![126u8] + m))) + list_end() == (a + n
            + (f + (b + o)) + d + (c + (seq![32u8] + seq![126u8]))) + m + list_end(),
        a + n + (f + (b + o)) + d + (c + (seq![32u8] + seq![126u8])) == a + (n + (f + (b + ((o + d
            + c) + (seq![32u8] + seq![126u8]))))),
{
    assert(a + n + f + ((b + (o + d + c)) + (seq![32u8] + (seq![126u8] + m))) =~= (a + n + (f + (b
        + o)) + d + (c + (seq![32u8] + seq![126u8]))) + m);
    assert(a + n + (f + (b + o)) + d + (c + (seq![32u8] + seq![126u8])) =~= a + (n + (f + (b + ((o
        + d + c) + (seq![32u8] + seq![126u8]))))));
}

#[verifier::spinoff_prover]
proof fn lemma_message_text(message: u32)
    ensures
        encode::flat(response::response_tokens(fetched(message, message_item())))
            == message_head(message) + transfers::stand_in(0) + list_end(),
        message_head(message) == ascii::bytes_of("* ") + (number::decimal(message as nat) + (
        ascii::bytes_of(" FETCH (") + (ascii::bytes_of("BODY") + (encode::flat(
            fetch::body_section_tokens(None),
        ) + seq![32u8])))),
{
    let item = message_item();
    let name = encode::word("BODY");
    let none: Seq<Token> = seq![];
    let sec = fetch::body_section_tokens(None);
    let value = strings::nstring_tokens(Some(first_name()));
    lemma_fetched_text(message, item);
    lemma_first_name();
    encode::lemma_flat_word("BODY");
    encode::lemma_flat_word("[");
    encode::lemma_flat_word("]");
    encode::lemma_flat_word(" ");
    encode::lemma_flat_add(encode::word("["), none);
    encode::lemma_flat_add(encode::word("[") + none, encode::word("]"));
    encode::lemma_flat_add(sec, none);
    encode::lemma_flat_add(name, sec + none);
    encode::lemma_flat_add(name + (sec + none), args::argument(value));
    encode::lemma_flat_add(encode::word(" "), value);
    assert(encode::flat(none) =~= Seq::<u8>::empty());
    reveal_strlit("BODY");
    reveal_strlit("[");
    reveal_strlit("]");
    reveal_strlit(" ");
    reveal_strlit(" FETCH (");
    reveal_strlit(" FETCH (BODY[] ");
    let b = ascii::bytes_of("BODY");
    let f = ascii::bytes_of(" FETCH (");
    let o = ascii::bytes_of("[");
    let c = ascii::bytes_of("]");
    let a = ascii::bytes_of("* ");
    let n = number::decimal(message as nat);
    let m = transfers::stand_in(0);
    let e = Seq::<u8>::empty();
    assert(ascii::bytes_of(" ") =~= seq![32u8]);
    assert(o + e + c + e =~= o + c);
    assert(o + e + c =~= o + c);
    assert(ascii::bytes_of(" FETCH (BODY[] ") =~= f + (b + ((o + c) + seq![32u8])));
    assert(a + n + f + ((b + (o + c)) + (seq![32u8] + m)) =~= a + n + (f + (b + ((o + c)
        + seq![32u8]))) + m);
    assert(a + n + (f + (b + ((o + c) + seq![32u8]))) =~= a + (n + (f + (b + ((o + c)
        + seq![32u8])))));
}

/// Texts without a line feed, one behind the other.
proof fn lemma_quiet(a: Seq<u8>, b: Seq<u8>)
    requires
        forall|i: int| 0 <= i < a.len() ==> #[trigger] a[i] != 10,
        forall|i: int| 0 <= i < b.len() ==> #[trigger] b[i] != 10,
    ensures
        forall|i: int| 0 <= i < (a + b).len() ==> #[trigger] (a + b)[i] != 10,
{
    assert forall|i: int| 0 <= i < (a + b).len() implies #[trigger] (a + b)[i] != 10 by {
        if i >= a.len() {
            assert((a + b)[i] == b[i - a.len()]);
        }
    }
}

proof fn lemma_heads_are_quiet(message: u32, section: Seq<u32>)
    ensures
        forall|i: int|
            0 <= i < binary_head(message, section).len() ==> #[trigger] binary_head(
                message,
                section,
            )[i] != 10,
        forall|i: int|
            0 <= i < message_head(message).len() ==> #[trigger] message_head(message)[i] != 10,
{
    let a = ascii::bytes_of("* ");
    let n = number::decimal(message as nat);
    let f = ascii::bytes_of(" FETCH (BINARY[");
    let d = dotted(section);
    let c = ascii::bytes_of("] ~");
    let m = ascii::bytes_of(" FETCH (BODY[] ");
    reveal_strlit("* ");
    reveal_strlit(" FETCH (BINARY[");
    reveal_strlit("] ~");
    reveal_strlit(" FETCH (BODY[] ");
    lemma_decimal_bytes(message as nat);
    lemma_dotted_bytes(section);
    assert forall|i: int| 0 <= i < f.len() implies #[trigger] f[i] != 10 by {
        assert(i == 0 || i == 1 || i == 2 || i == 3 || i == 4 || i == 5 || i == 6 || i == 7 || i
            == 8 || i == 9 || i == 10 || i == 11 || i == 12 || i == 13 || i == 14);
    }
    assert forall|i: int| 0 <= i < m.len() implies #[trigger] m[i] != 10 by {
        assert(i == 0 || i == 1 || i == 2 || i == 3 || i == 4 || i == 5 || i == 6 || i == 7 || i
            == 8 || i == 9 || i == 10 || i == 11 || i == 12 || i == 13 || i == 14);
    }
    lemma_quiet(a, n);
    lemma_quiet(a + n, f);
    lemma_quiet(a + n + f, d);
    lemma_quiet(a + n + f + d, c);
    lemma_quiet(a + n, m);
}

// ------------------------------------------------------------------------ laws

/// What comes out of a decoder for a response with one literal: its start, its
/// bytes, its end and the response, and no error.
pub open spec fn comes_out(
    s: DecoderView,
    line: Seq<u8>,
    data: Seq<u8>,
    binary: bool,
    v: ResponseView,
    rest: Seq<u8>,
) -> bool {
    let literal = LiteralDescriptor { index: 0, length: data.len() as u64, binary };
    let (started, start) = steps::stepped(s);
    let (filled, chunk) = steps::stepped(started);
    let (ended, end) = steps::stepped(filled);
    let (done, last) = steps::stepped(ended);
    &&& start == Ok::<Option<EventView>, StreamingResponseError>(
        Some(EventView::LiteralStart { literal, prefix: line }),
    )
    &&& chunk == Ok::<Option<EventView>, StreamingResponseError>(
        Some(EventView::LiteralChunk { index: 0, data }),
    )
    &&& end == Ok::<Option<EventView>, StreamingResponseError>(
        Some(EventView::LiteralEnd { index: 0 }),
    )
    &&& last == Ok::<Option<EventView>, StreamingResponseError>(
        Some(EventView::Complete { structure: v }),
    )
    &&& done.complete
    &&& !done.failed
    &&& done.literals == seq![literal]
    &&& done.input == rest
}

/// A binary part of any bytes comes out as they are, marked as binary, and the
/// response tells its section.
#[verifier::spinoff_prover]
pub proof fn law_binary_parts_come_out(
    s: DecoderView,
    message: u32,
    section: Seq<u32>,
    data: Seq<u8>,
    rest: Seq<u8>,
)
    requires
        transfers::is_fresh(s),
        message > 0,
        forall|i: int| 0 <= i < section.len() ==> #[trigger] section[i] > 0,
        0 < data.len() <= u64::MAX,
        s.input == transfers::announcing_line(
            binary_head(message, section),
            number::decimal(data.len()),
        ) + (data + (list_end() + rest)),
        3 * transfers::announcing_line(
            binary_head(message, section),
            number::decimal(data.len()),
        ).len() + 44 + vstd::layout::size_of::<LiteralDescriptor>() <= s.maximum,
    ensures
        comes_out(
            s,
            transfers::announcing_line(binary_head(message, section), number::decimal(data.len())),
            data,
            true,
            fetched(message, binary_item(section)),
            rest,
        ),
{
    let head = binary_head(message, section);
    let d = number::decimal(data.len());
    let length = data.len() as u64;
    let r = fetched(message, binary_item(section));
    lemma_decimal_bytes(data.len());
    lemma_heads_are_quiet(message, section);
    lemma_binary_text(message, section);
    lemma_first_name();
    let item = binary_item(section);
    assert(fetch::part_wf(section));
    assert(response::item_wf(item));
    assert(response::response_wf(r)) by {
        let wf = |i: ItemView| response::item_wf(i);
        assert forall|i: int| 0 <= i < seq![item].len() implies wf(#[trigger] seq![item][i]) by {}
    }
    let none = Seq::<u8>::empty();
    response::law_response_is_read_back(r, none);
    let all = head + transfers::stand_in(0) + list_end();
    assert(all + none =~= all);
    lemma_binary_asks(section, length);
    let x = ascii::bytes_of("BINARY") + (encode::flat(fetch::binary_section_tokens(section)) + (
    seq![32u8] + (seq![126u8] + (seq![123u8] + transfers::length_text(d)))));
    lemma_fetch_asks(message, x, length);
    assert(transfers::announcing_line(head, d) == ascii::bytes_of("* ") + (number::decimal(
        message as nat,
    ) + (ascii::bytes_of(" FETCH (") + x))) by {
        lemma_binary_line(
            ascii::bytes_of("* "),
            number::decimal(message as nat),
            ascii::bytes_of(" FETCH ("),
            ascii::bytes_of("BINARY"),
            encode::flat(fetch::binary_section_tokens(section)),
            transfers::length_text(d),
        );
    }
    reveal_strlit("] ~");
    assert(head[head.len() - 1] == 126);
    transfers::law_one_literal_goes_through(s, head, d, data, list_end(), r, rest);
}

proof fn lemma_binary_line(
    a: Seq<u8>,
    n: Seq<u8>,
    f: Seq<u8>,
    b: Seq<u8>,
    c: Seq<u8>,
    d: Seq<u8>,
)
    ensures
        (a + (n + (f + (b + (c + (seq![32u8] + seq![126u8])))))) + seq![123u8] + d == a + (n + (f
            + (b + (c + (seq![32u8] + (seq![126u8] + (seq![123u8] + d))))))),
        (a + (n + (f + (b + (c + seq![32u8]))))) + seq![123u8] + d == a + (n + (f + (b + (c + (
        seq![32u8] + (seq![123u8] + d)))))),
{
    assert((a + (n + (f + (b + (c + (seq![32u8] + seq![126u8])))))) + seq![123u8] + d =~= a + (n
        + (f + (b + (c + (seq![32u8] + (seq![126u8] + (seq![123u8] + d))))))));
    assert((a + (n + (f + (b + (c + seq![32u8]))))) + seq![123u8] + d =~= a + (n + (f + (b + (c + (
    seq![32u8] + (seq![123u8] + d)))))));
}

/// A whole message without a NUL comes out as it is, and not as binary.
#[verifier::spinoff_prover]
pub proof fn law_messages_come_out(s: DecoderView, message: u32, data: Seq<u8>, rest: Seq<u8>)
    requires
        transfers::is_fresh(s),
        message > 0,
        0 < data.len() <= u64::MAX,
        forall|i: int| 0 <= i < data.len() ==> #[trigger] data[i] != 0,
        s.input == transfers::announcing_line(message_head(message), number::decimal(data.len()))
            + (data + (list_end() + rest)),
        3 * transfers::announcing_line(message_head(message), number::decimal(data.len())).len()
            + 44 + vstd::layout::size_of::<LiteralDescriptor>() <= s.maximum,
    ensures
        comes_out(
            s,
            transfers::announcing_line(message_head(message), number::decimal(data.len())),
            data,
            false,
            fetched(message, message_item()),
            rest,
        ),
{
    let head = message_head(message);
    let d = number::decimal(data.len());
    let length = data.len() as u64;
    let item = message_item();
    let r = fetched(message, item);
    lemma_decimal_bytes(data.len());
    lemma_heads_are_quiet(message, seq![]);
    lemma_message_text(message);
    lemma_first_name();
    assert(response::item_wf(item));
    assert(response::response_wf(r)) by {
        let wf = |i: ItemView| response::item_wf(i);
        assert forall|i: int| 0 <= i < seq![item].len() implies wf(#[trigger] seq![item][i]) by {}
    }
    let none = Seq::<u8>::empty();
    response::law_response_is_read_back(r, none);
    let all = head + transfers::stand_in(0) + list_end();
    assert(all + none =~= all);
    lemma_message_asks(length);
    let x = ascii::bytes_of("BODY") + (encode::flat(fetch::body_section_tokens(None)) + (seq![32u8]
        + (seq![123u8] + transfers::length_text(d))));
    lemma_fetch_asks(message, x, length);
    assert(transfers::announcing_line(head, d) == ascii::bytes_of("* ") + (number::decimal(
        message as nat,
    ) + (ascii::bytes_of(" FETCH (") + x))) by {
        lemma_binary_line(
            ascii::bytes_of("* "),
            number::decimal(message as nat),
            ascii::bytes_of(" FETCH ("),
            ascii::bytes_of("BODY"),
            encode::flat(fetch::body_section_tokens(None)),
            transfers::length_text(d),
        );
    }
    reveal_strlit(" FETCH (BODY[] ");
    assert(head[head.len() - 1] == 32);
    transfers::law_one_literal_goes_through(s, head, d, data, list_end(), r, rest);
}

} // verus!
