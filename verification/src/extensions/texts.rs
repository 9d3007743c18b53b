//! What the texts of the extensions mean, told by the texts alone.
use vstd::prelude::*;

use crate::ascii;
use crate::encode;
use crate::extensions::condstore_qresync as modseq;
use crate::extensions::rev2 as ext;
use crate::grammar as g;
use crate::grammar::Outcome;
use crate::number;
use crate::reading;
use crate::rev2::{ComponentView, MessageSetView, ValueView};
use crate::sequence;
use crate::sequence::{SeqOrUid, Sequence};
use crate::strings;

verus! {

// --------------------------------------------------------------------- spelling

/// A letter in upper case.
pub open spec fn raised(b: u8) -> u8 {
    if 97 <= b <= 122 {
        (b - 32) as u8
    } else {
        b
    }
}

/// The text is this word, its letters in any case.
pub open spec fn says(b: Seq<u8>, word: Seq<char>) -> bool {
    b.len() == word.len() && forall|i: int|
        0 <= i < b.len() ==> raised(#[trigger] b[i]) as char == word[i]
}

/// A byte that may stand in a label, first or behind another.
pub open spec fn label_byte(b: u8, first: bool) -> bool {
    ||| 65 <= b <= 90
    ||| 97 <= b <= 122
    ||| b == 45
    ||| b == 46
    ||| b == 95
    ||| !first && 48 <= b <= 58
}

/// The name of an option or an item.
pub open spec fn is_name(b: Seq<u8>) -> bool {
    b.len() > 0 && forall|i: int| 0 <= i < b.len() ==> label_byte(#[trigger] b[i], i == 0)
}

/// Digits.
pub open spec fn is_numeral(b: Seq<u8>) -> bool {
    b.len() > 0 && forall|i: int| 0 <= i < b.len() ==> 48 <= #[trigger] b[i] <= 57
}

/// A number or a star, as it is written.
pub open spec fn place_text(n: SeqOrUid) -> Seq<u8> {
    match n {
        SeqOrUid::Value(v) => number::decimal(v as nat),
        SeqOrUid::Asterisk => seq![42u8],
    }
}

/// A number or two with a colon between them.
pub open spec fn range_text(s: Sequence) -> Seq<u8> {
    match s {
        Sequence::Single(a) => place_text(a),
        Sequence::Range(a, b) => place_text(a) + seq![58u8] + place_text(b),
    }
}

/// Numbers and ranges with commas between them.
pub open spec fn set_text(v: Seq<Sequence>) -> Seq<u8>
    decreases v.len(),
{
    if v.len() == 0 {
        seq![]
    } else if v.len() == 1 {
        range_text(v[0])
    } else {
        range_text(v[0]) + seq![44u8] + set_text(v.skip(1))
    }
}

/// Zero is no number of a message.
pub open spec fn counts(n: SeqOrUid) -> bool {
    n matches SeqOrUid::Value(v) ==> v != 0
}

/// A number other than zero.
pub open spec fn is_number(n: SeqOrUid) -> bool {
    n matches SeqOrUid::Value(v) && v != 0
}

/// A set of messages.
pub open spec fn is_set(v: Seq<Sequence>) -> bool {
    v.len() > 0 && forall|i: int|
        0 <= i < v.len() ==> match #[trigger] v[i] {
            Sequence::Single(a) => counts(a),
            Sequence::Range(a, b) => counts(a) && counts(b),
        }
}

/// A set that tells all of its bounds.
pub open spec fn is_closed_set(v: Seq<Sequence>) -> bool {
    v.len() > 0 && forall|i: int|
        0 <= i < v.len() ==> match #[trigger] v[i] {
            Sequence::Single(a) => is_number(a),
            Sequence::Range(a, b) => is_number(a) && is_number(b),
        }
}

// ----------------------------------------------------------------------- values

/// How many levels a component has. A list without items has a level for them.
pub open spec fn levels(c: ComponentView) -> nat
    decreases c,
{
    match c {
        ComponentView::String(_) => 1,
        ComponentView::List(v) => 1 + most_levels(v),
    }
}

pub open spec fn most_levels(v: Seq<ComponentView>) -> nat
    decreases v,
{
    if v.len() == 0 {
        1
    } else {
        let a = most_levels(v.drop_last());
        let b = levels(v[v.len() - 1]);
        if a < b {
            b
        } else {
            a
        }
    }
}

/// All strings in a component can be written.
pub open spec fn has_strings(c: ComponentView) -> bool
    decreases c,
{
    match c {
        ComponentView::String(s) => strings::string_wf(s),
        ComponentView::List(v) => forall|i: int| 0 <= i < v.len() ==> has_strings(#[trigger] v[i]),
    }
}

/// A value: a number of at most 63 bits, a set that tells its bounds, or
/// components of at most sixteen levels.
pub open spec fn is_value(v: ValueView) -> bool {
    match v {
        ValueView::Simple(b) => {
            ||| is_numeral(b) && number::digits_value(b) < 0x8000_0000_0000_0000
            ||| exists|s: Seq<Sequence>| #[trigger] is_closed_set(s) && b == set_text(s)
        },
        ValueView::List(v) => forall|i: int|
            0 <= i < v.len() ==> has_strings(#[trigger] v[i]) && levels(v[i]) <= 16,
    }
}

// ---------------------------------------------------------------------- lemmas

pub proof fn lemma_says(b: Seq<u8>, w: &str)
    requires
        forall|i: int|
            0 <= i < w@.len() ==> raised((#[trigger] w@[i]) as u8) as char == w@[i],
    ensures
        says(b, w@) <==> ascii::same_word(b, ascii::bytes_of(w)),
{
    let x = ascii::bytes_of(w);
    if says(b, w@) {
        assert forall|i: int| 0 <= i < b.len() implies ascii::uppercase(b)[i] == ascii::uppercase(
            x,
        )[i] by {
            assert(raised(b[i]) as char == w@[i]);
            assert(x[i] == w@[i] as u8);
        }
        assert(ascii::uppercase(b) =~= ascii::uppercase(x));
    }
    if ascii::same_word(b, x) {
        assert(ascii::uppercase(b).len() == ascii::uppercase(x).len());
        assert forall|i: int| 0 <= i < b.len() implies raised(#[trigger] b[i]) as char == w@[i] by {
            assert(ascii::uppercase(b)[i] == ascii::upper(b[i]));
            assert(ascii::uppercase(x)[i] == ascii::upper(x[i]));
            assert(x[i] == w@[i] as u8);
            assert(raised(w@[i] as u8) as char == w@[i]);
        }
    }
}

pub proof fn lemma_name(b: Seq<u8>)
    ensures
        is_name(b) <==> ext::is_label(b),
{
    if is_name(b) {
        assert(label_byte(b[0], true));
        assert forall|i: int| 1 <= i < b.len() implies ext::is_label_char(#[trigger] b[i]) by {
            assert(label_byte(b[i], i == 0));
        }
    }
}

pub proof fn lemma_numeral(b: Seq<u8>)
    ensures
        is_numeral(b) <==> b.len() > 0 && number::all_digits(b),
        is_numeral(b) ==> strings::atom_wf(b),
{
    if number::all_digits(b) {
        let class = |x: u8| ascii::is_digit(x);
        assert forall|i: int| 0 <= i < b.len() implies 48 <= #[trigger] b[i] <= 57 by {
            assert(class(b[i]));
        }
    }
}

proof fn lemma_place(n: SeqOrUid)
    requires
        counts(n),
    ensures
        place_text(n) == sequence::number_text(n),
        place_text(n).len() > 0,
        sequence::number_of(place_text(n)) == Some(n),
        forall|i: int|
            0 <= i < place_text(n).len() ==> #[trigger] place_text(n)[i] == 42 || 48
                <= place_text(n)[i] <= 57,
        is_number(n) ==> forall|i: int|
            0 <= i < place_text(n).len() ==> 48 <= #[trigger] place_text(n)[i] <= 57,
{
    reveal_strlit("*");
    assert(ascii::bytes_of("*") =~= seq![42u8]);
    if let SeqOrUid::Value(v) = n {
        number::lemma_decimal(v as nat);
        let d = number::decimal(v as nat);
        lemma_numeral(d);
        assert(d[0] != 42);
    }
}

/// What a range is written as is read as this range, and holds no comma.
#[verifier::spinoff_prover]
proof fn lemma_range(s: Sequence)
    requires
        match s {
            Sequence::Single(a) => counts(a),
            Sequence::Range(a, b) => counts(a) && counts(b),
        },
    ensures
        range_text(s) == sequence::sequence_text(s),
        range_text(s).len() > 0,
        sequence::sequence_of(range_text(s)) == Some(s),
        forall|i: int|
            0 <= i < range_text(s).len() ==> #[trigger] range_text(s)[i] == 42 || 48 <= range_text(
                s,
            )[i] <= 58,
{
    reveal_strlit(":");
    assert(ascii::bytes_of(":") =~= seq![58u8]);
    let t = range_text(s);
    match s {
        Sequence::Single(a) => {
            lemma_place(a);
            sequence::lemma_split_at(t, 58u8, t.len() as int);
        },
        Sequence::Range(a, b) => {
            lemma_place(a);
            lemma_place(b);
            let n = place_text(a).len() as int;
            let r = place_text(b);
            assert forall|i: int| 0 <= i < n implies t[i] != 58u8 by {
                assert(t[i] == place_text(a)[i]);
            }
            sequence::lemma_split_at(t, 58u8, n);
            assert(t.take(n) =~= place_text(a));
            assert(t.skip(n + 1) =~= r);
            sequence::lemma_split_at(r, 58u8, r.len() as int);
            assert(sequence::split(t, 58u8) =~= seq![place_text(a), r]);
            assert forall|i: int| 0 <= i < t.len() implies #[trigger] t[i] == 42 || 48 <= t[i]
                <= 58 by {
                if i > n {
                    assert(t[i] == r[i - n - 1]);
                } else if i < n {
                    assert(t[i] == place_text(a)[i]);
                }
            }
        },
    }
}

proof fn lemma_closed_is_set(v: Seq<Sequence>)
    requires
        is_closed_set(v),
    ensures
        is_set(v),
{
    assert forall|i: int| 0 <= i < v.len() implies match #[trigger] v[i] {
        Sequence::Single(a) => counts(a),
        Sequence::Range(a, b) => counts(a) && counts(b),
    } by {}
}

/// The commas in the text of a set part it into its ranges.
#[verifier::spinoff_prover]
proof fn lemma_set_parts(v: Seq<Sequence>)
    requires
        is_set(v),
    ensures
        sequence::split(set_text(v), 44u8) == v.map_values(|s: Sequence| range_text(s)),
        set_text(v).len() > 0,
        set_text(v)[0] == range_text(v[0])[0],
    decreases v.len(),
{
    let t = set_text(v);
    let head = range_text(v[0]);
    let n = head.len() as int;
    lemma_range(v[0]);
    if v.len() == 1 {
        sequence::lemma_split_at(t, 44u8, n);
        assert(sequence::split(t, 44u8) =~= v.map_values(|s: Sequence| range_text(s)));
    } else {
        let w = v.skip(1);
        assert(is_set(w)) by {
            assert forall|i: int| 0 <= i < w.len() implies match #[trigger] w[i] {
                Sequence::Single(a) => counts(a),
                Sequence::Range(a, b) => counts(a) && counts(b),
            } by {
                assert(w[i] == v[i + 1]);
            }
        }
        lemma_set_parts(w);
        assert forall|i: int| 0 <= i < n implies t[i] != 44u8 by {
            assert(t[i] == head[i]);
        }
        assert(t[n] == 44);
        sequence::lemma_split_at(t, 44u8, n);
        assert(t.take(n) =~= head);
        assert(t.skip(n + 1) =~= set_text(w));
        assert(sequence::split(t, 44u8) =~= v.map_values(|s: Sequence| range_text(s)));
    }
}

proof fn lemma_ranges(v: Seq<Sequence>)
    requires
        forall|i: int|
            0 <= i < v.len() ==> match #[trigger] v[i] {
                Sequence::Single(a) => counts(a),
                Sequence::Range(a, b) => counts(a) && counts(b),
            },
    ensures
        sequence::sequences_of(v.map_values(|s: Sequence| range_text(s))) == Some(v),
    decreases v.len(),
{
    let parts = v.map_values(|s: Sequence| range_text(s));
    if v.len() > 0 {
        let w = v.drop_last();
        assert forall|i: int| 0 <= i < w.len() implies match #[trigger] w[i] {
            Sequence::Single(a) => counts(a),
            Sequence::Range(a, b) => counts(a) && counts(b),
        } by {
            assert(w[i] == v[i]);
        }
        lemma_ranges(w);
        lemma_range(v[v.len() - 1]);
        assert(parts.drop_last() =~= w.map_values(|s: Sequence| range_text(s)));
        assert(w.push(v.last()) =~= v);
    } else {
        assert(v =~= seq![]);
    }
}

/// The text of a set holds digits, colons, commas and stars only, and no star
/// where the set tells its bounds.
#[verifier::spinoff_prover]
proof fn lemma_set_bytes(v: Seq<Sequence>)
    requires
        is_set(v),
    ensures
        is_closed_set(v) ==> forall|i: int|
            0 <= i < set_text(v).len() ==> #[trigger] set_text(v)[i] == 44 || 48 <= set_text(v)[i]
                <= 58,
    decreases v.len(),
{
    if is_closed_set(v) {
        let t = set_text(v);
        let head = range_text(v[0]);
        lemma_range(v[0]);
        assert forall|i: int| 0 <= i < head.len() implies 48 <= #[trigger] head[i] <= 58 by {
            match v[0] {
                Sequence::Single(a) => lemma_place(a),
                Sequence::Range(a, b) => {
                    lemma_place(a);
                    lemma_place(b);
                    let n = place_text(a).len() as int;
                    if i < n {
                        assert(head[i] == place_text(a)[i]);
                    } else if i > n {
                        assert(head[i] == place_text(b)[i - n - 1]);
                    }
                },
            }
        }
        if v.len() > 1 {
            let w = v.skip(1);
            assert forall|i: int| 0 <= i < w.len() implies match #[trigger] w[i] {
                Sequence::Single(a) => is_number(a),
                Sequence::Range(a, b) => is_number(a) && is_number(b),
            } by {
                assert(w[i] == v[i + 1]);
            }
            assert(is_closed_set(w));
            lemma_closed_is_set(w);
            lemma_set_bytes(w);
            let n = head.len() as int;
            assert forall|i: int| 0 <= i < t.len() implies #[trigger] t[i] == 44 || 48 <= t[i]
                <= 58 by {
                if i < n {
                    assert(t[i] == head[i]);
                } else if i > n {
                    assert(t[i] == set_text(w)[i - n - 1]);
                }
            }
        }
    }
}

/// More than one part: the first, the separator and the others.
pub proof fn lemma_joined_first<A>(parts: Seq<Seq<A>>, sep: Seq<A>)
    requires
        parts.len() > 0,
    ensures
        parts.len() == 1 ==> encode::joined(parts, sep) == parts[0],
        parts.len() > 1 ==> encode::joined(parts, sep) == parts[0] + (sep + encode::joined(
            parts.skip(1),
            sep,
        )),
{
    let rest = parts.skip(1);
    if parts.len() == 1 {
        assert(rest =~= seq![]);
        assert(encode::spread(rest, sep) =~= seq![]);
        assert(encode::joined(parts, sep) =~= parts[0]);
    } else {
        assert(encode::spread(rest, sep) =~= sep + encode::joined(rest, sep));
    }
}

/// A set is written as its text.
#[verifier::spinoff_prover]
proof fn lemma_set_joined(v: Seq<Sequence>, parts: Seq<Seq<u8>>)
    requires
        is_set(v),
        parts == v.map_values(|s: Sequence| range_text(s)),
    ensures
        encode::joined(parts, seq![44u8]) == set_text(v),
    decreases v.len(),
{
    let comma = seq![44u8];
    lemma_joined_first(parts, comma);
    assert(parts[0] == range_text(v[0]));
    if v.len() > 1 {
        let w = v.skip(1);
        assert forall|i: int| 0 <= i < w.len() implies match #[trigger] w[i] {
            Sequence::Single(a) => counts(a),
            Sequence::Range(a, b) => counts(a) && counts(b),
        } by {
            assert(w[i] == v[i + 1]);
        }
        assert(parts.skip(1) =~= w.map_values(|s: Sequence| range_text(s)));
        lemma_set_joined(w, parts.skip(1));
        encode::lemma_concat_assoc(range_text(v[0]), comma, set_text(w));
    }
}

pub proof fn lemma_set_tokens(v: Seq<Sequence>)
    requires
        is_set(v),
    ensures
        encode::flat(sequence::set_tokens(v)) == set_text(v),
        sequence::set_wf(v),
{
    assert forall|i: int| 0 <= i < v.len() implies sequence::sequence_wf(#[trigger] v[i]) by {}
    let tokens = encode::parts::<Sequence>(v);
    let parts = encode::flat_parts(tokens);
    reveal_strlit(",");
    assert(ascii::bytes_of(",") =~= seq![44u8]);
    encode::lemma_flat_joined(tokens, encode::word(","));
    encode::lemma_flat_word(",");
    assert forall|i: int| 0 <= i < v.len() implies #[trigger] parts[i] == range_text(v[i]) by {
        encode::lemma_flat_plain(sequence::sequence_text(v[i]));
        lemma_range(v[i]);
    }
    assert(parts =~= v.map_values(|s: Sequence| range_text(s)));
    lemma_set_joined(v, parts);
}

proof fn lemma_components(v: Seq<ComponentView>, depth: nat)
    requires
        most_levels(v) <= depth,
        forall|i: int| 0 <= i < v.len() ==> has_strings(#[trigger] v[i]),
    ensures
        forall|i: int| 0 <= i < v.len() ==> ext::component_wf(#[trigger] v[i], depth),
    decreases v,
{
    if v.len() > 0 {
        let w = v.drop_last();
        assert forall|i: int| 0 <= i < w.len() implies has_strings(#[trigger] w[i]) by {
            assert(w[i] == v[i]);
        }
        lemma_components(w, depth);
        lemma_component(v[v.len() - 1], depth);
        assert forall|i: int| 0 <= i < v.len() implies ext::component_wf(#[trigger] v[i], depth) by {
            if i < w.len() {
                assert(ext::component_wf(w[i], depth));
            }
        }
    }
}

proof fn lemma_component(c: ComponentView, depth: nat)
    requires
        levels(c) <= depth,
        has_strings(c),
    ensures
        ext::component_wf(c, depth),
    decreases c,
{
    if let ComponentView::List(v) = c {
        lemma_most_levels(v);
        lemma_components(v, (depth - 1) as nat);
    }
}

pub proof fn lemma_most_levels(v: Seq<ComponentView>)
    ensures
        most_levels(v) >= 1,
    decreases v.len(),
{
    if v.len() > 0 {
        lemma_most_levels(v.drop_last());
    }
}

pub proof fn lemma_value(v: ValueView)
    requires
        is_value(v),
    ensures
        ext::value_wf(v),
{
    match v {
        ValueView::Simple(b) => {
            if is_numeral(b) && number::digits_value(b) < 0x8000_0000_0000_0000 {
                lemma_numeral(b);
            } else {
                let s = choose|s: Seq<Sequence>| #[trigger] is_closed_set(s) && b == set_text(s);
                lemma_simple_set(s);
            }
        },
        ValueView::List(items) => {
            assert forall|i: int| 0 <= i < items.len() implies ext::component_wf(
                #[trigger] items[i],
                ext::COMPONENT_DEPTH as nat,
            ) by {
                lemma_component(items[i], 16);
            }
        },
    }
}

pub proof fn lemma_simple_set(s: Seq<Sequence>)
    requires
        is_closed_set(s),
    ensures
        strings::atom_wf(set_text(s)),
        sequence::sequence_set_of(set_text(s)) == Some(s),
        ext::is_simple_value(set_text(s)),
        !set_text(s).contains('*' as u8),
        !set_text(s).contains('$' as u8),
{
    let b = set_text(s);
    lemma_closed_is_set(s);
    lemma_set_parts(s);
    lemma_ranges(s);
    lemma_set_bytes(s);
    assert forall|i: int| 0 <= i < b.len() implies ascii::is_atom_char(#[trigger] b[i]) by {}
    if number::all_digits(b) {
        lemma_digits_are_one_number(s);
    }
}

/// The text of a set starts with no zero.
pub proof fn lemma_set_first_byte(s: Seq<Sequence>)
    requires
        is_closed_set(s),
    ensures
        set_text(s).len() > 0,
        set_text(s)[0] != 48,
{
    lemma_closed_is_set(s);
    lemma_set_parts(s);
    let a = match s[0] {
        Sequence::Single(a) => a,
        Sequence::Range(a, _) => a,
    };
    lemma_place(a);
    if let SeqOrUid::Value(v) = a {
        number::lemma_decimal(v as nat);
    }
    assert(range_text(s[0])[0] == place_text(a)[0]);
}

/// Where the text of a set is a numeral, it is one number.
pub proof fn lemma_set_is_numeral(s: Seq<Sequence>)
    requires
        is_closed_set(s),
    ensures
        is_numeral(set_text(s)) ==> number::digits_value(set_text(s)) < 0x1_0000_0000,
{
    lemma_numeral(set_text(s));
    if is_numeral(set_text(s)) {
        lemma_digits_are_one_number(s);
    }
}

/// A set of digits alone is one number.
proof fn lemma_digits_are_one_number(s: Seq<Sequence>)
    requires
        is_closed_set(s),
        number::all_digits(set_text(s)),
    ensures
        number::digits_value(set_text(s)) <= u32::MAX,
{
    let b = set_text(s);
    let class = |x: u8| ascii::is_digit(x);
    lemma_closed_is_set(s);
    lemma_range(s[0]);
    let n = range_text(s[0]).len() as int;
    if s.len() > 1 {
        assert(b[n] == 44);
        assert(class(b[n]));
    }
    match s[0] {
        Sequence::Single(a) => {
            if let SeqOrUid::Value(v) = a {
                number::lemma_decimal(v as nat);
            }
        },
        Sequence::Range(a, _) => {
            let k = place_text(a).len() as int;
            assert(b[k] == 58);
            assert(class(b[k]));
        },
    }
}

/// A word is read in whatever case its letters stand.
pub proof fn lemma_word_reads(b: Seq<u8>, w: &str, t: Seq<u8>)
    requires
        forall|i: int|
            0 <= i < w@.len() ==> raised((#[trigger] w@[i]) as u8) as char == w@[i],
        says(b, w@),
    ensures
        g::word(w)(b + t) == Outcome::Done(t, ()),
{
    lemma_says(b, w);
    assert((b + t).take(b.len() as int) =~= b);
    assert((b + t).skip(b.len() as int) =~= t);
}

/// A text of digits before something else.
proof fn lemma_digits_read(b: Seq<u8>, t: Seq<u8>)
    requires
        is_numeral(b),
        t.len() > 0,
        !(48 <= t[0] <= 57),
    ensures
        number::digits_rule()(b + t) == Outcome::Done(t, b),
{
    lemma_numeral(b);
    reading::lemma_take_while1_reads(|x: u8| ascii::is_digit(x), b, t);
}

// ------------------------------------------------------------------------ laws

/// Digits are read as the number that they stand for where it has at most 63
/// bits, and are refused where it has more; zero is refused where it has no
/// meaning.
pub proof fn law_numbers_have_63_bits(b: Seq<u8>, t: Seq<u8>)
    requires
        is_numeral(b),
        t.len() > 0,
        !(48 <= t[0] <= 57),
    ensures
        ({
            let n = number::digits_value(b);
            let small = n < 0x8000_0000_0000_0000;
            &&& small ==> ext::number63_rule()(b + t) == Outcome::Done(t, n as u64)
            &&& !small ==> ext::number63_rule()(b + t) is Reject
            &&& small && n > 0 ==> ext::nz_number63_rule()(b + t) == Outcome::Done(t, n as u64)
            &&& !small || n == 0 ==> ext::nz_number63_rule()(b + t) is Reject
            &&& small ==> modseq::mod_sequence_valzer_rule()(b + t) == Outcome::Done(t, n as u64)
            &&& !small ==> modseq::mod_sequence_valzer_rule()(b + t) is Reject
            &&& small && n > 0 ==> modseq::mod_sequence_value_rule()(b + t) == Outcome::Done(
                t,
                n as u64,
            )
            &&& !small || n == 0 ==> modseq::mod_sequence_value_rule()(b + t) is Reject
        }),
{
    lemma_digits_read(b, t);
    reveal(number::number64_rule);
    reveal(ext::number63_rule);
    reveal(ext::nz_number63_rule);
    reveal(modseq::mod_sequence_valzer_rule);
    reveal(modseq::mod_sequence_value_rule);
}

/// A dollar stands for the saved result of a search, whatever follows; numbers
/// and ranges stand for themselves, a star and a single number among them; and
/// nothing else is a set of messages.
pub proof fn law_message_sets(v: Seq<Sequence>, s: Seq<u8>, t: Seq<u8>)
    ensures
        ext::message_set_rule()(seq![36u8] + t) == Outcome::Done(t, MessageSetView::SearchResult),
        is_set(v) && t.len() > 0 && t[0] != 44 && !(48 <= t[0] <= 58) ==> ext::message_set_rule()(
            set_text(v) + t,
        ) == Outcome::Done(t, MessageSetView::SequenceSet(v)),
        s.len() > 0 && s[0] != 36 && s[0] != 42 && !(48 <= s[0] <= 57)
            ==> ext::message_set_rule()(s) is Reject,
{
    reveal(ext::message_set_rule);
    reveal_strlit("$");
    let dollar = ascii::bytes_of("$");
    assert(dollar =~= seq![36u8]);
    reading::lemma_tag_reads(dollar, t);
    if is_set(v) && t.len() > 0 && t[0] != 44 && !(48 <= t[0] <= 58) {
        let b = set_text(v);
        lemma_set_tokens(v);
        lemma_set_parts(v);
        lemma_range(v[0]);
        assert(range_text(v[0])[0] == 42 || 48 <= range_text(v[0])[0] <= 58);
        assert((b + t)[0] == b[0]);
        reading::lemma_tag_rejects(dollar, b + t);
        sequence::lemma_sequence_set_reads(v, t);
    }
    if s.len() > 0 && s[0] != 36 && s[0] != 42 && !(48 <= s[0] <= 57) {
        reading::lemma_tag_rejects(dollar, s);
        sequence::lemma_sequence_set_rejects(s);
    }
}

/// A word is read as a name exactly if it is one.
pub proof fn law_names(b: Seq<u8>, t: Seq<u8>)
    requires
        strings::atom_wf(b),
        reading::ends(t),
    ensures
        is_name(b) ==> ext::label_rule()(b + t) == Outcome::Done(t, b),
        !is_name(b) ==> ext::label_rule()(b + t) is Reject,
{
    lemma_name(b);
    strings::lemma_atom_reads(b);
    reveal(ext::label_rule);
}

/// A value is read as itself: a number of at most 63 bits, zeros in front of it
/// or not, a set that tells its bounds, a single number among them, and
/// components of up to sixteen levels.
pub proof fn law_values_are_read(v: ValueView, t: Seq<u8>)
    requires
        is_value(v),
        reading::ends(t),
    ensures
        ext::extension_value_rule()(encode::flat(ext::value_tokens(v)) + t) == Outcome::Done(t, v),
        v matches ValueView::Simple(b) ==> ext::extension_value_rule()(b + t) == Outcome::Done(
            t,
            v,
        ),
{
    lemma_value(v);
    ext::lemma_value_reads(v);
    if let ValueView::Simple(b) = v {
        encode::lemma_flat_plain(b);
    }
}

/// What is neither a list in parentheses nor a number nor a set of numbers is no
/// value: a number of more than 63 bits is none, nor a word with another byte.
pub proof fn law_other_words_are_no_values(b: Seq<u8>, t: Seq<u8>)
    requires
        strings::atom_wf(b),
        reading::ends(t),
    ensures
        is_numeral(b) && number::digits_value(b) >= 0x8000_0000_0000_0000
            ==> ext::extension_value_rule()(b + t) is Reject,
        is_name(b) ==> ext::extension_value_rule()(b + t) is Reject,
        !is_numeral(b) && sequence::sequence_set_of(b) is None ==> ext::extension_value_rule()(
            b + t,
        ) is Reject,
{
    lemma_name(b);
    lemma_numeral(b);
    strings::lemma_atom_reads(b);
    reveal(ext::extension_value_rule);
    reveal_strlit("(");
    assert((b + t)[0] == b[0]);
    assert(ascii::is_atom_char(b[0]));
    reading::lemma_tag_rejects(ascii::bytes_of("("), b + t);
    if is_name(b) {
        ext::lemma_label_is_no_value(b, t);
    }
}

proof fn lemma_deep_component(s: Seq<u8>, depth: nat)
    requires
        s.len() >= depth,
        forall|i: int| 0 <= i < depth ==> #[trigger] s[i] == 40,
    ensures
        ext::component_rule(depth)(s) is Abort,
    decreases depth,
{
    reveal_with_fuel(ext::component_rule, 1);
    if depth > 0 {
        reveal_strlit("(");
        let open = ascii::bytes_of("(");
        let r = s.skip(1);
        assert(s =~= open + r);
        reading::lemma_tag_reads(open, r);
        assert forall|i: int| 0 <= i < depth - 1 implies #[trigger] r[i] == 40 by {
            assert(r[i] == s[i + 1]);
        }
        lemma_deep_component(r, (depth - 1) as nat);
    }
}

/// More than sixteen levels are too many: a value with seventeen opening
/// parentheses in front ends the reading, whatever follows.
pub proof fn law_values_are_shallow(s: Seq<u8>)
    requires
        s.len() >= 17,
        forall|i: int| 0 <= i < 17 ==> #[trigger] s[i] == 40,
    ensures
        ext::extension_value_rule()(s) is Abort,
{
    reveal(ext::extension_value_rule);
    reveal_strlit("(");
    let open = ascii::bytes_of("(");
    let r = s.skip(1);
    assert(s[0] == 40);
    assert(s =~= open + r);
    reading::lemma_tag_reads(open, r);
    assert forall|i: int| 0 <= i < 16 implies #[trigger] r[i] == 40 by {
        assert(r[i] == s[i + 1]);
    }
    lemma_deep_component(r, 16);
}

// ------------------------------------------------------------------ whole texts

/// Parts with a byte between them.
pub open spec fn glued(parts: Seq<Seq<u8>>, b: u8) -> Seq<u8>
    decreases parts.len(),
{
    if parts.len() == 0 {
        seq![]
    } else if parts.len() == 1 {
        parts[0]
    } else {
        parts[0] + seq![b] + glued(parts.skip(1), b)
    }
}

proof fn lemma_glued(s: Seq<u8>, b: u8)
    ensures
        glued(sequence::split(s, b), b) == s,
    decreases s.len(),
{
    let parts = sequence::split(s, b);
    sequence::lemma_split_nonempty(s, b);
    if s.len() == 0 {
        assert(parts =~= seq![Seq::<u8>::empty()]);
        assert(glued(parts, b) =~= s);
    } else {
        let r = s.skip(1);
        let rest = sequence::split(r, b);
        lemma_glued(r, b);
        sequence::lemma_split_nonempty(r, b);
        if s[0] == b {
            assert(parts =~= seq![Seq::<u8>::empty()] + rest);
            assert(parts.skip(1) =~= rest);
            assert(glued(parts, b) =~= seq![b] + r);
            assert(s =~= seq![b] + r);
        } else {
            assert(parts =~= rest.update(0, seq![s[0]] + rest[0]));
            assert(parts.skip(1) =~= rest.skip(1));
            assert(glued(parts, b) =~= seq![s[0]] + glued(rest, b));
            assert(s =~= seq![s[0]] + r);
        }
    }
}

/// Digits that start with no zero are how their number is written.
proof fn lemma_canonical(d: Seq<u8>)
    requires
        is_numeral(d),
        d[0] != 48,
    ensures
        number::digits_value(d) > 0,
        number::decimal(number::digits_value(d)) == d,
    decreases d.len(),
{
    let e = d.drop_last();
    let x = (d.last() - 48) as nat;
    assert(48 <= d[d.len() - 1] <= 57);
    if d.len() == 1 {
        assert(e =~= seq![]);
        assert(number::digits_value(e) == 0);
        assert(number::decimal(x) =~= d);
    } else {
        assert forall|i: int| 0 <= i < e.len() implies 48 <= #[trigger] e[i] <= 57 by {
            assert(e[i] == d[i]);
        }
        assert(e[0] == d[0]);
        lemma_canonical(e);
        let n = number::digits_value(e);
        assert((10 * n + x) / 10 == n && (10 * n + x) % 10 == x);
        assert(number::decimal(10 * n + x) =~= d);
    }
}

proof fn lemma_place_of(s: Seq<u8>)
    ensures
        sequence::number_of(s) matches Some(n) ==> counts(n) && place_text(n) == s,
{
    reveal_strlit("*");
    assert(ascii::bytes_of("*") =~= seq![42u8]);
    if let Some(SeqOrUid::Value(v)) = sequence::number_of(s) {
        lemma_numeral(s);
        lemma_canonical(s);
    }
}

proof fn lemma_range_of(s: Seq<u8>)
    ensures
        sequence::sequence_of(s) matches Some(x) ==> range_text(x) == s && match x {
            Sequence::Single(a) => counts(a),
            Sequence::Range(a, b) => counts(a) && counts(b),
        },
{
    let parts = sequence::split(s, 58u8);
    lemma_glued(s, 58u8);
    if sequence::sequence_of(s) is Some {
        lemma_place_of(parts[0]);
        if parts.len() == 2 {
            lemma_place_of(parts[1]);
            assert(parts.skip(1) =~= seq![parts[1]]);
            assert(glued(parts.skip(1), 58u8) == parts[1]);
        }
    }
}

proof fn lemma_ranges_of(parts: Seq<Seq<u8>>)
    ensures
        sequence::sequences_of(parts) matches Some(v) ==> v.len() == parts.len() && forall|i: int|
            0 <= i < v.len() ==> sequence::sequence_of(#[trigger] parts[i]) == Some(v[i]),
    decreases parts.len(),
{
    if parts.len() > 0 {
        let init = parts.drop_last();
        lemma_ranges_of(init);
        if let Some(v) = sequence::sequences_of(parts) {
            let w = sequence::sequences_of(init)->Some_0;
            assert forall|i: int| 0 <= i < v.len() implies sequence::sequence_of(
                #[trigger] parts[i],
            ) == Some(v[i]) by {
                if i < init.len() {
                    assert(sequence::sequence_of(init[i]) == Some(w[i]));
                }
            }
        }
    }
}

proof fn lemma_set_glued(v: Seq<Sequence>, parts: Seq<Seq<u8>>)
    requires
        v.len() > 0,
        parts.len() == v.len(),
        forall|i: int| 0 <= i < v.len() ==> #[trigger] parts[i] == range_text(v[i]),
    ensures
        set_text(v) == glued(parts, 44u8),
    decreases v.len(),
{
    assert(parts[0] == range_text(v[0]));
    if v.len() > 1 {
        let w = v.skip(1);
        let rest = parts.skip(1);
        assert forall|i: int| 0 <= i < w.len() implies #[trigger] rest[i] == range_text(w[i]) by {
            assert(rest[i] == parts[i + 1]);
        }
        lemma_set_glued(w, rest);
    }
}

/// A text is a set exactly if it is how that set is written: numbers without
/// zeros in front, stars, ranges with a colon and commas between them.
pub proof fn law_set_texts(v: Seq<Sequence>, b: Seq<u8>)
    ensures
        is_set(v) ==> sequence::sequence_set_of(set_text(v)) == Some(v),
        sequence::sequence_set_of(b) matches Some(x) ==> is_set(x) && set_text(x) == b,
{
    if is_set(v) {
        lemma_set_parts(v);
        lemma_ranges(v);
    }
    if let Some(x) = sequence::sequence_set_of(b) {
        let parts = sequence::split(b, 44u8);
        lemma_glued(b, 44u8);
        sequence::lemma_split_nonempty(b, 44u8);
        lemma_ranges_of(parts);
        assert forall|i: int| 0 <= i < x.len() implies #[trigger] parts[i] == range_text(x[i]) by {
            lemma_range_of(parts[i]);
        }
        assert forall|i: int| 0 <= i < x.len() implies match #[trigger] x[i] {
            Sequence::Single(a) => counts(a),
            Sequence::Range(a, b) => counts(a) && counts(b),
        } by {
            lemma_range_of(parts[i]);
        }
        lemma_set_glued(x, parts);
    }
}

/// A word is a value exactly if it is a number of at most 63 bits or a set that
/// tells its bounds.
pub proof fn law_simple_values(b: Seq<u8>, t: Seq<u8>)
    requires
        strings::atom_wf(b),
        reading::ends(t),
    ensures
        is_value(ValueView::Simple(b)) ==> ext::extension_value_rule()(b + t) == Outcome::Done(
            t,
            ValueView::Simple(b),
        ),
        !is_value(ValueView::Simple(b)) ==> ext::extension_value_rule()(b + t) is Reject,
{
    lemma_numeral(b);
    if is_value(ValueView::Simple(b)) {
        law_values_are_read(ValueView::Simple(b), t);
    } else {
        law_other_words_are_no_values(b, t);
        law_set_texts(seq![], b);
        if let Some(x) = sequence::sequence_set_of(b) {
            if !is_numeral(b) {
                lemma_word_set_is_closed(x);
                assert(is_closed_set(x));
            }
        }
    }
}

/// A set whose text is a word has no star.
pub proof fn lemma_word_set_is_closed(v: Seq<Sequence>)
    requires
        is_set(v),
        strings::atom_wf(set_text(v)),
    ensures
        is_closed_set(v),
    decreases v.len(),
{
    let t = set_text(v);
    let class = |x: u8| ascii::is_atom_char(x);
    assert forall|i: int| 0 <= i < t.len() implies #[trigger] t[i] != 42 by {
        assert(class(t[i]));
    }
    let head = range_text(v[0]);
    lemma_range(v[0]);
    assert forall|i: int| 0 <= i < head.len() implies #[trigger] head[i] != 42 by {
        assert(t[i] == head[i]);
    }
    match v[0] {
        Sequence::Single(a) => {
            if a is Asterisk {
                assert(head[0] == 42);
            }
        },
        Sequence::Range(a, b) => {
            let n = place_text(a).len() as int;
            if a is Asterisk {
                assert(head[0] == 42);
            }
            if b is Asterisk {
                assert(head[n + 1] == 42);
            }
        },
    }
    if v.len() > 1 {
        let w = v.skip(1);
        assert forall|i: int| 0 <= i < w.len() implies match #[trigger] w[i] {
            Sequence::Single(a) => counts(a),
            Sequence::Range(a, b) => counts(a) && counts(b),
        } by {
            assert(w[i] == v[i + 1]);
        }
        let u = set_text(w);
        lemma_set_parts(w);
        assert forall|i: int| 0 <= i < u.len() implies ascii::is_atom_char(#[trigger] u[i]) by {
            assert(t[i + head.len() + 1] == u[i]);
            assert(class(t[i + head.len() + 1]));
        }
        lemma_word_set_is_closed(w);
        assert forall|i: int| 0 <= i < v.len() implies match #[trigger] v[i] {
            Sequence::Single(a) => is_number(a),
            Sequence::Range(a, b) => is_number(a) && is_number(b),
        } by {
            if i > 0 {
                assert(v[i] == w[i - 1]);
            }
        }
    }
}

/// Which bytes may stand in words: visible characters but for those that the
/// grammar keeps for itself. Strings may also have a closing bracket, patterns
/// also the wildcards, and tags no plus.
pub proof fn law_word_bytes(b: u8)
    ensures
        ascii::is_atom_char(b) <==> 33 <= b <= 126 && !"(){%*\"\\]"@.contains(b as char),
        ascii::is_astring_char(b) <==> 33 <= b <= 126 && !"(){%*\"\\"@.contains(b as char),
        ascii::is_list_char(b) <==> 33 <= b <= 126 && !"(){\"\\"@.contains(b as char),
        ascii::is_tag_char(b) <==> 33 <= b <= 126 && !"(){%*\"\\+"@.contains(b as char),
        ascii::upper(b) == raised(b),
{
    reveal_strlit("(){%*\"\\]");
    reveal_strlit("(){%*\"\\");
    reveal_strlit("(){\"\\");
    reveal_strlit("(){%*\"\\+");
    let x = b as char;
    let a = "(){%*\"\\]"@;
    let s = "(){%*\"\\"@;
    let l = "(){\"\\"@;
    let t = "(){%*\"\\+"@;
    assert(a[0] == '(' && a[1] == ')' && a[2] == '{' && a[3] == '%' && a[4] == '*' && a[5] == '"'
        && a[6] == '\\' && a[7] == ']');
    assert(s[0] == '(' && s[1] == ')' && s[2] == '{' && s[3] == '%' && s[4] == '*' && s[5] == '"'
        && s[6] == '\\');
    assert(l[0] == '(' && l[1] == ')' && l[2] == '{' && l[3] == '"' && l[4] == '\\');
    assert(t[0] == '(' && t[1] == ')' && t[2] == '{' && t[3] == '%' && t[4] == '*' && t[5] == '"'
        && t[6] == '\\' && t[7] == '+');
}

} // verus!
