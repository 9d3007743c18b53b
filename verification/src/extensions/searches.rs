//! What searches ask for and what their results tell, by the texts alone.
use vstd::prelude::*;

use crate::ascii;
use crate::command;
use crate::command::{BodyView, CommandView};
use crate::encode;
use crate::extensions::condstore_qresync as modseq;
use crate::extensions::condstore_qresync::{AttributeFlagView, EntryTypeReq};
use crate::extensions::rev2 as ext;
use crate::extensions::texts;
use crate::grammar as g;
use crate::grammar::Outcome;
use crate::number;
use crate::reading;
use crate::response;
use crate::response::{DataView, ResponseView};
use crate::rev2::{
    ComponentView, MessageSetView, SearchReturn, SearchReturnData, SearchReturnDataView, SearchReturnView, ValueView,
};
use crate::search;
use crate::search::KeyView;
use crate::sequence;
use crate::sequence::Sequence;
use crate::strings;
use crate::strings::StringView;

verus! {

// ------------------------------------------------------------------ definitions

/// What is written for a value.
pub open spec fn value_text(v: ValueView) -> Seq<u8> {
    match v {
        ValueView::Simple(b) => b,
        ValueView::List(_) => encode::flat(ext::value_tokens(v)),
    }
}

/// A number below 2^32.
pub open spec fn is_short(v: ValueView) -> bool {
    v matches ValueView::Simple(b) && texts::is_numeral(b) && number::digits_value(b)
        < 0x1_0000_0000
}

/// A number other than zero.
pub open spec fn is_positive(v: ValueView) -> bool {
    v matches ValueView::Simple(b) && texts::is_numeral(b) && number::digits_value(b) > 0
}

/// A set: several numbers, or one below 2^32 that starts with no zero.
pub open spec fn is_all(v: ValueView) -> bool {
    v matches ValueView::Simple(b) && (texts::is_numeral(b) ==> is_short(v) && b[0] != 48)
}

/// MIN and MAX tell a message, COUNT how many there are, ALL a set of messages
/// and MODSEQ a modification sequence. What other items tell is open.
pub open spec fn tells(d: SearchReturnDataView) -> bool {
    &&& texts::says(d.name, "MIN"@) ==> is_short(d.value) && is_positive(d.value)
    &&& texts::says(d.name, "MAX"@) ==> is_short(d.value) && is_positive(d.value)
    &&& texts::says(d.name, "COUNT"@) ==> is_short(d.value)
    &&& texts::says(d.name, "ALL"@) ==> is_all(d.value)
    &&& texts::says(d.name, "MODSEQ"@) ==> is_positive(d.value)
}

/// An item and its value, as they are written.
pub open spec fn item_text(d: SearchReturnDataView) -> Seq<u8> {
    d.name + seq![32u8] + value_text(d.value)
}

/// Items, each behind a space.
pub open spec fn items_text(v: Seq<SearchReturnDataView>) -> Seq<u8>
    decreases v.len(),
{
    if v.len() == 0 {
        seq![]
    } else {
        seq![32u8] + item_text(v[0]) + items_text(v.skip(1))
    }
}

/// The items of a response, none of which can be taken for the mark that the
/// numbers are unique identifiers.
pub open spec fn are_items(uid: bool, v: Seq<SearchReturnDataView>) -> bool {
    &&& forall|i: int|
        0 <= i < v.len() ==> texts::is_name((#[trigger] v[i]).name) && texts::is_value(v[i].value)
            && tells(v[i])
    &&& !uid && v.len() > 0 && v[0].name.len() >= 3 ==> !texts::says(v[0].name.take(3), "UID"@)
}

/// The tag of the search that a response is for.
pub open spec fn tag_text(tag: Option<StringView>) -> Seq<u8> {
    match tag {
        Some(t) => ascii::bytes_of(" (TAG ") + encode::flat(strings::string_tokens(t)) + seq![41u8],
        None => seq![],
    }
}

pub open spec fn uid_text(uid: bool) -> Seq<u8> {
    if uid {
        ascii::bytes_of(" UID")
    } else {
        seq![]
    }
}

// ---------------------------------------------------------------------- lemmas

/// The words of this grammar are in capitals.
#[verifier::spinoff_prover]
pub proof fn lemma_words()
    ensures
        forall|b: Seq<u8>|
            #![trigger texts::says(b, "MIN"@)]
            #![trigger ascii::same_word(b, ascii::bytes_of("MIN"))]
            texts::says(b, "MIN"@) <==> ascii::same_word(b, ascii::bytes_of("MIN")),
        forall|b: Seq<u8>|
            #![trigger texts::says(b, "MAX"@)]
            #![trigger ascii::same_word(b, ascii::bytes_of("MAX"))]
            texts::says(b, "MAX"@) <==> ascii::same_word(b, ascii::bytes_of("MAX")),
        forall|b: Seq<u8>|
            #![trigger texts::says(b, "ALL"@)]
            #![trigger ascii::same_word(b, ascii::bytes_of("ALL"))]
            texts::says(b, "ALL"@) <==> ascii::same_word(b, ascii::bytes_of("ALL")),
        forall|b: Seq<u8>|
            #![trigger texts::says(b, "COUNT"@)]
            #![trigger ascii::same_word(b, ascii::bytes_of("COUNT"))]
            texts::says(b, "COUNT"@) <==> ascii::same_word(b, ascii::bytes_of("COUNT")),
        forall|b: Seq<u8>|
            #![trigger texts::says(b, "SAVE"@)]
            #![trigger ascii::same_word(b, ascii::bytes_of("SAVE"))]
            texts::says(b, "SAVE"@) <==> ascii::same_word(b, ascii::bytes_of("SAVE")),
        forall|b: Seq<u8>|
            #![trigger texts::says(b, "MODSEQ"@)]
            #![trigger ascii::same_word(b, ascii::bytes_of("MODSEQ"))]
            texts::says(b, "MODSEQ"@) <==> ascii::same_word(b, ascii::bytes_of("MODSEQ")),
        forall|b: Seq<u8>|
            #![trigger texts::says(b, "UID"@)]
            #![trigger ascii::same_word(b, ascii::bytes_of("UID"))]
            texts::says(b, "UID"@) <==> ascii::same_word(b, ascii::bytes_of("UID")),
{
    reveal_strlit("MIN");
    reveal_strlit("MAX");
    reveal_strlit("ALL");
    reveal_strlit("COUNT");
    reveal_strlit("SAVE");
    reveal_strlit("MODSEQ");
    reveal_strlit("UID");
    assert forall|b: Seq<u8>|
        #![trigger texts::says(b, "MIN"@)]
        #![trigger ascii::same_word(b, ascii::bytes_of("MIN"))]
        texts::says(b, "MIN"@) <==> ascii::same_word(b, ascii::bytes_of("MIN")) by {
        texts::lemma_says(b, "MIN");
    }
    assert forall|b: Seq<u8>|
        #![trigger texts::says(b, "MAX"@)]
        #![trigger ascii::same_word(b, ascii::bytes_of("MAX"))]
        texts::says(b, "MAX"@) <==> ascii::same_word(b, ascii::bytes_of("MAX")) by {
        texts::lemma_says(b, "MAX");
    }
    assert forall|b: Seq<u8>|
        #![trigger texts::says(b, "ALL"@)]
        #![trigger ascii::same_word(b, ascii::bytes_of("ALL"))]
        texts::says(b, "ALL"@) <==> ascii::same_word(b, ascii::bytes_of("ALL")) by {
        texts::lemma_says(b, "ALL");
    }
    assert forall|b: Seq<u8>|
        #![trigger texts::says(b, "COUNT"@)]
        #![trigger ascii::same_word(b, ascii::bytes_of("COUNT"))]
        texts::says(b, "COUNT"@) <==> ascii::same_word(b, ascii::bytes_of("COUNT")) by {
        texts::lemma_says(b, "COUNT");
    }
    assert forall|b: Seq<u8>|
        #![trigger texts::says(b, "SAVE"@)]
        #![trigger ascii::same_word(b, ascii::bytes_of("SAVE"))]
        texts::says(b, "SAVE"@) <==> ascii::same_word(b, ascii::bytes_of("SAVE")) by {
        texts::lemma_says(b, "SAVE");
    }
    assert forall|b: Seq<u8>|
        #![trigger texts::says(b, "MODSEQ"@)]
        #![trigger ascii::same_word(b, ascii::bytes_of("MODSEQ"))]
        texts::says(b, "MODSEQ"@) <==> ascii::same_word(b, ascii::bytes_of("MODSEQ")) by {
        texts::lemma_says(b, "MODSEQ");
    }
    assert forall|b: Seq<u8>|
        #![trigger texts::says(b, "UID"@)]
        #![trigger ascii::same_word(b, ascii::bytes_of("UID"))]
        texts::says(b, "UID"@) <==> ascii::same_word(b, ascii::bytes_of("UID")) by {
        texts::lemma_says(b, "UID");
    }
}

/// A numeral is a set where it is below 2^32 and starts with no zero.
proof fn lemma_numeral_set(b: Seq<u8>)
    requires
        texts::is_numeral(b),
    ensures
        sequence::sequence_set_of(b) is Some <==> b[0] != 48 && number::digits_value(b)
            < 0x1_0000_0000,
        !b.contains('*' as u8),
        !b.contains('$' as u8),
        number::all_digits(b),
{
    reveal_strlit("*");
    let n = b.len() as int;
    sequence::lemma_split_at(b, 44u8, n);
    sequence::lemma_split_at(b, 58u8, n);
    let parts = seq![b];
    assert(sequence::split(b, ',' as u8) =~= parts);
    assert(sequence::split(b, ':' as u8) =~= parts);
    assert(parts.drop_last() =~= seq![]);
    assert(sequence::sequences_of(parts.drop_last()) == Some(Seq::<Sequence>::empty()));
    assert(parts.last() == b);
    assert(b[0] != 42);
}

/// What an item may tell is what the reader checks.
#[verifier::spinoff_prover]
pub proof fn lemma_tells(d: SearchReturnDataView)
    requires
        texts::is_value(d.value),
    ensures
        tells(d) <==> ext::search_data_ok(d),
{
    lemma_words();
    lemma_different_words(d.name);
    if let ValueView::Simple(b) = d.value {
        texts::lemma_numeral(b);
        if texts::is_numeral(b) {
            lemma_numeral_set(b);
        }
        if !(texts::is_numeral(b) && number::digits_value(b) < 0x8000_0000_0000_0000) {
            let s = choose|s: Seq<Sequence>|
                #[trigger] texts::is_closed_set(s) && b == texts::set_text(s);
            texts::lemma_simple_set(s);
            texts::lemma_set_is_numeral(s);
            assert(b.len() > 0);
        }
    }
}

/// No text is two of the words.
pub proof fn lemma_different_words(b: Seq<u8>)
    ensures
        texts::says(b, "MIN"@) ==> !texts::says(b, "MAX"@),
        texts::says(b, "MIN"@) || texts::says(b, "MAX"@) ==> !texts::says(b, "ALL"@),
        texts::says(b, "MIN"@) || texts::says(b, "MAX"@) || texts::says(b, "ALL"@)
            ==> !texts::says(b, "COUNT"@) && !texts::says(b, "MODSEQ"@) && !texts::says(
            b,
            "SAVE"@,
        ),
        texts::says(b, "COUNT"@) ==> !texts::says(b, "MODSEQ"@) && !texts::says(b, "SAVE"@),
{
    reveal_strlit("MIN");
    reveal_strlit("MAX");
    reveal_strlit("ALL");
    reveal_strlit("COUNT");
    reveal_strlit("SAVE");
    reveal_strlit("MODSEQ");
    if b.len() == 3 {
        let first = texts::raised(b[0]) as char;
        let second = texts::raised(b[1]) as char;
        assert(first == 'M' || first != 'M');
        assert(second == 'I' || second != 'I');
    }
}

/// A name, a space and a value are read as such.
proof fn lemma_item_reads(d: SearchReturnDataView, t: Seq<u8>)
    requires
        texts::is_name(d.name),
        texts::is_value(d.value),
        reading::ends(t),
    ensures
        g::pair(g::terminated(ext::label_rule(), g::text(" ")), ext::extension_value_rule())(
            item_text(d) + t,
        ) == Outcome::Done(t, (d.name, d.value)),
{
    reveal_strlit(" ");
    let space = ascii::bytes_of(" ");
    let b = value_text(d.value);
    let rest = space + (b + t);
    assert(space =~= seq![32u8]);
    assert(item_text(d) + t =~= d.name + rest);
    assert(rest[0] == 0x20);
    texts::lemma_name(d.name);
    ext::lemma_label_is_no_value(d.name, rest);
    texts::law_names(d.name, rest);
    reading::lemma_tag_reads(space, b + t);
    texts::law_values_are_read(d.value, t);
}

proof fn lemma_items(uid: bool, v: Seq<SearchReturnDataView>)
    requires
        are_items(uid, v),
    ensures
        ext::esearch_wf(None, uid, v),
        items_text(v) == encode::spread(
            encode::flat_parts(encode::parts::<SearchReturnData>(v)),
            ascii::bytes_of(" "),
        ),
{
    lemma_words();
    assert forall|i: int| 0 <= i < v.len() implies ext::search_data_wf(#[trigger] v[i]) by {
        texts::lemma_name(v[i].name);
        texts::lemma_value(v[i].value);
        lemma_tells(v[i]);
    }
    lemma_items_text(v);
}

proof fn lemma_items_text(v: Seq<SearchReturnDataView>)
    ensures
        items_text(v) == encode::spread(
            encode::flat_parts(encode::parts::<SearchReturnData>(v)),
            ascii::bytes_of(" "),
        ),
    decreases v.len(),
{
    reveal_strlit(" ");
    let space = ascii::bytes_of(" ");
    assert(space =~= seq![32u8]);
    let tokens = encode::parts::<SearchReturnData>(v);
    let parts = encode::flat_parts(tokens);
    if v.len() > 0 {
        let w = v.skip(1);
        lemma_items_text(w);
        assert(tokens.skip(1) =~= encode::parts::<SearchReturnData>(w));
        assert(parts.skip(1) =~= encode::flat_parts(encode::parts::<SearchReturnData>(w)));
        let d = v[0];
        encode::lemma_flat_add(
            encode::plain(d.name) + encode::word(" "),
            ext::value_tokens(d.value),
        );
        encode::lemma_flat_add(encode::plain(d.name), encode::word(" "));
        encode::lemma_flat_plain(d.name);
        encode::lemma_flat_word(" ");
        if let ValueView::Simple(b) = d.value {
            encode::lemma_flat_plain(b);
        }
        assert(parts[0] == item_text(d));
    }
}

// ------------------------------------------------------------------------ laws

/// An item of a search result is taken exactly if its value is what its name
/// calls for. A set of numbers is what ALL calls for, one number included.
pub proof fn law_items_tell_what_they_are_for(d: SearchReturnDataView, t: Seq<u8>)
    requires
        texts::is_name(d.name),
        texts::is_value(d.value),
        reading::ends(t),
    ensures
        tells(d) ==> ext::search_data_rule()(item_text(d) + t) == Outcome::Done(t, d),
        !tells(d) ==> ext::search_data_rule()(item_text(d) + t) is Reject,
{
    lemma_item_reads(d, t);
    lemma_tells(d);
    reveal(ext::search_data_rule);
}

/// A search result is read as the tag, the mark and the items that its text
/// tells, whatever stands behind the line.
#[verifier::spinoff_prover]
pub proof fn law_search_results_are_read(
    tag: Option<StringView>,
    uid: bool,
    items: Seq<SearchReturnDataView>,
    rest: Seq<u8>,
)
    requires
        tag matches Some(x) ==> strings::string_wf(x),
        are_items(uid, items),
    ensures
        ext::esearch_rule()(
            ascii::bytes_of("ESEARCH") + tag_text(tag) + uid_text(uid) + items_text(items)
                + seq![13u8, 10u8] + rest,
        ) == Outcome::Done(seq![13u8, 10u8] + rest, DataView::ESearch { tag, uid, items }),
        response::response_rule()(
            ascii::bytes_of("* ESEARCH") + tag_text(tag) + uid_text(uid) + items_text(items)
                + seq![13u8, 10u8] + rest,
        ) == Outcome::Done(rest, ResponseView::Data(DataView::ESearch { tag, uid, items })),
{
    let crlf = seq![13u8, 10u8];
    let r = ResponseView::Data(DataView::ESearch { tag, uid, items });
    let a = tag_text(tag);
    let b = uid_text(uid);
    let c = items_text(items);
    let w = ascii::bytes_of("ESEARCH");
    let star = ascii::bytes_of("* ");
    lemma_items(uid, items);
    lemma_result_text(tag, uid, items);
    assert((crlf + rest)[0] == 13);
    ext::lemma_esearch_reads(tag, uid, items, crlf + rest);
    response::law_response_is_read_back(r, rest);
    lemma_result_groups(star, w, a, b, c, rest);
    assert(ascii::bytes_of("* ESEARCH") == star + w) by {
        reveal_strlit("* ESEARCH");
        reveal_strlit("* ");
        reveal_strlit("ESEARCH");
        assert(ascii::bytes_of("* ESEARCH") =~= star + w);
    }
}

proof fn lemma_result_text(tag: Option<StringView>, uid: bool, items: Seq<SearchReturnDataView>)
    ensures
        ({
            let all = tag_text(tag) + uid_text(uid) + items_text(items);
            let r = ResponseView::Data(DataView::ESearch { tag, uid, items });
            &&& ext::esearch_tail(tag, uid, items) == all
            &&& encode::flat(response::response_tokens(r)) == (ascii::bytes_of("* ") + (
            ascii::bytes_of("ESEARCH") + all)) + seq![13u8, 10u8]
        }),
{
    let r = ResponseView::Data(DataView::ESearch { tag, uid, items });
    lemma_items_text(items);
    reveal_strlit(")");
    assert(ascii::bytes_of(")") =~= seq![41u8]);
    assert(ext::esearch_tail(tag, uid, items) == tag_text(tag) + uid_text(uid) + items_text(
        items,
    ));
    ext::lemma_esearch_text(tag, uid, items);
    encode::lemma_flat_add(response::line_tokens(r), encode::word("\r\n"));
    encode::lemma_flat_word("\r\n");
    reveal_strlit("\r\n");
    assert(ascii::bytes_of("\r\n") =~= seq![13u8, 10u8]);
}

proof fn lemma_result_groups(
    star: Seq<u8>,
    w: Seq<u8>,
    a: Seq<u8>,
    b: Seq<u8>,
    c: Seq<u8>,
    rest: Seq<u8>,
)
    ensures
        w + a + b + c + seq![13u8, 10u8] + rest == w + (a + b + c) + (seq![13u8, 10u8] + rest),
        (star + w) + a + b + c + seq![13u8, 10u8] + rest == (star + (w + (a + b + c))) + seq![
            13u8,
            10u8,
        ] + rest,
{
    let crlf = seq![13u8, 10u8];
    assert(w + a + b + c + crlf + rest =~= w + (a + b + c) + (crlf + rest));
    assert((star + w) + a + b + c =~= star + (w + (a + b + c)));
}

/// For every set of numbers, one number included, the text ESEARCH ALL and the
/// set is read as the item ALL with that set.
#[verifier::spinoff_prover]
pub proof fn law_all_is_any_set_of_numbers(v: Seq<Sequence>, rest: Seq<u8>)
    requires
        texts::is_closed_set(v),
    ensures
        ({
            let set = texts::set_text(v);
            let item = SearchReturnDataView {
                name: ascii::bytes_of("ALL"),
                value: ValueView::Simple(set),
            };
            &&& sequence::sequence_set_of(set) == Some(v)
            &&& response::response_rule()(
                ascii::bytes_of("* ESEARCH ALL ") + set + seq![13u8, 10u8] + rest,
            ) == Outcome::Done(
                rest,
                ResponseView::Data(
                    DataView::ESearch { tag: None, uid: false, items: seq![item] },
                ),
            )
        }),
{
    let set = texts::set_text(v);
    let name = ascii::bytes_of("ALL");
    let item = SearchReturnDataView { name, value: ValueView::Simple(set) };
    let items = seq![item];
    reveal_strlit("ALL");
    reveal_strlit("UID");
    reveal_strlit("MIN");
    reveal_strlit("MAX");
    reveal_strlit("COUNT");
    reveal_strlit("MODSEQ");
    texts::lemma_simple_set(v);
    texts::lemma_set_is_numeral(v);
    texts::lemma_set_first_byte(v);
    assert(texts::says(name, "ALL"@));
    lemma_different_words(name);
    assert(tells(item));
    assert(name.take(3)[0] == 'A' as u8);
    assert(!texts::says(name.take(3), "UID"@));
    assert(texts::is_value(item.value));
    assert(texts::is_name(name));
    law_search_results_are_read(None, false, items, rest);
    assert(items.skip(1) =~= seq![]);
    assert(items_text(items.skip(1)) =~= seq![]);
    assert(ascii::bytes_of("* ESEARCH ALL ") + set =~= ascii::bytes_of("* ESEARCH") + tag_text(None)
        + uid_text(false) + items_text(items)) by {
        reveal_strlit("* ESEARCH ALL ");
        reveal_strlit("* ESEARCH");
    }
}

/// What a return option asks for, by its name and its parameters: an option
/// with parameters is an extension, whatever its name.
pub open spec fn asks(name: Seq<u8>, parameters: Option<ValueView>, v: SearchReturnView) -> bool {
    if parameters is Some {
        v == SearchReturnView::Extension { name, parameters }
    } else {
        match v {
            SearchReturnView::Min => texts::says(name, "MIN"@),
            SearchReturnView::Max => texts::says(name, "MAX"@),
            SearchReturnView::All => texts::says(name, "ALL"@),
            SearchReturnView::Count => texts::says(name, "COUNT"@),
            SearchReturnView::Save => texts::says(name, "SAVE"@),
            SearchReturnView::Extension { name: n, parameters: p } => {
                &&& n == name
                &&& p is None
                &&& !texts::says(name, "MIN"@)
                &&& !texts::says(name, "MAX"@)
                &&& !texts::says(name, "ALL"@)
                &&& !texts::says(name, "COUNT"@)
                &&& !texts::says(name, "SAVE"@)
            },
        }
    }
}

/// An option, with or without parameters, as it is written.
pub open spec fn option_text(name: Seq<u8>, parameters: Option<ValueView>) -> Seq<u8> {
    match parameters {
        Some(v) => name + seq![32u8] + value_text(v),
        None => name,
    }
}

pub proof fn lemma_option_text(name: Seq<u8>, parameters: Option<ValueView>)
    ensures
        option_text(name, parameters) == encode::flat(ext::option_tokens(name, parameters)),
{
    reveal_strlit(" ");
    assert(ascii::bytes_of(" ") =~= seq![32u8]);
    encode::lemma_flat_plain(name);
    encode::lemma_flat_word(" ");
    match parameters {
        Some(v) => {
            encode::lemma_flat_add(encode::plain(name), encode::word(" ") + ext::value_tokens(v));
            encode::lemma_flat_add(encode::word(" "), ext::value_tokens(v));
            if let ValueView::Simple(b) = v {
                encode::lemma_flat_plain(b);
            }
            encode::lemma_concat_assoc(name, seq![32u8], value_text(v));
        },
        None => {
            encode::lemma_concat_empty(encode::plain(name));
        },
    }
}

/// What stands behind an option: the end of the list or another option.
pub open spec fn behind_option(t: Seq<u8>) -> bool {
    ||| t.len() > 0 && t[0] == 41
    ||| exists|name: Seq<u8>, r: Seq<u8>|
        #[trigger] texts::is_name(name) && reading::ends(r) && t == seq![32u8] + #[trigger] (name
            + r)
}

pub proof fn lemma_behind_option(t: Seq<u8>)
    requires
        behind_option(t),
    ensures
        ext::option_follow(t),
{
    if !(t.len() > 0 && t[0] == 41) {
        let (name, r) = choose|name: Seq<u8>, r: Seq<u8>|
            #[trigger] texts::is_name(name) && reading::ends(r) && t == seq![32u8] + #[trigger] (
            name + r);
        texts::lemma_name(name);
        ext::lemma_label_is_no_value(name, r);
        assert(t.skip(1) =~= name + r);
        assert(t[1] == name[0]);
    }
}

/// A return option of a search is read as what its name asks for, in any case of
/// its letters; parameters make it an extension.
pub proof fn law_search_options(
    name: Seq<u8>,
    parameters: Option<ValueView>,
    v: SearchReturnView,
    t: Seq<u8>,
)
    requires
        texts::is_name(name),
        parameters matches Some(p) ==> texts::is_value(p),
        asks(name, parameters, v),
        behind_option(t),
    ensures
        ext::search_return_rule()(option_text(name, parameters) + t) == Outcome::Done(t, v),
{
    lemma_words();
    lemma_different_words(name);
    lemma_option_text(name, parameters);
    texts::lemma_name(name);
    lemma_behind_option(t);
    if let Some(p) = parameters {
        texts::lemma_value(p);
    }
    ext::lemma_option_reads(name, parameters, t);
    reveal(ext::search_return_rule);
}

/// An option that can stand in the list of a search.
pub open spec fn is_option(v: SearchReturnView) -> bool {
    v matches SearchReturnView::Extension { name, parameters } ==> texts::is_name(name) && (
    parameters matches Some(p) ==> texts::is_value(p)) && asks(name, parameters, v)
}

/// How an option is written.
pub open spec fn asking_text(v: SearchReturnView) -> Seq<u8> {
    match v {
        SearchReturnView::Min => ascii::bytes_of("MIN"),
        SearchReturnView::Max => ascii::bytes_of("MAX"),
        SearchReturnView::All => ascii::bytes_of("ALL"),
        SearchReturnView::Count => ascii::bytes_of("COUNT"),
        SearchReturnView::Save => ascii::bytes_of("SAVE"),
        SearchReturnView::Extension { name, parameters } => option_text(name, parameters),
    }
}

/// Texts with spaces between them.
pub open spec fn spaced(v: Seq<Seq<u8>>) -> Seq<u8>
    decreases v.len(),
{
    if v.len() == 0 {
        seq![]
    } else if v.len() == 1 {
        v[0]
    } else {
        v[0] + seq![32u8] + spaced(v.skip(1))
    }
}

pub proof fn lemma_spaced(v: Seq<Seq<u8>>)
    ensures
        spaced(v) == encode::joined(v, ascii::bytes_of(" ")),
    decreases v.len(),
{
    reveal_strlit(" ");
    let space = ascii::bytes_of(" ");
    assert(space =~= seq![32u8]);
    if v.len() > 0 {
        texts::lemma_joined_first(v, space);
        if v.len() > 1 {
            lemma_spaced(v.skip(1));
            encode::lemma_concat_assoc(v[0], space, spaced(v.skip(1)));
        }
    }
}

/// Charset of a search, as it is written.
pub open spec fn charset_text(charset: Option<StringView>) -> Seq<u8> {
    match charset {
        Some(c) => ascii::bytes_of(" CHARSET ") + encode::flat(strings::string_tokens(c)),
        None => seq![],
    }
}

proof fn lemma_asking(v: SearchReturnView)
    requires
        is_option(v),
    ensures
        ext::search_return_wf(v),
        asking_text(v) == encode::flat(ext::search_return_tokens(v)),
{
    encode::lemma_flat_word("MIN");
    encode::lemma_flat_word("MAX");
    encode::lemma_flat_word("ALL");
    encode::lemma_flat_word("COUNT");
    encode::lemma_flat_word("SAVE");
    if let SearchReturnView::Extension { name, parameters } = v {
        lemma_words();
        texts::lemma_name(name);
        if let Some(p) = parameters {
            texts::lemma_value(p);
        }
        lemma_option_text(name, parameters);
    } else {
        ext::lemma_known_search_returns(v);
    }
}

/// A search with return options is read as the options, the charset and the keys
/// that its text tells, of messages or, behind UID, of unique identifiers.
#[verifier::spinoff_prover]
pub proof fn law_extended_searches_are_read(
    tag: Seq<u8>,
    options: Seq<SearchReturnView>,
    charset: Option<StringView>,
    criteria: Seq<KeyView>,
    uid: bool,
    rest: Seq<u8>,
)
    requires
        tag.len() > 0,
        forall|i: int| 0 <= i < tag.len() ==> ascii::is_tag_char(#[trigger] tag[i]),
        forall|i: int| 0 <= i < options.len() ==> is_option(#[trigger] options[i]),
        ext::charset_wf(charset),
        search::criteria_wf(criteria),
    ensures
        command::command_rule()(
            tag + (if uid {
                ascii::bytes_of(" UID SEARCH RETURN (")
            } else {
                ascii::bytes_of(" SEARCH RETURN (")
            }) + spaced(options.map_values(|v: SearchReturnView| asking_text(v))) + seq![41u8]
                + charset_text(charset) + seq![32u8] + encode::flat(
                search::criteria_tokens(criteria),
            ) + seq![13u8, 10u8] + rest,
        ) == Outcome::Done(
            rest,
            CommandView {
                tag,
                body: BodyView::SearchExtended { return_options: options, charset, criteria, uid },
            },
        ),
{
    let body = BodyView::SearchExtended { return_options: options, charset, criteria, uid };
    let c = CommandView { tag, body };
    let written = options.map_values(|v: SearchReturnView| asking_text(v));
    let tokens = encode::parts::<SearchReturn>(options);
    assert forall|i: int| 0 <= i < options.len() implies ext::search_return_wf(
        #[trigger] options[i],
    ) by {
        lemma_asking(options[i]);
    }
    assert forall|i: int| 0 <= i < options.len() implies #[trigger] written[i] == encode::flat_parts(
        tokens,
    )[i] by {
        lemma_asking(options[i]);
    }
    assert(written =~= encode::flat_parts(tokens));
    lemma_spaced(written);
    command::law_command_is_read_back(c, rest);
    lemma_search_line(tag, options, charset, criteria, uid, rest);
}

#[verifier::spinoff_prover]
proof fn lemma_search_line(
    tag: Seq<u8>,
    options: Seq<SearchReturnView>,
    charset: Option<StringView>,
    criteria: Seq<KeyView>,
    uid: bool,
    rest: Seq<u8>,
)
    ensures
        ({
            let body = BodyView::SearchExtended { return_options: options, charset, criteria, uid };
            let list = encode::joined(
                encode::flat_parts(encode::parts::<SearchReturn>(options)),
                ascii::bytes_of(" "),
            );
            encode::flat(command::command_tokens(CommandView { tag, body })) + rest == tag + (
            if uid {
                ascii::bytes_of(" UID SEARCH RETURN (")
            } else {
                ascii::bytes_of(" SEARCH RETURN (")
            }) + list + seq![41u8] + charset_text(charset) + seq![32u8] + encode::flat(
                search::criteria_tokens(criteria),
            ) + seq![13u8, 10u8] + rest
        }),
{
    let tokens = encode::parts::<SearchReturn>(options);
    let list = encode::joined(tokens, encode::word(" "));
    let u = ext::uid_tokens(uid);
    let head = encode::word("SEARCH RETURN (");
    let cs = ext::charset_tokens(charset);
    let keys = search::criteria_tokens(criteria);
    let all = ext::extended_search_tokens(options, charset, criteria, uid);
    let close = encode::word(")");
    let space = encode::word(" ");
    let crlf = encode::word("\r\n");
    encode::lemma_flat_joined(tokens, space);
    encode::lemma_flat_word("SEARCH RETURN (");
    encode::lemma_flat_word("UID ");
    encode::lemma_flat_word(" CHARSET ");
    encode::lemma_flat_word(")");
    encode::lemma_flat_word(" ");
    encode::lemma_flat_word("\r\n");
    encode::lemma_flat_plain(tag);
    if let Some(x) = charset {
        encode::lemma_flat_add(encode::word(" CHARSET "), strings::string_tokens(x));
    }
    encode::lemma_flat_add(u, head);
    encode::lemma_flat_add(u + head, list);
    encode::lemma_flat_add(u + head + list, close);
    encode::lemma_flat_add(u + head + list + close, cs);
    encode::lemma_flat_add(u + head + list + close + cs, space);
    encode::lemma_flat_add(u + head + list + close + cs + space, keys);
    encode::lemma_flat_add(encode::plain(tag), space);
    encode::lemma_flat_add(encode::plain(tag) + space, all);
    encode::lemma_flat_add(encode::plain(tag) + space + all, crlf);
    reveal_strlit("SEARCH RETURN (");
    reveal_strlit(" SEARCH RETURN (");
    reveal_strlit(" UID SEARCH RETURN (");
    reveal_strlit("UID ");
    reveal_strlit(")");
    reveal_strlit(" ");
    reveal_strlit("\r\n");
    let sp = ascii::bytes_of(" ");
    let h = ascii::bytes_of("SEARCH RETURN (");
    let uu = if uid {
        ascii::bytes_of("UID ")
    } else {
        seq![]
    };
    let start = if uid {
        ascii::bytes_of(" UID SEARCH RETURN (")
    } else {
        ascii::bytes_of(" SEARCH RETURN (")
    };
    assert(start =~= sp + (uu + h));
    assert(encode::flat(u) =~= uu);
    assert(ascii::bytes_of(")") =~= seq![41u8]);
    assert(sp =~= seq![32u8]);
    assert(ascii::bytes_of("\r\n") =~= seq![13u8, 10u8]);
    let l = encode::joined(encode::flat_parts(tokens), sp);
    let k = encode::flat(keys);
    lemma_regroup(tag, sp, uu, h, l, charset_text(charset), k, rest);
}

proof fn lemma_regroup(
    a: Seq<u8>,
    b: Seq<u8>,
    c: Seq<u8>,
    d: Seq<u8>,
    e: Seq<u8>,
    f: Seq<u8>,
    k: Seq<u8>,
    rest: Seq<u8>,
)
    ensures
        a + b + (c + d + e + seq![41u8] + f + seq![32u8] + k) + seq![13u8, 10u8] + rest == a + (b
            + (c + d)) + e + seq![41u8] + f + seq![32u8] + k + seq![13u8, 10u8] + rest,
{
    let x = a + b + (c + d + e + seq![41u8] + f + seq![32u8] + k);
    let y = a + (b + (c + d)) + e + seq![41u8] + f + seq![32u8] + k;
    assert(x =~= y);
}

/// A text that a word is read in lower case as well.
proof fn lemma_lower_word(b: Seq<u8>, up: &str, low: &str, t: Seq<u8>)
    requires
        forall|i: int|
            0 <= i < up@.len() ==> texts::raised((#[trigger] up@[i]) as u8) as char == up@[i],
        up@.len() == low@.len(),
        forall|i: int|
            0 <= i < low@.len() ==> ascii::upper((#[trigger] low@[i]) as u8) == ascii::upper(
                up@[i] as u8,
            ),
        texts::says(b, up@),
    ensures
        g::word(low)(b + t) == Outcome::Done(t, ()),
{
    texts::lemma_says(b, up);
    let x = ascii::bytes_of(up);
    let y = ascii::bytes_of(low);
    assert(ascii::uppercase(x) =~= ascii::uppercase(y)) by {
        assert forall|i: int| 0 <= i < x.len() implies ascii::uppercase(x)[i] == ascii::uppercase(
            y,
        )[i] by {
            assert(y[i] == low@[i] as u8);
            assert(x[i] == up@[i] as u8);
        }
    }
    assert((b + t).take(b.len() as int) =~= b);
    assert((b + t).skip(b.len() as int) =~= t);
}

/// The word for which items a search looks at.
pub open spec fn says_kind(b: Seq<u8>, kind: EntryTypeReq) -> bool {
    match kind {
        EntryTypeReq::Private => texts::says(b, "PRIV"@),
        EntryTypeReq::Shared => texts::says(b, "SHARED"@),
        EntryTypeReq::All => texts::says(b, "ALL"@),
    }
}

/// A flag as it stands in a quoted text, where a backslash is doubled.
pub open spec fn flag_text(flag: AttributeFlagView) -> Seq<u8> {
    match flag {
        AttributeFlagView::System(b) => seq![92u8, 92u8] + b,
        AttributeFlagView::Keyword(b) => b,
    }
}

pub open spec fn flag_name(flag: AttributeFlagView) -> Seq<u8> {
    match flag {
        AttributeFlagView::System(b) => b,
        AttributeFlagView::Keyword(b) => b,
    }
}

/// Which items a search looks at is told by one of three words, in any case.
pub proof fn law_entry_types(b: Seq<u8>, kind: EntryTypeReq, t: Seq<u8>)
    requires
        says_kind(b, kind),
    ensures
        modseq::entry_type_req_rule()(b + t) == Outcome::Done(t, kind),
{
    reveal(modseq::entry_type_req_rule);
    reveal_strlit("PRIV");
    reveal_strlit("SHARED");
    reveal_strlit("ALL");
    reveal_strlit("priv");
    reveal_strlit("shared");
    reveal_strlit("all");
    let s = b + t;
    assert(s[0] == b[0]);
    assert(texts::raised(b[0]) as char == 'P' || texts::raised(b[0]) as char == 'S' || texts::raised(
        b[0],
    ) as char == 'A');
    match kind {
        EntryTypeReq::Private => lemma_lower_word(b, "PRIV", "priv", t),
        EntryTypeReq::Shared => {
            lemma_lower_word(b, "SHARED", "shared", t);
            reading::lemma_tag_no_case_rejects(ascii::bytes_of("priv"), s, 0);
        },
        EntryTypeReq::All => {
            lemma_lower_word(b, "ALL", "all", t);
            reading::lemma_tag_no_case_rejects(ascii::bytes_of("priv"), s, 0);
            reading::lemma_tag_no_case_rejects(ascii::bytes_of("shared"), s, 0);
        },
    }
}

/// The flag of an entry is told by its name, behind two backslashes where it is
/// one of the system. The flag for recent messages is none of them, in whatever
/// case; a keyword of that name is.
pub proof fn law_entry_flags(flag: AttributeFlagView, t: Seq<u8>)
    requires
        strings::atom_wf(flag_name(flag)),
        t.len() > 0,
        t[0] == 34,
    ensures
        flag is Keyword || !texts::says(flag_name(flag), "RECENT"@)
            ==> modseq::attr_flag_rule()(flag_text(flag) + t) == Outcome::Done(t, flag),
        flag is System && texts::says(flag_name(flag), "RECENT"@) ==> modseq::attr_flag_rule()(
            flag_text(flag) + t,
        ) is Reject,
{
    let n = flag_name(flag);
    let s = flag_text(flag) + t;
    reveal(modseq::attr_flag_rule);
    reveal(modseq::is_attr_flag);
    reveal(strings::atom_rule);
    reveal_strlit("RECENT");
    reveal_strlit("\\\\");
    let bs = ascii::bytes_of("\\\\");
    assert(bs =~= seq![92u8, 92u8]);
    texts::lemma_says(n, "RECENT");
    reading::lemma_take_while1_reads(|x: u8| ascii::is_atom_char(x), n, t);
    assert(ascii::is_atom_char(n[0]));
    match flag {
        AttributeFlagView::System(b) => {
            assert(s =~= bs + (b + t));
            reading::lemma_tag_reads(bs, b + t);
            assert(s[0] == 92);
            reading::lemma_take_while1_rejects(|x: u8| ascii::is_atom_char(x), s);
        },
        AttributeFlagView::Keyword(b) => {
            assert(s[0] == b[0]);
            reading::lemma_tag_rejects(bs, s);
        },
    }
}

/// The MODSEQ key is read as the modification sequence that its digits tell, of
/// at most 63 bits, zero included.
pub proof fn law_modseq_keys(m: Seq<u8>, d: Seq<u8>, t: Seq<u8>)
    requires
        texts::says(m, "MODSEQ"@),
        texts::is_numeral(d),
        t.len() > 0,
        !(48 <= t[0] <= 57),
    ensures
        ({
            let n = number::digits_value(d);
            let s = m + seq![32u8] + d + t;
            &&& n < 0x8000_0000_0000_0000 ==> modseq::search_modsequence_rule()(s)
                == Outcome::Done(t, (None::<(AttributeFlagView, EntryTypeReq)>, n as u64))
            &&& n >= 0x8000_0000_0000_0000 ==> modseq::search_modsequence_rule()(s) is Reject
        }),
{
    let s = m + seq![32u8] + d + t;
    reveal(modseq::search_modsequence_rule);
    reveal(modseq::search_modseq_ext_rule);
    reveal(modseq::entry_flag_name_rule);
    reveal_strlit("MODSEQ");
    reveal_strlit(" ");
    reveal_strlit("\"/flags/");
    let sp = ascii::bytes_of(" ");
    let r = sp + (d + t);
    assert(sp =~= seq![32u8]);
    assert(s =~= m + r);
    texts::lemma_word_reads(m, "MODSEQ", r);
    reading::lemma_tag_reads(sp, d + t);
    assert((d + t)[0] == d[0]);
    reading::lemma_tag_no_case_rejects(ascii::bytes_of("\"/flags/"), d + t, 0);
    texts::law_numbers_have_63_bits(d, t);
}

/// The MODSEQ key with an entry is read as the flag, the items and the
/// modification sequence that its text tells.
#[verifier::spinoff_prover]
pub proof fn law_modseq_keys_with_entries(
    m: Seq<u8>,
    f: Seq<u8>,
    flag: AttributeFlagView,
    k: Seq<u8>,
    kind: EntryTypeReq,
    d: Seq<u8>,
    t: Seq<u8>,
)
    requires
        texts::says(m, "MODSEQ"@),
        texts::says(f, "\"/FLAGS/"@),
        strings::atom_wf(flag_name(flag)),
        says_kind(k, kind),
        texts::is_numeral(d),
        t.len() > 0,
        !(48 <= t[0] <= 57),
    ensures
        ({
            let n = number::digits_value(d);
            let s = m + seq![32u8] + f + flag_text(flag) + seq![34u8, 32u8] + k + seq![32u8] + d
                + t;
            let known = flag is Keyword || !texts::says(flag_name(flag), "RECENT"@);
            &&& known && n < 0x8000_0000_0000_0000 ==> modseq::search_modsequence_rule()(s)
                == Outcome::Done(t, (Some((flag, kind)), n as u64))
            &&& !known || n >= 0x8000_0000_0000_0000 ==> modseq::search_modsequence_rule()(
                s,
            ) is Reject
        }),
{
    let s = m + seq![32u8] + f + flag_text(flag) + seq![34u8, 32u8] + k + seq![32u8] + d + t;
    reveal(modseq::search_modsequence_rule);
    reveal(modseq::search_modseq_ext_rule);
    reveal(modseq::entry_flag_name_rule);
    reveal_strlit("MODSEQ");
    reveal_strlit(" ");
    reveal_strlit("\"");
    reveal_strlit("\"/flags/");
    reveal_strlit("\"/FLAGS/");
    let sp = ascii::bytes_of(" ");
    let q = ascii::bytes_of("\"");
    let c = sp + (d + t);
    let b = sp + (k + c);
    let a = q + b;
    let e = f + (flag_text(flag) + a);
    let r = sp + e;
    assert(sp =~= seq![32u8]);
    assert(q =~= seq![34u8]);
    assert(s =~= m + r);
    assert(a[0] == 34);
    texts::lemma_word_reads(m, "MODSEQ", r);
    reading::lemma_tag_reads(sp, e);
    lemma_lower_word(f, "\"/FLAGS/", "\"/flags/", flag_text(flag) + a);
    law_entry_flags(flag, a);
    reading::lemma_tag_reads(q, b);
    reading::lemma_tag_reads(sp, k + c);
    law_entry_types(k, kind, c);
    reading::lemma_tag_reads(sp, d + t);
    texts::law_numbers_have_63_bits(d, t);
    assert(e[0] == f[0]);
    assert(texts::raised(f[0]) as char == '"');
    if flag is System && texts::says(flag_name(flag), "RECENT"@) {
        number::lemma_number_rejects(e);
        assert(modseq::mod_sequence_valzer_rule()(e) is Reject) by {
            reveal(modseq::mod_sequence_valzer_rule);
            reveal(ext::number63_rule);
        }
    }
}

/// The modification sequence behind the results of a search is read where it
/// has at most 63 bits and is not zero.
pub proof fn law_highest_modseq_of_a_search(m: Seq<u8>, d: Seq<u8>, t: Seq<u8>)
    requires
        texts::says(m, "MODSEQ "@),
        texts::is_numeral(d),
    ensures
        ({
            let n = number::digits_value(d);
            let s = seq![40u8] + m + d + seq![41u8] + t;
            &&& 0 < n < 0x8000_0000_0000_0000 ==> modseq::search_sort_mod_seq_rule()(s)
                == Outcome::Done(t, n as u64)
            &&& n == 0 || n >= 0x8000_0000_0000_0000 ==> modseq::search_sort_mod_seq_rule()(
                s,
            ) is Reject
        }),
{
    let s = seq![40u8] + m + d + seq![41u8] + t;
    reveal(modseq::search_sort_mod_seq_rule);
    reveal_strlit("(");
    reveal_strlit(")");
    reveal_strlit("MODSEQ ");
    let open = ascii::bytes_of("(");
    let close = ascii::bytes_of(")");
    let a = close + t;
    assert(open =~= seq![40u8]);
    assert(close =~= seq![41u8]);
    assert(s =~= open + (m + (d + a)));
    assert(a[0] == 41);
    reading::lemma_tag_reads(open, m + (d + a));
    texts::lemma_word_reads(m, "MODSEQ ", d + a);
    texts::law_numbers_have_63_bits(d, a);
    reading::lemma_tag_reads(close, t);
}

// --------------------------------------------------------------------- writing

/// A component, as it is written: a string, or components in parentheses.
pub open spec fn component_text(c: ComponentView) -> Seq<u8>
    decreases c,
{
    match c {
        ComponentView::String(s) => encode::flat(strings::string_tokens(s)),
        ComponentView::List(v) => seq![40u8] + spaced(component_texts(v)) + seq![41u8],
    }
}

pub open spec fn component_texts(v: Seq<ComponentView>) -> Seq<Seq<u8>>
    decreases v,
{
    if v.len() == 0 {
        seq![]
    } else {
        component_texts(v.drop_last()).push(component_text(v[v.len() - 1]))
    }
}

proof fn lemma_component_texts(v: Seq<ComponentView>)
    ensures
        component_texts(v) == encode::flat_parts(ext::component_parts(v)),
    decreases v, 1int,
{
    if v.len() == 0 {
        assert(component_texts(v) =~= encode::flat_parts(ext::component_parts(v)));
    } else {
        lemma_component_texts(v.drop_last());
        lemma_component_text(v[v.len() - 1]);
        assert(component_texts(v) =~= encode::flat_parts(ext::component_parts(v)));
    }
}

proof fn lemma_component_text(c: ComponentView)
    ensures
        component_text(c) == encode::flat(ext::component_tokens(c)),
    decreases c, 0int,
{
    if let ComponentView::List(v) = c {
        lemma_component_texts(v);
        lemma_spaced(component_texts(v));
        encode::lemma_flat_paren(ext::component_parts(v));
        reveal_strlit("(");
        reveal_strlit(")");
        assert(ascii::bytes_of("(") =~= seq![40u8]);
        assert(ascii::bytes_of(")") =~= seq![41u8]);
    }
}

/// A value is written as it is, or as components in parentheses with spaces
/// between them.
pub proof fn law_values_are_written(v: ValueView)
    ensures
        encode::flat(ext::value_tokens(v)) == (match v {
            ValueView::Simple(b) => b,
            ValueView::List(items) => seq![40u8] + spaced(component_texts(items)) + seq![41u8],
        }),
{
    match v {
        ValueView::Simple(b) => encode::lemma_flat_plain(b),
        ValueView::List(items) => {
            lemma_component_text(ComponentView::List(items));
        },
    }
}

/// The saved result is written as a dollar, and a set as its text.
pub proof fn law_message_sets_are_written(v: MessageSetView)
    requires
        v matches MessageSetView::SequenceSet(x) ==> texts::is_set(x),
    ensures
        encode::flat(ext::message_set_tokens(v)) == (match v {
            MessageSetView::SearchResult => seq![36u8],
            MessageSetView::SequenceSet(x) => texts::set_text(x),
        }),
{
    match v {
        MessageSetView::SearchResult => {
            encode::lemma_flat_word("$");
            reveal_strlit("$");
            assert(ascii::bytes_of("$") =~= seq![36u8]);
        },
        MessageSetView::SequenceSet(x) => texts::lemma_set_tokens(x),
    }
}

/// A return option is written by its name, and parameters behind a space.
pub proof fn law_search_options_are_written(v: SearchReturnView)
    ensures
        encode::flat(ext::search_return_tokens(v)) == asking_text(v),
{
    encode::lemma_flat_word("MIN");
    encode::lemma_flat_word("MAX");
    encode::lemma_flat_word("ALL");
    encode::lemma_flat_word("COUNT");
    encode::lemma_flat_word("SAVE");
    if let SearchReturnView::Extension { name, parameters } = v {
        lemma_option_text(name, parameters);
    }
}

/// A search with return options is written behind its tag as these options, the
/// charset and the keys, with UID in front where it asks for unique identifiers.
pub proof fn law_extended_searches_are_written(
    tag: Seq<u8>,
    options: Seq<SearchReturnView>,
    charset: Option<StringView>,
    criteria: Seq<KeyView>,
    uid: bool,
)
    ensures
        encode::flat(
            command::command_tokens(
                CommandView {
                    tag,
                    body: BodyView::SearchExtended {
                        return_options: options,
                        charset,
                        criteria,
                        uid,
                    },
                },
            ),
        ) == tag + (if uid {
            ascii::bytes_of(" UID SEARCH RETURN (")
        } else {
            ascii::bytes_of(" SEARCH RETURN (")
        }) + spaced(options.map_values(|v: SearchReturnView| asking_text(v))) + seq![41u8]
            + charset_text(charset) + seq![32u8] + encode::flat(search::criteria_tokens(criteria))
            + seq![13u8, 10u8],
{
    let written = options.map_values(|v: SearchReturnView| asking_text(v));
    let tokens = encode::parts::<SearchReturn>(options);
    assert forall|i: int| 0 <= i < options.len() implies #[trigger] written[i]
        == encode::flat_parts(tokens)[i] by {
        law_search_options_are_written(options[i]);
    }
    assert(written =~= encode::flat_parts(tokens));
    lemma_spaced(written);
    let none = Seq::<u8>::empty();
    lemma_search_line(tag, options, charset, criteria, uid, none);
    let body = BodyView::SearchExtended { return_options: options, charset, criteria, uid };
    encode::lemma_concat_empty(
        encode::flat(command::command_tokens(CommandView { tag, body })),
    );
    encode::lemma_concat_empty(
        tag + (if uid {
            ascii::bytes_of(" UID SEARCH RETURN (")
        } else {
            ascii::bytes_of(" SEARCH RETURN (")
        }) + spaced(written) + seq![41u8] + charset_text(charset) + seq![32u8] + encode::flat(
            search::criteria_tokens(criteria),
        ) + seq![13u8, 10u8],
    );
}

/// A search result is written as the tag, the mark and the items that it has.
pub proof fn law_search_results_are_written(
    tag: Option<StringView>,
    uid: bool,
    items: Seq<SearchReturnDataView>,
)
    ensures
        encode::flat(
            response::response_tokens(
                ResponseView::Data(DataView::ESearch { tag, uid, items }),
            ),
        ) == ascii::bytes_of("* ESEARCH") + tag_text(tag) + uid_text(uid) + items_text(items)
            + seq![13u8, 10u8],
{
    let star = ascii::bytes_of("* ");
    let w = ascii::bytes_of("ESEARCH");
    let a = tag_text(tag);
    let b = uid_text(uid);
    let c = items_text(items);
    lemma_result_text(tag, uid, items);
    assert(ascii::bytes_of("* ESEARCH") == star + w) by {
        reveal_strlit("* ESEARCH");
        reveal_strlit("* ");
        reveal_strlit("ESEARCH");
        assert(ascii::bytes_of("* ESEARCH") =~= star + w);
    }
    assert((star + w) + a + b + c =~= star + (w + (a + b + c)));
}

/// The MODSEQ key is written with its entry, where it has one, and its number.
pub proof fn law_modseq_keys_are_written(flag: AttributeFlagView, kind: EntryTypeReq, n: u64)
    ensures
        modseq::search_modsequence_text(None, n) == ascii::bytes_of("MODSEQ ") + number::decimal(
            n as nat,
        ),
        modseq::search_modsequence_text(Some((flag, kind)), n) == ascii::bytes_of(
            "MODSEQ \"/flags/",
        ) + flag_text(flag) + ascii::bytes_of("\" ") + (match kind {
            EntryTypeReq::Private => ascii::bytes_of("priv"),
            EntryTypeReq::Shared => ascii::bytes_of("shared"),
            EntryTypeReq::All => ascii::bytes_of("all"),
        }) + seq![32u8] + number::decimal(n as nat),
{
    reveal_strlit("MODSEQ");
    reveal_strlit("MODSEQ ");
    reveal_strlit(" ");
    reveal_strlit(" \"/flags/");
    reveal_strlit("MODSEQ \"/flags/");
    reveal_strlit("\\\\");
    let m = ascii::bytes_of("MODSEQ");
    let d = number::decimal(n as nat);
    assert(ascii::bytes_of("\\\\") =~= seq![92u8, 92u8]);
    assert(ascii::bytes_of(" ") =~= seq![32u8]);
    assert(ascii::bytes_of("MODSEQ ") =~= m + seq![32u8]);
    assert(m + Seq::<u8>::empty() =~= m);
    let a = ascii::bytes_of(" \"/flags/");
    let f = flag_text(flag);
    let q = ascii::bytes_of("\" ");
    let k = modseq::entry_type_text(kind);
    assert(ascii::bytes_of("MODSEQ \"/flags/") =~= m + a);
    assert(m + (a + f + q + k) + seq![32u8] + d =~= (m + a) + f + q + k + seq![32u8] + d);
}

/// The words in front of searches and their results are read in any case of their
/// letters, and nothing is read without them.
pub proof fn law_search_words(b: Seq<u8>, s: Seq<u8>)
    ensures
        texts::says(b, "ESEARCH"@) ==> ext::esearch_rule()(b + s) == ext::esearch_rule()(
            ascii::bytes_of("ESEARCH") + s,
        ),
        texts::says(b, "SEARCH RETURN "@) ==> ext::extended_search_rule()(b + s)
            == ext::extended_search_rule()(ascii::bytes_of("SEARCH RETURN ") + s),
        ext::esearch_rule()(s) is Done ==> s.len() >= 7 && texts::says(s.take(7), "ESEARCH"@),
        ext::extended_search_rule()(s) is Done ==> s.len() >= 14 && texts::says(
            s.take(14),
            "SEARCH RETURN "@,
        ),
{
    reveal(ext::esearch_rule);
    reveal(ext::extended_search_rule);
    reveal_strlit("ESEARCH");
    reveal_strlit("SEARCH RETURN ");
    let e = ascii::bytes_of("ESEARCH");
    let r = ascii::bytes_of("SEARCH RETURN ");
    reading::lemma_tag_no_case_reads(e, s);
    reading::lemma_tag_no_case_reads(r, s);
    if texts::says(b, "ESEARCH"@) {
        texts::lemma_word_reads(b, "ESEARCH", s);
    }
    if texts::says(b, "SEARCH RETURN "@) {
        texts::lemma_word_reads(b, "SEARCH RETURN ", s);
    }
    if s.len() >= 7 {
        texts::lemma_says(s.take(7), "ESEARCH");
    }
    if s.len() >= 14 {
        texts::lemma_says(s.take(14), "SEARCH RETURN ");
    }
}

/// The words inside of a search result are read in any case of their letters: the
/// result is the same.
pub proof fn law_result_words(tag: Seq<u8>, mark: Seq<u8>, x: StringView, s: Seq<u8>)
    requires
        texts::says(tag, " (TAG "@),
        texts::says(mark, " UID"@),
        strings::string_wf(x),
    ensures
        ({
            let w = ascii::bytes_of("ESEARCH");
            let t = ascii::bytes_of(" (TAG ");
            let u = ascii::bytes_of(" UID");
            let b = encode::flat(strings::string_tokens(x)) + seq![41u8];
            &&& ext::esearch_rule()(w + (mark + s)) == ext::esearch_rule()(w + (u + s))
            &&& ext::esearch_rule()(w + (tag + (b + s))) == ext::esearch_rule()(w + (t + (b + s)))
            &&& ext::esearch_rule()(w + (t + (b + (mark + s)))) == ext::esearch_rule()(
                w + (t + (b + (u + s))),
            )
        }),
{
    let w = ascii::bytes_of("ESEARCH");
    let t = ascii::bytes_of(" (TAG ");
    let u = ascii::bytes_of(" UID");
    let a = encode::flat(strings::string_tokens(x));
    let b = a + seq![41u8];
    reveal_strlit(" (TAG ");
    reveal_strlit(" UID");
    reveal_strlit(")");
    let close = ascii::bytes_of(")");
    assert(close =~= seq![41u8]);
    assert(texts::says(u, " UID"@));
    assert(texts::says(t, " (TAG "@));
    reading::lemma_tag_no_case_reads(w, mark + s);
    reading::lemma_tag_no_case_reads(w, u + s);
    reading::lemma_tag_no_case_reads(w, tag + (b + s));
    reading::lemma_tag_no_case_reads(w, t + (b + s));
    reading::lemma_tag_no_case_reads(w, t + (b + (mark + s)));
    reading::lemma_tag_no_case_reads(w, t + (b + (u + s)));
    texts::lemma_word_reads(mark, " UID", s);
    texts::lemma_word_reads(u, " UID", s);
    assert(texts::raised(mark[1]) as char == 'U');
    assert((mark + s)[1] == mark[1]);
    reading::lemma_tag_no_case_rejects(t, mark + s, 1);
    reading::lemma_tag_no_case_rejects(t, u + s, 1);
    strings::lemma_string_reads(x);
    lemma_tag_tail(tag, a, s);
    lemma_tag_tail(t, a, s);
    lemma_tag_tail(t, a, mark + s);
    lemma_tag_tail(t, a, u + s);
    assert(strings::astring_rule()(a + (close + s)) == Outcome::Done(close + s, x));
    assert(strings::astring_rule()(a + (close + (mark + s))) == Outcome::Done(
        close + (mark + s),
        x,
    ));
    assert(strings::astring_rule()(a + (close + (u + s))) == Outcome::Done(close + (u + s), x));
    reveal(ext::esearch_rule);
}

proof fn lemma_tag_tail(tag: Seq<u8>, a: Seq<u8>, s: Seq<u8>)
    requires
        texts::says(tag, " (TAG "@),
    ensures
        ({
            let close = ascii::bytes_of(")");
            &&& a + seq![41u8] + s == a + (close + s)
            &&& (close + s).len() > 0
            &&& (close + s)[0] == 41
            &&& g::word(" (TAG ")(tag + (a + seq![41u8] + s)) == Outcome::Done(a + (close + s), ())
            &&& g::text(")")(close + s) == Outcome::Done(s, ())
        }),
{
    reveal_strlit(" (TAG ");
    reveal_strlit(")");
    let close = ascii::bytes_of(")");
    assert(a + seq![41u8] + s =~= a + (close + s));
    texts::lemma_word_reads(tag, " (TAG ", a + seq![41u8] + s);
    reading::lemma_tag_reads(close, s);
}

/// CHARSET is read in any case of its letters: the search is the same.
pub proof fn law_charset_in_any_case(
    w: Seq<u8>,
    options: Seq<SearchReturnView>,
    charset: StringView,
    s: Seq<u8>,
)
    requires
        texts::says(w, " CHARSET "@),
        forall|i: int| 0 <= i < options.len() ==> is_option(#[trigger] options[i]),
        ext::charset_wf(Some(charset)),
    ensures
        ({
            let start = ascii::bytes_of("SEARCH RETURN ") + (seq![40u8] + spaced(
                options.map_values(|v: SearchReturnView| asking_text(v)),
            ) + seq![41u8]);
            let tail = encode::flat(strings::string_tokens(charset)) + (seq![32u8] + s);
            ext::extended_search_rule()(start + (w + tail)) == ext::extended_search_rule()(
                start + (ascii::bytes_of(" CHARSET ") + tail),
            )
        }),
{
    let word = ascii::bytes_of("SEARCH RETURN ");
    let cs = ascii::bytes_of(" CHARSET ");
    let written = options.map_values(|v: SearchReturnView| asking_text(v));
    let list = seq![40u8] + spaced(written) + seq![41u8];
    let b = encode::flat(strings::string_tokens(charset));
    let rest = seq![32u8] + s;
    let tail = b + rest;
    reveal_strlit(" CHARSET ");
    assert(texts::says(cs, " CHARSET "@));
    lemma_option_list(options, w + tail);
    lemma_option_list(options, cs + tail);
    assert(word + list + (w + tail) =~= word + (list + (w + tail)));
    assert(word + list + (cs + tail) =~= word + (list + (cs + tail)));
    reading::lemma_tag_no_case_reads(word, list + (w + tail));
    reading::lemma_tag_no_case_reads(word, list + (cs + tail));
    texts::lemma_word_reads(w, " CHARSET ", tail);
    texts::lemma_word_reads(cs, " CHARSET ", tail);
    strings::lemma_charset_reads(charset);
    assert(rest[0] == 32);
    assert(strings::charset_rule()(b + rest) == Outcome::Done(rest, charset));
    reveal(ext::extended_search_rule);
}

/// A list of return options is read, whatever follows it.
proof fn lemma_option_list(options: Seq<SearchReturnView>, t: Seq<u8>)
    requires
        forall|i: int| 0 <= i < options.len() ==> is_option(#[trigger] options[i]),
    ensures
        g::paren_list0(ext::search_return_rule())(
            seq![40u8] + spaced(options.map_values(|v: SearchReturnView| asking_text(v)))
                + seq![41u8] + t,
        ) == Outcome::Done(t, options),
{
    let written = options.map_values(|v: SearchReturnView| asking_text(v));
    reveal_strlit("(");
    reveal_strlit(")");
    assert(ascii::bytes_of("(") =~= seq![40u8]);
    assert(ascii::bytes_of(")") =~= seq![41u8]);
    lemma_spaced(written);
    assert forall|i: int| 0 <= i < written.len() implies ext::reads_option(
        ext::search_return_rule(),
        #[trigger] written[i],
        options[i],
    ) by {
        lemma_asking(options[i]);
        ext::lemma_search_return_reads(options[i]);
    }
    let end = ascii::bytes_of(")") + t;
    assert(end[0] == 41);
    ext::lemma_label_rejects(end);
    reveal(ext::search_return_rule);
    ext::lemma_options_read(ext::search_return_rule(), written, options, t);
}

} // verus!
