//! What holds of everything that the extensions read.
use vstd::prelude::*;

use crate::ascii;
use crate::command::BodyView;
use crate::extensions::condstore_qresync as modseq;
use crate::extensions::lists as told;
use crate::extensions::rev2 as ext;
use crate::extensions::searches as found;
use crate::extensions::texts;
use crate::grammar as g;
use crate::grammar::Outcome;
use crate::mailbox;
use crate::number;
use crate::response::DataView;
use crate::rev2::{ComponentView, ListReturnView, MessageSetView, SearchReturnView, ValueView};
use crate::roundtrip;
use crate::sequence;
use crate::sequence::Sequence;
use crate::strings;

verus! {

// ---------------------------------------------------------------------- lemmas

proof fn lemma_component(c: ComponentView, depth: nat)
    requires
        ext::component_wf(c, depth),
    ensures
        texts::has_strings(c),
        texts::levels(c) <= depth,
    decreases depth, 0int,
{
    if let ComponentView::List(v) = c {
        assert forall|i: int| 0 <= i < v.len() implies ext::component_wf(
            #[trigger] v[i],
            (depth - 1) as nat,
        ) by {}
        lemma_components(v, (depth - 1) as nat);
    }
}

proof fn lemma_components(v: Seq<ComponentView>, depth: nat)
    requires
        depth >= 1,
        forall|i: int| 0 <= i < v.len() ==> ext::component_wf(#[trigger] v[i], depth),
    ensures
        forall|i: int| 0 <= i < v.len() ==> texts::has_strings(#[trigger] v[i]),
        texts::most_levels(v) <= depth,
    decreases depth, 1 + v.len(),
{
    if v.len() > 0 {
        let w = v.drop_last();
        assert forall|i: int| 0 <= i < w.len() implies ext::component_wf(
            #[trigger] w[i],
            depth,
        ) by {
            assert(w[i] == v[i]);
        }
        lemma_components(w, depth);
        lemma_component(v[v.len() - 1], depth);
        assert forall|i: int| 0 <= i < v.len() implies texts::has_strings(#[trigger] v[i]) by {
            if i < w.len() {
                assert(texts::has_strings(w[i]));
            }
        }
    }
}

proof fn lemma_value(v: ValueView)
    requires
        ext::value_wf(v),
    ensures
        texts::is_value(v),
{
    match v {
        ValueView::Simple(b) => {
            texts::lemma_numeral(b);
            if !texts::is_numeral(b) {
                texts::law_set_texts(seq![], b);
                let x = sequence::sequence_set_of(b)->Some_0;
                texts::lemma_word_set_is_closed(x);
                assert(texts::is_closed_set(x) && b == texts::set_text(x));
            }
        },
        ValueView::List(items) => {
            assert forall|i: int| 0 <= i < items.len() implies texts::has_strings(
                #[trigger] items[i],
            ) && texts::levels(items[i]) <= 16 by {
                lemma_component(items[i], 16);
            }
        },
    }
}

// ------------------------------------------------------------------------ laws

/// Every item of a search result that is read has a name and a value, and tells
/// what it is for: no MIN or MAX is zero, no ALL has a star, and no number is too
/// large.
pub proof fn law_search_results_tell(s: Seq<u8>)
    requires
        ext::esearch_rule()(s) is Done,
    ensures
        ext::esearch_rule()(s)->Done_1 matches DataView::ESearch { tag, items, .. } && (tag matches Some(
            x,
        ) ==> strings::string_wf(x)) && forall|i: int|
            0 <= i < items.len() ==> texts::is_name((#[trigger] items[i]).name) && texts::is_value(
                items[i].value,
            ) && found::tells(items[i]),
{
    roundtrip::law_decoded_esearch_survives(s, seq![13u8]);
    let d = ext::esearch_rule()(s)->Done_1;
    assert(d is ESearch) by {
        reveal(ext::esearch_rule);
    }
    if let DataView::ESearch { items, .. } = d {
        assert forall|i: int| 0 <= i < items.len() implies texts::is_name(
            (#[trigger] items[i]).name,
        ) && texts::is_value(items[i].value) && found::tells(items[i]) by {
            assert(ext::search_data_wf(items[i]));
            texts::lemma_name(items[i].name);
            lemma_value(items[i].value);
            found::lemma_tells(items[i]);
        }
    }
}

/// Every option of a search that is read is one that its name asks for, and the
/// search has a key.
pub proof fn law_searches_ask(s: Seq<u8>)
    requires
        ext::extended_search_rule()(s) is Done,
    ensures
        ext::extended_search_rule()(s)->Done_1 matches BodyView::SearchExtended {
            return_options,
            criteria,
            uid,
            ..
        } && !uid && criteria.len() > 0 && forall|i: int|
            0 <= i < return_options.len() ==> found::is_option(#[trigger] return_options[i]),
{
    roundtrip::law_decoded_extended_search_survives(s, seq![13u8]);
    let v = ext::extended_search_rule()(s)->Done_1;
    assert(v matches BodyView::SearchExtended { uid, .. } && !uid) by {
        reveal(ext::extended_search_rule);
    }
    if let BodyView::SearchExtended { return_options, .. } = v {
        assert forall|i: int| 0 <= i < return_options.len() implies found::is_option(
            #[trigger] return_options[i],
        ) by {
            assert(ext::search_return_wf(return_options[i]));
            if let SearchReturnView::Extension { name, parameters } = return_options[i] {
                texts::lemma_name(name);
                found::lemma_words();
                if let Some(p) = parameters {
                    lemma_value(p);
                }
            }
        }
    }
}

/// Every LIST command that is read with extensions has a pattern, a selection that
/// can match, and options that their names ask for.
pub proof fn law_lists_ask(s: Seq<u8>)
    requires
        ext::list_rule()(s) is Done,
    ensures
        match ext::list_rule()(s)->Done_1 {
            BodyView::List { reference, mailbox_wildcard } => mailbox::mailbox_wf(reference)
                && mailbox::list_mailbox_wf(mailbox_wildcard),
            BodyView::ListExtended { selection, reference, patterns, return_options } => {
                &&& !told::is_idle(selection)
                &&& told::is_list(Some(selection), reference, patterns, true, return_options)
            },
            _ => false,
        },
{
    roundtrip::law_decoded_list_survives(s, seq![13u8]);
    let v = ext::list_rule()(s)->Done_1;
    assert(v is List || v is ListExtended) by {
        reveal(ext::list_rule);
    }
    if let BodyView::ListExtended { selection, patterns, return_options, .. } = v {
        told::lemma_idle(selection);
        assert forall|i: int| 0 <= i < selection.len() implies texts::is_name(
            #[trigger] selection[i],
        ) by {
            assert(ext::is_label(selection[i]));
            texts::lemma_name(selection[i]);
        }
        if let Some(x) = return_options {
            assert forall|i: int| 0 <= i < x.len() implies told::is_option(#[trigger] x[i]) by {
                assert(ext::list_return_wf(x[i]));
                if let ListReturnView::Extension { name, parameters } = x[i] {
                    texts::lemma_name(name);
                    told::lemma_return_words(name);
                    if let Some(p) = parameters {
                        lemma_value(p);
                    }
                }
            }
        }
    }
}

/// All data that extends what LIST tells has a tag and a value.
pub proof fn law_list_data_tells(s: Seq<u8>)
    requires
        ext::list_data_rule()(s) is Done,
    ensures
        ext::list_data_rule()(s)->Done_1 matches DataView::ListExtended {
            items,
            delimiter,
            mailbox,
            extensions,
        } && mailbox::mailbox_list_wf((items, delimiter, mailbox)) && forall|i: int|
            0 <= i < extensions.len() ==> told::is_extension(#[trigger] extensions[i]),
{
    roundtrip::law_decoded_list_data_survives(s, seq![13u8]);
    let d = ext::list_data_rule()(s)->Done_1;
    assert(d is ListExtended) by {
        reveal(ext::list_data_rule);
    }
    if let DataView::ListExtended { extensions, .. } = d {
        assert forall|i: int| 0 <= i < extensions.len() implies told::is_extension(
            #[trigger] extensions[i],
        ) by {
            assert(ext::list_extension_wf(extensions[i]));
            lemma_value(extensions[i].value);
        }
    }
}

/// A number that is read is the one that the digits in front stand for, and it has
/// at most 63 bits.
pub proof fn law_numbers_are_digits(s: Seq<u8>)
    ensures
        ext::number63_rule()(s) matches Outcome::Done(r, n) ==> n < 0x8000_0000_0000_0000 && exists|
            b: Seq<u8>,
        |
            #[trigger] texts::is_numeral(b) && s == b + r && number::digits_value(b) == n,
        ext::nz_number63_rule()(s) matches Outcome::Done(r, n) ==> n > 0 && ext::number63_rule()(s)
            == Outcome::Done(r, n),
        modseq::mod_sequence_valzer_rule()(s) == ext::number63_rule()(s),
        modseq::mod_sequence_value_rule()(s) matches Outcome::Done(r, n) ==> n > 0
            && ext::number63_rule()(s) == Outcome::Done(r, n),
{
    reveal(ext::number63_rule);
    reveal(ext::nz_number63_rule);
    reveal(modseq::mod_sequence_valzer_rule);
    reveal(modseq::mod_sequence_value_rule);
    reveal(number::number64_rule);
    let class = |b: u8| ascii::is_digit(b);
    if let Outcome::Done(r, n) = ext::number63_rule()(s) {
        let k = g::run_length(s, class) as int;
        g::lemma_run_length(s, class);
        let b = s.take(k);
        assert(number::digits_rule()(s) == Outcome::Done(s.skip(k), b));
        assert forall|i: int| 0 <= i < b.len() implies 48 <= #[trigger] b[i] <= 57 by {
            assert(class(s[i]));
        }
        assert(s =~= b + r);
        assert(texts::is_numeral(b));
    }
}

/// A set of messages that is read is the saved result behind a dollar, or numbers
/// of which none is zero.
pub proof fn law_message_sets_are_sets(s: Seq<u8>)
    ensures
        ext::message_set_rule()(s) matches Outcome::Done(r, v) ==> match v {
            MessageSetView::SearchResult => s == seq![36u8] + r,
            MessageSetView::SequenceSet(x) => texts::is_set(x),
        },
{
    roundtrip::lemma_sequences_yield();
    reveal_strlit("$");
    if let Outcome::Done(r, v) = ext::message_set_rule()(s) {
        match v {
            MessageSetView::SearchResult => {
                reveal(ext::message_set_rule);
                let d = ascii::bytes_of("$");
                assert(s.take(1) == d);
                assert(s.take(1)[0] == s[0]);
                assert(s =~= seq![36u8] + r);
            },
            MessageSetView::SequenceSet(x) => {
                let wf = |v: MessageSetView| ext::message_set_wf(v);
                assert(wf(v));
                assert forall|i: int| 0 <= i < x.len() implies match #[trigger] x[i] {
                    Sequence::Single(a) => texts::counts(a),
                    Sequence::Range(a, b) => texts::counts(a) && texts::counts(b),
                } by {
                    assert(sequence::sequence_wf(x[i]));
                }
            },
        }
    }
}

/// The items that a search looks at are read from one of their words.
pub proof fn law_entry_types_are_words(s: Seq<u8>)
    ensures
        modseq::entry_type_req_rule()(s) matches Outcome::Done(r, k) ==> exists|b: Seq<u8>|
            #[trigger] found::says_kind(b, k) && s == b + r,
{
    reveal(modseq::entry_type_req_rule);
    if let Outcome::Done(r, k) = modseq::entry_type_req_rule()(s) {
        reveal_strlit("PRIV");
        reveal_strlit("SHARED");
        reveal_strlit("ALL");
        reveal_strlit("priv");
        reveal_strlit("shared");
        reveal_strlit("all");
        let w = modseq::entry_type_text(k);
        let n = w.len() as int;
        let b = s.take(n);
        assert(s.len() >= n && ascii::same_word(b, w) && r == s.skip(n));
        assert(s =~= b + r);
        let up = match k {
            modseq::EntryTypeReq::Private => ascii::bytes_of("PRIV"),
            modseq::EntryTypeReq::Shared => ascii::bytes_of("SHARED"),
            modseq::EntryTypeReq::All => ascii::bytes_of("ALL"),
        };
        assert(ascii::uppercase(w) =~= ascii::uppercase(up));
        texts::lemma_says(b, "PRIV");
        texts::lemma_says(b, "SHARED");
        texts::lemma_says(b, "ALL");
        assert(found::says_kind(b, k));
    }
}

/// A flag of an entry that is read has a name, and a flag of the system is never
/// the one for recent messages.
pub proof fn law_entry_flags_are_known(s: Seq<u8>)
    ensures
        modseq::attr_flag_rule()(s) matches Outcome::Done(r, f) ==> strings::atom_wf(
            found::flag_name(f),
        ) && s == found::flag_text(f) + r && !(f is System && texts::says(
            found::flag_name(f),
            "RECENT"@,
        )),
{
    reveal(modseq::attr_flag_rule);
    reveal(modseq::is_attr_flag);
    reveal(strings::atom_rule);
    reveal_strlit("RECENT");
    reveal_strlit("\\\\");
    let bs = ascii::bytes_of("\\\\");
    assert(bs =~= seq![92u8, 92u8]);
    let class = |x: u8| ascii::is_atom_char(x);
    if let Outcome::Done(r, f) = modseq::attr_flag_rule()(s) {
        let name = found::flag_name(f);
        texts::lemma_says(name, "RECENT");
        let t = if f is System {
            s.skip(2)
        } else {
            s
        };
        let k = g::run_length(t, class) as int;
        g::lemma_run_length(t, class);
        assert(name == t.take(k) && r == t.skip(k));
        assert forall|i: int| 0 <= i < name.len() implies class(#[trigger] name[i]) by {
            assert(class(t[i]));
        }
        assert(t =~= name + r);
        if f is System {
            assert(s.take(2) == bs);
            assert(s =~= s.take(2) + t);
            assert(s =~= found::flag_text(f) + r);
        }
    }
}

} // verus!
