//! Everything that is read can be written, and is read again as it was.
use vstd::prelude::*;

use crate::answers;
use crate::answers::{
    AnswerName, AnswerView, MetadataItemsView, NamespaceExtensionView, NamespaceView, QuotaGetView,
};
use crate::arguments as args;
use crate::ascii;
use crate::body;
use crate::body::{
    BodyExtensionView, DispositionDataView, DispositionView, FieldsView, LanguageDataView,
    LanguageView, LocationView, MediaTuple, MessageTuple, MultiPartView, ParameterView,
    SinglePartView, StructureView, BODY_DEPTH,
};
use crate::command;
use crate::command::{
    BodyView, CommandName, CommandView, EntryValueView, FetchModifier, IdFieldView, MessageView,
    QuotaSetView, SelectParameterView, SortCriterion, StoreModifier,
};
use crate::date;
use crate::date::Date;
use crate::encode;
use crate::extensions::condstore_qresync as modseq;
use crate::extensions::condstore_qresync::ModSeqEntryView;
use crate::extensions::rev2 as ext;
use crate::extensions::rev2::{COMPONENT_DEPTH, NUMBER63_MAX};
use crate::fetch;
use crate::fetch::{ItemNameView, ItemNamesView, SectionTextView, SectionView};
use crate::flag;
use crate::flag::FlagView;
use crate::grammar as g;
use crate::grammar::{Outcome, Rule};
use crate::mailbox;
use crate::mailbox::{MailboxListView, MailboxView};
use crate::number;
use crate::reading;
use crate::response;
use crate::response::{
    CodeView, DataName, DataView, ItemView, NString8View, RespTextView, ResponseView,
    StatusBodyView, StatusDataItem,
};
use crate::rev2::{
    ComponentView, ListExtensionView, ListReturnView, MessageSetView, SearchReturnDataView,
    SearchReturnView, ValueView,
};
use crate::search;
use crate::search::{KeyView, SEARCH_DEPTH};
use crate::sequence;
use crate::sequence::{SeqOrUid, Sequence};
use crate::shapes;
use crate::status;
use crate::status::StatusDataItemName;
use crate::strings;
use crate::strings::StringView;
use crate::structure;
use crate::structure::{AddressView, EnvelopeView};
use crate::threads;
use crate::threads::{ThreadView, THREAD_DEPTH};

verus! {

/// Every value that the rule reads is well-formed.
pub open spec fn yields<T>(p: Rule<T>, wf: spec_fn(T) -> bool) -> bool {
    forall|s: Seq<u8>| (#[trigger] p(s)) matches Outcome::Done(_, v) ==> wf(v)
}

// ----------------------------------------------------------------- combinators

proof fn lemma_repeated_yields<A, T>(sep: Rule<A>, p: Rule<T>, wf: spec_fn(T) -> bool, s: Seq<u8>)
    requires
        yields(p, wf),
    ensures
        g::repeated_from(sep, p, s) matches Outcome::Done(_, v) ==> args::all_wf(v, wf),
    decreases s.len(),
{
    if let Outcome::Done(r, _) = sep(s) {
        if let Outcome::Done(r2, x) = p(r) {
            if r2.len() < s.len() {
                lemma_repeated_yields(sep, p, wf, r2);
                if let Outcome::Done(_, xs) = g::repeated_from(sep, p, r2) {
                    let all = seq![x] + xs;
                    assert forall|i: int| 0 <= i < all.len() implies wf(#[trigger] all[i]) by {
                        if i > 0 {
                            assert(all[i] == xs[i - 1]);
                        }
                    }
                }
            }
        }
    }
}

proof fn lemma_lists_yield<A, T>(sep: Rule<A>, p: Rule<T>, wf: spec_fn(T) -> bool)
    requires
        yields(p, wf),
    ensures
        yields(g::repeated(sep, p), |v: Seq<T>| args::all_wf(v, wf)),
        yields(g::separated_list1(sep, p), |v: Seq<T>| v.len() > 0 && args::all_wf(v, wf)),
        yields(g::separated_list0(sep, p), |v: Seq<T>| args::all_wf(v, wf)),
{
    assert forall|s: Seq<u8>| (#[trigger] g::repeated(sep, p)(s)) matches Outcome::Done(
        _,
        v,
    ) ==> args::all_wf(v, wf) by {
        lemma_repeated_yields(sep, p, wf, s);
    }
    assert forall|s: Seq<u8>| (#[trigger] g::separated_list1(sep, p)(s)) matches Outcome::Done(
        _,
        v,
    ) ==> v.len() > 0 && args::all_wf(v, wf) by {
        if let Outcome::Done(r, x) = p(s) {
            lemma_repeated_yields(sep, p, wf, r);
            if let Outcome::Done(_, xs) = g::repeated_from(sep, p, r) {
                let all = seq![x] + xs;
                assert forall|i: int| 0 <= i < all.len() implies wf(#[trigger] all[i]) by {
                    if i > 0 {
                        assert(all[i] == xs[i - 1]);
                    }
                }
            }
        }
    }
    assert forall|s: Seq<u8>| (#[trigger] g::separated_list0(sep, p)(s)) matches Outcome::Done(
        _,
        v,
    ) ==> args::all_wf(v, wf) by {
        assert(g::separated_list1(sep, p)(s) matches Outcome::Done(_, v) ==> args::all_wf(v, wf));
    }
}

proof fn lemma_parens_yield<T>(p: Rule<T>, wf: spec_fn(T) -> bool)
    requires
        yields(p, wf),
    ensures
        yields(g::paren_list1(p), |v: Seq<T>| v.len() > 0 && args::all_wf(v, wf)),
        yields(g::paren_list0(p), |v: Seq<T>| args::all_wf(v, wf)),
        yields(args::optional_list(p), |v: Seq<T>| args::all_wf(v, wf)),
{
    lemma_lists_yield(g::text(" "), p, wf);
    assert(yields(g::paren_list1(p), |v: Seq<T>| v.len() > 0 && args::all_wf(v, wf)));
}

proof fn lemma_runs_yield(class: spec_fn(u8) -> bool)
    ensures
        yields(g::take_while1_rule(class), |b: Seq<u8>| b.len() > 0 && ascii::all_bytes(b, class)),
        yields(g::take_while_rule(class), |b: Seq<u8>| ascii::all_bytes(b, class)),
{
    assert forall|s: Seq<u8>| (#[trigger] g::take_while1_rule(class)(s)) matches Outcome::Done(
        _,
        b,
    ) ==> b.len() > 0 && ascii::all_bytes(b, class) by {
        g::lemma_run_length(s, class);
    }
    assert forall|s: Seq<u8>| (#[trigger] g::take_while_rule(class)(s)) matches Outcome::Done(
        _,
        b,
    ) ==> ascii::all_bytes(b, class) by {
        g::lemma_run_length(s, class);
    }
}

// ------------------------------------------------------------ numbers, strings

proof fn lemma_numbers_yield()
    ensures
        yields(number::nz_number_rule(), |n: u32| n > 0),
        yields(ext::number63_rule(), |n: u64| n <= NUMBER63_MAX),
        yields(ext::nz_number63_rule(), |n: u64| 0 < n <= NUMBER63_MAX),
        yields(modseq::mod_sequence_valzer_rule(), |n: u64| n <= NUMBER63_MAX),
        yields(modseq::mod_sequence_value_rule(), |n: u64| 0 < n <= NUMBER63_MAX),
{
    reveal(number::nz_number_rule);
    reveal(ext::number63_rule);
    reveal(ext::nz_number63_rule);
    reveal(modseq::mod_sequence_valzer_rule);
    reveal(modseq::mod_sequence_value_rule);
}

proof fn lemma_quoted_body_yields(s: Seq<u8>)
    ensures
        strings::quoted_body(s) matches Outcome::Done(_, b) ==> ascii::all_bytes(
            b,
            |x: u8| ascii::is_text_byte(x),
        ),
    decreases s.len(),
{
    if s.len() > 1 && s[0] == '\\' as u8 {
        lemma_quoted_body_yields(s.skip(2));
    } else if s.len() > 0 {
        lemma_quoted_body_yields(s.skip(1));
    }
}

proof fn lemma_strings_yield()
    ensures
        yields(strings::atom_rule(), |b: Seq<u8>| strings::atom_wf(b)),
        yields(strings::quoted_rule(), |b: Seq<u8>| strings::quoted_wf(b)),
        yields(strings::string_rule(), |v: StringView| strings::istring_wf(v)),
        yields(strings::astring_rule(), |v: StringView| strings::string_wf(v)),
        yields(strings::nstring_rule(), |v: Option<StringView>| strings::nstring_wf(v)),
        yields(strings::charset_rule(), |v: StringView| ext::charset_wf(Some(v))),
        yields(
            strings::literal_rule(),
            |v: StringView|
                v matches StringView::Literal(b, _) && b.len() <= u64::MAX && !b.contains(0),
        ),
        yields(
            strings::literal8_rule(),
            |v: StringView| v matches StringView::Literal(b, _) && b.len() <= u64::MAX,
        ),
{
    reveal(strings::atom_rule);
    reveal(strings::quoted_rule);
    reveal(strings::string_rule);
    reveal(strings::astring_rule);
    reveal(strings::nstring_rule);
    reveal(strings::charset_rule);
    reveal(strings::literal_rule);
    reveal(strings::literal8_rule);
    lemma_runs_yield(|x: u8| ascii::is_atom_char(x));
    lemma_runs_yield(|x: u8| ascii::is_astring_char(x));
    assert forall|s: Seq<u8>| (#[trigger] strings::quoted_rule()(s)) matches Outcome::Done(
        _,
        b,
    ) ==> strings::quoted_wf(b) by {
        if let Outcome::Done(r, _) = g::text("\"")(s) {
            lemma_quoted_body_yields(r);
        }
    }
}

pub proof fn lemma_sequences_yield()
    ensures
        yields(sequence::sequence_set_rule(), |v: Seq<Sequence>| sequence::set_wf(v)),
        yields(ext::message_set_rule(), |v: MessageSetView| ext::message_set_wf(v)),
{
    reveal(sequence::seq_number_rule);
    reveal(sequence::sequence_rule);
    reveal(sequence::sequence_set_rule);
    reveal(ext::message_set_rule);
    lemma_numbers_yield();
    assert(yields(sequence::seq_number_rule(), |n: SeqOrUid| sequence::number_wf(n)));
    assert(yields(sequence::sequence_rule(), |v: Sequence| sequence::sequence_wf(v)));
    lemma_lists_yield(
        g::text(","),
        sequence::sequence_rule(),
        |v: Sequence| sequence::sequence_wf(v),
    );
}

proof fn lemma_dates_yield()
    ensures
        yields(date::date_rule(), |d: Date| date::date_wf(d)),
        yields(date::date_time_rule(), |b: Seq<u8>| date::date_time_wf(b)),
{
    reveal(date::date_rule);
    reveal(date::date_time_rule);
    lemma_strings_yield();
    assert(yields(date::date_text_rule(), |d: Date| date::date_wf(d)));
}

proof fn lemma_flags_yield()
    ensures
        yields(flag::attribute_rule(), |b: Seq<u8>| strings::atom_wf(b)),
        yields(flag::flag_rule(), |f: FlagView| flag::flag_wf(f)),
        yields(flag::flag_list_rule(), |v: Seq<FlagView>| flag::flags_wf(v)),
{
    reveal(flag::attribute_rule);
    reveal(flag::flag_rule);
    lemma_strings_yield();
    lemma_parens_yield(flag::flag_rule(), |f: FlagView| flag::flag_wf(f));
}

proof fn lemma_delimiters_yield()
    ensures
        yields(mailbox::delimiter_rule(), |d: Option<u8>| mailbox::delimiter_wf(d)),
{
}

proof fn lemma_mailboxes_yield()
    ensures
        yields(mailbox::mailbox_rule(), |v: MailboxView| mailbox::mailbox_wf(v)),
        yields(mailbox::list_mailbox_rule(), |v: StringView| mailbox::list_mailbox_wf(v)),
        yields(mailbox::mailbox_list_rule(), |v: MailboxListView| mailbox::mailbox_list_wf(v)),
{
    reveal(mailbox::mailbox_rule);
    reveal(mailbox::list_mailbox_rule);
    reveal(mailbox::mailbox_list_rule);
    lemma_strings_yield();
    lemma_flags_yield();
    lemma_runs_yield(|x: u8| ascii::is_list_char(x));
    lemma_parens_yield(flag::attribute_rule(), |b: Seq<u8>| strings::atom_wf(b));
    lemma_delimiters_yield();
}

// ------------------------------------------------------- fetch items, searches

proof fn lemma_sections_yield()
    ensures
        yields(
            fetch::body_section_rule(),
            |s: Option<SectionView>| s matches Some(x) ==> fetch::section_wf(x),
        ),
        yields(fetch::binary_section_rule(), |p: Seq<u32>| fetch::part_wf(p)),
        yields(
            fetch::partial_rule(),
            |p: (u64, u64)| p.0 <= NUMBER63_MAX && 0 < p.1 <= NUMBER63_MAX,
        ),
{
    reveal(fetch::section_rule);
    reveal(fetch::binary_section_rule);
    reveal(fetch::partial_rule);
    lemma_numbers_yield();
    lemma_strings_yield();
    lemma_lists_yield(g::text("."), number::nz_number_rule(), |n: u32| n > 0);
    assert(yields(fetch::part_rule(), |p: Seq<u32>| p.len() > 0 && fetch::part_wf(p)));
    lemma_parens_yield(strings::astring_rule(), |v: StringView| strings::string_wf(v));
    assert(yields(fetch::header_list_rule(), |v: Seq<StringView>| fetch::header_list_wf(v)));
    assert forall|w: Seq<u8>, mime: bool, s: Seq<u8>|
        (#[trigger] fetch::section_text_of(w, mime)(s)) matches Outcome::Done(
            _,
            x,
        ) ==> fetch::section_text_wf(x) && (!mime ==> !(x is Mime)) by {}
    assert(yields(
        fetch::section_text_rule(false),
        |x: SectionTextView| fetch::section_text_wf(x) && !(x is Mime),
    ));
    assert(yields(
        fetch::section_text_rule(true),
        |x: SectionTextView| fetch::section_text_wf(x),
    ));
    assert(yields(fetch::section_rule(), |x: SectionView| fetch::section_wf(x)));
}

proof fn lemma_item_names_yield()
    ensures
        yields(fetch::item_names_rule(), |v: ItemNamesView| fetch::item_names_wf(v)),
{
    reveal(fetch::item_rule);
    reveal(fetch::item_names_rule);
    lemma_sections_yield();
    assert forall|w: Seq<u8>, s: Seq<u8>| (#[trigger] fetch::item_of(w)(s)) matches Outcome::Done(
        _,
        x,
    ) ==> fetch::item_wf(x) by {}
    assert(yields(fetch::item_rule(), |x: ItemNameView| fetch::item_wf(x)));
    lemma_parens_yield(fetch::item_rule(), |x: ItemNameView| fetch::item_wf(x));
    assert forall|w: Seq<u8>, s: Seq<u8>|
        (#[trigger] fetch::macro_or_item_of(w)(s)) matches Outcome::Done(
            _,
            x,
        ) ==> fetch::item_names_wf(x) by {
        assert(fetch::item_of(w)(s) matches Outcome::Done(_, x) ==> fetch::item_wf(x));
    }
}

proof fn lemma_modseq_yields()
    ensures
        yields(
            modseq::search_modsequence_rule(),
            |p: (Option<ModSeqEntryView>, u64)|
                (p.0 matches Some(x) ==> modseq::attr_flag_wf(x.0)) && p.1 <= NUMBER63_MAX,
        ),
        yields(modseq::search_sort_mod_seq_rule(), |n: u64| 0 < n <= NUMBER63_MAX),
{
    reveal(modseq::attr_flag_rule);
    reveal(modseq::entry_flag_name_rule);
    reveal(modseq::search_modseq_ext_rule);
    reveal(modseq::search_modsequence_rule);
    reveal(modseq::search_sort_mod_seq_rule);
    lemma_numbers_yield();
    lemma_strings_yield();
}

proof fn lemma_named_keys_yield(depth: nat, w: Seq<u8>, inner: Rule<KeyView>)
    requires
        depth >= 1,
        yields(inner, |k: KeyView| depth >= 2 && search::key_wf(k, (depth - 1) as nat)),
    ensures
        yields(search::argument_rule(w, inner), |k: KeyView| search::key_wf(k, depth)),
{
    lemma_strings_yield();
    lemma_numbers_yield();
    lemma_sequences_yield();
    lemma_dates_yield();
}

proof fn lemma_keys_yield(depth: nat)
    ensures
        yields(search::search_key_rule(depth), |k: KeyView| depth >= 1 && search::key_wf(k, depth)),
    decreases depth,
{
    reveal_with_fuel(search::search_key_rule, 1);
    if depth > 0 {
        let inner = search::search_key_rule((depth - 1) as nat);
        lemma_keys_yield((depth - 1) as nat);
        lemma_sequences_yield();
        lemma_modseq_yields();
        let wf = |k: KeyView| depth >= 2 && search::key_wf(k, (depth - 1) as nat);
        assert(yields(inner, wf));
        lemma_parens_yield(inner, wf);
        assert forall|w: Seq<u8>, s: Seq<u8>|
            (#[trigger] search::argument_rule(w, inner)(s)) matches Outcome::Done(
                _,
                k,
            ) ==> search::key_wf(k, depth) by {
            lemma_named_keys_yield(depth, w, inner);
        }
        assert(yields(search::named_rule(inner), |k: KeyView| search::key_wf(k, depth)));
        assert(yields(
            g::mapped(g::paren_list1(inner), |v: Seq<KeyView>| KeyView::And(v)),
            |k: KeyView| search::key_wf(k, depth),
        )) by {
            assert forall|s: Seq<u8>| (#[trigger] g::paren_list1(inner)(s)) matches Outcome::Done(
                _,
                v,
            ) ==> search::key_wf(KeyView::And(v), depth) by {
                if let Outcome::Done(_, v) = g::paren_list1(inner)(s) {
                    assert(wf(v[0]));
                    assert forall|i: int| 0 <= i < v.len() implies search::key_wf(
                        #[trigger] v[i],
                        (depth - 1) as nat,
                    ) by {
                        assert(wf(v[i]));
                    }
                }
            }
        }
    }
}

proof fn lemma_criteria_yield()
    ensures
        yields(search::criteria_rule(), |v: Seq<KeyView>| search::criteria_wf(v)),
        yields(
            ext::search_tail_rule(),
            |p: (Option<StringView>, Seq<KeyView>)|
                ext::charset_wf(p.0) && search::criteria_wf(p.1),
        ),
{
    lemma_strings_yield();
    lemma_keys_yield(SEARCH_DEPTH as nat);
    let wf = |k: KeyView| search::key_wf(k, SEARCH_DEPTH as nat);
    assert(yields(search::search_key_rule(SEARCH_DEPTH as nat), wf));
    lemma_lists_yield(g::text(" "), search::search_key_rule(SEARCH_DEPTH as nat), wf);
    assert forall|s: Seq<u8>| (#[trigger] search::criteria_rule()(s)) matches Outcome::Done(
        _,
        v,
    ) ==> search::criteria_wf(v) by {
        if let Outcome::Done(_, v) = search::criteria_rule()(s) {
            assert forall|i: int| 0 <= i < v.len() implies search::key_wf(
                #[trigger] v[i],
                SEARCH_DEPTH as nat,
            ) by {
                assert(wf(v[i]));
            }
        }
    }
}

// ------------------------------------------------------------------ extensions

proof fn lemma_components_yield(depth: nat)
    ensures
        yields(
            ext::component_rule(depth),
            |c: ComponentView| depth >= 1 && ext::component_wf(c, depth),
        ),
    decreases depth,
{
    reveal_with_fuel(ext::component_rule, 1);
    if depth > 0 {
        let inner = ext::component_rule((depth - 1) as nat);
        let wf = |c: ComponentView| depth >= 2 && ext::component_wf(c, (depth - 1) as nat);
        lemma_components_yield((depth - 1) as nat);
        lemma_strings_yield();
        assert(yields(inner, wf));
        lemma_parens_yield(inner, wf);
        assert forall|s: Seq<u8>| (#[trigger] g::paren_list0(inner)(s)) matches Outcome::Done(
            _,
            v,
        ) ==> ext::component_wf(ComponentView::List(v), depth) by {
            if let Outcome::Done(_, v) = g::paren_list0(inner)(s) {
                if depth == 1 {
                    reveal_with_fuel(ext::component_rule, 1);
                    assert forall|x: Seq<u8>| (#[trigger] inner(x)) is Abort by {}
                }
                assert forall|i: int| 0 <= i < v.len() implies ext::component_wf(
                    #[trigger] v[i],
                    (depth - 1) as nat,
                ) by {
                    assert(wf(v[i]));
                }
            }
        }
    }
}

proof fn lemma_values_yield()
    ensures
        yields(ext::label_rule(), |b: Seq<u8>| ext::is_label(b)),
        yields(ext::extension_value_rule(), |v: ValueView| ext::value_wf(v)),
        yields(
            ext::option_rule(),
            |p: (Seq<u8>, Option<ValueView>)|
                ext::is_label(p.0) && (p.1 matches Some(v) ==> ext::value_wf(v)),
        ),
{
    reveal(ext::label_rule);
    reveal(ext::extension_value_rule);
    reveal(ext::option_rule);
    lemma_strings_yield();
    lemma_components_yield(COMPONENT_DEPTH as nat);
    let p = ext::component_rule(COMPONENT_DEPTH as nat);
    let wf = |c: ComponentView| ext::component_wf(c, COMPONENT_DEPTH as nat);
    assert(yields(p, wf));
    lemma_parens_yield(p, wf);
    assert forall|s: Seq<u8>| (#[trigger] g::paren_list0(p)(s)) matches Outcome::Done(
        _,
        v,
    ) ==> ext::value_wf(ValueView::List(v)) by {
        if let Outcome::Done(_, v) = g::paren_list0(p)(s) {
            assert forall|i: int| 0 <= i < v.len() implies ext::component_wf(
                #[trigger] v[i],
                COMPONENT_DEPTH as nat,
            ) by {
                assert(wf(v[i]));
            }
        }
    }
}

proof fn lemma_search_returns_yield()
    ensures
        yields(ext::search_return_rule(), |v: SearchReturnView| ext::search_return_wf(v)),
        yields(ext::extended_search_rule(), |v: BodyView| v is SearchExtended && command::body_wf(v)),
{
    reveal(ext::search_return_rule);
    reveal(ext::extended_search_rule);
    lemma_values_yield();
    lemma_criteria_yield();
    lemma_strings_yield();
    assert forall|s: Seq<u8>| (#[trigger] ext::search_return_rule()(s)) matches Outcome::Done(
        _,
        v,
    ) ==> ext::search_return_wf(v) by {
        if let Outcome::Done(_, v) = ext::search_return_rule()(s) {
            if !(v is Extension) {
                ext::lemma_known_search_returns(v);
            }
        }
    }
    lemma_parens_yield(ext::search_return_rule(), |v: SearchReturnView| ext::search_return_wf(v));
}

proof fn lemma_search_data_yields()
    ensures
        yields(ext::search_data_rule(), |d: SearchReturnDataView| ext::search_data_wf(d)),
{
    reveal(ext::search_data_rule);
    lemma_values_yield();
}

/// The first word of data is what the input starts with.
proof fn lemma_search_data_starts(s: Seq<u8>)
    ensures
        ext::search_data_rule()(s) matches Outcome::Done(_, d) ==> d.name.len() <= s.len()
            && s.take(d.name.len() as int) == d.name,
{
    reveal(ext::search_data_rule);
    reveal(ext::label_rule);
    reveal(strings::atom_rule);
    g::lemma_run_length(s, |x: u8| ascii::is_atom_char(x));
}

proof fn lemma_esearch_yields()
    ensures
        yields(
            ext::esearch_rule(),
            |d: DataView|
                d matches DataView::ESearch { tag, uid, items } && ext::esearch_wf(
                    tag,
                    uid,
                    items,
                ),
        ),
{
    reveal(ext::esearch_rule);
    lemma_strings_yield();
    lemma_search_data_yields();
    let p = ext::search_data_rule();
    let wf = |d: SearchReturnDataView| ext::search_data_wf(d);
    lemma_lists_yield(g::text(" "), p, wf);
    assert forall|s: Seq<u8>| g::word(" UID")(s) is Reject && (#[trigger] g::repeated(
        g::text(" "),
        p,
    )(s)) is Done implies ({
        let items = g::repeated(g::text(" "), p)(s)->Done_1;
        items.len() > 0 ==> !(items[0].name.len() >= 3 && ascii::same_word(
            items[0].name.take(3),
            ascii::bytes_of("UID"),
        ))
    }) by {
        reveal_strlit(" ");
        reveal_strlit(" UID");
        reveal_strlit("UID");
        let items = g::repeated(g::text(" "), p)(s)->Done_1;
        if items.len() > 0 {
            let r = s.skip(1);
            lemma_search_data_starts(r);
            let name = items[0].name;
            assert(s.take(1) =~= ascii::bytes_of(" "));
            assert(g::text(" ")(s) == Outcome::Done(r, ()));
            assert(p(r) matches Outcome::Done(_, d) && d == items[0]);
            if name.len() >= 3 && ascii::same_word(name.take(3), ascii::bytes_of("UID")) {
                let head = s.take(4);
                assert forall|i: int| 0 <= i < 4 implies ascii::upper(#[trigger] head[i])
                    == ascii::upper(ascii::bytes_of(" UID")[i]) by {
                    if i == 0 {
                        assert(s.take(1)[0] == s[0]);
                    } else {
                        assert(r.take(name.len() as int)[i - 1] == r[i - 1]);
                        assert(head[i] == name.take(3)[i - 1]);
                        assert(ascii::uppercase(name.take(3))[i - 1] == ascii::uppercase(
                            ascii::bytes_of("UID"),
                        )[i - 1]);
                    }
                }
                assert(ascii::uppercase(head) =~= ascii::uppercase(ascii::bytes_of(" UID")));
            }
        }
    }
    assert forall|s: Seq<u8>| (#[trigger] g::repeated(g::text(" "), p)(s)) matches Outcome::Done(
        _,
        v,
    ) ==> forall|i: int| 0 <= i < v.len() ==> ext::search_data_wf(#[trigger] v[i]) by {
        if let Outcome::Done(_, v) = g::repeated(g::text(" "), p)(s) {
            assert forall|i: int| 0 <= i < v.len() implies ext::search_data_wf(#[trigger] v[i]) by {
                assert(wf(v[i]));
            }
        }
    }
}

/// How a component is read from its first byte on.
proof fn lemma_component_text(depth: nat, s: Seq<u8>)
    requires
        depth >= 1,
    ensures
        match ext::component_rule(depth)(s) {
            Outcome::Done(r, ComponentView::String(StringView::Atom(b))) => s == b + r && r.len() > 0
                && b.len() > 0 && !ascii::is_astring_char(r[0]),
            Outcome::Reject => s.len() > 0 && !ascii::is_alpha(s[0]),
            _ => true,
        },
{
    reveal_with_fuel(ext::component_rule, 1);
    reveal(strings::astring_rule);
    lemma_strings_yield();
    let class = |x: u8| ascii::is_astring_char(x);
    g::lemma_run_length(s, class);
    let n = g::run_length(s, class) as int;
    if n < s.len() {
        assert(s =~= s.take(n) + s.skip(n));
        assert(s.skip(n)[0] == s[n]);
    }
    if s.len() > 0 && ascii::is_alpha(s[0]) {
        reveal_strlit("(");
        reading::lemma_tag_rejects(ascii::bytes_of("("), s);
        assert(class(s[0]));
        assert(n > 0);
    }
}

/// A component that names a status item is read as one.
proof fn lemma_status_component(s: Seq<u8>)
    ensures
        match ext::component_rule(COMPONENT_DEPTH as nat)(s) {
            Outcome::Done(r, c) => ext::is_status_name(c) ==> exists|n: StatusDataItemName|
                status::status_att_rule()(s) == Outcome::Done(r, n),
            Outcome::Reject => status::status_att_rule()(s) is Reject,
            _ => true,
        },
{
    lemma_component_text(COMPONENT_DEPTH as nat, s);
    match ext::component_rule(COMPONENT_DEPTH as nat)(s) {
        Outcome::Done(r, c) => {
            if ext::is_status_name(c) {
                let b = c->String_0->Atom_0;
                let n = choose|n: StatusDataItemName|
                    ascii::same_word(b, #[trigger] status::status_text(n));
                status::lemma_status_att_on_word(b, r);
                assert(status::status_att_rule()(s) == Outcome::Done(r, n));
            }
        },
        Outcome::Reject => {
            status::lemma_status_att_rejects(s);
        },
        _ => {},
    }
}

proof fn lemma_status_components(s: Seq<u8>, r: Seq<u8>, v: Seq<ComponentView>)
    requires
        g::repeated_from(g::text(" "), ext::component_rule(COMPONENT_DEPTH as nat), s)
            == Outcome::Done(r, v),
        forall|i: int| 0 <= i < v.len() ==> ext::is_status_name(#[trigger] v[i]),
    ensures
        g::repeated_from(g::text(" "), status::status_att_rule(), s) matches Outcome::Done(r2, _)
            && r2 == r,
    decreases s.len(),
{
    let sep = g::text(" ");
    let p = ext::component_rule(COMPONENT_DEPTH as nat);
    let q = status::status_att_rule();
    if let Outcome::Done(x, _) = sep(s) {
        lemma_status_component(x);
        if let Outcome::Done(y, c) = p(x) {
            let xs = g::repeated_from(sep, p, y)->Done_1;
            assert(v == seq![c] + xs);
            assert(v[0] == c);
            assert(ext::is_status_name(v[0]));
            assert forall|i: int| 0 <= i < xs.len() implies ext::is_status_name(
                #[trigger] xs[i],
            ) by {
                assert(v[i + 1] == xs[i]);
            }
            lemma_status_components(y, r, xs);
            let n = choose|n: StatusDataItemName| q(x) == Outcome::Done(y, n);
            let more = g::repeated_from(sep, q, y);
            assert(g::repeated_from(sep, q, s) == Outcome::Done(r, seq![n] + more->Done_1));
        }
    }
}

/// A list of status items is read as one.
proof fn lemma_status_list(s: Seq<u8>)
    ensures
        ext::extension_value_rule()(s) matches Outcome::Done(_, p) && ext::names_status_items(p)
            ==> g::paren_list1(status::status_att_rule())(s) is Done,
{
    reveal(ext::extension_value_rule);
    reveal(ext::names_status_items);
    let sep = g::text(" ");
    let p = ext::component_rule(COMPONENT_DEPTH as nat);
    let q = status::status_att_rule();
    if let Outcome::Done(_, value) = ext::extension_value_rule()(s) {
        if ext::names_status_items(value) {
            let v = value->List_0;
            let x = g::text("(")(s)->Done_0;
            lemma_status_component(x);
            assert(g::separated_list0(sep, p)(x) matches Outcome::Done(_, w) && w == v);
            let y = p(x)->Done_0;
            let c = p(x)->Done_1;
            let xs = g::repeated_from(sep, p, y)->Done_1;
            assert(v == seq![c] + xs);
            assert(v[0] == c);
            assert(ext::is_status_name(v[0]));
            assert forall|i: int| 0 <= i < xs.len() implies ext::is_status_name(
                #[trigger] xs[i],
            ) by {
                assert(v[i + 1] == xs[i]);
            }
            lemma_status_components(y, g::repeated_from(sep, p, y)->Done_0, xs);
        }
    }
}

proof fn lemma_list_returns_yield()
    ensures
        yields(ext::list_return_rule(), |v: ListReturnView| ext::list_return_wf(v)),
{
    reveal(ext::list_return_rule);
    lemma_values_yield();
    lemma_parens_yield(status::status_att_rule(), |n: StatusDataItemName| true);
    assert forall|s: Seq<u8>| (#[trigger] ext::list_return_rule()(s)) matches Outcome::Done(
        _,
        v,
    ) ==> ext::list_return_wf(v) by {
        if let Outcome::Done(_, v) = ext::list_return_rule()(s) {
            if v is Subscribed || v is Children || v is SpecialUse {
                ext::lemma_known_list_returns(v);
            } else if v is Extension {
                lemma_option_is_no_status(s);
            }
        }
    }
}

/// An option that is read as such, and not as the STATUS option, names no
/// status items under that name.
proof fn lemma_option_is_no_status(s: Seq<u8>)
    ensures
        ext::status_option_rule()(s) is Reject && (ext::option_rule()(s) matches Outcome::Done(
            _,
            p,
        ) && ascii::same_word(p.0, ascii::bytes_of("STATUS"))) ==> (
        ext::option_rule()(s)->Done_1.1 matches Some(v) ==> !ext::names_status_items(v)),
{
    if let Outcome::Done(_, o) = ext::option_rule()(s) {
        if ascii::same_word(o.0, ascii::bytes_of("STATUS")) && o.1 is Some {
            reveal(ext::option_rule);
            reveal(ext::label_rule);
            reveal(strings::atom_rule);
            reveal_strlit(" ");
            reveal_strlit("STATUS");
            reveal_strlit("STATUS ");
            let class = |x: u8| ascii::is_atom_char(x);
            g::lemma_run_length(s, class);
            let n = g::run_length(s, class) as int;
            let r = s.skip(n);
            let name = s.take(n);
            assert(o.0 == name);
            assert(ascii::uppercase(name).len() == name.len());
            assert(ascii::uppercase(ascii::bytes_of("STATUS")).len() == 6);
            assert(n == 6);
            assert(r.take(1) =~= ascii::bytes_of(" "));
            assert(r[0] == r.take(1)[0]);
            let head = s.take(7);
            assert forall|i: int| 0 <= i < 7 implies ascii::upper(#[trigger] head[i])
                == ascii::upper(ascii::bytes_of("STATUS ")[i]) by {
                if i < 6 {
                    assert(head[i] == name[i]);
                    assert(ascii::uppercase(name)[i] == ascii::uppercase(
                        ascii::bytes_of("STATUS"),
                    )[i]);
                } else {
                    assert(head[6] == r[0]);
                }
            }
            assert(ascii::uppercase(head) =~= ascii::uppercase(ascii::bytes_of("STATUS ")));
            let t = s.skip(7);
            assert(r.skip(1) =~= t);
            assert(g::word("STATUS ")(s) == Outcome::Done(t, ()));
            assert(ext::extension_value_rule()(t) matches Outcome::Done(_, v) && Some(v) == o.1);
            lemma_status_list(t);
        }
    }
}

proof fn lemma_list_yields()
    ensures
        yields(ext::list_rule(), |v: BodyView| command::body_wf(v)),
{
    reveal(ext::terminated_selection_rule);
    reveal(ext::list_rule);
    lemma_values_yield();
    lemma_list_returns_yield();
    lemma_mailboxes_yield();
    lemma_parens_yield(ext::label_rule(), |b: Seq<u8>| ext::is_label(b));
    lemma_parens_yield(
        mailbox::list_mailbox_rule(),
        |v: StringView| mailbox::list_mailbox_wf(v),
    );
    lemma_parens_yield(ext::list_return_rule(), |v: ListReturnView| ext::list_return_wf(v));
    assert(yields(ext::terminated_selection_rule(), |v: Seq<Seq<u8>>| ext::labels_wf(v)));
    assert(yields(ext::patterns_rule(), |p: (Seq<StringView>, bool)| ext::patterns_wf(p.0)));
    assert(yields(
        g::paren_list0(ext::list_return_rule()),
        |v: Seq<ListReturnView>| ext::list_returns_wf(v),
    ));
    assert(yields(
        ext::list_parts_rule(),
        |p: ext::ListParts|
            (p.selection matches Some(v) ==> ext::labels_wf(v)) && mailbox::mailbox_wf(p.reference)
                && ext::patterns_wf(p.patterns) && (p.return_options matches Some(v)
                ==> ext::list_returns_wf(v)),
    ));
}

proof fn lemma_list_data_yields()
    ensures
        yields(
            ext::list_data_rule(),
            |d: DataView| response::data_wf(d),
        ),
{
    reveal(ext::list_extension_rule);
    reveal(ext::list_data_rule);
    lemma_values_yield();
    lemma_strings_yield();
    lemma_mailboxes_yield();
    lemma_parens_yield(
        ext::list_extension_rule(),
        |e: ListExtensionView| ext::list_extension_wf(e),
    );
}

// -------------------------------------------------------------------- commands

proof fn lemma_modifiers_yield()
    ensures
        yields(command::store_modifier_rule(), |m: StoreModifier| command::store_modifier_wf(m)),
        yields(command::fetch_modifier_rule(), |m: FetchModifier| command::fetch_modifier_wf(m)),
        yields(
            command::select_parameter_rule(),
            |p: SelectParameterView| command::select_parameter_wf(p),
        ),
{
    reveal(command::store_modifier_rule);
    reveal(command::fetch_modifier_rule);
    reveal(command::match_data_rule);
    reveal(command::qresync_rule);
    reveal(command::select_parameter_rule);
    lemma_numbers_yield();
    lemma_sequences_yield();
    assert(yields(
        command::match_data_rule(),
        |m: (Seq<Sequence>, Seq<Sequence>)| sequence::set_wf(m.0) && sequence::set_wf(m.1),
    ));
    assert(yields(
        command::qresync_rule(),
        |p: SelectParameterView| command::select_parameter_wf(p),
    ));
}

proof fn lemma_append_yields()
    ensures
        yields(command::append_rule(), |v: BodyView| command::body_wf(v)),
{
    reveal(command::message_rule);
    lemma_strings_yield();
    lemma_mailboxes_yield();
    lemma_flags_yield();
    lemma_dates_yield();
    assert(yields(command::message_rule(), |m: MessageView| command::message_wf(m)));
}

proof fn lemma_searches_yield(uid: bool)
    ensures
        yields(command::search_rule(uid), |v: BodyView| command::body_wf(v)),
        yields(command::sort_rule(uid), |v: BodyView| command::body_wf(v)),
        yields(command::thread_rule(uid), |v: BodyView| command::body_wf(v)),
{
    lemma_strings_yield();
    lemma_criteria_yield();
    lemma_parens_yield(command::sort_criterion_rule(), |c: SortCriterion| true);
}

proof fn lemma_fetch_yields(uid: bool)
    ensures
        yields(command::fetch_rule(uid), |v: BodyView| command::body_wf(v)),
{
    lemma_sequences_yield();
    lemma_item_names_yield();
    lemma_modifiers_yield();
    lemma_parens_yield(
        command::fetch_modifier_rule(),
        |m: FetchModifier| command::fetch_modifier_wf(m),
    );
}

proof fn lemma_store_yields(uid: bool)
    ensures
        yields(command::store_rule(uid), |v: BodyView| command::body_wf(v)),
{
    lemma_sequences_yield();
    lemma_flags_yield();
    lemma_modifiers_yield();
    lemma_parens_yield(
        command::store_modifier_rule(),
        |m: StoreModifier| command::store_modifier_wf(m),
    );
    lemma_lists_yield(g::text(" "), flag::flag_rule(), |f: FlagView| flag::flag_wf(f));
    assert(yields(command::store_flags_rule(), |v: Seq<FlagView>| flag::flags_wf(v)));
}

proof fn lemma_copies_yield(uid: bool)
    ensures
        yields(command::copy_rule(uid), |v: BodyView| command::body_wf(v)),
        yields(command::move_rule(uid), |v: BodyView| command::body_wf(v)),
{
    lemma_sequences_yield();
    lemma_mailboxes_yield();
}

proof fn lemma_uid_yields()
    ensures
        yields(command::uid_rule(), |v: BodyView| command::body_wf(v)),
{
    reveal(command::uid_rule);
    lemma_search_returns_yield();
    lemma_sequences_yield();
    lemma_searches_yield(true);
    lemma_fetch_yields(true);
    lemma_store_yields(true);
    lemma_copies_yield(true);
    assert forall|w: Seq<u8>, s: Seq<u8>|
        (#[trigger] command::uid_arguments_rule(w)(s)) matches Outcome::Done(
            _,
            v,
        ) ==> command::body_wf(v) by {}
}

proof fn lemma_mailbox_arguments_yield(n: CommandName)
    requires
        n is Login || n is Select || n is Examine || n is Create || n is Delete || n is Subscribe
            || n is Unsubscribe || n is GetQuotaRoot || n is Rename || n is Lsub || n is Status,
    ensures
        yields(command::arguments_rule(n), |v: BodyView| command::body_wf(v)),
{
    lemma_strings_yield();
    lemma_mailboxes_yield();
    lemma_modifiers_yield();
    lemma_parens_yield(
        command::select_parameter_rule(),
        |p: SelectParameterView| command::select_parameter_wf(p),
    );
}

proof fn lemma_authenticate_yields()
    ensures
        yields(command::authenticate_rule(), |v: BodyView| command::body_wf(v)),
{
    reveal(command::base64_rule);
    reveal(command::authenticate_rule);
    lemma_strings_yield();
    lemma_runs_yield(|b: u8| command::is_base64_char(b));
}

proof fn lemma_extension_arguments_yield(n: CommandName)
    requires
        n is Enable || n is Authenticate || n is Compress || n is GetQuota || n is SetQuota || n is Id
            || n is GetMetadata || n is SetMetadata,
    ensures
        yields(command::arguments_rule(n), |v: BodyView| command::body_wf(v)),
{
    lemma_authenticate_yields();
    reveal(command::get_metadata_option_rule);
    reveal(command::quota_rule);
    reveal(command::id_field_rule);
    reveal(command::entry_value_rule);
    reveal(response::nstring8_rule);
    lemma_strings_yield();
    lemma_numbers_yield();
    lemma_mailboxes_yield();
    lemma_lists_yield(g::text(" "), strings::atom_rule(), |b: Seq<u8>| strings::atom_wf(b));
    lemma_parens_yield(command::quota_rule(), |q: QuotaSetView| command::quota_wf(q));
    lemma_parens_yield(command::id_field_rule(), |f: IdFieldView| command::id_field_wf(f));
    lemma_parens_yield(command::entry_value_rule(), |e: EntryValueView| command::entry_value_wf(e));
    lemma_parens_yield(strings::astring_rule(), |v: StringView| strings::string_wf(v));
    assert(yields(
        command::entries_rule(),
        |v: Seq<StringView>| v.len() > 0 && args::all_wf(v, |s: StringView| strings::string_wf(s)),
    ));
}

proof fn lemma_arguments_yield(n: CommandName)
    ensures
        yields(command::arguments_rule(n), |v: BodyView| command::body_wf(v)),
{
    if n is Login || n is Select || n is Examine || n is Create || n is Delete || n is Subscribe
        || n is Unsubscribe || n is GetQuotaRoot || n is Rename || n is Lsub || n is Status {
        lemma_mailbox_arguments_yield(n);
    } else if n is Enable || n is Authenticate || n is Compress || n is GetQuota || n is SetQuota || n is Id
        || n is GetMetadata || n is SetMetadata {
        lemma_extension_arguments_yield(n);
    } else {
        lemma_append_yields();
        lemma_searches_yield(false);
        lemma_fetch_yields(false);
        lemma_store_yields(false);
        lemma_copies_yield(false);
        lemma_uid_yields();
    }
}

proof fn lemma_commands_yield()
    ensures
        yields(command::command_rule(), |c: CommandView| command::command_wf(c)),
{
    reveal(command::body_rule);
    reveal(command::command_rule);
    lemma_search_returns_yield();
    lemma_list_yields();
    lemma_runs_yield(|b: u8| ascii::is_tag_char(b));
    assert forall|w: Seq<u8>, s: Seq<u8>|
        (#[trigger] command::named_arguments_rule(w)(s)) matches Outcome::Done(
            _,
            v,
        ) ==> command::body_wf(v) by {
        if let Some(n) = command::command_name_of(w) {
            lemma_arguments_yield(n);
        }
    }
    assert(yields(command::body_rule(), |v: BodyView| command::body_wf(v)));
}

/// A command that was read is written and read again as it was, whatever
/// follows.
pub proof fn law_decoded_command_survives(input: Seq<u8>, rest: Seq<u8>)
    requires
        command::command_rule()(input) is Done,
    ensures
        ({
            let c = command::command_rule()(input)->Done_1;
            command::command_wf(c) && command::command_rule()(
                encode::flat(command::command_tokens(c)) + rest,
            ) == Outcome::Done(rest, c)
        }),
{
    lemma_commands_yield();
    let c = command::command_rule()(input)->Done_1;
    command::law_command_is_read_back(c, rest);
}

/// A SEARCH with return options that was read is written and read again as it
/// was.
pub proof fn law_decoded_extended_search_survives(input: Seq<u8>, rest: Seq<u8>)
    requires
        ext::extended_search_rule()(input) is Done,
        args::line_end(rest),
    ensures
        ({
            let v = ext::extended_search_rule()(input)->Done_1;
            command::body_wf(v) && ext::extended_search_rule()(
                encode::flat(command::body_tokens(v)) + rest,
            ) == Outcome::Done(rest, v)
        }),
{
    let v = ext::extended_search_rule()(input)->Done_1;
    lemma_search_returns_yield();
    assert(v matches BodyView::SearchExtended { uid, .. } && !uid) by {
        reveal(ext::extended_search_rule);
    }
    if let BodyView::SearchExtended { return_options, charset, criteria, .. } = v {
        ext::lemma_extended_search_reads(return_options, charset, criteria, rest);
    }
}

/// A LIST command that was read is written and read again as it was.
pub proof fn law_decoded_list_survives(input: Seq<u8>, rest: Seq<u8>)
    requires
        ext::list_rule()(input) is Done,
        args::line_end(rest),
    ensures
        ({
            let v = ext::list_rule()(input)->Done_1;
            command::body_wf(v) && ext::list_rule()(encode::flat(command::body_tokens(v)) + rest)
                == Outcome::Done(rest, v)
        }),
{
    let v = ext::list_rule()(input)->Done_1;
    lemma_list_yields();
    assert(v is List || v is ListExtended) by {
        reveal(ext::list_rule);
    }
    match v {
        BodyView::List { reference, mailbox_wildcard } => {
            let w = encode::word("LIST ");
            let m = mailbox::mailbox_tokens(reference);
            let p = strings::string_tokens(mailbox_wildcard);
            ext::lemma_plain_list_reads(reference, mailbox_wildcard, rest);
            encode::lemma_flat_word("LIST ");
            encode::lemma_flat_word(" ");
            args::lemma_flat_then(w + m, args::argument(p), rest);
            args::lemma_flat_then(w, m, encode::flat(args::argument(p)) + rest);
            args::lemma_flat_then(encode::word(" "), p, rest);
        },
        BodyView::ListExtended { selection, reference, patterns, return_options } => {
            ext::lemma_extended_list_reads(selection, reference, patterns, return_options, rest);
        },
        _ => {},
    }
}

// ------------------------------------------------------------------- responses

/// LIST data with extensions that was read is written behind `* ` and read again
/// as it was, whatever follows.
pub proof fn law_decoded_list_data_survives(input: Seq<u8>, rest: Seq<u8>)
    requires
        ext::list_data_rule()(input) is Done,
    ensures
        ({
            let d = ext::list_data_rule()(input)->Done_1;
            let text = encode::flat(response::data_tokens(d));
            response::data_wf(d) && text == ascii::bytes_of("* ") + text.skip(2)
                && ext::list_data_rule()(text.skip(2) + rest) == Outcome::Done(rest, d)
        }),
{
    let d = ext::list_data_rule()(input)->Done_1;
    lemma_list_data_yields();
    assert(d is ListExtended) by {
        reveal(ext::list_data_rule);
    }
    if let DataView::ListExtended { items, delimiter, mailbox, extensions } = d {
        let text = encode::flat(ext::list_data_tokens(items, delimiter, mailbox, extensions));
        ext::lemma_list_data_text(items, delimiter, mailbox, extensions);
        reveal_strlit("* ");
        assert(text =~= ascii::bytes_of("* ") + text.skip(2));
        ext::lemma_list_data_reads(items, delimiter, mailbox, extensions, text.skip(2), rest);
    }
}

/// Data of an extended search that was read is written behind `* ` and read
/// again as it was.
pub proof fn law_decoded_esearch_survives(input: Seq<u8>, rest: Seq<u8>)
    requires
        ext::esearch_rule()(input) is Done,
        args::line_end(rest),
    ensures
        ({
            let d = ext::esearch_rule()(input)->Done_1;
            let text = encode::flat(response::data_tokens(d));
            response::data_wf(d) && text == ascii::bytes_of("* ") + text.skip(2)
                && ext::esearch_rule()(text.skip(2) + rest) == Outcome::Done(rest, d)
        }),
{
    let d = ext::esearch_rule()(input)->Done_1;
    lemma_esearch_yields();
    if let DataView::ESearch { tag, uid, items } = d {
        let text = encode::flat(ext::esearch_tokens(tag, uid, items));
        ext::lemma_esearch_text(tag, uid, items);
        reveal_strlit("* ");
        assert(text =~= ascii::bytes_of("* ") + text.skip(2));
        assert(text.skip(2) =~= ascii::bytes_of("ESEARCH") + ext::esearch_tail(tag, uid, items));
        ext::lemma_esearch_reads(tag, uid, items, rest);
    }
}

proof fn lemma_addresses_yield()
    ensures
        yields(
            structure::addresses_rule(),
            |v: Seq<AddressView>| structure::addresses_wf(v),
        ),
{
    reveal(structure::address_rule);
    reveal(structure::addresses_rule);
    lemma_strings_yield();
    assert(yields(structure::address_rule(), |a: AddressView| structure::address_wf(a)));
    lemma_lists_yield(
        g::text("("),
        structure::address_rule(),
        |a: AddressView| structure::address_wf(a),
    );
}

proof fn lemma_envelope_yields()
    ensures
        yields(structure::envelope_rule(), |e: EnvelopeView| structure::envelope_wf(e)),
{
    reveal(structure::envelope_rule);
    lemma_strings_yield();
    lemma_addresses_yield();
}

proof fn lemma_fields_yield()
    ensures
        yields(body::parameters_rule(), |v: Seq<ParameterView>| body::parameters_wf(v)),
        yields(body::fields_rule(), |f: FieldsView| body::fields_wf(f)),
        yields(body::disposition_rule(), |d: Option<DispositionView>| body::disposition_wf(d)),
        yields(body::language_rule(), |l: LanguageView| body::language_wf(l)),
{
    reveal(body::parameter_rule);
    reveal(body::parameters_rule);
    reveal(body::fields_rule);
    reveal(body::disposition_rule);
    reveal(body::language_rule);
    lemma_strings_yield();
    let wf = |p: ParameterView| body::parameter_wf(p);
    assert(yields(body::parameter_rule(), wf));
    lemma_parens_yield(body::parameter_rule(), wf);
    lemma_parens_yield(strings::string_rule(), |s: StringView| strings::istring_wf(s));
    assert(yields(body::parameters_rule(), |v: Seq<ParameterView>| body::parameters_wf(v)));
}

proof fn lemma_body_extensions_yield(depth: nat)
    ensures
        yields(
            body::extension_rule(depth),
            |e: BodyExtensionView| depth >= 1 && body::extension_wf(e, depth),
        ),
    decreases depth,
{
    reveal_with_fuel(body::extension_rule, 1);
    if depth > 0 {
        let inner = body::extension_rule((depth - 1) as nat);
        let wf = |e: BodyExtensionView| depth >= 2 && body::extension_wf(e, (depth - 1) as nat);
        lemma_body_extensions_yield((depth - 1) as nat);
        lemma_strings_yield();
        lemma_numbers_yield();
        assert(yields(inner, wf));
        lemma_parens_yield(inner, wf);
        assert forall|s: Seq<u8>| (#[trigger] g::paren_list1(inner)(s)) matches Outcome::Done(
            _,
            v,
        ) ==> body::extension_wf(BodyExtensionView::List(v), depth) by {
            if let Outcome::Done(_, v) = g::paren_list1(inner)(s) {
                assert(wf(v[0]));
                assert forall|i: int| 0 <= i < v.len() implies body::extension_wf(
                    #[trigger] v[i],
                    (depth - 1) as nat,
                ) by {
                    assert(wf(v[i]));
                }
            }
        }
    }
}

proof fn lemma_part_data_yields()
    ensures
        yields(body::single_part_rule(), |d: SinglePartView| body::single_part_wf(d)),
        yields(body::multi_part_rule(), |d: MultiPartView| body::multi_part_wf(d)),
{
    reveal(body::location_rule);
    reveal(body::language_data_rule);
    reveal(body::disposition_data_rule);
    reveal(body::single_part_rule);
    reveal(body::multi_part_rule);
    lemma_strings_yield();
    lemma_fields_yield();
    lemma_body_extensions_yield(BODY_DEPTH as nat);
    let we = |e: BodyExtensionView| body::extension_wf(e, BODY_DEPTH as nat);
    assert(yields(body::extension_rule(BODY_DEPTH as nat), we));
    lemma_lists_yield(g::text(" "), body::extension_rule(BODY_DEPTH as nat), we);
    assert(yields(body::location_rule(), |l: LocationView| body::location_wf(l)));
    assert(yields(body::language_data_rule(), |d: LanguageDataView| body::language_data_wf(d)));
    assert(yields(
        body::disposition_data_rule(),
        |d: DispositionDataView| body::disposition_data_wf(d),
    ));
}

proof fn lemma_single_yields(depth: nat, inner: Rule<StructureView>)
    requires
        depth >= 1,
        yields(inner, |b: StructureView| depth >= 2 && body::inner_wf(b, (depth - 1) as nat)),
    ensures
        yields(body::single_rule(inner), |b: StructureView| body::inner_wf(b, depth)),
{
    lemma_strings_yield();
    lemma_numbers_yield();
    lemma_fields_yield();
    lemma_part_data_yields();
    lemma_envelope_yields();
    assert(yields(
        body::media_rule(),
        |m: MediaTuple|
            strings::istring_wf(m.0.0) && strings::istring_wf(m.0.1) && body::fields_wf(m.1),
    ));
    assert(yields(
        body::message_rule(inner),
        |m: MessageTuple|
            structure::envelope_wf(m.0) && depth >= 2 && body::inner_wf(m.1.0, (depth - 1) as nat)
                && m.1.1 <= NUMBER63_MAX,
    ));
}

proof fn lemma_multi_yields(depth: nat, inner: Rule<StructureView>)
    requires
        depth >= 1,
        yields(inner, |b: StructureView| depth >= 2 && body::inner_wf(b, (depth - 1) as nat)),
    ensures
        yields(body::multi_rule(inner), |b: StructureView| body::inner_wf(b, depth)),
{
    let wf = |b: StructureView| depth >= 2 && body::inner_wf(b, (depth - 1) as nat);
    lemma_strings_yield();
    lemma_part_data_yields();
    lemma_lists_yield(g::text("("), inner, wf);
    assert forall|s: Seq<u8>| (#[trigger] shapes::row(inner)(s)) matches Outcome::Done(_, v)
        ==> depth >= 2 && v.len() > 0 && forall|i: int|
        0 <= i < v.len() ==> body::inner_wf(#[trigger] v[i], (depth - 1) as nat) by {
        if let Outcome::Done(_, v) = shapes::row(inner)(s) {
            assert(g::repeated(g::text("("), inner)(s) is Done);
            assert(wf(v[0]));
            assert forall|i: int| 0 <= i < v.len() implies body::inner_wf(
                #[trigger] v[i],
                (depth - 1) as nat,
            ) by {
                assert(wf(v[i]));
            }
        }
    }
}

proof fn lemma_inner_bodies_yield(depth: nat)
    ensures
        yields(
            body::inner_rule(depth),
            |b: StructureView| depth >= 1 && body::inner_wf(b, depth),
        ),
    decreases depth,
{
    reveal_with_fuel(body::inner_rule, 1);
    if depth > 0 {
        let inner = body::inner_rule((depth - 1) as nat);
        lemma_inner_bodies_yield((depth - 1) as nat);
        assert(yields(
            inner,
            |b: StructureView| depth >= 2 && body::inner_wf(b, (depth - 1) as nat),
        ));
        lemma_single_yields(depth, inner);
        lemma_multi_yields(depth, inner);
    }
}

proof fn lemma_bodies_yield()
    ensures
        yields(body::body_rule(), |b: StructureView| body::body_wf(b)),
{
    reveal(body::body_rule);
    lemma_inner_bodies_yield(BODY_DEPTH as nat);
}

proof fn lemma_items_yield()
    ensures
        yields(response::item_rule(), |i: ItemView| response::item_wf(i)),
{
    reveal(response::nstring8_rule);
    reveal(response::body_item_rule);
    reveal(response::modseq_item_rule);
    reveal(response::item_rule);
    lemma_strings_yield();
    lemma_numbers_yield();
    lemma_flags_yield();
    lemma_dates_yield();
    lemma_sections_yield();
    lemma_envelope_yields();
    lemma_bodies_yield();
    assert(yields(response::nstring8_rule(), |v: NString8View| response::nstring8_wf(v)));
    assert(yields(response::body_item_rule(), |i: ItemView| response::item_wf(i)));
    assert(yields(response::modseq_item_rule(), |n: u64| 0 < n <= NUMBER63_MAX));
    assert forall|w: Seq<u8>, s: Seq<u8>|
        (#[trigger] response::item_value_rule(w)(s)) matches Outcome::Done(
            _,
            i,
        ) ==> response::item_wf(i) by {
        if let Some(n) = fetch::plain_item_of(w) {
            assert(response::plain_item_rule(n)(s) matches Outcome::Done(_, i)
                ==> response::item_wf(i));
        }
    }
}

proof fn lemma_resp_text_yields()
    ensures
        yields(response::resp_text_rule(), |x: RespTextView| response::resp_text_wf(x)),
        yields(response::status_body_rule(), |b: StatusBodyView| response::status_body_wf(b)),
{
    reveal(response::resp_text_code_rule);
    reveal(response::text_rule);
    reveal(response::resp_text_rule);
    reveal(response::status_body_rule);
    lemma_strings_yield();
    lemma_numbers_yield();
    lemma_sequences_yield();
    lemma_runs_yield(|b: u8| response::is_code_char(b));
    lemma_runs_yield(|b: u8| ascii::is_text_byte(b));
    lemma_lists_yield(g::text(" "), strings::atom_rule(), |b: Seq<u8>| strings::atom_wf(b));
    assert forall|w: Seq<u8>, s: Seq<u8>|
        strings::atom_wf(w) && (#[trigger] response::code_arguments_rule(w)(s)) is Done implies
        response::code_wf(response::code_arguments_rule(w)(s)->Done_1) by {}
    assert(yields(response::resp_text_code_rule(), |c: CodeView| response::code_wf(c)));
    assert(yields(response::text_rule(), |b: Seq<u8>| response::text_wf(b)));
    assert(response::text_wf(seq![]));
}

proof fn lemma_status_arguments_yield(n: DataName)
    requires
        n is Okay || n is No || n is Bad || n is Bye,
    ensures
        yields(response::data_arguments_rule(n), |r: ResponseView| response::response_wf(r)),
{
    lemma_resp_text_yields();
}

proof fn lemma_mailbox_data_yields(n: DataName)
    requires
        n is List || n is Lsub || n is Status || n is Flags,
    ensures
        yields(response::data_arguments_rule(n), |r: ResponseView| response::response_wf(r)),
{
    reveal(response::status_item_rule);
    lemma_flags_yield();
    lemma_mailboxes_yield();
    lemma_parens_yield(
        response::status_item_rule(),
        |i: StatusDataItem| response::status_value_ok(i.name, i.value),
    );
}

proof fn lemma_found_numbers_yield()
    ensures
        yields(
            answers::search_data_rule(),
            |p: (Seq<u32>, Option<u64>)|
                args::all_wf(p.0, |x: u32| x > 0) && (p.1 matches Some(n) ==> 0 < n
                    <= NUMBER63_MAX),
        ),
{
    lemma_numbers_yield();
    lemma_modseq_yields();
    lemma_lists_yield(g::text(" "), number::nz_number_rule(), |n: u32| n > 0);
}

proof fn lemma_other_data_yields(n: DataName)
    requires
        n is Capability || n is Search || n is Enabled || n is Vanished,
    ensures
        yields(response::data_arguments_rule(n), |r: ResponseView| response::response_wf(r)),
{
    lemma_strings_yield();
    lemma_found_numbers_yield();
    lemma_sequences_yield();
    lemma_lists_yield(g::text(" "), strings::atom_rule(), |b: Seq<u8>| strings::atom_wf(b));
    assert(yields(
        response::atoms_rule(),
        |v: Seq<Seq<u8>>| v.len() > 0 && response::atoms_wf(v),
    ));
}

proof fn lemma_threads_yield(depth: nat)
    ensures
        yields(
            threads::thread_rule(depth),
            |t: ThreadView| depth >= 1 && threads::thread_wf(t, depth),
        ),
    decreases depth,
{
    reveal_with_fuel(threads::thread_rule, 1);
    if depth > 0 {
        let inner = threads::thread_rule((depth - 1) as nat);
        let wf = |t: ThreadView| depth >= 2 && threads::thread_wf(t, (depth - 1) as nat);
        lemma_threads_yield((depth - 1) as nat);
        lemma_numbers_yield();
        assert(yields(inner, wf));
        lemma_lists_yield(g::text("("), inner, wf);
        lemma_lists_yield(g::text(" "), number::nz_number_rule(), |n: u32| n > 0);
        assert forall|s: Seq<u8>| (#[trigger] threads::nested_rule(inner)(s)) matches Outcome::Done(
            _,
            v,
        ) ==> depth >= 2 && v.len() >= 2 && forall|i: int|
            0 <= i < v.len() ==> threads::thread_wf(#[trigger] v[i], (depth - 1) as nat) by {
            if let Outcome::Done(_, v) = threads::nested_rule(inner)(s) {
                assert(g::repeated(g::text("("), inner)(s) is Done);
                assert(wf(v[0]));
                assert forall|i: int| 0 <= i < v.len() implies threads::thread_wf(
                    #[trigger] v[i],
                    (depth - 1) as nat,
                ) by {
                    assert(wf(v[i]));
                }
            }
        }
    }
}

proof fn lemma_namespaces_yield()
    ensures
        yields(answers::namespaces_rule(), |v: Seq<NamespaceView>| answers::namespaces_wf(v)),
{
    reveal(answers::namespace_extension_rule);
    reveal(answers::namespace_rule);
    reveal(answers::namespaces_rule);
    lemma_strings_yield();
    lemma_delimiters_yield();
    lemma_parens_yield(strings::string_rule(), |s: StringView| strings::istring_wf(s));
    let we = |e: NamespaceExtensionView| answers::namespace_extension_wf(e);
    assert(yields(answers::namespace_extension_rule(), we));
    lemma_lists_yield(g::text(" "), answers::namespace_extension_rule(), we);
    let wn = |n: NamespaceView| answers::namespace_wf(n);
    assert(yields(answers::namespace_rule(), wn));
    lemma_lists_yield(g::text("("), answers::namespace_rule(), wn);
}

proof fn lemma_metadata_items_yield()
    ensures
        yields(
            answers::metadata_items_rule(),
            |v: MetadataItemsView| answers::metadata_items_wf(v),
        ),
{
    reveal(answers::metadata_items_rule);
    reveal(command::entry_value_rule);
    reveal(response::nstring8_rule);
    lemma_strings_yield();
    assert(yields(command::entry_value_rule(), |e: EntryValueView| command::entry_value_wf(e)));
    lemma_parens_yield(command::entry_value_rule(), |e: EntryValueView| command::entry_value_wf(e));
    lemma_lists_yield(
        g::text(" "),
        strings::astring_rule(),
        |s: StringView| strings::string_wf(s),
    );
}

proof fn lemma_answer_yields(n: AnswerName)
    ensures
        yields(answers::answer_rule(n), |a: AnswerView| answers::answer_wf(a)),
{
    lemma_strings_yield();
    match n {
        AnswerName::Sort => {
            lemma_found_numbers_yield();
        },
        AnswerName::Thread => {
            let wf = |t: ThreadView| threads::thread_wf(t, THREAD_DEPTH as nat);
            reveal(threads::threads_rule);
            lemma_threads_yield(THREAD_DEPTH as nat);
            assert(yields(threads::thread_rule(THREAD_DEPTH as nat), wf));
            lemma_lists_yield(g::text("("), threads::thread_rule(THREAD_DEPTH as nat), wf);
        },
        AnswerName::Quota => {
            reveal(answers::quota_get_rule);
            lemma_numbers_yield();
            assert(yields(
                answers::quota_get_rule(),
                |q: QuotaGetView| answers::quota_get_wf(q),
            ));
            lemma_parens_yield(
                answers::quota_get_rule(),
                |q: QuotaGetView| answers::quota_get_wf(q),
            );
        },
        AnswerName::QuotaRoot => {
            lemma_mailboxes_yield();
            lemma_lists_yield(
                g::text(" "),
                strings::astring_rule(),
                |s: StringView| strings::string_wf(s),
            );
        },
        AnswerName::Id => {
            reveal(command::id_field_rule);
            assert(yields(command::id_field_rule(), |f: IdFieldView| command::id_field_wf(f)));
            lemma_parens_yield(command::id_field_rule(), |f: IdFieldView| command::id_field_wf(f));
        },
        AnswerName::Metadata => {
            lemma_mailboxes_yield();
            lemma_metadata_items_yield();
        },
        AnswerName::Namespace => {
            lemma_namespaces_yield();
        },
    }
}

proof fn lemma_data_arguments_yield(n: DataName)
    ensures
        yields(response::data_arguments_rule(n), |r: ResponseView| response::response_wf(r)),
{
    if n is Okay || n is No || n is Bad || n is Bye {
        lemma_status_arguments_yield(n);
    } else if n is List || n is Lsub || n is Status || n is Flags {
        lemma_mailbox_data_yields(n);
    } else if let DataName::Answer(k) = n {
        lemma_answer_yields(k);
    } else {
        lemma_other_data_yields(n);
    }
}

proof fn lemma_untagged_yields()
    ensures
        yields(response::untagged_rule(), |r: ResponseView| response::response_wf(r)),
{
    reveal(response::untagged_rule);
    lemma_list_data_yields();
    lemma_esearch_yields();
    lemma_items_yield();
    lemma_parens_yield(response::item_rule(), |i: ItemView| response::item_wf(i));
    assert forall|n: u32, s: Seq<u8>|
        (#[trigger] response::numbered_rule(n)(s)) matches Outcome::Done(
            _,
            r,
        ) ==> response::response_wf(r) by {}
    assert forall|w: Seq<u8>, s: Seq<u8>|
        (#[trigger] response::named_data_rule(w)(s)) matches Outcome::Done(
            _,
            r,
        ) ==> response::response_wf(r) by {
        if let Some(n) = response::data_name_of(w) {
            lemma_data_arguments_yield(n);
        }
    }
}

proof fn lemma_responses_yield()
    ensures
        yields(response::response_rule(), |r: ResponseView| response::response_wf(r)),
{
    reveal(response::response_rule);
    lemma_resp_text_yields();
    lemma_untagged_yields();
    lemma_runs_yield(|b: u8| ascii::is_tag_char(b));
}

/// A response that was read is written and read again as it was, whatever
/// follows.
pub proof fn law_decoded_response_survives(input: Seq<u8>, rest: Seq<u8>)
    requires
        response::response_rule()(input) is Done,
    ensures
        ({
            let r = response::response_rule()(input)->Done_1;
            response::response_wf(r) && response::response_rule()(
                encode::flat(response::response_tokens(r)) + rest,
            ) == Outcome::Done(rest, r)
        }),
{
    lemma_responses_yield();
    let r = response::response_rule()(input)->Done_1;
    response::law_response_is_read_back(r, rest);
}

// ---------------------------------------------------------------------- pieces

/// A command is read only when all of it is there, and what follows it is left
/// over.
pub proof fn law_command_needs_all_of_its_bytes(input: Seq<u8>, n: int, more: Seq<u8>)
    requires
        command::command_rule()(input) is Done,
        0 <= n < input.len() - command::command_rule()(input)->Done_0.len(),
    ensures
        command::command_rule()(input.take(n)) is More,
        command::command_rule()(input + more) == Outcome::Done(
            command::command_rule()(input)->Done_0 + more,
            command::command_rule()(input)->Done_1,
        ),
{
    command::law_commands_stream();
    g::law_cut_input_needs_more(command::command_rule(), input, n);
    g::law_later_input_is_left_alone(command::command_rule(), input, more);
}

/// A response is read only when all of it is there, and what follows it is left
/// over.
pub proof fn law_response_needs_all_of_its_bytes(input: Seq<u8>, n: int, more: Seq<u8>)
    requires
        response::response_rule()(input) is Done,
        0 <= n < input.len() - response::response_rule()(input)->Done_0.len(),
    ensures
        response::response_rule()(input.take(n)) is More,
        response::response_rule()(input + more) == Outcome::Done(
            response::response_rule()(input)->Done_0 + more,
            response::response_rule()(input)->Done_1,
        ),
{
    response::law_responses_stream();
    g::law_cut_input_needs_more(response::response_rule(), input, n);
    g::law_later_input_is_left_alone(response::response_rule(), input, more);
}

} // verus!
