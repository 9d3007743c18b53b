//! The literals in the structure of a message.
use vstd::prelude::*;

use crate::arguments as args;
use crate::body;
use crate::body::{
    BodyExtensionView, DispositionDataView, DispositionView, FieldsTuple, FieldsView,
    LanguageDataView, LanguageView, LocationView, MediaTuple, MessageTuple, MultiPartView,
    ParameterView, SinglePartView, SpecificView, StructureView, BODY_DEPTH,
};
use crate::extensions::rev2 as ext;
use crate::grammar as g;
use crate::grammar::Rule;
use crate::number;
use crate::payloads as of;
use crate::shapes;
use crate::spelling as sp;
use crate::strings;
use crate::strings::StringView;
use crate::structure;
use crate::structure::{EnvelopeView, TwoStrings};

verus! {

// -------------------------------------------------------------------- payloads

pub open spec fn of_parameter(p: ParameterView) -> Seq<Seq<u8>> {
    of::of_string(p.name) + of::of_string(p.value)
}

pub open spec fn of_parameters(v: Seq<ParameterView>) -> Seq<Seq<u8>> {
    sp::gathered(v, |p: ParameterView| of_parameter(p))
}

pub open spec fn of_fields(f: FieldsView) -> Seq<Seq<u8>> {
    of_parameters(f.parameters) + (of::of_two(f.id, f.description) + of::of_string(f.encoding))
}

pub open spec fn of_disposition(d: Option<DispositionView>) -> Seq<Seq<u8>> {
    match d {
        Some(d) => of::of_string(d.kind) + of_parameters(d.parameters),
        None => seq![],
    }
}

pub open spec fn of_language(l: LanguageView) -> Seq<Seq<u8>> {
    match l {
        LanguageView::Single(s) => of::of_optional(s),
        LanguageView::List(v) => of::of_strings(v),
    }
}

pub open spec fn of_extension(e: BodyExtensionView) -> Seq<Seq<u8>>
    decreases e,
{
    match e {
        BodyExtensionView::String(s) => of::of_optional(s),
        BodyExtensionView::Number(_) => seq![],
        BodyExtensionView::List(v) => of_extensions(v),
    }
}

pub open spec fn of_extensions(v: Seq<BodyExtensionView>) -> Seq<Seq<u8>>
    decreases v,
{
    if v.len() == 0 {
        seq![]
    } else {
        of_extensions(v.drop_last()) + of_extension(v[v.len() - 1])
    }
}

pub open spec fn of_location(l: Option<LocationView>) -> Seq<Seq<u8>> {
    match l {
        Some(l) => of::of_optional(l.location) + of_extensions(l.extensions),
        None => seq![],
    }
}

pub open spec fn of_language_data(d: Option<LanguageDataView>) -> Seq<Seq<u8>> {
    match d {
        Some(d) => of_language(d.language) + of_location(d.tail),
        None => seq![],
    }
}

pub open spec fn of_disposition_data(d: Option<DispositionDataView>) -> Seq<Seq<u8>> {
    match d {
        Some(d) => of_disposition(d.disposition) + of_language_data(d.tail),
        None => seq![],
    }
}

pub open spec fn of_single_part(d: Option<SinglePartView>) -> Seq<Seq<u8>> {
    match d {
        Some(d) => of::of_optional(d.md5) + of_disposition_data(d.tail),
        None => seq![],
    }
}

pub open spec fn of_multi_part(d: Option<MultiPartView>) -> Seq<Seq<u8>> {
    match d {
        Some(d) => of_parameters(d.parameters) + of_disposition_data(d.tail),
        None => seq![],
    }
}

pub open spec fn of_media(m: MediaTuple) -> Seq<Seq<u8>> {
    (of::of_string(m.0.0) + of::of_string(m.0.1)) + of_fields(m.1)
}

pub open spec fn of_specific(s: SpecificView) -> Seq<Seq<u8>>
    decreases s,
{
    match s {
        SpecificView::Basic | SpecificView::Text { .. } => seq![],
        SpecificView::Message { envelope, body, .. } => of::of_envelope(envelope) + of_body(*body),
    }
}

pub open spec fn of_body(v: StructureView) -> Seq<Seq<u8>>
    decreases v,
{
    match v {
        StructureView::Single { media, subtype, fields, specific, extension } => of_media(
            ((media, subtype), fields),
        ) + (of_specific(specific) + of_single_part(extension)),
        StructureView::Multi { bodies, subtype, extension } => of_bodies(bodies) + (of::of_string(
            subtype,
        ) + of_multi_part(extension)),
    }
}

pub open spec fn of_bodies(v: Seq<StructureView>) -> Seq<Seq<u8>>
    decreases v,
{
    if v.len() == 0 {
        seq![]
    } else {
        of_bodies(v.drop_last()) + of_body(v[v.len() - 1])
    }
}

proof fn lemma_extensions_gathered(v: Seq<BodyExtensionView>)
    ensures
        of_extensions(v) == sp::gathered(v, |e: BodyExtensionView| of_extension(e)),
    decreases v.len(),
{
    if v.len() > 0 {
        lemma_extensions_gathered(v.drop_last());
    }
}

proof fn lemma_bodies_gathered(v: Seq<StructureView>)
    ensures
        of_bodies(v) == sp::gathered(v, |b: StructureView| of_body(b)),
    decreases v.len(),
{
    if v.len() > 0 {
        lemma_bodies_gathered(v.drop_last());
    }
}

// ---------------------------------------------------------------------- fields

proof fn lemma_parameters_traced()
    ensures
        sp::traced(body::parameters_rule(), |v: Seq<ParameterView>| of_parameters(v)),
{
    reveal(body::parameter_rule);
    reveal(body::parameters_rule);
    let fs = |s: StringView| of::of_string(s);
    let fp = |p: (StringView, StringView)| of::of_string(p.0) + of::of_string(p.1);
    let fq = |p: ParameterView| of_parameter(p);
    let f = |v: Seq<ParameterView>| of_parameters(v);
    let p = strings::string_rule();
    of::lemma_strings_traced();
    shapes::lemma_two_traced(p, p, fs, fs, fp);
    sp::lemma_mapped_traced(
        shapes::two(p, p),
        |p: (StringView, StringView)| ParameterView { name: p.0, value: p.1 },
        fp,
        fq,
    );
    sp::lemma_paren_lists_traced(body::parameter_rule(), fq, f);
    let none = Seq::<ParameterView>::empty();
    shapes::lemma_nil_traced(none, f);
    sp::lemma_alt_traced(g::paren_list1(body::parameter_rule()), shapes::nil(none), f);
}

proof fn lemma_fields_traced()
    ensures
        sp::traced(body::fields_rule(), |f: FieldsView| of_fields(f)),
{
    reveal(body::fields_rule);
    let fs = |s: StringView| of::of_string(s);
    let none = |n: u32| Seq::<Seq<u8>>::empty();
    let fe = |p: (StringView, u32)| of::of_string(p.0);
    let ft = |p: TwoStrings| of::of_two(p.0, p.1);
    let fr = |p: (TwoStrings, (StringView, u32))| of::of_two(p.0.0, p.0.1) + of::of_string(p.1.0);
    let fp = |v: Seq<ParameterView>| of_parameters(v);
    let f = |p: FieldsTuple|
        of_parameters(p.0) + (of::of_two(p.1.0.0, p.1.0.1) + of::of_string(p.1.1.0));
    let encoding = shapes::two(strings::string_rule(), number::number_rule());
    let two = structure::two_strings_rule();
    of::lemma_strings_traced();
    of::lemma_numbers_quiet();
    of::lemma_two_strings_traced();
    lemma_parameters_traced();
    sp::lemma_quiet_traced(number::number_rule(), none);
    assert forall|a: StringView, b: u32| fe((a, b)) == #[trigger] fs(a) + #[trigger] none(b) by {
        assert(fs(a) + none(b) =~= fs(a));
    }
    shapes::lemma_two_traced(strings::string_rule(), number::number_rule(), fs, none, fe);
    shapes::lemma_two_traced(two, encoding, ft, fe, fr);
    shapes::lemma_two_traced(body::parameters_rule(), shapes::two(two, encoding), fp, fr, f);
    sp::lemma_mapped_traced(
        shapes::two(body::parameters_rule(), shapes::two(two, encoding)),
        |p: FieldsTuple|
            FieldsView {
                parameters: p.0,
                id: p.1.0.0,
                description: p.1.0.1,
                encoding: p.1.1.0,
                size: p.1.1.1,
            },
        f,
        |f: FieldsView| of_fields(f),
    );
}

proof fn lemma_media_traced()
    ensures
        sp::traced(body::media_rule(), |m: MediaTuple| of_media(m)),
{
    let fs = |s: StringView| of::of_string(s);
    let fp = |p: (StringView, StringView)| of::of_string(p.0) + of::of_string(p.1);
    let p = strings::string_rule();
    of::lemma_strings_traced();
    lemma_fields_traced();
    shapes::lemma_two_traced(p, p, fs, fs, fp);
    shapes::lemma_two_traced(
        shapes::two(p, p),
        body::fields_rule(),
        fp,
        |f: FieldsView| of_fields(f),
        |m: MediaTuple| of_media(m),
    );
}

// -------------------------------------------------------------- extension data

proof fn lemma_disposition_traced()
    ensures
        sp::traced(body::disposition_rule(), |d: Option<DispositionView>| of_disposition(d)),
{
    reveal(body::disposition_rule);
    let fs = |s: StringView| of::of_string(s);
    let fp = |v: Seq<ParameterView>| of_parameters(v);
    let f2 = |p: (StringView, Seq<ParameterView>)| of::of_string(p.0) + of_parameters(p.1);
    let f = |d: Option<DispositionView>| of_disposition(d);
    let h = |p: (StringView, Seq<ParameterView>)|
        Some(DispositionView { kind: p.0, parameters: p.1 });
    let p = shapes::two(strings::string_rule(), body::parameters_rule());
    of::lemma_strings_traced();
    lemma_parameters_traced();
    shapes::lemma_two_traced(strings::string_rule(), body::parameters_rule(), fs, fp, f2);
    shapes::lemma_enclosed_traced(p, f2);
    sp::lemma_mapped_traced(shapes::enclosed(p), h, f2, f);
    shapes::lemma_nil_traced(None::<DispositionView>, f);
    sp::lemma_alt_traced(
        g::mapped(shapes::enclosed(p), h),
        shapes::nil(None::<DispositionView>),
        f,
    );
}

proof fn lemma_language_traced()
    ensures
        sp::traced(body::language_rule(), |l: LanguageView| of_language(l)),
{
    reveal(body::language_rule);
    let fs = |s: StringView| of::of_string(s);
    let fl = |v: Seq<StringView>| of::of_strings(v);
    let fo = |s: Option<StringView>| of::of_optional(s);
    let f = |l: LanguageView| of_language(l);
    let list = |v: Seq<StringView>| LanguageView::List(v);
    let single = |s: Option<StringView>| LanguageView::Single(s);
    let p = g::paren_list1(strings::string_rule());
    of::lemma_strings_traced();
    sp::lemma_paren_lists_traced(strings::string_rule(), fs, fl);
    sp::lemma_mapped_traced(p, list, fl, f);
    sp::lemma_mapped_traced(strings::nstring_rule(), single, fo, f);
    sp::lemma_alt_traced(g::mapped(p, list), g::mapped(strings::nstring_rule(), single), f);
}

proof fn lemma_extension_traced(depth: nat)
    ensures
        sp::traced(body::extension_rule(depth), |e: BodyExtensionView| of_extension(e)),
    decreases depth,
{
    reveal_with_fuel(body::extension_rule, 1);
    if depth > 0 {
        let f = |e: BodyExtensionView| of_extension(e);
        let fl = |v: Seq<BodyExtensionView>| of_extensions(v);
        let fo = |s: Option<StringView>| of::of_optional(s);
        let list = |v: Seq<BodyExtensionView>| BodyExtensionView::List(v);
        let number = |n: u64| BodyExtensionView::Number(n);
        let string = |s: Option<StringView>| BodyExtensionView::String(s);
        let p = body::extension_rule((depth - 1) as nat);
        lemma_extension_traced((depth - 1) as nat);
        of::lemma_strings_traced();
        of::lemma_numbers_quiet();
        assert forall|v: Seq<BodyExtensionView>| #[trigger] fl(v) == sp::gathered(v, f) by {
            lemma_extensions_gathered(v);
        }
        sp::lemma_paren_lists_traced(p, f, fl);
        sp::lemma_mapped_traced(g::paren_list1(p), list, fl, f);
        sp::lemma_quiet_mapped_traced(ext::number63_rule(), number, f);
        sp::lemma_mapped_traced(strings::nstring_rule(), string, fo, f);
        let a = g::mapped(g::paren_list1(p), list);
        let b = g::mapped(ext::number63_rule(), number);
        let c = g::mapped(strings::nstring_rule(), string);
        sp::lemma_alt_traced(b, c, f);
        sp::lemma_alt_traced(a, g::alt(b, c), f);
    }
}

proof fn lemma_location_traced()
    ensures
        sp::traced(body::location_rule(), |l: LocationView| of_location(Some(l))),
{
    reveal(body::location_rule);
    let fo = |s: Option<StringView>| of::of_optional(s);
    let fe = |e: BodyExtensionView| of_extension(e);
    let fl = |v: Seq<BodyExtensionView>| of_extensions(v);
    let fp = |p: (Option<StringView>, Seq<BodyExtensionView>)|
        of::of_optional(p.0) + of_extensions(p.1);
    let p = body::extension_rule(BODY_DEPTH as nat);
    let rest = g::repeated(g::text(" "), p);
    of::lemma_strings_traced();
    sp::lemma_marks_quiet();
    lemma_extension_traced(BODY_DEPTH as nat);
    assert forall|v: Seq<BodyExtensionView>| #[trigger] fl(v) == sp::gathered(v, fe) by {
        lemma_extensions_gathered(v);
    }
    sp::lemma_repeated_traced(g::text(" "), p, fe, fl);
    sp::lemma_pair_traced(strings::nstring_rule(), rest, fo, fl, fp);
    sp::lemma_mapped_traced(
        g::pair(strings::nstring_rule(), rest),
        |p: (Option<StringView>, Seq<BodyExtensionView>)|
            LocationView { location: p.0, extensions: p.1 },
        fp,
        |l: LocationView| of_location(Some(l)),
    );
}

proof fn lemma_language_data_traced()
    ensures
        sp::traced(body::language_data_rule(), |d: LanguageDataView| of_language_data(Some(d))),
{
    reveal(body::language_data_rule);
    let fp = |p: (LanguageView, Option<LocationView>)| of_language(p.0) + of_location(p.1);
    lemma_language_traced();
    lemma_location_traced();
    shapes::lemma_tailed_traced(
        body::language_rule(),
        body::location_rule(),
        |l: LanguageView| of_language(l),
        |l: LocationView| of_location(Some(l)),
        |l: Option<LocationView>| of_location(l),
        fp,
    );
    sp::lemma_mapped_traced(
        shapes::tailed(body::language_rule(), body::location_rule()),
        |p: (LanguageView, Option<LocationView>)| LanguageDataView { language: p.0, tail: p.1 },
        fp,
        |d: LanguageDataView| of_language_data(Some(d)),
    );
}

proof fn lemma_disposition_data_traced()
    ensures
        sp::traced(
            body::disposition_data_rule(),
            |d: DispositionDataView| of_disposition_data(Some(d)),
        ),
{
    reveal(body::disposition_data_rule);
    let fp = |p: (Option<DispositionView>, Option<LanguageDataView>)|
        of_disposition(p.0) + of_language_data(p.1);
    lemma_disposition_traced();
    lemma_language_data_traced();
    shapes::lemma_tailed_traced(
        body::disposition_rule(),
        body::language_data_rule(),
        |d: Option<DispositionView>| of_disposition(d),
        |d: LanguageDataView| of_language_data(Some(d)),
        |d: Option<LanguageDataView>| of_language_data(d),
        fp,
    );
    sp::lemma_mapped_traced(
        shapes::tailed(body::disposition_rule(), body::language_data_rule()),
        |p: (Option<DispositionView>, Option<LanguageDataView>)|
            DispositionDataView { disposition: p.0, tail: p.1 },
        fp,
        |d: DispositionDataView| of_disposition_data(Some(d)),
    );
}

proof fn lemma_single_part_traced()
    ensures
        sp::traced(body::single_part_rule(), |d: SinglePartView| of_single_part(Some(d))),
{
    reveal(body::single_part_rule);
    let fp = |p: (Option<StringView>, Option<DispositionDataView>)|
        of::of_optional(p.0) + of_disposition_data(p.1);
    of::lemma_strings_traced();
    lemma_disposition_data_traced();
    shapes::lemma_tailed_traced(
        strings::nstring_rule(),
        body::disposition_data_rule(),
        |s: Option<StringView>| of::of_optional(s),
        |d: DispositionDataView| of_disposition_data(Some(d)),
        |d: Option<DispositionDataView>| of_disposition_data(d),
        fp,
    );
    sp::lemma_mapped_traced(
        shapes::tailed(strings::nstring_rule(), body::disposition_data_rule()),
        |p: (Option<StringView>, Option<DispositionDataView>)|
            SinglePartView { md5: p.0, tail: p.1 },
        fp,
        |d: SinglePartView| of_single_part(Some(d)),
    );
}

proof fn lemma_multi_part_traced()
    ensures
        sp::traced(body::multi_part_rule(), |d: MultiPartView| of_multi_part(Some(d))),
{
    reveal(body::multi_part_rule);
    let fp = |p: (Seq<ParameterView>, Option<DispositionDataView>)|
        of_parameters(p.0) + of_disposition_data(p.1);
    lemma_parameters_traced();
    lemma_disposition_data_traced();
    shapes::lemma_tailed_traced(
        body::parameters_rule(),
        body::disposition_data_rule(),
        |v: Seq<ParameterView>| of_parameters(v),
        |d: DispositionDataView| of_disposition_data(Some(d)),
        |d: Option<DispositionDataView>| of_disposition_data(d),
        fp,
    );
    sp::lemma_mapped_traced(
        shapes::tailed(body::parameters_rule(), body::disposition_data_rule()),
        |p: (Seq<ParameterView>, Option<DispositionDataView>)|
            MultiPartView { parameters: p.0, tail: p.1 },
        fp,
        |d: MultiPartView| of_multi_part(Some(d)),
    );
}

// ---------------------------------------------------------------------- bodies

proof fn lemma_message_traced(p: Rule<StructureView>)
    requires
        sp::traced(p, |b: StructureView| of_body(b)),
    ensures
        sp::traced(
            body::message_rule(p),
            |m: MessageTuple| of::of_envelope(m.0) + of_body(m.1.0),
        ),
{
    let fb = |b: StructureView| of_body(b);
    let fe = |e: EnvelopeView| of::of_envelope(e);
    let none = |n: u64| Seq::<Seq<u8>>::empty();
    let fp = |q: (StructureView, u64)| of_body(q.0);
    let opened = g::preceded(g::text("("), p);
    sp::lemma_marks_quiet();
    of::lemma_numbers_quiet();
    of::lemma_envelope_traced();
    sp::lemma_preceded_traced(g::text("("), p, fb);
    sp::lemma_quiet_traced(ext::number63_rule(), none);
    assert forall|a: StructureView, b: u64| fp((a, b)) == #[trigger] fb(a) + #[trigger] none(b) by {
        assert(fb(a) + none(b) =~= fb(a));
    }
    shapes::lemma_two_traced(opened, ext::number63_rule(), fb, none, fp);
    shapes::lemma_two_traced(
        structure::envelope_rule(),
        shapes::two(opened, ext::number63_rule()),
        fe,
        fp,
        |m: MessageTuple| of::of_envelope(m.0) + of_body(m.1.0),
    );
}

proof fn lemma_specific_traced(media: StringView, subtype: StringView, p: Rule<StructureView>)
    requires
        sp::traced(p, |b: StructureView| of_body(b)),
    ensures
        sp::traced(body::specific_rule(media, subtype, p), |s: SpecificView| of_specific(s)),
{
    let f = |s: SpecificView| of_specific(s);
    sp::lemma_marks_quiet();
    if body::is_text(media) {
        of::lemma_numbers_quiet();
        sp::lemma_preceded_quiet(g::text(" "), ext::number63_rule());
        sp::lemma_opt_quiet(args::sp(ext::number63_rule()));
        sp::lemma_quiet_mapped_traced(
            g::opt(args::sp(ext::number63_rule())),
            |n: Option<u64>|
                match n {
                    Some(lines) => SpecificView::Text { lines },
                    None => SpecificView::Basic,
                },
            f,
        );
    } else if body::is_message(media, subtype) {
        let fm = |m: MessageTuple| of::of_envelope(m.0) + of_body(m.1.0);
        let fo = |m: Option<MessageTuple>|
            match m {
                Some(m) => of::of_envelope(m.0) + of_body(m.1.0),
                None => seq![],
            };
        lemma_message_traced(p);
        sp::lemma_preceded_traced(g::text(" "), body::message_rule(p), fm);
        sp::lemma_opt_traced(args::sp(body::message_rule(p)), fm, fo);
        sp::lemma_mapped_traced(
            g::opt(args::sp(body::message_rule(p))),
            |m: Option<MessageTuple>|
                match m {
                    Some(m) => SpecificView::Message {
                        envelope: m.0,
                        body: Box::new(m.1.0),
                        lines: m.1.1,
                    },
                    None => SpecificView::Basic,
                },
            fo,
            f,
        );
    } else {
        of::lemma_constant_traced(SpecificView::Basic, f);
    }
}

proof fn lemma_single_traced(p: Rule<StructureView>)
    requires
        sp::traced(p, |b: StructureView| of_body(b)),
    ensures
        sp::traced(body::single_rule(p), |b: StructureView| of_body(b)),
{
    let fm = |m: MediaTuple| of_media(m);
    let fs = |s: SpecificView| of_specific(s);
    let f1 = |d: SinglePartView| of_single_part(Some(d));
    let fo = |d: Option<SinglePartView>| of_single_part(d);
    let fr = |q: (SpecificView, Option<SinglePartView>)| of_specific(q.0) + of_single_part(q.1);
    let fp = |q: (MediaTuple, (SpecificView, Option<SinglePartView>))|
        of_media(q.0) + (of_specific(q.1.0) + of_single_part(q.1.1));
    let q = |m: MediaTuple| body::behind_media_rule(m, p);
    lemma_media_traced();
    lemma_single_part_traced();
    assert forall|m: MediaTuple| sp::traced(#[trigger] q(m), fr) by {
        lemma_specific_traced(m.0.0, m.0.1, p);
        shapes::lemma_tailed_traced(
            body::specific_rule(m.0.0, m.0.1, p),
            body::single_part_rule(),
            fs,
            f1,
            fo,
            fr,
        );
    }
    shapes::lemma_linked_traced(body::media_rule(), q, fm, fr, fp);
    sp::lemma_mapped_traced(
        shapes::linked(body::media_rule(), q),
        |q: (MediaTuple, (SpecificView, Option<SinglePartView>))|
            StructureView::Single {
                media: q.0.0.0,
                subtype: q.0.0.1,
                fields: q.0.1,
                specific: q.1.0,
                extension: q.1.1,
            },
        fp,
        |b: StructureView| of_body(b),
    );
}

proof fn lemma_multi_traced(p: Rule<StructureView>)
    requires
        sp::traced(p, |b: StructureView| of_body(b)),
    ensures
        sp::traced(body::multi_rule(p), |b: StructureView| of_body(b)),
{
    let f = |b: StructureView| of_body(b);
    let fb = |v: Seq<StructureView>| of_bodies(v);
    let fs = |s: StringView| of::of_string(s);
    let f1 = |d: MultiPartView| of_multi_part(Some(d));
    let fo = |d: Option<MultiPartView>| of_multi_part(d);
    let ft = |q: (StringView, Option<MultiPartView>)| of::of_string(q.0) + of_multi_part(q.1);
    let fp = |q: (Seq<StructureView>, (StringView, Option<MultiPartView>))|
        of_bodies(q.0) + (of::of_string(q.1.0) + of_multi_part(q.1.1));
    let tail = shapes::tailed(strings::string_rule(), body::multi_part_rule());
    of::lemma_strings_traced();
    lemma_multi_part_traced();
    assert forall|v: Seq<StructureView>| #[trigger] fb(v) == sp::gathered(v, f) by {
        lemma_bodies_gathered(v);
    }
    shapes::lemma_row_traced(p, f, fb);
    shapes::lemma_tailed_traced(strings::string_rule(), body::multi_part_rule(), fs, f1, fo, ft);
    shapes::lemma_two_traced(shapes::row(p), tail, fb, ft, fp);
    sp::lemma_mapped_traced(
        shapes::two(shapes::row(p), tail),
        |q: (Seq<StructureView>, (StringView, Option<MultiPartView>))|
            StructureView::Multi { bodies: q.0, subtype: q.1.0, extension: q.1.1 },
        fp,
        f,
    );
}

proof fn lemma_inner_traced(depth: nat)
    ensures
        sp::traced(body::inner_rule(depth), |b: StructureView| of_body(b)),
    decreases depth,
{
    reveal_with_fuel(body::inner_rule, 1);
    if depth > 0 {
        let f = |b: StructureView| of_body(b);
        let p = body::inner_rule((depth - 1) as nat);
        lemma_inner_traced((depth - 1) as nat);
        lemma_single_traced(p);
        lemma_multi_traced(p);
        sp::lemma_alt_traced(body::single_rule(p), body::multi_rule(p), f);
        shapes::lemma_enclosed_traced(g::alt(body::single_rule(p), body::multi_rule(p)), f);
    }
}

/// The literals that were read are those that the body holds.
pub proof fn lemma_body_traced()
    ensures
        sp::traced(body::body_rule(), |b: StructureView| of_body(b)),
{
    reveal(body::body_rule);
    sp::lemma_marks_quiet();
    lemma_inner_traced(BODY_DEPTH as nat);
    sp::lemma_preceded_traced(
        g::text("("),
        body::inner_rule(BODY_DEPTH as nat),
        |b: StructureView| of_body(b),
    );
}

} // verus!
