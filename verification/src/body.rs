//! The parts of a message.
use vstd::prelude::*;

use crate::arguments as args;
use crate::arguments::{optional_argument, write_argument};
use crate::ascii;
use crate::encode;
use crate::encode::{write_parens, write_spread, EncodeContext, EncodeIntoContext, Token};
use crate::extensions::rev2 as ext;
use crate::extensions::rev2::{number63, NUMBER63_MAX};
use crate::grammar as g;
use crate::grammar::{
    parens1, tag, tag_no_case, IMAPErrorKind, IMAPParseError, IMAPResult, Outcome, Rule,
};
use crate::number;
use crate::number::{number, write_number};
use crate::reading;
use crate::shapes;
use crate::strings;
use crate::strings::{nstring, string, IString, NString, StringView};
use crate::structure;
use crate::structure::{envelope, write_two_strings, Envelope, EnvelopeView};

verus! {

/// A parameter of a part, such as its character set.
#[derive(Debug, PartialEq, Eq, Hash)]
pub struct BodyParameter {
    pub name: IString,
    pub value: IString,
}

pub struct ParameterView {
    pub name: StringView,
    pub value: StringView,
}

impl DeepView for BodyParameter {
    type V = ParameterView;

    open spec fn deep_view(&self) -> ParameterView {
        ParameterView { name: self.name.deep_view(), value: self.value.deep_view() }
    }
}

/// What is told of every part that holds no further parts.
#[derive(Debug, PartialEq, Eq, Hash)]
pub struct BodyFields {
    pub parameters: Vec<BodyParameter>,
    pub id: NString,
    pub description: NString,
    pub encoding: IString,
    pub size: u32,
}

pub struct FieldsView {
    pub parameters: Seq<ParameterView>,
    pub id: Option<StringView>,
    pub description: Option<StringView>,
    pub encoding: StringView,
    pub size: u32,
}

impl DeepView for BodyFields {
    type V = FieldsView;

    open spec fn deep_view(&self) -> FieldsView {
        FieldsView {
            parameters: self.parameters.deep_view(),
            id: self.id.deep_view(),
            description: self.description.deep_view(),
            encoding: self.encoding.deep_view(),
            size: self.size,
        }
    }
}

/// How a part is to be shown.
#[derive(Debug, PartialEq, Eq, Hash)]
pub struct Disposition {
    pub kind: IString,
    pub parameters: Vec<BodyParameter>,
}

pub struct DispositionView {
    pub kind: StringView,
    pub parameters: Seq<ParameterView>,
}

impl DeepView for Disposition {
    type V = DispositionView;

    open spec fn deep_view(&self) -> DispositionView {
        DispositionView { kind: self.kind.deep_view(), parameters: self.parameters.deep_view() }
    }
}

/// The languages of a part: at most one, or a list.
#[derive(Debug, PartialEq, Eq, Hash)]
pub enum Language {
    Single(NString),
    List(Vec<IString>),
}

pub enum LanguageView {
    Single(Option<StringView>),
    List(Seq<StringView>),
}

impl DeepView for Language {
    type V = LanguageView;

    open spec fn deep_view(&self) -> LanguageView {
        match self {
            Language::Single(s) => LanguageView::Single(s.deep_view()),
            Language::List(v) => LanguageView::List(v.deep_view()),
        }
    }
}

/// Data that later versions of the protocol may add.
#[derive(Debug, PartialEq, Eq, Hash)]
pub enum BodyExtension {
    String(NString),
    Number(u64),
    List(Vec<BodyExtension>),
}

pub enum BodyExtensionView {
    String(Option<StringView>),
    Number(u64),
    List(Seq<BodyExtensionView>),
}

pub open spec fn extension_view(e: BodyExtension) -> BodyExtensionView
    decreases e,
{
    match e {
        BodyExtension::String(s) => BodyExtensionView::String(s.deep_view()),
        BodyExtension::Number(n) => BodyExtensionView::Number(n),
        BodyExtension::List(v) => BodyExtensionView::List(
            Seq::new(
                v@.len(),
                |i: int|
                    if 0 <= i < v@.len() {
                        extension_view(v@[i])
                    } else {
                        arbitrary()
                    },
            ),
        ),
    }
}

impl DeepView for BodyExtension {
    type V = BodyExtensionView;

    open spec fn deep_view(&self) -> BodyExtensionView {
        extension_view(*self)
    }
}

broadcast proof fn lemma_extension_list_view(v: Vec<BodyExtension>)
    ensures
        #[trigger] extension_view(BodyExtension::List(v)) == BodyExtensionView::List(v.deep_view()),
{
    assert(extension_view(BodyExtension::List(v))->List_0 =~= v.deep_view());
}

/// The location of a part, and data that later versions may add.
#[derive(Debug, PartialEq, Eq, Hash)]
pub struct LocationData {
    pub location: NString,
    pub extensions: Vec<BodyExtension>,
}

pub struct LocationView {
    pub location: Option<StringView>,
    pub extensions: Seq<BodyExtensionView>,
}

impl DeepView for LocationData {
    type V = LocationView;

    open spec fn deep_view(&self) -> LocationView {
        LocationView {
            location: self.location.deep_view(),
            extensions: self.extensions.deep_view(),
        }
    }
}

/// The languages of a part, and what may follow.
#[derive(Debug, PartialEq, Eq, Hash)]
pub struct LanguageData {
    pub language: Language,
    pub tail: Option<LocationData>,
}

pub struct LanguageDataView {
    pub language: LanguageView,
    pub tail: Option<LocationView>,
}

impl DeepView for LanguageData {
    type V = LanguageDataView;

    open spec fn deep_view(&self) -> LanguageDataView {
        LanguageDataView { language: self.language.deep_view(), tail: self.tail.deep_view() }
    }
}

/// The disposition of a part, and what may follow.
#[derive(Debug, PartialEq, Eq, Hash)]
pub struct DispositionData {
    pub disposition: Option<Disposition>,
    pub tail: Option<LanguageData>,
}

pub struct DispositionDataView {
    pub disposition: Option<DispositionView>,
    pub tail: Option<LanguageDataView>,
}

impl DeepView for DispositionData {
    type V = DispositionDataView;

    open spec fn deep_view(&self) -> DispositionDataView {
        DispositionDataView {
            disposition: self.disposition.deep_view(),
            tail: self.tail.deep_view(),
        }
    }
}

/// The extension data of a single part.
#[derive(Debug, PartialEq, Eq, Hash)]
pub struct SinglePartData {
    pub md5: NString,
    pub tail: Option<DispositionData>,
}

pub struct SinglePartView {
    pub md5: Option<StringView>,
    pub tail: Option<DispositionDataView>,
}

impl DeepView for SinglePartData {
    type V = SinglePartView;

    open spec fn deep_view(&self) -> SinglePartView {
        SinglePartView { md5: self.md5.deep_view(), tail: self.tail.deep_view() }
    }
}

/// The extension data of a part that holds further parts.
#[derive(Debug, PartialEq, Eq, Hash)]
pub struct MultiPartData {
    pub parameters: Vec<BodyParameter>,
    pub tail: Option<DispositionData>,
}

pub struct MultiPartView {
    pub parameters: Seq<ParameterView>,
    pub tail: Option<DispositionDataView>,
}

impl DeepView for MultiPartData {
    type V = MultiPartView;

    open spec fn deep_view(&self) -> MultiPartView {
        MultiPartView { parameters: self.parameters.deep_view(), tail: self.tail.deep_view() }
    }
}

/// What depends on the media type of a part.
#[derive(Debug, PartialEq, Eq, Hash)]
pub enum SpecificFields {
    Basic,
    /// The lines of a text.
    Text { lines: u64 },
    /// A message that is a part of another.
    Message { envelope: Envelope, body: Box<BodyStructure>, lines: u64 },
}

pub enum SpecificView {
    Basic,
    Text { lines: u64 },
    Message { envelope: EnvelopeView, body: Box<StructureView>, lines: u64 },
}

/// A part of a message.
#[derive(Debug, PartialEq, Eq, Hash)]
pub enum BodyStructure {
    Single {
        media: IString,
        subtype: IString,
        fields: BodyFields,
        specific: SpecificFields,
        extension: Option<SinglePartData>,
    },
    Multi { bodies: Vec<BodyStructure>, subtype: IString, extension: Option<MultiPartData> },
}

pub enum StructureView {
    Single {
        media: StringView,
        subtype: StringView,
        fields: FieldsView,
        specific: SpecificView,
        extension: Option<SinglePartView>,
    },
    Multi { bodies: Seq<StructureView>, subtype: StringView, extension: Option<MultiPartView> },
}

pub open spec fn specific_view(s: SpecificFields) -> SpecificView
    decreases s,
{
    match s {
        SpecificFields::Basic => SpecificView::Basic,
        SpecificFields::Text { lines } => SpecificView::Text { lines },
        SpecificFields::Message { envelope, body, lines } => SpecificView::Message {
            envelope: envelope.deep_view(),
            body: Box::new(structure_view(*body)),
            lines,
        },
    }
}

pub open spec fn structure_view(b: BodyStructure) -> StructureView
    decreases b,
{
    match b {
        BodyStructure::Single { media, subtype, fields, specific, extension } => {
            StructureView::Single {
                media: media.deep_view(),
                subtype: subtype.deep_view(),
                fields: fields.deep_view(),
                specific: specific_view(specific),
                extension: extension.deep_view(),
            }
        },
        BodyStructure::Multi { bodies, subtype, extension } => StructureView::Multi {
            bodies: Seq::new(
                bodies@.len(),
                |i: int|
                    if 0 <= i < bodies@.len() {
                        structure_view(bodies@[i])
                    } else {
                        arbitrary()
                    },
            ),
            subtype: subtype.deep_view(),
            extension: extension.deep_view(),
        },
    }
}

impl DeepView for SpecificFields {
    type V = SpecificView;

    open spec fn deep_view(&self) -> SpecificView {
        specific_view(*self)
    }
}

impl DeepView for BodyStructure {
    type V = StructureView;

    open spec fn deep_view(&self) -> StructureView {
        structure_view(*self)
    }
}

proof fn lemma_bodies_view(b: BodyStructure)
    requires
        b is Multi,
    ensures
        b.deep_view()->bodies == b->bodies.deep_view(),
{
    assert(b.deep_view()->bodies =~= b->bodies.deep_view());
}

// ----------------------------------------------------------------------- rules

#[verifier::opaque]
pub open spec fn parameter_rule() -> Rule<ParameterView> {
    g::mapped(
        shapes::two(strings::string_rule(), strings::string_rule()),
        |p: (StringView, StringView)| ParameterView { name: p.0, value: p.1 },
    )
}

/// `body-fld-param = "(" string SP string *(SP string SP string) ")" / nil`.
#[verifier::opaque]
pub open spec fn parameters_rule() -> Rule<Seq<ParameterView>> {
    g::alt(g::paren_list1(parameter_rule()), shapes::nil(Seq::<ParameterView>::empty()))
}

pub type FieldsTuple = (
    Seq<ParameterView>,
    ((Option<StringView>, Option<StringView>), (StringView, u32)),
);

/// `body-fields = body-fld-param SP body-fld-id SP body-fld-desc SP
/// body-fld-enc SP body-fld-octets`.
#[verifier::opaque]
pub open spec fn fields_rule() -> Rule<FieldsView> {
    g::mapped(
        shapes::two(
            parameters_rule(),
            shapes::two(
                structure::two_strings_rule(),
                shapes::two(strings::string_rule(), number::number_rule()),
            ),
        ),
        |p: FieldsTuple|
            FieldsView {
                parameters: p.0,
                id: p.1.0.0,
                description: p.1.0.1,
                encoding: p.1.1.0,
                size: p.1.1.1,
            },
    )
}

/// `body-fld-dsp = "(" string SP body-fld-param ")" / nil`.
#[verifier::opaque]
pub open spec fn disposition_rule() -> Rule<Option<DispositionView>> {
    g::alt(
        g::mapped(
            shapes::enclosed(shapes::two(strings::string_rule(), parameters_rule())),
            |p: (StringView, Seq<ParameterView>)|
                Some(DispositionView { kind: p.0, parameters: p.1 }),
        ),
        shapes::nil(None::<DispositionView>),
    )
}

/// `body-fld-lang = nstring / "(" string *(SP string) ")"`.
#[verifier::opaque]
pub open spec fn language_rule() -> Rule<LanguageView> {
    g::alt(
        g::mapped(
            g::paren_list1(strings::string_rule()),
            |v: Seq<StringView>| LanguageView::List(v),
        ),
        g::mapped(strings::nstring_rule(), |s: Option<StringView>| LanguageView::Single(s)),
    )
}

/// How deep bodies and their extension data may nest.
pub const BODY_DEPTH: usize = 16;

/// `body-extension = nstring / number / number64 / "(" body-extension
/// *(SP body-extension) ")"`.
#[verifier::opaque]
pub open spec fn extension_rule(depth: nat) -> Rule<BodyExtensionView>
    decreases depth,
{
    if depth == 0 {
        g::refuse(IMAPErrorKind::RecursionLimitExceeded)
    } else {
        g::alt(
            g::mapped(
                g::paren_list1(extension_rule((depth - 1) as nat)),
                |v: Seq<BodyExtensionView>| BodyExtensionView::List(v),
            ),
            g::alt(
                g::mapped(ext::number63_rule(), |n: u64| BodyExtensionView::Number(n)),
                g::mapped(
                    strings::nstring_rule(),
                    |s: Option<StringView>| BodyExtensionView::String(s),
                ),
            ),
        )
    }
}

/// `body-fld-loc *(SP body-extension)`.
#[verifier::opaque]
pub open spec fn location_rule() -> Rule<LocationView> {
    g::mapped(
        g::pair(
            strings::nstring_rule(),
            g::repeated(g::text(" "), extension_rule(BODY_DEPTH as nat)),
        ),
        |p: (Option<StringView>, Seq<BodyExtensionView>)|
            LocationView { location: p.0, extensions: p.1 },
    )
}

/// `body-fld-lang [SP body-fld-loc *(SP body-extension)]`.
#[verifier::opaque]
pub open spec fn language_data_rule() -> Rule<LanguageDataView> {
    g::mapped(
        shapes::tailed(language_rule(), location_rule()),
        |p: (LanguageView, Option<LocationView>)| LanguageDataView { language: p.0, tail: p.1 },
    )
}

/// `body-fld-dsp [SP body-fld-lang ..]`.
#[verifier::opaque]
pub open spec fn disposition_data_rule() -> Rule<DispositionDataView> {
    g::mapped(
        shapes::tailed(disposition_rule(), language_data_rule()),
        |p: (Option<DispositionView>, Option<LanguageDataView>)|
            DispositionDataView { disposition: p.0, tail: p.1 },
    )
}

/// `body-ext-1part = body-fld-md5 [SP body-fld-dsp ..]`.
#[verifier::opaque]
pub open spec fn single_part_rule() -> Rule<SinglePartView> {
    g::mapped(
        shapes::tailed(strings::nstring_rule(), disposition_data_rule()),
        |p: (Option<StringView>, Option<DispositionDataView>)|
            SinglePartView { md5: p.0, tail: p.1 },
    )
}

/// `body-ext-mpart = body-fld-param [SP body-fld-dsp ..]`.
#[verifier::opaque]
pub open spec fn multi_part_rule() -> Rule<MultiPartView> {
    g::mapped(
        shapes::tailed(parameters_rule(), disposition_data_rule()),
        |p: (Seq<ParameterView>, Option<DispositionDataView>)|
            MultiPartView { parameters: p.0, tail: p.1 },
    )
}

pub open spec fn is_text(media: StringView) -> bool {
    ascii::same_word(media.bytes(), ascii::bytes_of("TEXT"))
}

/// A message in a part tells its envelope and its own structure.
pub open spec fn is_message(media: StringView, subtype: StringView) -> bool {
    ascii::same_word(media.bytes(), ascii::bytes_of("MESSAGE")) && (ascii::same_word(
        subtype.bytes(),
        ascii::bytes_of("RFC822"),
    ) || ascii::same_word(subtype.bytes(), ascii::bytes_of("GLOBAL")))
}

pub type MessageTuple = (EnvelopeView, (StructureView, u64));

/// `envelope SP body SP body-fld-lines`.
pub open spec fn message_rule(p: Rule<StructureView>) -> Rule<MessageTuple> {
    shapes::two(
        structure::envelope_rule(),
        shapes::two(g::preceded(g::text("("), p), ext::number63_rule()),
    )
}

/// What follows the fields that every part has.
pub open spec fn specific_rule(
    media: StringView,
    subtype: StringView,
    p: Rule<StructureView>,
) -> Rule<SpecificView> {
    if is_text(media) {
        g::mapped(
            g::opt(args::sp(ext::number63_rule())),
            |n: Option<u64>|
                match n {
                    Some(lines) => SpecificView::Text { lines },
                    None => SpecificView::Basic,
                },
        )
    } else if is_message(media, subtype) {
        g::mapped(
            g::opt(args::sp(message_rule(p))),
            |m: Option<MessageTuple>|
                match m {
                    Some(m) => SpecificView::Message {
                        envelope: m.0,
                        body: Box::new(m.1.0),
                        lines: m.1.1,
                    },
                    None => SpecificView::Basic,
                },
        )
    } else {
        g::success(SpecificView::Basic)
    }
}

pub type MediaTuple = ((StringView, StringView), FieldsView);

/// The media type of a part and the fields that every part has.
pub open spec fn media_rule() -> Rule<MediaTuple> {
    shapes::two(shapes::two(strings::string_rule(), strings::string_rule()), fields_rule())
}

pub open spec fn behind_media_rule(m: MediaTuple, p: Rule<StructureView>) -> Rule<
    (SpecificView, Option<SinglePartView>),
> {
    g::pair(specific_rule(m.0.0, m.0.1, p), g::opt(args::sp(single_part_rule())))
}

/// `body-type-1part`.
pub open spec fn single_rule(p: Rule<StructureView>) -> Rule<StructureView> {
    g::mapped(
        shapes::linked(media_rule(), |m: MediaTuple| behind_media_rule(m, p)),
        |q: (MediaTuple, (SpecificView, Option<SinglePartView>))|
            StructureView::Single {
                media: q.0.0.0,
                subtype: q.0.0.1,
                fields: q.0.1,
                specific: q.1.0,
                extension: q.1.1,
            },
    )
}

/// `body-type-mpart = 1*body SP media-subtype [SP body-ext-mpart]`.
pub open spec fn multi_rule(p: Rule<StructureView>) -> Rule<StructureView> {
    g::mapped(
        shapes::two(shapes::row(p), shapes::tailed(strings::string_rule(), multi_part_rule())),
        |q: (Seq<StructureView>, (StringView, Option<MultiPartView>))|
            StructureView::Multi { bodies: q.0, subtype: q.1.0, extension: q.1.1 },
    )
}

/// `body = "(" (body-type-1part / body-type-mpart) ")"`, behind its opening
/// parenthesis.
#[verifier::opaque]
pub open spec fn inner_rule(depth: nat) -> Rule<StructureView>
    decreases depth,
{
    if depth == 0 {
        g::refuse(IMAPErrorKind::RecursionLimitExceeded)
    } else {
        shapes::closing(
            g::alt(
                single_rule(inner_rule((depth - 1) as nat)),
                multi_rule(inner_rule((depth - 1) as nat)),
            ),
        )
    }
}

#[verifier::opaque]
pub open spec fn body_rule() -> Rule<StructureView> {
    g::preceded(g::text("("), inner_rule(BODY_DEPTH as nat))
}

// ------------------------------------------------------------------- encodings

pub open spec fn number_tokens(n: u64) -> Seq<Token> {
    encode::plain(number::decimal(n as nat))
}

pub open spec fn parameter_tokens(p: ParameterView) -> Seq<Token> {
    shapes::two_tokens(strings::string_tokens(p.name), strings::string_tokens(p.value))
}

pub open spec fn parameters_tokens(v: Seq<ParameterView>) -> Seq<Token> {
    if v.len() == 0 {
        encode::word("NIL")
    } else {
        encode::paren_tokens(encode::parts::<BodyParameter>(v))
    }
}

pub open spec fn fields_tokens(f: FieldsView) -> Seq<Token> {
    shapes::two_tokens(
        parameters_tokens(f.parameters),
        shapes::two_tokens(
            structure::two_strings_tokens(f.id, f.description),
            shapes::two_tokens(strings::string_tokens(f.encoding), number_tokens(f.size as u64)),
        ),
    )
}

pub open spec fn disposition_tokens(d: Option<DispositionView>) -> Seq<Token> {
    match d {
        Some(d) => shapes::enclosed_tokens(
            shapes::two_tokens(strings::string_tokens(d.kind), parameters_tokens(d.parameters)),
        ),
        None => encode::word("NIL"),
    }
}

pub open spec fn language_tokens(l: LanguageView) -> Seq<Token> {
    match l {
        LanguageView::Single(s) => strings::nstring_tokens(s),
        LanguageView::List(v) => encode::paren_tokens(encode::parts::<IString>(v)),
    }
}

pub open spec fn extension_tokens(e: BodyExtensionView) -> Seq<Token>
    decreases e,
{
    match e {
        BodyExtensionView::String(s) => strings::nstring_tokens(s),
        BodyExtensionView::Number(n) => number_tokens(n),
        BodyExtensionView::List(v) => encode::paren_tokens(extension_parts(v)),
    }
}

/// What is written for each of the values.
pub open spec fn extension_parts(v: Seq<BodyExtensionView>) -> Seq<Seq<Token>>
    decreases v,
{
    if v.len() == 0 {
        seq![]
    } else {
        extension_parts(v.drop_last()).push(extension_tokens(v[v.len() - 1]))
    }
}

proof fn lemma_extension_parts(v: Seq<BodyExtensionView>)
    ensures
        extension_parts(v) == v.map_values(|e: BodyExtensionView| extension_tokens(e)),
    decreases v.len(),
{
    let all = v.map_values(|e: BodyExtensionView| extension_tokens(e));
    if v.len() > 0 {
        lemma_extension_parts(v.drop_last());
        assert(extension_parts(v) =~= all);
    } else {
        assert(extension_parts(v) =~= all);
    }
}

pub open spec fn location_tokens(l: LocationView) -> Seq<Token> {
    strings::nstring_tokens(l.location) + encode::spread(
        encode::parts::<BodyExtension>(l.extensions),
        encode::word(" "),
    )
}

pub open spec fn language_data_tokens(d: LanguageDataView) -> Seq<Token> {
    shapes::tailed_tokens(
        language_tokens(d.language),
        match d.tail {
            Some(l) => Some(location_tokens(l)),
            None => None,
        },
    )
}

pub open spec fn disposition_tail(t: Option<LanguageDataView>) -> Option<Seq<Token>> {
    match t {
        Some(l) => Some(language_data_tokens(l)),
        None => None,
    }
}

pub open spec fn disposition_data_tokens(d: DispositionDataView) -> Seq<Token> {
    shapes::tailed_tokens(disposition_tokens(d.disposition), disposition_tail(d.tail))
}

pub open spec fn part_tail(t: Option<DispositionDataView>) -> Option<Seq<Token>> {
    match t {
        Some(d) => Some(disposition_data_tokens(d)),
        None => None,
    }
}

pub open spec fn single_part_tokens(d: SinglePartView) -> Seq<Token> {
    shapes::tailed_tokens(strings::nstring_tokens(d.md5), part_tail(d.tail))
}

pub open spec fn multi_part_tokens(d: MultiPartView) -> Seq<Token> {
    shapes::tailed_tokens(parameters_tokens(d.parameters), part_tail(d.tail))
}

pub open spec fn message_tokens(envelope: EnvelopeView, body: Seq<Token>, lines: u64) -> Seq<
    Token,
> {
    shapes::two_tokens(
        structure::envelope_tokens(envelope),
        shapes::two_tokens(encode::word("(") + body, number_tokens(lines)),
    )
}

pub open spec fn specific_tokens(s: SpecificView) -> Seq<Token>
    decreases s,
{
    match s {
        SpecificView::Basic => seq![],
        SpecificView::Text { lines } => args::argument(number_tokens(lines)),
        SpecificView::Message { envelope, body, lines } => args::argument(
            message_tokens(envelope, inner_tokens(*body), lines),
        ),
    }
}

pub open spec fn media_tokens(media: StringView, subtype: StringView, fields: FieldsView) -> Seq<
    Token,
> {
    shapes::two_tokens(
        shapes::two_tokens(strings::string_tokens(media), strings::string_tokens(subtype)),
        fields_tokens(fields),
    )
}

pub open spec fn single_tail(e: Option<SinglePartView>) -> Option<Seq<Token>> {
    match e {
        Some(e) => Some(single_part_tokens(e)),
        None => None,
    }
}

pub open spec fn multi_tail(e: Option<MultiPartView>) -> Option<Seq<Token>> {
    match e {
        Some(e) => Some(multi_part_tokens(e)),
        None => None,
    }
}

/// A body, behind its opening parenthesis.
pub open spec fn inner_tokens(v: StructureView) -> Seq<Token>
    decreases v,
{
    match v {
        StructureView::Single { media, subtype, fields, specific, extension } => {
            shapes::closing_tokens(
                media_tokens(media, subtype, fields) + (specific_tokens(specific)
                    + shapes::tail_tokens(single_tail(extension))),
            )
        },
        StructureView::Multi { bodies, subtype, extension } => shapes::closing_tokens(
            shapes::two_tokens(
                shapes::row_tokens(inner_parts(bodies)),
                shapes::tailed_tokens(strings::string_tokens(subtype), multi_tail(extension)),
            ),
        ),
    }
}

/// What is written for each of the bodies.
pub open spec fn inner_parts(v: Seq<StructureView>) -> Seq<Seq<Token>>
    decreases v,
{
    if v.len() == 0 {
        seq![]
    } else {
        inner_parts(v.drop_last()).push(inner_tokens(v[v.len() - 1]))
    }
}

proof fn lemma_inner_parts(v: Seq<StructureView>)
    ensures
        inner_parts(v) == v.map_values(|b: StructureView| inner_tokens(b)),
    decreases v.len(),
{
    let all = v.map_values(|b: StructureView| inner_tokens(b));
    if v.len() > 0 {
        lemma_inner_parts(v.drop_last());
        assert(inner_parts(v) =~= all);
    } else {
        assert(inner_parts(v) =~= all);
    }
}

pub open spec fn body_tokens(v: StructureView) -> Seq<Token> {
    encode::word("(") + inner_tokens(v)
}

// -------------------------------------------------------------- well-formedness

pub open spec fn parameter_wf(p: ParameterView) -> bool {
    strings::istring_wf(p.name) && strings::istring_wf(p.value)
}

pub open spec fn parameters_wf(v: Seq<ParameterView>) -> bool {
    args::all_wf(v, |p: ParameterView| parameter_wf(p))
}

pub open spec fn fields_wf(f: FieldsView) -> bool {
    parameters_wf(f.parameters) && strings::nstring_wf(f.id) && strings::nstring_wf(f.description)
        && strings::istring_wf(f.encoding)
}

pub open spec fn disposition_wf(d: Option<DispositionView>) -> bool {
    d matches Some(d) ==> strings::istring_wf(d.kind) && parameters_wf(d.parameters)
}

pub open spec fn language_wf(l: LanguageView) -> bool {
    match l {
        LanguageView::Single(s) => strings::nstring_wf(s),
        LanguageView::List(v) => v.len() > 0 && args::all_wf(
            v,
            |s: StringView| strings::istring_wf(s),
        ),
    }
}

/// Extension data that is nested at most `depth` levels deep.
pub open spec fn extension_wf(e: BodyExtensionView, depth: nat) -> bool
    decreases depth,
{
    match e {
        BodyExtensionView::String(s) => depth >= 1 && strings::nstring_wf(s),
        BodyExtensionView::Number(n) => depth >= 1 && n <= NUMBER63_MAX,
        BodyExtensionView::List(v) => depth >= 2 && v.len() > 0 && forall|i: int|
            0 <= i < v.len() ==> extension_wf(#[trigger] v[i], (depth - 1) as nat),
    }
}

pub open spec fn location_wf(l: LocationView) -> bool {
    strings::nstring_wf(l.location) && args::all_wf(
        l.extensions,
        |e: BodyExtensionView| extension_wf(e, BODY_DEPTH as nat),
    )
}

pub open spec fn language_data_wf(d: LanguageDataView) -> bool {
    language_wf(d.language) && (d.tail matches Some(l) ==> location_wf(l))
}

pub open spec fn disposition_data_wf(d: DispositionDataView) -> bool {
    disposition_wf(d.disposition) && (d.tail matches Some(l) ==> language_data_wf(l))
}

pub open spec fn single_part_wf(d: SinglePartView) -> bool {
    strings::nstring_wf(d.md5) && (d.tail matches Some(t) ==> disposition_data_wf(t))
}

pub open spec fn multi_part_wf(d: MultiPartView) -> bool {
    parameters_wf(d.parameters) && (d.tail matches Some(t) ==> disposition_data_wf(t))
}

/// A body that is nested at most `depth` levels deep.
pub open spec fn inner_wf(v: StructureView, depth: nat) -> bool
    decreases depth,
{
    &&& depth >= 1
    &&& match v {
        StructureView::Single { media, subtype, fields, specific, extension } => {
            &&& strings::istring_wf(media)
            &&& strings::istring_wf(subtype)
            &&& fields_wf(fields)
            &&& extension matches Some(e) ==> single_part_wf(e)
            &&& match specific {
                SpecificView::Basic => true,
                SpecificView::Text { lines } => is_text(media) && lines <= NUMBER63_MAX,
                SpecificView::Message { envelope, body, lines } => !is_text(media) && is_message(
                    media,
                    subtype,
                ) && structure::envelope_wf(envelope) && lines <= NUMBER63_MAX && depth >= 2
                    && inner_wf(*body, (depth - 1) as nat),
            }
        },
        StructureView::Multi { bodies, subtype, extension } => {
            &&& depth >= 2
            &&& bodies.len() > 0
            &&& forall|i: int|
                0 <= i < bodies.len() ==> inner_wf(#[trigger] bodies[i], (depth - 1) as nat)
            &&& strings::istring_wf(subtype)
            &&& extension matches Some(e) ==> multi_part_wf(e)
        },
    }
}

pub open spec fn body_wf(v: StructureView) -> bool {
    inner_wf(v, BODY_DEPTH as nat)
}

// ------------------------------------------------------------------- streaming

proof fn lemma_parameters_lawful()
    ensures
        g::lawful(parameters_rule()),
        g::lawful(fields_rule()),
        g::lawful(disposition_rule()),
        g::lawful(language_rule()),
{
    broadcast use g::group_lawful;

    reveal(parameter_rule);
    reveal(parameters_rule);
    reveal(fields_rule);
    reveal(disposition_rule);
    reveal(language_rule);
    strings::lemma_strings_lawful();
    number::lemma_numbers_lawful();
    assert(g::lawful(parameter_rule()));
    assert(g::lawful(parameters_rule()));
}

proof fn lemma_extension_lawful(depth: nat)
    ensures
        g::lawful(extension_rule(depth)),
    decreases depth,
{
    broadcast use g::group_lawful;

    reveal_with_fuel(extension_rule, 1);
    if depth > 0 {
        lemma_extension_lawful((depth - 1) as nat);
        strings::lemma_strings_lawful();
        ext::lemma_rev2_lawful();
    }
}

proof fn lemma_part_data_lawful()
    ensures
        g::lawful(single_part_rule()),
        g::lawful(multi_part_rule()),
{
    broadcast use g::group_lawful;

    reveal(location_rule);
    reveal(language_data_rule);
    reveal(disposition_data_rule);
    reveal(single_part_rule);
    reveal(multi_part_rule);
    strings::lemma_strings_lawful();
    lemma_parameters_lawful();
    lemma_extension_lawful(BODY_DEPTH as nat);
    assert(g::lawful(location_rule()));
    assert(g::lawful(language_data_rule()));
    assert(g::lawful(disposition_data_rule()));
}

proof fn lemma_single_lawful(p: Rule<StructureView>)
    requires
        g::lawful(p),
    ensures
        g::lawful(single_rule(p)),
{
    broadcast use g::group_lawful;

    strings::lemma_strings_lawful();
    ext::lemma_rev2_lawful();
    lemma_parameters_lawful();
    lemma_part_data_lawful();
    structure::lemma_envelope_lawful();
    assert(g::lawful(message_rule(p)));
    let q = |m: MediaTuple| behind_media_rule(m, p);
    let f = |m: MediaTuple|
        g::mapped(q(m), |b: (SpecificView, Option<SinglePartView>)| (m, b));
    assert forall|m: MediaTuple| g::lawful(#[trigger] f(m)) by {
        assert(g::lawful(specific_rule(m.0.0, m.0.1, p)));
        assert(g::lawful(q(m)));
    }
    g::lemma_chain_lawful(media_rule(), f);
    assert(shapes::linked(media_rule(), q) == g::chain(media_rule(), f));
}

proof fn lemma_inner_lawful(depth: nat)
    ensures
        g::lawful(inner_rule(depth)),
    decreases depth,
{
    broadcast use g::group_lawful;

    reveal_with_fuel(inner_rule, 1);
    if depth > 0 {
        let p = inner_rule((depth - 1) as nat);
        lemma_inner_lawful((depth - 1) as nat);
        strings::lemma_strings_lawful();
        lemma_part_data_lawful();
        lemma_single_lawful(p);
        assert(g::lawful(multi_rule(p)));
    }
}

pub proof fn lemma_body_lawful()
    ensures
        g::lawful(body_rule()),
{
    broadcast use g::group_lawful;

    reveal(body_rule);
    lemma_inner_lawful(BODY_DEPTH as nat);
}

// --------------------------------------------------------------------- reading

proof fn lemma_parameter_reads(p: ParameterView)
    requires
        parameter_wf(p),
    ensures
        reading::reads(parameter_rule(), encode::flat(parameter_tokens(p)), p),
{
    reveal(parameter_rule);
    let q = strings::string_rule();
    let a = strings::string_tokens(p.name);
    let b = strings::string_tokens(p.value);
    strings::lemma_string_reads(p.name);
    strings::lemma_string_reads(p.value);
    shapes::lemma_two_read(q, q, a, p.name, b, p.value);
    shapes::lemma_mapped_reads(
        shapes::two(q, q),
        |p: (StringView, StringView)| ParameterView { name: p.0, value: p.1 },
        encode::flat(parameter_tokens(p)),
        (p.name, p.value),
    );
}

proof fn lemma_parameters_read(v: Seq<ParameterView>)
    requires
        parameters_wf(v),
    ensures
        reading::reads(parameters_rule(), encode::flat(parameters_tokens(v)), v),
{
    reveal(parameters_rule);
    let b = encode::flat(parameters_tokens(v));
    if v.len() == 0 {
        assert forall|t: Seq<u8>| reading::ends(t) implies #[trigger] parameters_rule()(b + t)
            == Outcome::Done(t, v) by {
            shapes::lemma_nil_reads(v, t);
            assert(v =~= Seq::<ParameterView>::empty());
        }
    } else {
        let tokens = encode::parts::<BodyParameter>(v);
        assert forall|i: int| 0 <= i < v.len() implies reading::reads(
            parameter_rule(),
            encode::flat(#[trigger] tokens[i]),
            v[i],
        ) by {
            let wf = |p: ParameterView| parameter_wf(p);
            assert(wf(v[i]));
            lemma_parameter_reads(v[i]);
        }
        shapes::lemma_parens_read(parameter_rule(), tokens, v);
        assert forall|t: Seq<u8>| reading::ends(t) implies #[trigger] parameters_rule()(b + t)
            == Outcome::Done(t, v) by {
            assert(g::paren_list1(parameter_rule())(b + t) == Outcome::Done(t, v));
        }
    }
}

proof fn lemma_number_reads(n: u32)
    ensures
        reading::reads(number::number_rule(), encode::flat(number_tokens(n as u64)), n),
{
    encode::lemma_flat_plain(number::decimal(n as nat));
    assert forall|t: Seq<u8>| reading::ends(t) implies #[trigger] number::number_rule()(
        encode::flat(number_tokens(n as u64)) + t,
    ) == Outcome::Done(t, n) by {
        number::lemma_number_reads(n, t);
    }
}

proof fn lemma_number63_reads(n: u64)
    requires
        n <= NUMBER63_MAX,
    ensures
        reading::reads(ext::number63_rule(), encode::flat(number_tokens(n)), n),
{
    reveal(ext::number63_rule);
    encode::lemma_flat_plain(number::decimal(n as nat));
    assert forall|t: Seq<u8>| reading::ends(t) implies #[trigger] ext::number63_rule()(
        encode::flat(number_tokens(n)) + t,
    ) == Outcome::Done(t, n) by {
        number::lemma_number64_reads(n, t);
    }
}

proof fn lemma_fields_read(f: FieldsView)
    requires
        fields_wf(f),
    ensures
        reading::reads(fields_rule(), encode::flat(fields_tokens(f)), f),
{
    reveal(fields_rule);
    let p = structure::two_strings_rule();
    let q = shapes::two(strings::string_rule(), number::number_rule());
    let a = parameters_tokens(f.parameters);
    let b = structure::two_strings_tokens(f.id, f.description);
    let x = strings::string_tokens(f.encoding);
    let n = number_tokens(f.size as u64);
    let c = shapes::two_tokens(x, n);
    lemma_parameters_read(f.parameters);
    structure::lemma_two_strings_read(f.id, f.description);
    strings::lemma_string_reads(f.encoding);
    lemma_number_reads(f.size);
    shapes::lemma_two_read(strings::string_rule(), number::number_rule(), x, f.encoding, n, f.size);
    shapes::lemma_two_read(p, q, b, (f.id, f.description), c, (f.encoding, f.size));
    let rest = shapes::two_tokens(b, c);
    let v = ((f.id, f.description), (f.encoding, f.size));
    shapes::lemma_two_read(parameters_rule(), shapes::two(p, q), a, f.parameters, rest, v);
    shapes::lemma_mapped_reads(
        shapes::two(parameters_rule(), shapes::two(p, q)),
        |p: FieldsTuple|
            FieldsView {
                parameters: p.0,
                id: p.1.0.0,
                description: p.1.0.1,
                encoding: p.1.1.0,
                size: p.1.1.1,
            },
        encode::flat(fields_tokens(f)),
        (f.parameters, v),
    );
}

proof fn lemma_disposition_reads(d: Option<DispositionView>)
    requires
        disposition_wf(d),
    ensures
        reading::reads(disposition_rule(), encode::flat(disposition_tokens(d)), d),
{
    reveal(disposition_rule);
    let b = encode::flat(disposition_tokens(d));
    match d {
        Some(x) => {
            let p = strings::string_rule();
            let q = parameters_rule();
            let kind = strings::string_tokens(x.kind);
            let list = parameters_tokens(x.parameters);
            strings::lemma_string_reads(x.kind);
            lemma_parameters_read(x.parameters);
            shapes::lemma_two_read(p, q, kind, x.kind, list, x.parameters);
            shapes::lemma_enclosed_reads(
                shapes::two(p, q),
                shapes::two_tokens(kind, list),
                (x.kind, x.parameters),
            );
            assert forall|t: Seq<u8>| reading::ends(t) implies #[trigger] disposition_rule()(b + t)
                == Outcome::Done(t, d) by {
                assert(shapes::enclosed(shapes::two(p, q))(b + t) == Outcome::Done(
                    t,
                    (x.kind, x.parameters),
                ));
            }
        },
        None => {
            assert forall|t: Seq<u8>| reading::ends(t) implies #[trigger] disposition_rule()(b + t)
                == Outcome::Done(t, d) by {
                shapes::lemma_nil_reads(d, t);
            }
        },
    }
}

/// A string or `nil` starts like no list and like no number.
proof fn lemma_nstring_start(s: Option<StringView>, t: Seq<u8>)
    requires
        strings::nstring_wf(s),
    ensures
        ({
            let b = encode::flat(strings::nstring_tokens(s)) + t;
            &&& b.len() > 0
            &&& b[0] != '(' as u8
            &&& !ascii::is_digit(b[0])
            &&& g::text("(")(b) is Reject
            &&& ext::number63_rule()(b) is Reject
        }),
{
    let b = encode::flat(strings::nstring_tokens(s)) + t;
    reveal_strlit("(");
    reveal(ext::number63_rule);
    match s {
        Some(x) => {
            strings::lemma_string_first(x);
            assert(b[0] == encode::flat(strings::string_tokens(x))[0]);
        },
        None => {
            shapes::lemma_nil_reads(s, t);
        },
    }
    reading::lemma_tag_rejects(ascii::bytes_of("("), b);
    number::lemma_number_rejects(b);
}

proof fn lemma_language_reads(l: LanguageView)
    requires
        language_wf(l),
    ensures
        reading::reads(language_rule(), encode::flat(language_tokens(l)), l),
{
    reveal(language_rule);
    let b = encode::flat(language_tokens(l));
    match l {
        LanguageView::Single(s) => {
            structure::lemma_nstring_reads(s);
            assert forall|t: Seq<u8>| reading::ends(t) implies #[trigger] language_rule()(b + t)
                == Outcome::Done(t, l) by {
                lemma_nstring_start(s, t);
                assert(strings::nstring_rule()(b + t) == Outcome::Done(t, s));
            }
        },
        LanguageView::List(v) => {
            let tokens = encode::parts::<IString>(v);
            let p = strings::string_rule();
            assert forall|i: int| 0 <= i < v.len() implies reading::reads(
                p,
                encode::flat(#[trigger] tokens[i]),
                v[i],
            ) by {
                let wf = |s: StringView| strings::istring_wf(s);
                assert(wf(v[i]));
                strings::lemma_string_reads(v[i]);
            }
            shapes::lemma_parens_read(p, tokens, v);
            assert forall|t: Seq<u8>| reading::ends(t) implies #[trigger] language_rule()(b + t)
                == Outcome::Done(t, l) by {
                assert(g::paren_list1(p)(b + t) == Outcome::Done(t, v));
            }
        },
    }
}

proof fn lemma_extension_reads(e: BodyExtensionView, depth: nat)
    requires
        extension_wf(e, depth),
    ensures
        reading::reads(extension_rule(depth), encode::flat(extension_tokens(e)), e),
    decreases depth,
{
    reveal_with_fuel(extension_rule, 1);
    let b = encode::flat(extension_tokens(e));
    match e {
        BodyExtensionView::String(s) => {
            structure::lemma_nstring_reads(s);
            assert forall|t: Seq<u8>| reading::ends(t) implies #[trigger] extension_rule(depth)(
                b + t,
            ) == Outcome::Done(t, e) by {
                lemma_nstring_start(s, t);
                assert(strings::nstring_rule()(b + t) == Outcome::Done(t, s));
            }
        },
        BodyExtensionView::Number(n) => {
            lemma_number63_reads(n);
            encode::lemma_flat_plain(number::decimal(n as nat));
            number::lemma_decimal(n as nat);
            reveal_strlit("(");
            assert forall|t: Seq<u8>| reading::ends(t) implies #[trigger] extension_rule(depth)(
                b + t,
            ) == Outcome::Done(t, e) by {
                assert(ext::number63_rule()(b + t) == Outcome::Done(t, n));
                assert((b + t)[0] == number::decimal(n as nat)[0]);
                reading::lemma_tag_rejects(ascii::bytes_of("("), b + t);
            }
        },
        BodyExtensionView::List(v) => {
            let inner = extension_rule((depth - 1) as nat);
            let tokens = extension_parts(v);
            lemma_extension_parts(v);
            assert forall|i: int| 0 <= i < v.len() implies reading::reads(
                inner,
                encode::flat(#[trigger] tokens[i]),
                v[i],
            ) by {
                assert(extension_wf(v[i], (depth - 1) as nat));
                lemma_extension_reads(v[i], (depth - 1) as nat);
            }
            shapes::lemma_parens_read(inner, tokens, v);
            assert forall|t: Seq<u8>| reading::ends(t) implies #[trigger] extension_rule(depth)(
                b + t,
            ) == Outcome::Done(t, e) by {
                assert(g::paren_list1(inner)(b + t) == Outcome::Done(t, v));
            }
        },
    }
}

proof fn lemma_location_reads(l: LocationView)
    requires
        location_wf(l),
    ensures
        shapes::reads_inside(location_rule(), encode::flat(location_tokens(l)), l),
{
    reveal(location_rule);
    let p = extension_rule(BODY_DEPTH as nat);
    let tokens = encode::parts::<BodyExtension>(l.extensions);
    let a = strings::nstring_tokens(l.location);
    let rest = encode::spread(tokens, encode::word(" "));
    assert forall|i: int| 0 <= i < l.extensions.len() implies reading::reads(
        p,
        encode::flat(#[trigger] tokens[i]),
        l.extensions[i],
    ) by {
        let wf = |e: BodyExtensionView| extension_wf(e, BODY_DEPTH as nat);
        assert(wf(l.extensions[i]));
        lemma_extension_reads(l.extensions[i], BODY_DEPTH as nat);
    }
    structure::lemma_nstring_reads(l.location);
    assert forall|t: Seq<u8>| t.len() > 0 && t[0] == ')' as u8 implies #[trigger] location_rule()(
        encode::flat(location_tokens(l)) + t,
    ) == Outcome::Done(t, l) by {
        args::lemma_flat_then(a, rest, t);
        shapes::lemma_spaced_read(p, tokens, l.extensions, t);
        let r = encode::flat(rest) + t;
        assert(strings::nstring_rule()(encode::flat(a) + r) == Outcome::Done(r, l.location));
    }
}

proof fn lemma_language_data_reads(d: LanguageDataView)
    requires
        language_data_wf(d),
    ensures
        shapes::reads_inside(language_data_rule(), encode::flat(language_data_tokens(d)), d),
{
    reveal(language_data_rule);
    let tail = match d.tail {
        Some(l) => Some(location_tokens(l)),
        None => None,
    };
    if let Some(l) = d.tail {
        lemma_location_reads(l);
    }
    lemma_language_reads(d.language);
    shapes::lemma_tailed_reads(
        language_rule(),
        location_rule(),
        language_tokens(d.language),
        d.language,
        tail,
        d.tail,
    );
    shapes::lemma_mapped_reads(
        shapes::tailed(language_rule(), location_rule()),
        |p: (LanguageView, Option<LocationView>)| LanguageDataView { language: p.0, tail: p.1 },
        encode::flat(language_data_tokens(d)),
        (d.language, d.tail),
    );
}

proof fn lemma_disposition_data_reads(d: DispositionDataView)
    requires
        disposition_data_wf(d),
    ensures
        shapes::reads_inside(disposition_data_rule(), encode::flat(disposition_data_tokens(d)), d),
{
    reveal(disposition_data_rule);
    if let Some(l) = d.tail {
        lemma_language_data_reads(l);
    }
    lemma_disposition_reads(d.disposition);
    shapes::lemma_tailed_reads(
        disposition_rule(),
        language_data_rule(),
        disposition_tokens(d.disposition),
        d.disposition,
        disposition_tail(d.tail),
        d.tail,
    );
    shapes::lemma_mapped_reads(
        shapes::tailed(disposition_rule(), language_data_rule()),
        |p: (Option<DispositionView>, Option<LanguageDataView>)|
            DispositionDataView { disposition: p.0, tail: p.1 },
        encode::flat(disposition_data_tokens(d)),
        (d.disposition, d.tail),
    );
}

proof fn lemma_single_part_reads(d: SinglePartView)
    requires
        single_part_wf(d),
    ensures
        shapes::reads_inside(single_part_rule(), encode::flat(single_part_tokens(d)), d),
{
    reveal(single_part_rule);
    if let Some(t) = d.tail {
        lemma_disposition_data_reads(t);
    }
    structure::lemma_nstring_reads(d.md5);
    shapes::lemma_tailed_reads(
        strings::nstring_rule(),
        disposition_data_rule(),
        strings::nstring_tokens(d.md5),
        d.md5,
        part_tail(d.tail),
        d.tail,
    );
    shapes::lemma_mapped_reads(
        shapes::tailed(strings::nstring_rule(), disposition_data_rule()),
        |p: (Option<StringView>, Option<DispositionDataView>)|
            SinglePartView { md5: p.0, tail: p.1 },
        encode::flat(single_part_tokens(d)),
        (d.md5, d.tail),
    );
}

proof fn lemma_multi_part_reads(d: MultiPartView)
    requires
        multi_part_wf(d),
    ensures
        shapes::reads_inside(multi_part_rule(), encode::flat(multi_part_tokens(d)), d),
{
    reveal(multi_part_rule);
    if let Some(t) = d.tail {
        lemma_disposition_data_reads(t);
    }
    lemma_parameters_read(d.parameters);
    shapes::lemma_tailed_reads(
        parameters_rule(),
        disposition_data_rule(),
        parameters_tokens(d.parameters),
        d.parameters,
        part_tail(d.tail),
        d.tail,
    );
    shapes::lemma_mapped_reads(
        shapes::tailed(parameters_rule(), disposition_data_rule()),
        |p: (Seq<ParameterView>, Option<DispositionDataView>)|
            MultiPartView { parameters: p.0, tail: p.1 },
        encode::flat(multi_part_tokens(d)),
        (d.parameters, d.tail),
    );
}

/// A message in a part is read back.
proof fn lemma_message_reads(
    envelope: EnvelopeView,
    body: StructureView,
    lines: u64,
    p: Rule<StructureView>,
)
    requires
        structure::envelope_wf(envelope),
        lines <= NUMBER63_MAX,
        shapes::reads_alone(p, encode::flat(inner_tokens(body)), body),
    ensures
        reading::reads(
            message_rule(p),
            encode::flat(message_tokens(envelope, inner_tokens(body), lines)),
            (envelope, (body, lines)),
        ),
{
    let opened = g::preceded(g::text("("), p);
    let a = structure::envelope_tokens(envelope);
    let b = encode::word("(") + inner_tokens(body);
    let c = number_tokens(lines);
    structure::lemma_envelope_reads(envelope);
    shapes::lemma_opened_reads(p, inner_tokens(body), body);
    lemma_number63_reads(lines);
    shapes::lemma_two_read(opened, ext::number63_rule(), b, body, c, lines);
    shapes::lemma_two_read(
        structure::envelope_rule(),
        shapes::two(opened, ext::number63_rule()),
        a,
        envelope,
        shapes::two_tokens(b, c),
        (body, lines),
    );
}

/// Before extension data, or where a part ends, neither lines nor an envelope
/// are read.
proof fn lemma_nothing_specific(p: Rule<StructureView>, r: Seq<u8>)
    requires
        r.len() > 0,
        r[0] == ')' as u8 || (r[0] == 0x20 && r.len() > 1 && r[1] != '(' as u8 && !ascii::is_digit(
            r[1],
        )),
    ensures
        g::opt(args::sp(ext::number63_rule()))(r) == Outcome::Done(r, None::<u64>),
        g::opt(args::sp(message_rule(p)))(r) == Outcome::Done(r, None::<MessageTuple>),
{
    let space = ascii::bytes_of(" ");
    reveal_strlit(" ");
    reveal_strlit("(");
    reveal(ext::number63_rule);
    reveal(structure::envelope_rule);
    if r[0] == ')' as u8 {
        reading::lemma_tag_rejects(space, r);
    } else {
        let behind = r.skip(1);
        assert(r =~= space + behind);
        reading::lemma_tag_reads(space, behind);
        number::lemma_number_rejects(behind);
        reading::lemma_tag_rejects(ascii::bytes_of("("), behind);
    }
}

/// What depends on the media type is read back before `r`.
proof fn lemma_specific_reads(
    media: StringView,
    subtype: StringView,
    specific: SpecificView,
    p: Rule<StructureView>,
    r: Seq<u8>,
)
    requires
        match specific {
            SpecificView::Basic => true,
            SpecificView::Text { lines } => is_text(media) && lines <= NUMBER63_MAX,
            SpecificView::Message { envelope, body, lines } => !is_text(media) && is_message(
                media,
                subtype,
            ) && structure::envelope_wf(envelope) && lines <= NUMBER63_MAX && shapes::reads_alone(
                p,
                encode::flat(inner_tokens(*body)),
                *body,
            ),
        },
        reading::ends(r),
        r[0] == ')' as u8 || (r[0] == 0x20 && r.len() > 1 && r[1] != '(' as u8 && !ascii::is_digit(
            r[1],
        )),
    ensures
        specific_rule(media, subtype, p)(encode::flat(specific_tokens(specific)) + r)
            == Outcome::Done(r, specific),
        reading::ends(encode::flat(specific_tokens(specific)) + r),
{
    match specific {
        SpecificView::Basic => {
            assert(encode::flat(specific_tokens(specific)) + r =~= r);
            lemma_nothing_specific(p, r);
        },
        SpecificView::Text { lines } => {
            lemma_number63_reads(lines);
            args::lemma_delimited_argument(ext::number63_rule(), number_tokens(lines), lines, r);
        },
        SpecificView::Message { envelope, body, lines } => {
            lemma_message_reads(envelope, *body, lines, p);
            args::lemma_delimited_argument(
                message_rule(p),
                message_tokens(envelope, inner_tokens(*body), lines),
                (envelope, (*body, lines)),
                r,
            );
        },
    }
}

/// What follows the fields that every part has is read back.
proof fn lemma_behind_media(
    m: MediaTuple,
    specific: SpecificView,
    extension: Option<SinglePartView>,
    p: Rule<StructureView>,
    t: Seq<u8>,
)
    requires
        match specific {
            SpecificView::Basic => true,
            SpecificView::Text { lines } => is_text(m.0.0) && lines <= NUMBER63_MAX,
            SpecificView::Message { envelope, body, lines } => !is_text(m.0.0) && is_message(
                m.0.0,
                m.0.1,
            ) && structure::envelope_wf(envelope) && lines <= NUMBER63_MAX && shapes::reads_alone(
                p,
                encode::flat(inner_tokens(*body)),
                *body,
            ),
        },
        extension matches Some(e) ==> single_part_wf(e),
        t.len() > 0,
        t[0] == ')' as u8,
    ensures
        ({
            let s = encode::flat(
                specific_tokens(specific) + shapes::tail_tokens(single_tail(extension)),
            ) + t;
            &&& behind_media_rule(m, p)(s) == Outcome::Done(t, (specific, extension))
            &&& reading::ends(s)
        }),
{
    let tail = single_tail(extension);
    let r = encode::flat(shapes::tail_tokens(tail)) + t;
    if let Some(e) = extension {
        lemma_single_part_reads(e);
    }
    shapes::lemma_tail_reads(single_part_rule(), tail, extension, t);
    if let Some(e) = extension {
        let rest = shapes::tail_tokens(part_tail(e.tail));
        args::lemma_flat_then(strings::nstring_tokens(e.md5), rest, t);
        lemma_nstring_start(e.md5, encode::flat(rest) + t);
        assert(r.skip(1) == encode::flat(single_part_tokens(e)) + t);
        assert(r[1] == r.skip(1)[0]);
    }
    lemma_specific_reads(m.0.0, m.0.1, specific, p, r);
    args::lemma_flat_then(specific_tokens(specific), shapes::tail_tokens(tail), t);
}

proof fn lemma_media_reads(media: StringView, subtype: StringView, fields: FieldsView)
    requires
        strings::istring_wf(media),
        strings::istring_wf(subtype),
        fields_wf(fields),
    ensures
        reading::reads(
            media_rule(),
            encode::flat(media_tokens(media, subtype, fields)),
            ((media, subtype), fields),
        ),
{
    let q = strings::string_rule();
    let a = strings::string_tokens(media);
    let b = strings::string_tokens(subtype);
    strings::lemma_string_reads(media);
    strings::lemma_string_reads(subtype);
    shapes::lemma_two_read(q, q, a, media, b, subtype);
    lemma_fields_read(fields);
    shapes::lemma_two_read(
        shapes::two(q, q),
        fields_rule(),
        shapes::two_tokens(a, b),
        (media, subtype),
        fields_tokens(fields),
        fields,
    );
}

proof fn lemma_single_reads(v: StructureView, depth: nat)
    requires
        inner_wf(v, depth),
        v is Single,
    ensures
        shapes::reads_alone(inner_rule(depth), encode::flat(inner_tokens(v)), v),
    decreases depth, 0int,
{
    reveal_with_fuel(inner_rule, 1);
    let p = inner_rule((depth - 1) as nat);
    if let StructureView::Single { media, subtype, fields, specific, extension } = v {
        if let SpecificView::Message { envelope, body, lines } = specific {
            lemma_inner_reads(*body, (depth - 1) as nat);
        }
        let m = ((media, subtype), fields);
        let a = media_tokens(media, subtype, fields);
        let b = specific_tokens(specific) + shapes::tail_tokens(single_tail(extension));
        let q = g::alt(single_rule(p), multi_rule(p));
        lemma_media_reads(media, subtype, fields);
        assert forall|t: Seq<u8>| t.len() > 0 && t[0] == ')' as u8 implies #[trigger] q(
            encode::flat(a + b) + t,
        ) == Outcome::Done(t, v) by {
            args::lemma_flat_then(a, b, t);
            lemma_behind_media(m, specific, extension, p, t);
            let r = encode::flat(b) + t;
            assert(media_rule()(encode::flat(a) + r) == Outcome::Done(r, m));
        }
        shapes::lemma_closed(q, a + b, v);
    }
}

proof fn lemma_multi_reads(v: StructureView, depth: nat)
    requires
        inner_wf(v, depth),
        v is Multi,
    ensures
        shapes::reads_alone(inner_rule(depth), encode::flat(inner_tokens(v)), v),
    decreases depth, 0int,
{
    reveal_with_fuel(inner_rule, 1);
    let p = inner_rule((depth - 1) as nat);
    if let StructureView::Multi { bodies, subtype, extension } = v {
        let tokens = inner_parts(bodies);
        let row = shapes::row_tokens(tokens);
        let b = shapes::tailed_tokens(strings::string_tokens(subtype), multi_tail(extension));
        let whole = shapes::two_tokens(row, b);
        let tail = shapes::tailed(strings::string_rule(), multi_part_rule());
        let q = g::alt(single_rule(p), multi_rule(p));
        lemma_inner_parts(bodies);
        assert forall|i: int| 0 <= i < bodies.len() implies shapes::reads_alone(
            p,
            encode::flat(#[trigger] tokens[i]),
            bodies[i],
        ) by {
            assert(inner_wf(bodies[i], (depth - 1) as nat));
            lemma_inner_reads(bodies[i], (depth - 1) as nat);
        }
        if let Some(e) = extension {
            lemma_multi_part_reads(e);
        }
        strings::lemma_string_reads(subtype);
        shapes::lemma_tailed_reads(
            strings::string_rule(),
            multi_part_rule(),
            strings::string_tokens(subtype),
            subtype,
            multi_tail(extension),
            extension,
        );
        reveal_strlit(" ");
        assert forall|t: Seq<u8>| t.len() > 0 && t[0] == ')' as u8 implies #[trigger] q(
            encode::flat(whole) + t,
        ) == Outcome::Done(t, v) by {
            args::lemma_flat_then(row, args::argument(b), t);
            assert(tail(encode::flat(b) + t) == Outcome::Done(t, (subtype, extension)));
            args::lemma_argument_reads(tail, b, (subtype, extension), t);
            let r = encode::flat(args::argument(b)) + t;
            args::lemma_flat_then(encode::word(" "), b, t);
            encode::lemma_flat_word(" ");
            assert(r[0] == 0x20);
            shapes::lemma_row_reads(p, tokens, bodies, r);
            shapes::lemma_row_start(tokens, r);
            strings::lemma_string_rejects(encode::flat(row) + r);
        }
        shapes::lemma_closed(q, whole, v);
    }
}

proof fn lemma_inner_reads(v: StructureView, depth: nat)
    requires
        inner_wf(v, depth),
    ensures
        shapes::reads_alone(inner_rule(depth), encode::flat(inner_tokens(v)), v),
    decreases depth, 1int,
{
    if v is Single {
        lemma_single_reads(v, depth);
    } else {
        lemma_multi_reads(v, depth);
    }
}

/// A body is read back, whatever follows.
pub proof fn lemma_body_reads(v: StructureView)
    requires
        body_wf(v),
    ensures
        shapes::reads_alone(body_rule(), encode::flat(body_tokens(v)), v),
{
    reveal(body_rule);
    lemma_inner_reads(v, BODY_DEPTH as nat);
    shapes::lemma_opened_reads(inner_rule(BODY_DEPTH as nat), inner_tokens(v), v);
}

// ------------------------------------------------------------------ executable

fn parameter<'a>(input: &'a [u8]) -> (res: IMAPResult<'a, BodyParameter>)
    ensures
        g::agrees(res, parameter_rule()(input@)),
{
    proof {
        reveal(parameter_rule);
    }
    let (rest, name) = string(input)?;
    let (rest, _) = tag(rest, " ")?;
    let (rest, value) = string(rest)?;
    Ok((rest, BodyParameter { name, value }))
}

fn parameters<'a>(input: &'a [u8]) -> (res: IMAPResult<'a, Vec<BodyParameter>>)
    ensures
        g::agrees(res, parameters_rule()(input@)),
{
    proof {
        reveal(parameters_rule);
    }
    match parens1(input, parameter, Ghost(parameter_rule())) {
        Ok((rest, v)) => Ok((rest, v)),
        Err(IMAPParseError::Error) => {
            let (rest, _) = tag_no_case(input, "NIL")?;
            let none: Vec<BodyParameter> = Vec::new();
            assert(none.deep_view() =~= Seq::<ParameterView>::empty());
            Ok((rest, none))
        },
        Err(e) => Err(e),
    }
}

fn fields<'a>(input: &'a [u8]) -> (res: IMAPResult<'a, BodyFields>)
    ensures
        g::agrees(res, fields_rule()(input@)),
{
    proof {
        reveal(fields_rule);
    }
    let (rest, parameters) = parameters(input)?;
    let (rest, _) = tag(rest, " ")?;
    let (rest, id) = nstring(rest)?;
    let (rest, _) = tag(rest, " ")?;
    let (rest, description) = nstring(rest)?;
    let (rest, _) = tag(rest, " ")?;
    let (rest, encoding) = string(rest)?;
    let (rest, _) = tag(rest, " ")?;
    let (rest, size) = number(rest)?;
    Ok((rest, BodyFields { parameters, id, description, encoding, size }))
}

fn enclosed_disposition<'a>(input: &'a [u8]) -> (res: IMAPResult<'a, Disposition>)
    ensures
        g::agrees(
            res,
            g::mapped(
                shapes::enclosed(shapes::two(strings::string_rule(), parameters_rule())),
                |p: (StringView, Seq<ParameterView>)|
                    DispositionView { kind: p.0, parameters: p.1 },
            )(input@),
        ),
{
    let (rest, _) = tag(input, "(")?;
    let (rest, kind) = string(rest)?;
    let (rest, _) = tag(rest, " ")?;
    let (rest, parameters) = parameters(rest)?;
    let (rest, _) = tag(rest, ")")?;
    Ok((rest, Disposition { kind, parameters }))
}

fn disposition<'a>(input: &'a [u8]) -> (res: IMAPResult<'a, Option<Disposition>>)
    ensures
        g::agrees(res, disposition_rule()(input@)),
{
    proof {
        reveal(disposition_rule);
    }
    match enclosed_disposition(input) {
        Ok((rest, d)) => Ok((rest, Some(d))),
        Err(IMAPParseError::Error) => {
            let (rest, _) = tag_no_case(input, "NIL")?;
            Ok((rest, None))
        },
        Err(e) => Err(e),
    }
}

fn language<'a>(input: &'a [u8]) -> (res: IMAPResult<'a, Language>)
    ensures
        g::agrees(res, language_rule()(input@)),
{
    proof {
        reveal(language_rule);
    }
    match parens1(input, string, Ghost(strings::string_rule())) {
        Ok((rest, v)) => Ok((rest, Language::List(v))),
        Err(IMAPParseError::Error) => {
            let (rest, s) = nstring(input)?;
            Ok((rest, Language::Single(s)))
        },
        Err(e) => Err(e),
    }
}

/// Reads further values, each behind a space, as long as they follow.
fn extensions_into<'a>(input: &'a [u8], first: Vec<BodyExtension>, depth: usize) -> (res:
    IMAPResult<'a, Vec<BodyExtension>>)
    ensures
        g::agrees(
            res,
            g::after(
                first.deep_view(),
                g::repeated_from(g::text(" "), extension_rule(depth as nat), input@),
            ),
        ),
    decreases depth, 1int,
{
    let ghost p = extension_rule(depth as nat);
    let ghost whole = g::after(first.deep_view(), g::repeated_from(g::text(" "), p, input@));
    let mut read = first;
    let mut at: &'a [u8] = input;
    loop
        invariant
            p == extension_rule(depth as nat),
            whole == g::after(first.deep_view(), g::repeated_from(g::text(" "), p, input@)),
            whole == g::after(read.deep_view(), g::repeated_from(g::text(" "), p, at@)),
        decreases at@.len(),
    {
        let behind: &'a [u8] = match tag(at, " ") {
            Ok((rest, _)) => rest,
            Err(IMAPParseError::Error) => {
                assert(read.deep_view() + seq![] =~= read.deep_view());
                return Ok((at, read));
            },
            Err(e) => return Err(e),
        };
        if behind.len() >= at.len() {
            return Err(IMAPParseError::Error);
        }
        match extension(behind, depth) {
            Ok((rest, x)) => {
                if rest.len() >= at.len() {
                    return Err(IMAPParseError::Error);
                }
                let ghost before = read.deep_view();
                let ghost seen = x.deep_view();
                read.push(x);
                proof {
                    assert(read.deep_view() =~= before.push(seen));
                    if let Outcome::Done(r, xs) = g::repeated_from(g::text(" "), p, rest@) {
                        assert(before + (seq![seen] + xs) =~= before.push(seen) + xs);
                    }
                }
                at = rest;
            },
            Err(IMAPParseError::Error) => {
                assert(read.deep_view() + seq![] =~= read.deep_view());
                return Ok((at, read));
            },
            Err(e) => return Err(e),
        }
    }
}

/// Reads values in parentheses.
fn extension_list<'a>(input: &'a [u8], depth: usize) -> (res: IMAPResult<'a, Vec<BodyExtension>>)
    ensures
        g::agrees(res, g::paren_list1(extension_rule(depth as nat))(input@)),
    decreases depth, 2int,
{
    let (rest, _) = tag(input, "(")?;
    let (rest, x) = extension(rest, depth)?;
    let mut first: Vec<BodyExtension> = Vec::new();
    first.push(x);
    assert(first.deep_view() =~= seq![x.deep_view()]);
    let (rest, v) = extensions_into(rest, first, depth)?;
    let (rest, _) = tag(rest, ")")?;
    Ok((rest, v))
}

fn extension<'a>(input: &'a [u8], depth: usize) -> (res: IMAPResult<'a, BodyExtension>)
    ensures
        g::agrees(res, extension_rule(depth as nat)(input@)),
    decreases depth, 0int,
{
    broadcast use lemma_extension_list_view;

    proof {
        reveal_with_fuel(extension_rule, 1);
    }
    if depth == 0 {
        return Err(IMAPParseError::Failure(IMAPErrorKind::RecursionLimitExceeded));
    }
    match extension_list(input, depth - 1) {
        Ok((rest, v)) => return Ok((rest, BodyExtension::List(v))),
        Err(IMAPParseError::Error) => {},
        Err(e) => return Err(e),
    }
    match number63(input) {
        Ok((rest, n)) => return Ok((rest, BodyExtension::Number(n))),
        Err(IMAPParseError::Error) => {},
        Err(e) => return Err(e),
    }
    let (rest, s) = nstring(input)?;
    Ok((rest, BodyExtension::String(s)))
}

fn location<'a>(input: &'a [u8]) -> (res: IMAPResult<'a, LocationData>)
    ensures
        g::agrees(res, location_rule()(input@)),
{
    proof {
        reveal(location_rule);
    }
    let (rest, location) = nstring(input)?;
    let none: Vec<BodyExtension> = Vec::new();
    proof {
        assert(none.deep_view() =~= seq![]);
        let p = extension_rule(BODY_DEPTH as nat);
        if let Outcome::Done(r, xs) = g::repeated_from(g::text(" "), p, rest@) {
            assert(Seq::<BodyExtensionView>::empty() + xs =~= xs);
        }
    }
    let (rest, extensions) = extensions_into(rest, none, BODY_DEPTH)?;
    Ok((rest, LocationData { location, extensions }))
}

fn language_data<'a>(input: &'a [u8]) -> (res: IMAPResult<'a, LanguageData>)
    ensures
        g::agrees(res, language_data_rule()(input@)),
{
    proof {
        reveal(language_data_rule);
    }
    let (rest, language) = language(input)?;
    let (rest, tail) = optional_argument(rest, location, Ghost(location_rule()))?;
    Ok((rest, LanguageData { language, tail }))
}

fn disposition_data<'a>(input: &'a [u8]) -> (res: IMAPResult<'a, DispositionData>)
    ensures
        g::agrees(res, disposition_data_rule()(input@)),
{
    proof {
        reveal(disposition_data_rule);
    }
    let (rest, disposition) = disposition(input)?;
    let (rest, tail) = optional_argument(rest, language_data, Ghost(language_data_rule()))?;
    Ok((rest, DispositionData { disposition, tail }))
}

fn single_part<'a>(input: &'a [u8]) -> (res: IMAPResult<'a, SinglePartData>)
    ensures
        g::agrees(res, single_part_rule()(input@)),
{
    proof {
        reveal(single_part_rule);
    }
    let (rest, md5) = nstring(input)?;
    let (rest, tail) = optional_argument(rest, disposition_data, Ghost(disposition_data_rule()))?;
    Ok((rest, SinglePartData { md5, tail }))
}

fn multi_part<'a>(input: &'a [u8]) -> (res: IMAPResult<'a, MultiPartData>)
    ensures
        g::agrees(res, multi_part_rule()(input@)),
{
    proof {
        reveal(multi_part_rule);
    }
    let (rest, parameters) = parameters(input)?;
    let (rest, tail) = optional_argument(rest, disposition_data, Ghost(disposition_data_rule()))?;
    Ok((rest, MultiPartData { parameters, tail }))
}

impl EncodeIntoContext for BodyParameter {
    open spec fn tokens(v: ParameterView) -> Seq<Token> {
        parameter_tokens(v)
    }

    fn encode_ctx(&self, ctx: &mut EncodeContext) {
        self.name.encode_ctx(ctx);
        write_argument(&self.value, ctx);
        assert(ctx@ =~= old(ctx)@ + Self::tokens(self.deep_view()));
    }
}

fn write_parameters(v: &Vec<BodyParameter>, ctx: &mut EncodeContext)
    ensures
        final(ctx)@ == old(ctx)@ + parameters_tokens(v.deep_view()),
{
    if v.len() == 0 {
        ctx.write_text("NIL");
    } else {
        write_parens(v.as_slice(), ctx);
    }
}

impl EncodeIntoContext for BodyFields {
    open spec fn tokens(v: FieldsView) -> Seq<Token> {
        fields_tokens(v)
    }

    fn encode_ctx(&self, ctx: &mut EncodeContext) {
        write_parameters(&self.parameters, ctx);
        ctx.write_text(" ");
        write_two_strings(&self.id, &self.description, ctx);
        write_argument(&self.encoding, ctx);
        ctx.write_text(" ");
        write_number(ctx, self.size as u64);
        assert(ctx@ =~= old(ctx)@ + Self::tokens(self.deep_view()));
    }
}

fn write_disposition(d: &Option<Disposition>, ctx: &mut EncodeContext)
    ensures
        final(ctx)@ == old(ctx)@ + disposition_tokens(d.deep_view()),
{
    match d {
        Some(d) => {
            ctx.write_text("(");
            d.kind.encode_ctx(ctx);
            ctx.write_text(" ");
            write_parameters(&d.parameters, ctx);
            ctx.write_text(")");
        },
        None => ctx.write_text("NIL"),
    }
    assert(ctx@ =~= old(ctx)@ + disposition_tokens(d.deep_view()));
}

impl EncodeIntoContext for Language {
    open spec fn tokens(v: LanguageView) -> Seq<Token> {
        language_tokens(v)
    }

    fn encode_ctx(&self, ctx: &mut EncodeContext) {
        match self {
            Language::Single(s) => s.encode_ctx(ctx),
            Language::List(v) => write_parens(v.as_slice(), ctx),
        }
        assert(ctx@ =~= old(ctx)@ + Self::tokens(self.deep_view()));
    }
}

fn write_extensions(items: &Vec<BodyExtension>, ctx: &mut EncodeContext)
    ensures
        final(ctx)@ == old(ctx)@ + encode::paren_tokens(extension_parts(items.deep_view())),
    decreases items, 0int,
{
    let ghost all = items.deep_view().map_values(|e: BodyExtensionView| extension_tokens(e));
    proof {
        lemma_extension_parts(items.deep_view());
    }
    ctx.write_text("(");
    let ghost start = ctx@;
    let mut i: usize = 0;
    assert(all.take(0) =~= seq![]);
    assert(ctx@ + encode::joined(all.take(0), encode::word(" ")) =~= ctx@);
    while i < items.len()
        invariant
            i <= items@.len(),
            all == items.deep_view().map_values(|e: BodyExtensionView| extension_tokens(e)),
            all.len() == items@.len(),
            ctx@ == start + encode::joined(all.take(i as int), encode::word(" ")),
        decreases items@.len() - i,
    {
        proof {
            encode::lemma_joined_push(all.take(i as int), all[i as int], encode::word(" "));
            assert(all.take(i + 1) =~= all.take(i as int).push(all[i as int]));
            assert(items.deep_view()[i as int] == items@[i as int].deep_view());
        }
        if i > 0 {
            ctx.write_text(" ");
        }
        assert(decreases_to!(*items => items@[i as int]));
        write_extension(&items[i], ctx);
        proof {
            if i > 0 {
                assert(ctx@ =~= start + (encode::joined(all.take(i as int), encode::word(" "))
                    + encode::word(" ") + all[i as int]));
            } else {
                assert(ctx@ =~= start + all[0]);
            }
        }
        i = i + 1;
    }
    assert(all.take(i as int) =~= all);
    ctx.write_text(")");
    assert(ctx@ =~= old(ctx)@ + encode::paren_tokens(extension_parts(items.deep_view())));
}

fn write_extension(e: &BodyExtension, ctx: &mut EncodeContext)
    ensures
        final(ctx)@ == old(ctx)@ + extension_tokens(e.deep_view()),
    decreases e, 1int,
{
    broadcast use lemma_extension_list_view;

    match e {
        BodyExtension::String(s) => s.encode_ctx(ctx),
        BodyExtension::Number(n) => write_number(ctx, *n),
        BodyExtension::List(v) => write_extensions(v, ctx),
    }
}

impl EncodeIntoContext for BodyExtension {
    open spec fn tokens(v: BodyExtensionView) -> Seq<Token> {
        extension_tokens(v)
    }

    fn encode_ctx(&self, ctx: &mut EncodeContext) {
        write_extension(self, ctx);
        assert(ctx@ =~= old(ctx)@ + Self::tokens(self.deep_view()));
    }
}

impl EncodeIntoContext for LocationData {
    open spec fn tokens(v: LocationView) -> Seq<Token> {
        location_tokens(v)
    }

    fn encode_ctx(&self, ctx: &mut EncodeContext) {
        self.location.encode_ctx(ctx);
        write_spread(self.extensions.as_slice(), " ", ctx);
        assert(ctx@ =~= old(ctx)@ + Self::tokens(self.deep_view()));
    }
}

impl EncodeIntoContext for LanguageData {
    open spec fn tokens(v: LanguageDataView) -> Seq<Token> {
        language_data_tokens(v)
    }

    fn encode_ctx(&self, ctx: &mut EncodeContext) {
        self.language.encode_ctx(ctx);
        if let Some(l) = &self.tail {
            write_argument(l, ctx);
        }
        assert(ctx@ =~= old(ctx)@ + Self::tokens(self.deep_view()));
    }
}

impl EncodeIntoContext for DispositionData {
    open spec fn tokens(v: DispositionDataView) -> Seq<Token> {
        disposition_data_tokens(v)
    }

    fn encode_ctx(&self, ctx: &mut EncodeContext) {
        write_disposition(&self.disposition, ctx);
        if let Some(l) = &self.tail {
            write_argument(l, ctx);
        }
        assert(ctx@ =~= old(ctx)@ + Self::tokens(self.deep_view()));
    }
}

impl EncodeIntoContext for SinglePartData {
    open spec fn tokens(v: SinglePartView) -> Seq<Token> {
        single_part_tokens(v)
    }

    fn encode_ctx(&self, ctx: &mut EncodeContext) {
        self.md5.encode_ctx(ctx);
        if let Some(d) = &self.tail {
            write_argument(d, ctx);
        }
        assert(ctx@ =~= old(ctx)@ + Self::tokens(self.deep_view()));
    }
}

impl EncodeIntoContext for MultiPartData {
    open spec fn tokens(v: MultiPartView) -> Seq<Token> {
        multi_part_tokens(v)
    }

    fn encode_ctx(&self, ctx: &mut EncodeContext) {
        write_parameters(&self.parameters, ctx);
        if let Some(d) = &self.tail {
            write_argument(d, ctx);
        }
        assert(ctx@ =~= old(ctx)@ + Self::tokens(self.deep_view()));
    }
}

fn is_text_media(media: &IString) -> (r: bool)
    ensures
        r == is_text(media.deep_view()),
{
    ascii::is_word(media.as_bytes(), "TEXT")
}

fn is_message_media(media: &IString, subtype: &IString) -> (r: bool)
    ensures
        r == is_message(media.deep_view(), subtype.deep_view()),
{
    ascii::is_word(media.as_bytes(), "MESSAGE") && (ascii::is_word(subtype.as_bytes(), "RFC822")
        || ascii::is_word(subtype.as_bytes(), "GLOBAL"))
}

/// Reads the envelope, the structure and the lines of a message in a part.
fn message<'a>(input: &'a [u8], depth: usize) -> (res: IMAPResult<
    'a,
    (Envelope, (BodyStructure, u64)),
>)
    ensures
        g::agrees(res, message_rule(inner_rule(depth as nat))(input@)),
    decreases depth, 1int,
{
    let (rest, envelope) = envelope(input)?;
    let (rest, _) = tag(rest, " ")?;
    let (rest, _) = tag(rest, "(")?;
    let (rest, body) = inner(rest, depth)?;
    let (rest, _) = tag(rest, " ")?;
    let (rest, lines) = number63(rest)?;
    Ok((rest, (envelope, (body, lines))))
}

fn message_argument<'a>(input: &'a [u8], depth: usize) -> (res: IMAPResult<
    'a,
    Option<(Envelope, (BodyStructure, u64))>,
>)
    ensures
        g::agrees(res, g::opt(args::sp(message_rule(inner_rule(depth as nat))))(input@)),
    decreases depth, 2int,
{
    let behind: &[u8] = match tag(input, " ") {
        Ok((behind, _)) => behind,
        Err(IMAPParseError::Error) => return Ok((input, None)),
        Err(e) => return Err(e),
    };
    match message(behind, depth) {
        Ok((rest, m)) => Ok((rest, Some(m))),
        Err(IMAPParseError::Error) => Ok((input, None)),
        Err(e) => Err(e),
    }
}

fn specific<'a>(input: &'a [u8], media: &IString, subtype: &IString, depth: usize) -> (res:
    IMAPResult<'a, SpecificFields>)
    ensures
        g::agrees(
            res,
            specific_rule(media.deep_view(), subtype.deep_view(), inner_rule(depth as nat))(input@),
        ),
    decreases depth, 3int,
{
    if is_text_media(media) {
        let (rest, n) = optional_argument(input, number63, Ghost(ext::number63_rule()))?;
        match n {
            Some(lines) => Ok((rest, SpecificFields::Text { lines })),
            None => Ok((rest, SpecificFields::Basic)),
        }
    } else if is_message_media(media, subtype) {
        let (rest, m) = message_argument(input, depth)?;
        match m {
            Some((envelope, (body, lines))) => Ok(
                (rest, SpecificFields::Message { envelope, body: Box::new(body), lines }),
            ),
            None => Ok((rest, SpecificFields::Basic)),
        }
    } else {
        Ok((input, SpecificFields::Basic))
    }
}

fn single<'a>(input: &'a [u8], depth: usize) -> (res: IMAPResult<'a, BodyStructure>)
    ensures
        g::agrees(res, single_rule(inner_rule(depth as nat))(input@)),
    decreases depth, 4int,
{
    let (rest, media) = string(input)?;
    let (rest, _) = tag(rest, " ")?;
    let (rest, subtype) = string(rest)?;
    let (rest, _) = tag(rest, " ")?;
    let (rest, fields) = fields(rest)?;
    let (rest, specific) = specific(rest, &media, &subtype, depth)?;
    let (rest, extension) = optional_argument(rest, single_part, Ghost(single_part_rule()))?;
    Ok((rest, BodyStructure::Single { media, subtype, fields, specific, extension }))
}

/// Reads bodies, one right behind the other, as long as they follow.
fn body_row<'a>(input: &'a [u8], depth: usize) -> (res: IMAPResult<'a, Vec<BodyStructure>>)
    ensures
        g::agrees(res, shapes::row(inner_rule(depth as nat))(input@)),
    decreases depth, 1int,
{
    let ghost p = inner_rule(depth as nat);
    let ghost whole = g::repeated_from(g::text("("), p, input@);
    let mut read: Vec<BodyStructure> = Vec::new();
    let mut at: &'a [u8] = input;
    proof {
        assert(read.deep_view() =~= seq![]);
        if let Outcome::Done(r, xs) = whole {
            assert(Seq::<StructureView>::empty() + xs =~= xs);
        }
    }
    loop
        invariant
            p == inner_rule(depth as nat),
            whole == g::repeated_from(g::text("("), p, input@),
            whole == g::after(read.deep_view(), g::repeated_from(g::text("("), p, at@)),
        decreases at@.len(),
    {
        let behind: Option<&'a [u8]> = match tag(at, "(") {
            Ok((rest, _)) => Some(rest),
            Err(IMAPParseError::Error) => None,
            Err(e) => return Err(e),
        };
        let next: Option<(&'a [u8], BodyStructure)> = match behind {
            None => None,
            Some(behind) => {
                if behind.len() >= at.len() {
                    return Err(IMAPParseError::Error);
                }
                match inner(behind, depth) {
                    Ok((rest, x)) => Some((rest, x)),
                    Err(IMAPParseError::Error) => None,
                    Err(e) => return Err(e),
                }
            },
        };
        match next {
            None => {
                assert(read.deep_view() + seq![] =~= read.deep_view());
                if read.len() == 0 {
                    return Err(IMAPParseError::Error);
                }
                return Ok((at, read));
            },
            Some((rest, x)) => {
                if rest.len() >= at.len() {
                    return Err(IMAPParseError::Error);
                }
                let ghost before = read.deep_view();
                let ghost seen = x.deep_view();
                read.push(x);
                proof {
                    assert(read.deep_view() =~= before.push(seen));
                    if let Outcome::Done(r, xs) = g::repeated_from(g::text("("), p, rest@) {
                        assert(before + (seq![seen] + xs) =~= before.push(seen) + xs);
                    }
                }
                at = rest;
            },
        }
    }
}

fn multi<'a>(input: &'a [u8], depth: usize) -> (res: IMAPResult<'a, BodyStructure>)
    ensures
        g::agrees(res, multi_rule(inner_rule(depth as nat))(input@)),
    decreases depth, 4int,
{
    let (rest, bodies) = body_row(input, depth)?;
    let (rest, _) = tag(rest, " ")?;
    let (rest, subtype) = string(rest)?;
    let (rest, extension) = optional_argument(rest, multi_part, Ghost(multi_part_rule()))?;
    let b = BodyStructure::Multi { bodies, subtype, extension };
    proof {
        lemma_bodies_view(b);
    }
    Ok((rest, b))
}

fn inner<'a>(input: &'a [u8], depth: usize) -> (res: IMAPResult<'a, BodyStructure>)
    ensures
        g::agrees(res, inner_rule(depth as nat)(input@)),
    decreases depth, 0int,
{
    proof {
        reveal_with_fuel(inner_rule, 1);
    }
    if depth == 0 {
        return Err(IMAPParseError::Failure(IMAPErrorKind::RecursionLimitExceeded));
    }
    let (rest, b) = match single(input, depth - 1) {
        Ok((rest, b)) => (rest, b),
        Err(IMAPParseError::Error) => multi(input, depth - 1)?,
        Err(e) => return Err(e),
    };
    let (rest, _) = tag(rest, ")")?;
    Ok((rest, b))
}

pub fn body<'a>(input: &'a [u8]) -> (res: IMAPResult<'a, BodyStructure>)
    ensures
        g::agrees(res, body_rule()(input@)),
{
    proof {
        reveal(body_rule);
    }
    let (rest, _) = tag(input, "(")?;
    inner(rest, BODY_DEPTH)
}

fn write_row(items: &Vec<BodyStructure>, ctx: &mut EncodeContext)
    ensures
        final(ctx)@ == old(ctx)@ + shapes::row_tokens(inner_parts(items.deep_view())),
    decreases items, 0int,
{
    let ghost open = encode::word("(");
    let ghost all = items.deep_view().map_values(|b: StructureView| inner_tokens(b));
    proof {
        lemma_inner_parts(items.deep_view());
        assert(all.take(0) =~= seq![]);
        assert(ctx@ + encode::spread(all.take(0), open) =~= ctx@);
    }
    let ghost start = ctx@;
    let mut i: usize = 0;
    while i < items.len()
        invariant
            i <= items@.len(),
            open == encode::word("("),
            all == items.deep_view().map_values(|b: StructureView| inner_tokens(b)),
            all.len() == items@.len(),
            ctx@ == start + encode::spread(all.take(i as int), open),
        decreases items@.len() - i,
    {
        proof {
            encode::lemma_spread_push(all.take(i as int), all[i as int], open);
            assert(all.take(i + 1) =~= all.take(i as int).push(all[i as int]));
            assert(items.deep_view()[i as int] == items@[i as int].deep_view());
        }
        ctx.write_text("(");
        assert(decreases_to!(*items => items@[i as int]));
        write_inner(&items[i], ctx);
        assert(ctx@ =~= start + (encode::spread(all.take(i as int), open) + open + all[i as int]));
        i = i + 1;
    }
    assert(all.take(i as int) =~= all);
}

fn write_specific(s: &SpecificFields, ctx: &mut EncodeContext)
    ensures
        final(ctx)@ == old(ctx)@ + specific_tokens(s.deep_view()),
    decreases s, 3int,
{
    match s {
        SpecificFields::Basic => {},
        SpecificFields::Text { lines } => {
            ctx.write_text(" ");
            write_number(ctx, *lines);
        },
        SpecificFields::Message { envelope, body, lines } => {
            write_argument(envelope, ctx);
            ctx.write_text(" ");
            write_nested(body, *lines, ctx);
        },
    }
    assert(ctx@ =~= old(ctx)@ + specific_tokens(s.deep_view()));
}

/// Writes the structure and the lines of a message in a part.
fn write_nested(body: &BodyStructure, lines: u64, ctx: &mut EncodeContext)
    ensures
        final(ctx)@ == old(ctx)@ + shapes::two_tokens(
            encode::word("(") + inner_tokens(body.deep_view()),
            number_tokens(lines),
        ),
    decreases body, 2int,
{
    ctx.write_text("(");
    write_inner(body, ctx);
    ctx.write_text(" ");
    write_number(ctx, lines);
    assert(ctx@ =~= old(ctx)@ + shapes::two_tokens(
        encode::word("(") + inner_tokens(body.deep_view()),
        number_tokens(lines),
    ));
}

fn write_media(media: &IString, subtype: &IString, fields: &BodyFields, ctx: &mut EncodeContext)
    ensures
        final(ctx)@ == old(ctx)@ + media_tokens(
            media.deep_view(),
            subtype.deep_view(),
            fields.deep_view(),
        ),
{
    media.encode_ctx(ctx);
    write_argument(subtype, ctx);
    write_argument(fields, ctx);
    assert(ctx@ =~= old(ctx)@ + media_tokens(
        media.deep_view(),
        subtype.deep_view(),
        fields.deep_view(),
    ));
}

/// The parts of a body, one behind the other.
proof fn lemma_single_groups(
    o: Seq<Token>,
    a: Seq<Token>,
    b: Seq<Token>,
    t: Seq<Token>,
    c: Seq<Token>,
)
    ensures
        o + a + b + t + c == o + (a + (b + t) + c),
        o + a + b + c == o + (a + (b + Seq::<Token>::empty()) + c),
{
    assert(o + a + b + t + c =~= o + (a + (b + t) + c));
    assert(o + a + b + c =~= o + (a + (b + Seq::<Token>::empty()) + c));
}

proof fn lemma_multi_groups(
    o: Seq<Token>,
    a: Seq<Token>,
    w: Seq<Token>,
    b: Seq<Token>,
    t: Seq<Token>,
    c: Seq<Token>,
)
    ensures
        o + a + (w + b) + t + c == o + (a + (w + (b + t)) + c),
        o + a + (w + b) + c == o + (a + (w + (b + Seq::<Token>::empty())) + c),
{
    assert(o + a + (w + b) + t + c =~= o + (a + (w + (b + t)) + c));
    assert(o + a + (w + b) + c =~= o + (a + (w + (b + Seq::<Token>::empty())) + c));
}

#[verifier::spinoff_prover]
fn write_inner(b: &BodyStructure, ctx: &mut EncodeContext)
    ensures
        final(ctx)@ == old(ctx)@ + inner_tokens(b.deep_view()),
    decreases b, 1int,
{
    match b {
        BodyStructure::Single { media, subtype, fields, specific, extension } => {
            write_media(media, subtype, fields, ctx);
            write_specific(specific, ctx);
            if let Some(e) = extension {
                write_argument(e, ctx);
            }
            ctx.write_text(")");
            proof {
                lemma_single_groups(
                    old(ctx)@,
                    media_tokens(media.deep_view(), subtype.deep_view(), fields.deep_view()),
                    specific_tokens(specific.deep_view()),
                    shapes::tail_tokens(single_tail(extension.deep_view())),
                    encode::word(")"),
                );
            }
        },
        BodyStructure::Multi { bodies, subtype, extension } => {
            proof {
                lemma_bodies_view(*b);
            }
            write_row(bodies, ctx);
            write_argument(subtype, ctx);
            if let Some(e) = extension {
                write_argument(e, ctx);
            }
            ctx.write_text(")");
            proof {
                lemma_multi_groups(
                    old(ctx)@,
                    shapes::row_tokens(inner_parts(bodies.deep_view())),
                    encode::word(" "),
                    strings::string_tokens(subtype.deep_view()),
                    shapes::tail_tokens(multi_tail(extension.deep_view())),
                    encode::word(")"),
                );
            }
        },
    }
}

impl EncodeIntoContext for BodyStructure {
    open spec fn tokens(v: StructureView) -> Seq<Token> {
        body_tokens(v)
    }

    fn encode_ctx(&self, ctx: &mut EncodeContext) {
        ctx.write_text("(");
        write_inner(self, ctx);
        assert(ctx@ =~= old(ctx)@ + Self::tokens(self.deep_view()));
    }
}

} // verus!
