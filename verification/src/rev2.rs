//! IMAP4rev2 and the ESEARCH, SEARCHRES and LIST-EXTENDED extensions.
use vstd::prelude::*;

use crate::ascii;
use crate::sequence;
use crate::sequence::{parse_sequence_set, SeqOrUid, Sequence, SequenceSet};
use crate::status::StatusDataItemName;
use crate::strings::{AString, Atom, StringView};

verus! {

/// A command message set. The saved result is a server-owned variable; it is
/// never expanded locally and cannot be mixed into an ordinary sequence set.
#[derive(Clone, Debug, PartialEq, Eq, Hash)]
pub enum MessageSet {
    SequenceSet(SequenceSet),
    SearchResult,
}

pub enum MessageSetView {
    SequenceSet(Seq<Sequence>),
    SearchResult,
}

/// A nested extension component (`tagged-ext-comp`).
#[derive(Debug, PartialEq, Eq, Hash)]
pub enum ExtensionComponent {
    String(AString),
    List(Vec<ExtensionComponent>),
}

pub enum ComponentView {
    String(StringView),
    List(Seq<ComponentView>),
}

/// The generic extension value grammar preserves unknown response extensions.
/// Simple values are validated numeric/sequence atoms by the codec.
#[derive(Clone, Debug, PartialEq, Eq, Hash)]
pub enum ExtensionValue {
    Simple(Atom),
    List(Vec<ExtensionComponent>),
}

pub enum ValueView {
    Simple(Seq<u8>),
    List(Seq<ComponentView>),
}

#[derive(Clone, Debug, PartialEq, Eq, Hash)]
pub enum SearchReturn {
    Min,
    Max,
    All,
    Count,
    Save,
    Extension { name: Atom, parameters: Option<ExtensionValue> },
}

pub enum SearchReturnView {
    Min,
    Max,
    All,
    Count,
    Save,
    Extension { name: Seq<u8>, parameters: Option<ValueView> },
}

#[derive(Clone, Debug, PartialEq, Eq, Hash)]
pub struct SearchReturnData {
    pub name: Atom,
    pub value: ExtensionValue,
}

pub struct SearchReturnDataView {
    pub name: Seq<u8>,
    pub value: ValueView,
}

#[derive(Clone, Debug, PartialEq, Eq, Hash)]
pub enum ListReturn {
    Subscribed,
    Children,
    SpecialUse,
    Status(Vec<StatusDataItemName>),
    Extension { name: Atom, parameters: Option<ExtensionValue> },
}

pub enum ListReturnView {
    Subscribed,
    Children,
    SpecialUse,
    Status(Seq<StatusDataItemName>),
    Extension { name: Seq<u8>, parameters: Option<ValueView> },
}

#[derive(Clone, Debug, PartialEq, Eq, Hash)]
pub struct ListExtension {
    pub tag: AString,
    pub value: ExtensionValue,
}

pub struct ListExtensionView {
    pub tag: StringView,
    pub value: ValueView,
}

impl DeepView for MessageSet {
    type V = MessageSetView;

    open spec fn deep_view(&self) -> MessageSetView {
        match self {
            MessageSet::SequenceSet(s) => MessageSetView::SequenceSet(s.deep_view()),
            MessageSet::SearchResult => MessageSetView::SearchResult,
        }
    }
}

pub open spec fn component_view(c: ExtensionComponent) -> ComponentView
    decreases c,
{
    match c {
        ExtensionComponent::String(s) => ComponentView::String(s.deep_view()),
        ExtensionComponent::List(v) => ComponentView::List(
            Seq::new(
                v@.len(),
                |i: int|
                    if 0 <= i < v@.len() {
                        component_view(v@[i])
                    } else {
                        arbitrary()
                    },
            ),
        ),
    }
}

impl DeepView for ExtensionComponent {
    type V = ComponentView;

    open spec fn deep_view(&self) -> ComponentView {
        component_view(*self)
    }
}

impl Clone for ExtensionComponent {
    fn clone(&self) -> (r: Self)
        ensures
            r.deep_view() == self.deep_view(),
        decreases self,
    {
        match self {
            ExtensionComponent::String(s) => ExtensionComponent::String(s.clone()),
            ExtensionComponent::List(v) => {
                let mut copy: Vec<ExtensionComponent> = Vec::new();
                let mut i: usize = 0;
                while i < v.len()
                    invariant
                        i <= v@.len(),
                        copy@.len() == i,
                        *self == ExtensionComponent::List(*v),
                        forall|j: int|
                            0 <= j < i ==> component_view(#[trigger] copy@[j]) == component_view(
                                v@[j],
                            ),
                    decreases v@.len() - i,
                {
                    assert(decreases_to!(*self => self->List_0));
                    assert(decreases_to!(*v => v@[i as int]));
                    copy.push(v[i].clone());
                    i = i + 1;
                }
                proof {
                    lemma_component_list_view(copy);
                    lemma_component_list_view(*v);
                    assert(copy.deep_view() =~= v.deep_view());
                }
                ExtensionComponent::List(copy)
            },
        }
    }
}

pub broadcast proof fn lemma_component_list_view(v: Vec<ExtensionComponent>)
    ensures
        #[trigger] component_view(ExtensionComponent::List(v)) == ComponentView::List(
            v.deep_view(),
        ),
{
    let c = component_view(ExtensionComponent::List(v));
    assert(c->List_0 =~= v.deep_view());
}

impl DeepView for ExtensionValue {
    type V = ValueView;

    open spec fn deep_view(&self) -> ValueView {
        match self {
            ExtensionValue::Simple(a) => ValueView::Simple(a.deep_view()),
            ExtensionValue::List(v) => ValueView::List(v.deep_view()),
        }
    }
}

impl DeepView for SearchReturn {
    type V = SearchReturnView;

    open spec fn deep_view(&self) -> SearchReturnView {
        match self {
            SearchReturn::Min => SearchReturnView::Min,
            SearchReturn::Max => SearchReturnView::Max,
            SearchReturn::All => SearchReturnView::All,
            SearchReturn::Count => SearchReturnView::Count,
            SearchReturn::Save => SearchReturnView::Save,
            SearchReturn::Extension { name, parameters } => SearchReturnView::Extension {
                name: name.deep_view(),
                parameters: parameters.deep_view(),
            },
        }
    }
}

impl DeepView for SearchReturnData {
    type V = SearchReturnDataView;

    open spec fn deep_view(&self) -> SearchReturnDataView {
        SearchReturnDataView { name: self.name.deep_view(), value: self.value.deep_view() }
    }
}

impl DeepView for ListReturn {
    type V = ListReturnView;

    open spec fn deep_view(&self) -> ListReturnView {
        match self {
            ListReturn::Subscribed => ListReturnView::Subscribed,
            ListReturn::Children => ListReturnView::Children,
            ListReturn::SpecialUse => ListReturnView::SpecialUse,
            ListReturn::Status(names) => ListReturnView::Status(names.deep_view()),
            ListReturn::Extension { name, parameters } => ListReturnView::Extension {
                name: name.deep_view(),
                parameters: parameters.deep_view(),
            },
        }
    }
}

impl DeepView for ListExtension {
    type V = ListExtensionView;

    open spec fn deep_view(&self) -> ListExtensionView {
        ListExtensionView { tag: self.tag.deep_view(), value: self.value.deep_view() }
    }
}

impl From<SequenceSet> for MessageSet {
    fn from(value: SequenceSet) -> (r: Self) {
        MessageSet::SequenceSet(value)
    }
}

impl vstd::std_specs::convert::FromSpecImpl<SequenceSet> for MessageSet {
    open spec fn obeys_from_spec() -> bool {
        true
    }

    open spec fn from_spec(value: SequenceSet) -> Self {
        MessageSet::SequenceSet(value)
    }
}

/// A text or number that is no message set.
#[derive(Clone, Copy, Debug, PartialEq, Eq, Structural)]
pub struct ValidationError;

impl TryFrom<&str> for MessageSet {
    type Error = ValidationError;

    fn try_from(value: &str) -> (r: Result<Self, ValidationError>)
        ensures
            match r {
                Ok(set) => if value@ == "$"@ {
                    set is SearchResult
                } else {
                    set is SequenceSet && sequence::sequence_set_of(vstd::utf8::encode_utf8(value@)) == Some(
                        set->SequenceSet_0.deep_view(),
                    )
                },
                Err(_) => value@ != "$"@ && sequence::sequence_set_of(vstd::utf8::encode_utf8(value@)) is None,
            },
    {
        if ascii::same_text(value, "$") {
            Ok(MessageSet::SearchResult)
        } else {
            match parse_sequence_set(value.as_bytes()) {
                Some(set) => Ok(MessageSet::SequenceSet(set)),
                None => Err(ValidationError),
            }
        }
    }
}

impl vstd::std_specs::convert::TryFromSpecImpl<&str> for MessageSet {
    open spec fn obeys_try_from_spec() -> bool {
        false
    }

    open spec fn try_from_spec(value: &str) -> Result<Self, ValidationError> {
        arbitrary()
    }
}

impl TryFrom<u32> for MessageSet {
    type Error = ValidationError;

    fn try_from(value: u32) -> (r: Result<Self, ValidationError>)
        ensures
            match r {
                Ok(set) => value > 0 && set.deep_view() == MessageSetView::SequenceSet(
                    seq![Sequence::Single(SeqOrUid::Value(value))],
                ),
                Err(_) => value == 0,
            },
    {
        if value == 0 {
            return Err(ValidationError);
        }
        let mut set: Vec<Sequence> = Vec::new();
        set.push(Sequence::Single(SeqOrUid::Value(value)));
        assert(set@ =~= seq![Sequence::Single(SeqOrUid::Value(value))]);
        Ok(MessageSet::SequenceSet(SequenceSet(set)))
    }
}

impl vstd::std_specs::convert::TryFromSpecImpl<u32> for MessageSet {
    open spec fn obeys_try_from_spec() -> bool {
        false
    }

    open spec fn try_from_spec(value: u32) -> Result<Self, ValidationError> {
        arbitrary()
    }
}

impl TryFrom<i32> for MessageSet {
    type Error = ValidationError;

    fn try_from(value: i32) -> (r: Result<Self, ValidationError>)
        ensures
            match r {
                Ok(set) => value > 0 && set.deep_view() == MessageSetView::SequenceSet(
                    seq![Sequence::Single(SeqOrUid::Value(value as u32))],
                ),
                Err(_) => value <= 0,
            },
    {
        if value <= 0 {
            return Err(ValidationError);
        }
        MessageSet::try_from(value as u32)
    }
}

impl vstd::std_specs::convert::TryFromSpecImpl<i32> for MessageSet {
    open spec fn obeys_try_from_spec() -> bool {
        false
    }

    open spec fn try_from_spec(value: i32) -> Result<Self, ValidationError> {
        arbitrary()
    }
}

} // verus!
