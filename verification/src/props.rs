//! The raw property model: one decoded calendar line, and the opaque
//! tokenizer-level error that the upstream tokenizer may hand over instead.

use vstd::prelude::*;

verus! {

/// The mathematical shape of one raw property: a name, the effective ordered
/// parameter list (an absent list and an empty one read the same way), and an
/// optional raw text value.
pub struct PropView {
    pub name: Seq<char>,
    pub params: Seq<(Seq<char>, Seq<Seq<char>>)>,
    pub value: Option<Seq<char>>,
}

/// One decoded calendar line: a case-insensitive name, an optional ordered
/// list of parameters (each a name with an ordered list of values, duplicates
/// permitted), and an optional raw text value.
pub struct RawProperty {
    pub name: String,
    pub params: Option<Vec<(String, Vec<String>)>>,
    pub value: Option<String>,
}

/// The effective parameter list: an absent list reads as an empty one.
pub open spec fn params_view(params: Option<Vec<(String, Vec<String>)>>) -> Seq<
    (Seq<char>, Seq<Seq<char>>),
> {
    match params {
        Some(ps) => ps.deep_view(),
        None => Seq::empty(),
    }
}

impl View for RawProperty {
    type V = PropView;

    open spec fn view(&self) -> PropView {
        PropView {
            name: self.name@,
            params: params_view(self.params),
            value: self.value.deep_view(),
        }
    }
}

/// The spec-level shape of a tokenizer-level error.
pub enum TokErrView {
    /// A malformed line reported by the tokenizer, as its message text.
    Property(Seq<char>),
    /// A component opening marker that carries no component name.
    InvalidComponent,
}

/// An error surfaced by the upstream tokenizer, carried through opaquely,
/// plus the invalid-component-marker case the reader itself raises.
#[derive(Debug)]
pub enum TokenizeError {
    /// A malformed line reported by the tokenizer, as its message text.
    Property(String),
    /// A component opening marker that carries no component name.
    InvalidComponent,
}

impl View for TokenizeError {
    type V = TokErrView;

    open spec fn view(&self) -> TokErrView {
        match self {
            TokenizeError::Property(m) => TokErrView::Property(m@),
            TokenizeError::InvalidComponent => TokErrView::InvalidComponent,
        }
    }
}

/// The spec-level shape of one tokenizer item.
pub type ItemView = Result<PropView, TokErrView>;

/// One item of the tokenizer's output sequence.
pub type RawItem = Result<RawProperty, TokenizeError>;

pub open spec fn item_view(item: RawItem) -> ItemView {
    match item {
        Ok(p) => Ok(p@),
        Err(e) => Err(e@),
    }
}

pub open spec fn item_views(items: Seq<RawItem>) -> Seq<ItemView> {
    items.map_values(|item: RawItem| item_view(item))
}

} // verus!
