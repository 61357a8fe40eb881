//! Token-level sequence classification: BILOU label parsing and the
//! aggregation of per-token predictions into entity spans.
//!
//! The decoding core lives in [`decoder`]: it takes the per-token label
//! predictions, character offsets and token strings produced by the outside
//! collaborators (tokenizer and classifier) and merges contiguous runs of one
//! entity type into [`EntityGroup`] records. The [`tok`] module carries the
//! tokenizer calls that feed the decoder.

use vstd::prelude::*;

pub mod config;
pub mod decoder;
pub mod tok;

verus! {

/// Human-readable token classification output: one contiguous slice of the
/// source text together with the tag of the run it was merged from.
#[derive(Clone, Debug)]
pub struct EntityGroup<'a> {
    pub text: &'a str,
    pub start: usize,
    pub end: usize,
    pub label: BILOU,
}

/// A parsed entity tag in BILOU notation.
#[derive(Clone, Debug, PartialEq, Eq)]
pub enum BILOU {
    /// Beginning: The token is the beginning of an entity.
    B(String),
    /// Inside: The token is inside an entity.
    I(String),
    /// Last: The token is the last token of an entity.
    L(String),
    /// Outside: The token is outside any entity.
    O(String),
    /// Unit: The token is a single-token entity.
    U(String),
}

/// A label string of the shape `B-<type>`.
pub open spec fn spec_is_begin_label(s: Seq<char>) -> bool {
    s.len() >= 2 && s[0] == 'B' && s[1] == '-'
}

/// A label string of the shape `I-<type>`.
pub open spec fn spec_is_inside_label(s: Seq<char>) -> bool {
    s.len() >= 2 && s[0] == 'I' && s[1] == '-'
}

/// The entity type that parsing a label string yields: the two-character
/// prefix is stripped only from the recognized `B-` and `I-` forms; every
/// other label, bare types and `L-`/`U-`/`O-` forms included, is kept whole.
pub open spec fn spec_label_type(s: Seq<char>) -> Seq<char> {
    if spec_is_begin_label(s) || spec_is_inside_label(s) {
        s.subrange(2, s.len() as int)
    } else {
        s
    }
}

impl BILOU {
    /// The entity type carried by the tag.
    pub open spec fn spec_type(self) -> Seq<char> {
        match self {
            BILOU::B(s) => s@,
            BILOU::I(s) => s@,
            BILOU::L(s) => s@,
            BILOU::O(s) => s@,
            BILOU::U(s) => s@,
        }
    }

    /// Parses a label string: `B-<type>` becomes `B(type)`, `I-<type>`
    /// becomes `I(type)`, and every other form becomes `I` of the whole
    /// string. `L`, `O` and `U` tags are never produced by parsing.
    pub fn from_entity_name(entity_name: &str) -> (r: Self)
        ensures
            r.spec_type() == spec_label_type(entity_name@),
            (r is B) <==> spec_is_begin_label(entity_name@),
            r is B || r is I,
    {
        let n = entity_name.unicode_len();
        if n >= 2 && entity_name.get_char(0) == 'B' && entity_name.get_char(1) == '-' {
            BILOU::B(String::from_str(entity_name.substring_char(2, n)))
        } else if n >= 2 && entity_name.get_char(0) == 'I' && entity_name.get_char(1) == '-' {
            BILOU::I(String::from_str(entity_name.substring_char(2, n)))
        } else {
            BILOU::I(String::from_str(entity_name))
        }
    }

    /// The entity type of the tag, whichever variant carries it.
    pub fn tag(&self) -> (r: &str)
        ensures
            r@ == self.spec_type(),
    {
        match self {
            BILOU::B(s) | BILOU::I(s) | BILOU::L(s) | BILOU::O(s) | BILOU::U(s) => s.as_str(),
        }
    }

    /// The entity type as an owned-string reference, for exec comparison.
    pub(crate) fn type_string(&self) -> (r: &String)
        ensures
            r@ == self.spec_type(),
    {
        match self {
            BILOU::B(s) | BILOU::I(s) | BILOU::L(s) | BILOU::O(s) | BILOU::U(s) => s,
        }
    }

    /// Whether the tag is a Begin tag.
    pub(crate) fn is_begin(&self) -> (r: bool)
        ensures
            r == (self is B),
    {
        matches!(self, BILOU::B(_))
    }
}

} // verus!
