//! Structured filters and their evaluation against a record.

use vstd::prelude::*;
use crate::record::{RecordView, StringData};
use crate::text::{chars_of, contains_char};

verus! {

/// A structured filter: each present field is one constraint, and all of
/// them must hold.
#[derive(Clone, Debug, Default)]
pub struct FilterQuery {
    pub is_palindrome: Option<bool>,
    pub min_length: Option<usize>,
    pub max_length: Option<usize>,
    pub word_count: Option<usize>,
    pub contains_character: Option<String>,
}

/// A filter as mathematical values.
pub struct FilterView {
    pub is_palindrome: Option<bool>,
    pub min_length: Option<usize>,
    pub max_length: Option<usize>,
    pub word_count: Option<usize>,
    pub contains_character: Option<Seq<char>>,
}

impl View for FilterQuery {
    type V = FilterView;

    open spec fn view(&self) -> FilterView {
        FilterView {
            is_palindrome: self.is_palindrome,
            min_length: self.min_length,
            max_length: self.max_length,
            word_count: self.word_count,
            contains_character: match &self.contains_character {
                Some(c) => Some(c@),
                None => None,
            },
        }
    }
}

/// The filter with no field set.
pub open spec fn empty_filter() -> FilterView {
    FilterView {
        is_palindrome: None,
        min_length: None,
        max_length: None,
        word_count: None,
        contains_character: None,
    }
}

/// A filter is well formed when a character it asks for is exactly one
/// character.
pub open spec fn filter_valid(q: FilterView) -> bool {
    match q.contains_character {
        Some(c) => c.len() == 1,
        None => true,
    }
}

/// Whether a record meets every constraint of a filter. A character
/// constraint that is not exactly one character constrains nothing here;
/// listing refuses such a filter before it looks at any record.
pub open spec fn record_matches(r: RecordView, q: FilterView) -> bool {
    &&& (q.is_palindrome matches Some(p) ==> r.properties.is_palindrome == p)
    &&& (q.min_length matches Some(m) ==> r.properties.length >= m)
    &&& (q.max_length matches Some(m) ==> r.properties.length <= m)
    &&& (q.word_count matches Some(w) ==> r.properties.word_count == w)
    &&& (q.contains_character matches Some(c) ==> (c.len() == 1 ==> r.value.contains(c[0])))
}

impl FilterQuery {
    /// The filter with no field set.
    pub fn empty() -> (r: FilterQuery)
        ensures
            r@ == empty_filter(),
    {
        FilterQuery {
            is_palindrome: None,
            min_length: None,
            max_length: None,
            word_count: None,
            contains_character: None,
        }
    }

    /// A copy of this filter.
    pub fn duplicate(&self) -> (r: FilterQuery)
        ensures
            r@ == self@,
    {
        let contains_character = match &self.contains_character {
            Some(c) => Some(c.clone()),
            None => None,
        };
        FilterQuery {
            is_palindrome: self.is_palindrome,
            min_length: self.min_length,
            max_length: self.max_length,
            word_count: self.word_count,
            contains_character,
        }
    }

    /// Whether the filter is well formed.
    pub fn is_valid(&self) -> (r: bool)
        ensures
            r == filter_valid(self@),
    {
        match &self.contains_character {
            Some(c) => c.as_str().unicode_len() == 1,
            None => true,
        }
    }
}

/// Evaluates a filter against a record.
pub fn matches_filter(record: &StringData, q: &FilterQuery) -> (r: bool)
    ensures
        r == record_matches(record@, q@),
{
    let props = &record.properties;
    if let Some(p) = q.is_palindrome {
        if props.is_palindrome != p {
            return false;
        }
    }
    if let Some(m) = q.min_length {
        if props.length < m {
            return false;
        }
    }
    if let Some(m) = q.max_length {
        if props.length > m {
            return false;
        }
    }
    if let Some(w) = q.word_count {
        if props.word_count != w {
            return false;
        }
    }
    if let Some(c) = &q.contains_character {
        let cs = c.as_str();
        if cs.unicode_len() == 1 {
            let wanted = cs.get_char(0);
            let value = chars_of(record.value.as_str());
            if !contains_char(&value, wanted) {
                return false;
            }
        }
    }
    true
}

} // verus!
