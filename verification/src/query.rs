//! A replacement intent: a literal substring swap, a regular-expression
//! substitution, or a simultaneous swap of all case-convention renderings
//! of a word. Invalid intents are rejected here, at construction time, so
//! that scanning never fails.

use crate::casing::{case_variants, variants_of};
use crate::encoding::{all_bytes, byte_len};
use crate::pattern::{regex_compile, regex_compiles, RegexHandle};
use vstd::prelude::*;
use vstd::string::StringSliceAdditionalSpecFns;
use vstd::utf8::encode_utf8;

verus! {

/// Why a query could not be built.
#[derive(Debug, PartialEq, Eq, Structural, Clone, Copy)]
pub enum QueryError {
    /// The pattern is not valid regex syntax.
    InvalidPattern,
    /// The pattern (or one of its case-convention renderings) is the empty
    /// string, which would make scanning loop on zero-width matches.
    DegenerateQuery,
}

/// A replacement intent.
pub enum Query {
    /// Replace a literal substring by a fixed replacement.
    Substring(String, String),
    /// Replace the leftmost regex match, substituting capture-group
    /// references into the template.
    Regex(RegexHandle, String),
    /// Replace each of the index-aligned patterns by the replacement of the
    /// same index; built from the case-convention renderings of two words.
    Subvert(Vec<String>, Vec<String>),
}

/// The mathematical content of a query: the UTF-8 bytes of its pattern and
/// replacement texts.
pub enum QueryModel {
    Substring { pattern: Seq<u8>, replacement: Seq<u8> },
    Regex { source: Seq<u8>, template: Seq<u8> },
    Subvert { patterns: Seq<Seq<u8>>, replacements: Seq<Seq<u8>> },
}

impl QueryModel {
    /// A query is well formed when its patterns cannot produce zero-width
    /// matches: literal and case-variant patterns are nonempty, and the
    /// replacement list is aligned with the pattern list.
    pub open spec fn wf(self) -> bool {
        match self {
            QueryModel::Substring { pattern, .. } => pattern.len() > 0,
            QueryModel::Regex { .. } => true,
            QueryModel::Subvert { patterns, replacements } => {
                &&& patterns.len() == replacements.len()
                &&& forall|i: int| 0 <= i < patterns.len() ==> patterns[i].len() > 0
            },
        }
    }
}

impl View for Query {
    type V = QueryModel;

    open spec fn view(&self) -> QueryModel {
        match self {
            Query::Substring(pattern, replacement) => QueryModel::Substring {
                pattern: encode_utf8(pattern@),
                replacement: encode_utf8(replacement@),
            },
            Query::Regex(handle, template) => QueryModel::Regex {
                source: handle.pattern(),
                template: encode_utf8(template@),
            },
            Query::Subvert(patterns, replacements) => QueryModel::Subvert {
                patterns: all_bytes(patterns@),
                replacements: all_bytes(replacements@),
            },
        }
    }
}

impl Query {
    pub open spec fn wf(self) -> bool {
        self@.wf()
    }
}

/// A query that replaces the literal substring `pattern` by `replacement`.
/// An empty pattern is rejected as degenerate.
pub fn substring(pattern: &str, replacement: &str) -> (r: Result<Query, QueryError>)
    ensures
        pattern.spec_bytes().len() > 0 ==> (r matches Ok(q) && q@ == (QueryModel::Substring {
            pattern: pattern.spec_bytes(),
            replacement: replacement.spec_bytes(),
        }) && q.wf()),
        pattern.spec_bytes().len() == 0 ==> r == Err::<Query, QueryError>(
            QueryError::DegenerateQuery,
        ),
{
    if byte_len(pattern) == 0 {
        Err(QueryError::DegenerateQuery)
    } else {
        Ok(Query::Substring(String::from_str(pattern), String::from_str(replacement)))
    }
}

/// A query that replaces the leftmost match of the regex `pattern`,
/// substituting capture-group references into `replacement`. A pattern
/// that does not compile is rejected.
pub fn from_regex(pattern: &str, replacement: &str) -> (r: Result<Query, QueryError>)
    ensures
        regex_compiles(pattern.spec_bytes()) ==> (r matches Ok(q) && q@ == (QueryModel::Regex {
            source: pattern.spec_bytes(),
            template: replacement.spec_bytes(),
        }) && q.wf()),
        !regex_compiles(pattern.spec_bytes()) ==> r == Err::<Query, QueryError>(
            QueryError::InvalidPattern,
        ),
{
    match regex_compile(pattern) {
        Ok(handle) => Ok(Query::Regex(handle, String::from_str(replacement))),
        Err(_) => Err(QueryError::InvalidPattern),
    }
}

/// All case-convention renderings of `v` are nonempty.
pub open spec fn all_nonempty(v: Seq<Seq<u8>>) -> bool {
    forall|i: int| 0 <= i < v.len() ==> v[i].len() > 0
}

/// A query that replaces every case-convention rendering of the word
/// `pattern` by the same rendering of the word `replacement`. A pattern
/// whose renderings include the empty string is rejected as degenerate.
pub fn subvert(pattern: &str, replacement: &str) -> (r: Result<Query, QueryError>)
    ensures
        all_nonempty(variants_of(pattern.spec_bytes())) ==> (r matches Ok(q) && q@ == (
        QueryModel::Subvert {
            patterns: variants_of(pattern.spec_bytes()),
            replacements: variants_of(replacement.spec_bytes()),
        }) && q.wf()),
        !all_nonempty(variants_of(pattern.spec_bytes())) ==> r == Err::<Query, QueryError>(
            QueryError::DegenerateQuery,
        ),
{
    let patterns = case_variants(pattern);
    let replacements = case_variants(replacement);
    let mut i: usize = 0;
    while i < patterns.len()
        invariant
            all_bytes(patterns@) == variants_of(pattern.spec_bytes()),
            forall|k: int| 0 <= k < i ==> all_bytes(patterns@)[k].len() > 0,
            i <= patterns@.len(),
        decreases patterns@.len() - i,
    {
        if byte_len(patterns[i].as_str()) == 0 {
            proof {
                assert(all_bytes(patterns@)[i as int].len() == 0);
            }
            return Err(QueryError::DegenerateQuery);
        }
        i = i + 1;
    }
    Ok(Query::Subvert(patterns, replacements))
}

} // verus!
