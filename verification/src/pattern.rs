//! A compiled regular expression, paired with the pattern text it was
//! compiled from. The regex engine's behaviour is reached through trusted
//! wrappers; what it returns is named by uninterpreted functions of the
//! pattern and haystack bytes, since its full definition cannot reasonably
//! be restated here.

use vstd::prelude::*;
use vstd::string::StringSliceAdditionalSpecFns;
use vstd::utf8::encode_utf8;

verus! {

#[verifier::external_type_specification]
#[verifier::external_body]
pub struct ExRegex(regex::Regex);

#[verifier::external_type_specification]
#[verifier::external_body]
pub struct ExRegexError(regex::Error);

/// Whether `regex::Regex::new` accepts `pattern` as valid regex syntax.
pub uninterp spec fn regex_compiles(pattern: Seq<u8>) -> bool;

/// What `regex::Regex::find` returns for the given pattern and haystack:
/// the byte offset and the text of the leftmost match, or `None` when the
/// pattern matches nowhere in the haystack.
pub uninterp spec fn regex_find_of(pattern: Seq<u8>, haystack: Seq<u8>) -> Option<(int, Seq<u8>)>;

/// What expanding `template` against the leftmost match of the pattern in
/// `haystack` returns: the template with each capture-group reference
/// replaced by what that one match captured.
pub uninterp spec fn regex_expand_of(
    pattern: Seq<u8>,
    haystack: Seq<u8>,
    template: Seq<u8>,
) -> Seq<u8>;

/// A compiled regular expression together with its pattern text. The two
/// fields always belong together: every value is built by `regex_compile`.
pub struct RegexHandle {
    regex: regex::Regex,
    source: String,
}

impl RegexHandle {
    /// The UTF-8 bytes of the pattern this handle was compiled from.
    pub closed spec fn pattern(self) -> Seq<u8> {
        encode_utf8(self.source@)
    }
}

/// Relies on `regex::Regex::new`: compiling succeeds exactly on valid regex
/// syntax, a property of the pattern text alone; the returned handle keeps
/// the pattern text it was compiled from.
#[verifier::external_body]
pub(crate) fn regex_compile(pattern: &str) -> (r: Result<RegexHandle, regex::Error>)
    ensures
        r matches Ok(h) ==> h.pattern() == pattern.spec_bytes() && regex_compiles(
            pattern.spec_bytes(),
        ),
        r matches Err(_) ==> !regex_compiles(pattern.spec_bytes()),
{
    match regex::Regex::new(pattern) {
        Ok(re) => Ok(RegexHandle { regex: re, source: pattern.to_string() }),
        Err(e) => Err(e),
    }
}

/// Relies on `regex::Regex::find`: the leftmost match of the compiled
/// pattern in the haystack, split as the text before it, the matched text
/// and the text after it; the match's span lies on character boundaries,
/// and where it falls depends on the pattern and haystack text alone.
#[verifier::external_body]
pub(crate) fn regex_find(h: &RegexHandle, haystack: &str) -> (r: Option<(String, String, String)>)
    ensures
        match r {
            None => regex_find_of(h.pattern(), haystack.spec_bytes()) is None,
            Some((before, matched, after)) => {
                &&& haystack.spec_bytes() == encode_utf8(before@) + encode_utf8(matched@)
                    + encode_utf8(after@)
                &&& regex_find_of(h.pattern(), haystack.spec_bytes()) == Some(
                    (encode_utf8(before@).len() as int, encode_utf8(matched@)),
                )
            },
        },
{
    match h.regex.find(haystack) {
        None => None,
        Some(m) => Some((
            haystack[..m.start()].to_string(),
            m.as_str().to_string(),
            haystack[m.end()..].to_string(),
        )),
    }
}

/// Relies on `regex::Regex::captures` and `regex::Captures::expand`:
/// substitutes each capture-group reference of `template` by what the
/// leftmost match of the pattern in `haystack` captured — this one match
/// only — a function of the pattern, haystack and template text alone.
/// When the pattern matches nowhere in `haystack` the result is whatever
/// `regex_expand_of` names for that case.
#[verifier::external_body]
pub(crate) fn regex_expand(h: &RegexHandle, haystack: &str, template: &str) -> (r: String)
    ensures
        encode_utf8(r@) == regex_expand_of(
            h.pattern(),
            haystack.spec_bytes(),
            template.spec_bytes(),
        ),
{
    let mut out = String::new();
    match h.regex.captures(haystack) {
        Some(caps) => caps.expand(template, &mut out),
        None => {},
    }
    out
}

} // verus!
