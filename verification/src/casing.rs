//! Case-convention renderings of a word. The seven conventions are produced
//! by the `inflector` crate (plus one derived rendering), each behind a
//! trusted wrapper whose result is named by an uninterpreted function of
//! the word's UTF-8 bytes alone: the renderings depend on nothing else.

use crate::encoding::all_bytes;
use vstd::prelude::*;
use vstd::string::StringSliceAdditionalSpecFns;
use vstd::utf8::encode_utf8;

verus! {

/// What inflector's `to_camel_case` returns for a word.
pub uninterp spec fn camel_of(word: Seq<u8>) -> Seq<u8>;

/// What inflector's `to_kebab_case` returns for a word.
pub uninterp spec fn kebab_of(word: Seq<u8>) -> Seq<u8>;

/// What inflector's `to_pascal_case` returns for a word.
pub uninterp spec fn pascal_of(word: Seq<u8>) -> Seq<u8>;

/// What inflector's `to_screaming_snake_case` returns for a word.
pub uninterp spec fn screaming_of(word: Seq<u8>) -> Seq<u8>;

/// What inflector's `to_snake_case` returns for a word.
pub uninterp spec fn snake_of(word: Seq<u8>) -> Seq<u8>;

/// What inflector's `to_train_case` returns for a word.
pub uninterp spec fn train_of(word: Seq<u8>) -> Seq<u8>;

/// Relies on inflector's `to_camel_case`: the camelCase rendering of `word`,
/// a function of its text alone.
#[verifier::external_body]
fn to_camel(word: &str) -> (r: String)
    ensures
        encode_utf8(r@) == camel_of(word.spec_bytes()),
{
    inflector::cases::camelcase::to_camel_case(word)
}

/// Relies on inflector's `to_kebab_case`: the kebab-case rendering of `word`,
/// a function of its text alone.
#[verifier::external_body]
fn to_kebab(word: &str) -> (r: String)
    ensures
        encode_utf8(r@) == kebab_of(word.spec_bytes()),
{
    inflector::cases::kebabcase::to_kebab_case(word)
}

/// Relies on inflector's `to_pascal_case`: the PascalCase rendering of
/// `word`, a function of its text alone.
#[verifier::external_body]
fn to_pascal(word: &str) -> (r: String)
    ensures
        encode_utf8(r@) == pascal_of(word.spec_bytes()),
{
    inflector::cases::pascalcase::to_pascal_case(word)
}

/// Relies on inflector's `to_screaming_snake_case`: the SCREAMING_SNAKE_CASE
/// rendering of `word`, a function of its text alone.
#[verifier::external_body]
fn to_screaming_snake(word: &str) -> (r: String)
    ensures
        encode_utf8(r@) == screaming_of(word.spec_bytes()),
{
    inflector::cases::screamingsnakecase::to_screaming_snake_case(word)
}

/// Relies on inflector's `to_snake_case`: the snake_case rendering of `word`,
/// a function of its text alone.
#[verifier::external_body]
fn to_snake(word: &str) -> (r: String)
    ensures
        encode_utf8(r@) == snake_of(word.spec_bytes()),
{
    inflector::cases::snakecase::to_snake_case(word)
}

/// Relies on inflector's `to_train_case`: the Train-Case rendering of `word`,
/// a function of its text alone.
#[verifier::external_body]
fn to_train(word: &str) -> (r: String)
    ensures
        encode_utf8(r@) == train_of(word.spec_bytes()),
{
    inflector::cases::traincase::to_train_case(word)
}

/// `s` with every hyphen replaced by an underscore. Both are single ASCII
/// bytes, so the substitution is a byte map.
pub open spec fn underscored(s: Seq<u8>) -> Seq<u8> {
    s.map(|_i: int, b: u8| if b == 45 { 95 } else { b })
}

/// Relies on `str::replace`: replaces every occurrence of "-" (the single
/// byte 0x2D, which in UTF-8 is always the character '-') by "_" (0x5F).
#[verifier::external_body]
fn replace_hyphens(s: &str) -> (r: String)
    ensures
        encode_utf8(r@) == underscored(s.spec_bytes()),
{
    s.replace("-", "_")
}

/// The seven case-convention renderings of a word, in a fixed order:
/// camel, kebab, pascal, screaming-snake, snake, train, and train with
/// hyphens replaced by underscores.
pub open spec fn variants_of(word: Seq<u8>) -> Seq<Seq<u8>> {
    seq![
        camel_of(word),
        kebab_of(word),
        pascal_of(word),
        screaming_of(word),
        snake_of(word),
        train_of(word),
        underscored(train_of(word)),
    ]
}

/// Render `word` under each of the seven case conventions.
pub fn case_variants(word: &str) -> (r: Vec<String>)
    ensures
        r@.len() == 7,
        all_bytes(r@) == variants_of(word.spec_bytes()),
{
    let mut v: Vec<String> = Vec::new();
    v.push(to_camel(word));
    v.push(to_kebab(word));
    v.push(to_pascal(word));
    v.push(to_screaming_snake(word));
    v.push(to_snake(word));
    let train = to_train(word);
    let ugly = replace_hyphens(train.as_str());
    v.push(train);
    v.push(ugly);
    proof {
        assert(all_bytes(v@) =~~= variants_of(word.spec_bytes()));
    }
    v
}

} // verus!
