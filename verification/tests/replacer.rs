use ruplacer::{replace, substring, subvert};

#[test]
fn replacer_test_substring_1() {
    let input = "Mon thé c'est le meilleur des thés !";
    let pattern = "thé";
    let replacement = "café";
    let query = substring(pattern, replacement).unwrap();
    let replacement = replace(input, &query).unwrap();
    assert_eq!(replacement.output(), "Mon café c'est le meilleur des cafés !");
}

#[test]
fn replacer_test_substring_2() {
    let input = "old old old";
    let pattern = "old";
    let replacement = "new";
    let query = substring(pattern, replacement).unwrap();
    let replacement = replace(input, &query).unwrap();
    assert_eq!(replacement.output(), "new new new");
}

#[test]
fn replacer_test_subvert() {
    let input = "let foo_bar = FooBar::new();";
    let pattern = "foo_bar";
    let replacement = "spam_eggs";
    let query = subvert(pattern, replacement).unwrap();
    let replacement = replace(input, &query).unwrap();
    assert_eq!(replacement.output(), "let spam_eggs = SpamEggs::new();");
}

#[test]
fn replacer_test_regex_with_substitutions() {
    let input = "first, second";
    let query = ruplacer::from_regex(r"(\w+), (\w+)", r"$2 $1").unwrap();
    let replacement = replace(input, &query).unwrap();
    assert_eq!(replacement.output(), "second first");
}

#[test]
fn replacer_test_simple_regex() {
    let input = "old is old";
    let query = ruplacer::from_regex("old", "new").unwrap();
    let replacement = replace(input, &query).unwrap();
    assert_eq!(replacement.output(), "new is new");
}
