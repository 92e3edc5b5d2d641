use ruplacer::{from_regex, replace, substring, subvert, QueryError, Replacement};

// Rebuild the input from its untouched gaps and the input fragments' texts.
// Fragment offsets are byte offsets into the input.
fn reassemble_input(rep: &Replacement) -> String {
    let input = rep.input();
    let fragments = rep.fragments();
    let mut out = String::new();
    let mut cur: usize = 0;
    for i in 0..fragments.len() {
        let pair = fragments.pair(i);
        let idx = pair.0.index;
        out.push_str(&input[cur..idx]);
        out.push_str(&pair.0.text);
        cur = idx + pair.0.text.len();
    }
    out.push_str(&input[cur..]);
    out
}

// Rebuild the output from its untouched gaps and the output fragments'
// texts. Fragment offsets are byte offsets into the output.
fn reassemble_output(rep: &Replacement) -> String {
    let output = rep.output();
    let fragments = rep.fragments();
    let mut out = String::new();
    let mut cur: usize = 0;
    for i in 0..fragments.len() {
        let pair = fragments.pair(i);
        let idx = pair.1.index;
        out.push_str(&output[cur..idx]);
        out.push_str(&pair.1.text);
        cur = idx + pair.1.text.len();
    }
    out.push_str(&output[cur..]);
    out
}

// Check that the input fragments are ordered and non-overlapping.
fn check_non_overlap(rep: &Replacement) {
    let fragments = rep.fragments();
    for i in 0..fragments.len() {
        if i + 1 < fragments.len() {
            let a = fragments.pair(i);
            let b = fragments.pair(i + 1);
            assert!(a.0.index + a.0.text.len() <= b.0.index);
            assert!(a.1.index + a.1.text.len() <= b.1.index);
        }
    }
}

#[test]
fn test_three_fragments_and_offsets() {
    let query = substring("old", "new").unwrap();
    let rep = replace("old old old", &query).unwrap();
    assert_eq!(rep.output(), "new new new");
    let fragments = rep.fragments();
    assert_eq!(fragments.len(), 3);
    for (i, expected) in [0usize, 4, 8].iter().enumerate() {
        let pair = fragments.pair(i);
        assert_eq!(pair.0.index, *expected);
        assert_eq!(pair.0.text, "old");
        assert_eq!(pair.1.index, *expected);
        assert_eq!(pair.1.text, "new");
    }
}

#[test]
fn test_no_match_returns_none() {
    let query = substring("xyz", "abc").unwrap();
    assert!(replace("no match here", &query).is_none());
}

#[test]
fn test_no_match_on_empty_input() {
    let query = substring("a", "b").unwrap();
    assert!(replace("", &query).is_none());
}

#[test]
fn test_empty_literal_pattern_is_degenerate() {
    assert!(matches!(substring("", "x"), Err(QueryError::DegenerateQuery)));
}

#[test]
fn test_empty_subvert_pattern_is_degenerate() {
    assert!(matches!(subvert("", "x"), Err(QueryError::DegenerateQuery)));
}

#[test]
fn test_bad_regex_is_invalid() {
    assert!(matches!(from_regex("(", "x"), Err(QueryError::InvalidPattern)));
}

#[test]
fn test_round_trip_substring() {
    let query = substring("thé", "café").unwrap();
    let rep = replace("Mon thé c'est le meilleur des thés !", &query).unwrap();
    assert_eq!(reassemble_input(&rep), rep.input());
    assert_eq!(reassemble_output(&rep), rep.output());
    check_non_overlap(&rep);
}

#[test]
fn test_multibyte_byte_offsets() {
    // Offsets are byte offsets: "é" takes two bytes, so the second match
    // starts at byte 31 of the input and its replacement at byte 32 of the
    // output.
    let query = substring("thé", "café").unwrap();
    let rep = replace("Mon thé c'est le meilleur des thés !", &query).unwrap();
    let fragments = rep.fragments();
    assert_eq!(fragments.len(), 2);
    assert_eq!(fragments.pair(0).0.index, 4);
    assert_eq!(fragments.pair(0).1.index, 4);
    assert_eq!(fragments.pair(1).0.index, 31);
    assert_eq!(fragments.pair(1).1.index, 32);
}

#[test]
fn test_round_trip_subvert() {
    let query = subvert("foo_bar", "spam_eggs").unwrap();
    let rep = replace("let foo_bar = FooBar::new(); // foo-bar", &query).unwrap();
    assert_eq!(rep.output(), "let spam_eggs = SpamEggs::new(); // spam-eggs");
    assert_eq!(reassemble_input(&rep), rep.input());
    assert_eq!(reassemble_output(&rep), rep.output());
    check_non_overlap(&rep);
}

#[test]
fn test_round_trip_regex() {
    let query = from_regex("o+", "0").unwrap();
    let rep = replace("foo boo", &query).unwrap();
    assert_eq!(rep.output(), "f0 b0");
    assert_eq!(reassemble_input(&rep), rep.input());
    assert_eq!(reassemble_output(&rep), rep.output());
    check_non_overlap(&rep);
}

#[test]
fn test_leftmost_variant_wins() {
    // The kebab rendering occurs before the pascal one: the earlier
    // occurrence must be replaced first, whatever the declaration order.
    let query = subvert("foo_bar", "spam_eggs").unwrap();
    let rep = replace("foo-bar then FooBar", &query).unwrap();
    assert_eq!(rep.output(), "spam-eggs then SpamEggs");
    let rep = replace("FooBar then foo-bar", &query).unwrap();
    assert_eq!(rep.output(), "SpamEggs then spam-eggs");
}

#[test]
fn test_tie_broken_by_declaration_order() {
    // For the word "foo" several case renderings coincide; whichever
    // deterministic winner is picked, the replacement must be the rendering
    // of the same convention index, so the output keeps the input's casing.
    let query = subvert("foo", "bar").unwrap();
    let rep = replace("foo Foo FOO", &query).unwrap();
    assert_eq!(rep.output(), "bar Bar BAR");
}

#[test]
fn test_render_diff_lines() {
    let query = substring("old", "new").unwrap();
    let rep = replace("Top: old is nice", &query).unwrap();
    let (before, after) = rep.render_diff("foo.txt:3");
    assert_eq!(before, "foo.txt:3 --- Top: old is nice");
    assert_eq!(after, "foo.txt:3 +++ Top: new is nice");
}

#[test]
fn test_replacement_longer_than_match() {
    let query = substring("a", "longer").unwrap();
    let rep = replace("a-a", &query).unwrap();
    assert_eq!(rep.output(), "longer-longer");
    let fragments = rep.fragments();
    assert_eq!(fragments.len(), 2);
    assert_eq!(fragments.pair(1).0.index, 2);
    assert_eq!(fragments.pair(1).1.index, 7);
}

#[test]
fn test_regex_capture_groups_once_per_match() {
    let query = from_regex(r"(\w+)-(\w+)", "$2-$1").unwrap();
    let rep = replace("ab-cd ef-gh", &query).unwrap();
    assert_eq!(rep.output(), "cd-ab gh-ef");
}

#[test]
fn test_regex_substitution_uses_buffer_context() {
    // The match of \B(\w) exists only in context: the excised text "b"
    // alone has no non-boundary start. Capture references must still be
    // resolved against the match that was found in the buffer.
    let query = from_regex(r"\B(\w)", "[$1]").unwrap();
    let rep = replace("ab", &query).unwrap();
    assert_eq!(rep.output(), "a[b]");
}
