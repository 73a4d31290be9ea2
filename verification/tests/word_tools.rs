use rust_graph::words::{
    sorted_distinct_chars, split_words, string_by_example, used_characters, words_in_reverse,
    WordCounts,
};

#[test]
fn words_reversed() {
    let s = "' the quick brown fox jumps over the lazy dog'";
    let expected: Vec<String> = s.split_whitespace().rev().map(String::from).collect();
    assert_eq!(words_in_reverse(s), expected);
    assert_eq!(words_in_reverse("  a\tb\nc  "), vec!["c", "b", "a"]);
    assert!(words_in_reverse("   ").is_empty());
}

#[test]
fn split_words_matches_std() {
    for s in ["", "one", " two  words ", "\u{3000}wide\u{3000}space", "a\u{a0}b"] {
        let chars: Vec<char> = s.chars().collect();
        let got: Vec<String> = split_words(&chars).into_iter().map(|w| w.into_iter().collect()).collect();
        let want: Vec<String> = s.split_whitespace().map(String::from).collect();
        assert_eq!(got, want);
    }
}

#[test]
fn distinct_sorted_characters() {
    let chars: Vec<char> = "banana".chars().collect();
    assert_eq!(sorted_distinct_chars(&chars), vec!['a', 'b', 'n']);
    assert!(sorted_distinct_chars(&Vec::new()).is_empty());
}

#[test]
fn used_characters_of_the_example() {
    let s = "' the quick brown fox jumps over the lazy dog'";
    let mut chars: Vec<char> = s.chars().collect();
    chars.sort();
    chars.dedup();
    let mut listed = String::new();
    for c in chars {
        listed.push(c);
        listed.push_str(", ");
    }
    let expected = listed.trim_end_matches(&[' ', ','][..]).to_string();
    assert_eq!(used_characters(s), expected);
    assert!(used_characters(s).starts_with(" , ', a, b, c"));
    assert_eq!(used_characters("cab"), "a, b, c");
    assert_eq!(used_characters("a,"), ",, a");
    assert_eq!(used_characters(""), "");
}

#[test]
fn walkthrough() {
    let s = "' the quick brown fox jumps over the lazy dog'";
    let r = string_by_example(s, "I like dogs");
    assert_eq!(r.replaced, "I like cats");
    assert_eq!(r.trimmed_start, s.trim_start());
    assert_eq!(r.reversed_words.first().map(String::as_str), Some("dog'"));
    assert_eq!(r.used_characters, used_characters(s));
    assert!(r.character_list.ends_with("y, z, "));
    assert_eq!(r.character_list.trim_end_matches(&[' ', ','][..]), r.used_characters);
    assert_eq!(string_by_example("  x", "dog dog").replaced, "cat cat");
}

#[test]
fn tally_words_line_by_line() {
    let mut w = WordCounts::new();
    assert_eq!(w.count_of("the"), None);
    w.add_line("the cat and the dog\n");
    w.add_line("the end");
    assert_eq!(w.count_of("the"), Some(3));
    assert_eq!(w.count_of("cat"), Some(1));
    assert_eq!(w.count_of("end"), Some(1));
    assert_eq!(w.count_of("bird"), None);
    let entries = w.entries();
    let keys: Vec<&str> = entries.iter().map(|(k, _)| k.as_str()).collect();
    assert_eq!(keys, vec!["the", "cat", "and", "dog", "end"]);
    assert_eq!(entries[0].1, 3);
}

#[test]
fn tally_whole_text_equals_tally_by_lines() {
    let mut by_lines = WordCounts::new();
    by_lines.add_line("a b a");
    by_lines.add_line("b c");
    let mut whole = WordCounts::new();
    whole.add_line("a b a b c");
    assert_eq!(by_lines.entries(), whole.entries());
}

#[test]
fn add_single_word() {
    let mut w = WordCounts::new();
    let word: Vec<char> = "hey".chars().collect();
    w.add_word(&word);
    w.add_word(&word);
    assert_eq!(w.count_of("hey"), Some(2));
}

#[test]
fn counts_are_occurrences() {
    let lines = ["to be or not to be", "to do is to be", "  "];
    let mut w = WordCounts::new();
    for l in lines {
        w.add_line(l);
    }
    let all: Vec<&str> = lines.iter().flat_map(|l| l.split_whitespace()).collect();
    for word in ["to", "be", "or", "not", "do", "is"] {
        let n = all.iter().filter(|x| **x == word).count() as u32;
        assert_eq!(w.count_of(word), Some(n));
    }
    assert_eq!(w.count_of("the"), None);
    assert_eq!(w.entries().len(), 6);
}
