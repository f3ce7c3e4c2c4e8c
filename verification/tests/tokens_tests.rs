use naive_auto_complete::tokens::create_tokens;
use naive_auto_complete::tokens::get_the_last_50_chars;
use naive_auto_complete::tokens::merge_trigrams;
use naive_auto_complete::tokens::split_into_trigrams;

fn strings(words: &[&str]) -> Vec<String> {
    words.iter().map(|w| w.to_string()).collect()
}

#[test]
fn test_split_into_words() {
    let text = "rtx and asd qwe zxc";
    let tokens = strings(&["rtx", "and", "asd", "qwe", "zxc"]);
    assert_eq!(tokens, create_tokens(text));
}

#[test]
fn words_skip_repeated_whitespace() {
    assert_eq!(create_tokens("  a \t b\nc  "), strings(&["a", "b", "c"]));
    assert_eq!(create_tokens(""), Vec::<String>::new());
    assert_eq!(create_tokens("   "), Vec::<String>::new());
    assert_eq!(create_tokens("word"), strings(&["word"]));
}

#[test]
fn trigrams_slide_by_one() {
    assert_eq!(split_into_trigrams("abcde"), strings(&["abc", "bcd", "cde"]));
    assert_eq!(split_into_trigrams("abc"), strings(&["abc"]));
    assert_eq!(split_into_trigrams("ab"), Vec::<String>::new());
}

#[test]
fn merge_takes_first_whole_then_last_chars() {
    assert_eq!(merge_trigrams(strings(&["abc", "cde"])), "abce".to_string());
    assert_eq!(merge_trigrams(strings(&["abc"])), "abc".to_string());
    assert_eq!(merge_trigrams(Vec::new()), String::new());
    // An empty later token contributes nothing.
    assert_eq!(merge_trigrams(strings(&["abc", "", "xyz"])), "abcz".to_string());
}

#[test]
fn trigram_round_trip_reproduces_text() {
    for text in ["abc", "hello world", "the quick brown fox"] {
        let trigrams = split_into_trigrams(text);
        assert_eq!(merge_trigrams(trigrams), text.to_string());
    }
}

#[test]
fn last_chars_keep_short_text_whole() {
    assert_eq!(get_the_last_50_chars("short".to_string()), "short".to_string());
    let exactly: String = "x".repeat(50);
    assert_eq!(get_the_last_50_chars(exactly.clone()), exactly);
}

#[test]
fn last_chars_drop_the_front() {
    let long: String = format!("{}{}", "a".repeat(10), "b".repeat(50));
    assert_eq!(get_the_last_50_chars(long), "b".repeat(50));
}
