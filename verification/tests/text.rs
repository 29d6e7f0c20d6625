use hivemind::coordinator::words;
use hivemind::hub::tokenize;
use hivemind::text::{is_whitespace, join_strings, split_char, split_whitespace, trim};

fn sorted(mut v: Vec<String>) -> Vec<String> {
    v.sort();
    v
}

#[test]
fn tokenize_folds_case_and_punctuation() {
    let t = tokenize("Who knows Restaurants, and DINING? a b");
    assert_eq!(sorted(t), vec!["and", "dining", "knows", "restaurants", "who"]);
}

#[test]
fn tokenize_keeps_each_word_once() {
    assert_eq!(tokenize("api api API"), vec!["api"]);
}

#[test]
fn words_need_three_bytes() {
    let w = words("Plan a surprise birthday dinner on TV");
    assert_eq!(sorted(w), vec!["birthday", "dinner", "plan", "surprise"]);
}

#[test]
fn trimming_and_splitting() {
    assert_eq!(trim("  hi there \n"), "hi there");
    assert_eq!(split_char("a,,b", ','), vec!["a", "", "b"]);
    assert_eq!(split_whitespace("  one two\tthree "), vec!["one", "two", "three"]);
    assert_eq!(
        join_strings(&vec!["a".to_string(), "b".to_string()], ", "),
        "a, b"
    );
}

#[test]
fn words_of_joined_text_are_the_union() {
    let a = "Dinner and drinks";
    let b = "birthday PLANS";
    let joined = format!("{a} {b}");
    let mut both = tokenize(a);
    for w in tokenize(b) {
        if !both.contains(&w) {
            both.push(w);
        }
    }
    assert_eq!(sorted(tokenize(&joined)), sorted(both));
    assert_eq!(sorted(words(&joined)), vec!["and", "birthday", "dinner", "drinks", "plans"]);
}

#[test]
fn words_ignore_ascii_case() {
    assert_eq!(sorted(tokenize("Gifts WishList")), sorted(tokenize("gifts wishlist")));
    assert_eq!(sorted(words("GIFTS and Cards")), sorted(words("gifts AND cards")));
}

#[test]
fn whitespace_is_the_unicode_list() {
    for c in [' ', '\t', '\n', '\r', '\u{85}', '\u{a0}', '\u{2003}', '\u{3000}'] {
        assert_eq!(is_whitespace(c), c.is_whitespace());
        assert!(is_whitespace(c));
    }
    for c in ['a', '0', '_', '\u{200b}', '\u{feff}'] {
        assert_eq!(is_whitespace(c), c.is_whitespace());
        assert!(!is_whitespace(c));
    }
}
