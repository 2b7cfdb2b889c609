use textscan::analysis::{
    compare_handler, repeats_handler, symbols_handler, AnomalyEntry, CompareRequest, TextRequest,
};
use textscan::compare::compare_texts;
use textscan::html::escape_html;
use textscan::repeats::{clean, repeated_phrases};
use textscan::symbols::scan_word;
use textscan::text::{
    contains, join_words, mark_alphanumeric, mark_whitespace, split_whitespace, split_words, trim,
    trim_marked,
};

fn repeats(text: &str) -> Vec<(String, usize)> {
    let resp = repeats_handler(&TextRequest { text: text.to_string() });
    assert!(resp.ok);
    resp.repeats.into_iter().map(|e| (e.phrase, e.count)).collect()
}

fn entry(phrase: &str, count: usize) -> (String, usize) {
    (phrase.to_string(), count)
}

fn symbols(text: &str) -> Vec<AnomalyEntry> {
    let resp = symbols_handler(&TextRequest { text: text.to_string() });
    assert!(resp.ok);
    resp.anomalies
}

fn compare(a: &str, b: &str) -> (u32, u32) {
    let resp = compare_handler(&CompareRequest { text_a: a.to_string(), text_b: b.to_string() });
    assert!(resp.ok);
    (resp.similarity, resp.uniqueness)
}

fn strings(items: &[&str]) -> Vec<String> {
    items.iter().map(|s| s.to_string()).collect()
}

#[test]
fn longest_repeat_stands_for_its_parts() {
    assert_eq!(repeats("The cat sat. The CAT sat! A dog."), vec![entry("the cat sat", 2)]);
}

#[test]
fn more_frequent_part_is_kept() {
    assert_eq!(
        repeats("x y x y x y long phrase here long phrase here"),
        vec![entry("x y", 3), entry("long phrase here", 2), entry("x y x y", 2)]
    );
}

#[test]
fn equal_bytes_more_words_first() {
    assert_eq!(
        repeats("ab cd q ab cd w e f g r e f g"),
        vec![entry("e f g", 2), entry("ab cd", 2)]
    );
}

#[test]
fn bytes_not_characters_decide_length() {
    assert_eq!(
        repeats("abc de q abc de w да но r да но"),
        vec![entry("да но", 2), entry("abc de", 2)]
    );
}

#[test]
fn repeats_have_two_to_ten_words() {
    assert_eq!(repeats("one one"), vec![]);
    assert_eq!(repeats("a"), vec![]);
    assert_eq!(repeats(""), vec![]);
    let words = "a b c d e f g h i j k";
    let twice = format!("{} stop {}", words, words);
    assert_eq!(
        repeats(&twice).into_iter().map(|(p, _)| p.split(' ').count()).max(),
        Some(10)
    );
}

#[test]
fn apostrophes_stay_in_words() {
    assert_eq!(repeats("don't go; don't go"), vec![entry("don't go", 2)]);
    assert_eq!(repeats("Привет, МИР! привет мир"), vec![entry("привет мир", 2)]);
}

#[test]
fn redundancy_goes_by_text_not_by_words() {
    assert_eq!(repeats("a b q a b w xa by r xa by"), vec![entry("xa by", 2)]);
}

#[test]
fn repeats_of_given_words() {
    let words = strings(&["a", "b", "xa", "by", "a", "b", "xa", "by"]);
    let found = repeated_phrases(&words);
    assert_eq!(found.len(), 1);
    assert_eq!(found[0].phrase, "a b xa by");
    assert_eq!(found[0].count, 2);
}

#[test]
fn a_phrase_occurs_no_more_often_than_there_are_words() {
    assert_eq!(repeats("x x x x"), vec![entry("x x", 3), entry("x x x", 2)]);
}

#[test]
fn clean_keeps_letters_numbers_and_apostrophes() {
    let chars: Vec<char> = "a-1'я".chars().collect();
    let kept: String = clean(&chars, &mark_alphanumeric(&chars)).into_iter().collect();
    assert_eq!(kept, "a 1'я");
}

#[test]
fn mixed_alphabets_are_reported() {
    let found = symbols("привет пpивет hello");
    assert_eq!(found.len(), 1);
    assert_eq!(found[0].word, "пpивет");
    assert_eq!(found[0].highlighted, "п<span>p</span>ивет");
    assert_eq!(found[0].count, 1);
}

#[test]
fn special_symbols_are_reported_and_escaped() {
    let found = symbols("ok a<b \"plain\" it's x@y'z");
    assert_eq!(found.len(), 2);
    assert_eq!(found[0].word, "a<b");
    assert_eq!(found[0].highlighted, "a<span>&lt;</span>b");
    assert_eq!(found[0].count, 1);
    assert_eq!(found[1].word, "x@y'z");
    assert_eq!(found[1].highlighted, "x<span>@</span>y<span>&#039;</span>z");
    assert_eq!(found[1].count, 2);
}

#[test]
fn cyrillic_word_with_symbol_only_is_not_reported() {
    assert_eq!(symbols("при@вет").len(), 0);
    assert_eq!(symbols("Ёж, (ёлка)! да-да").len(), 0);
    assert_eq!(symbols("").len(), 0);
}

#[test]
fn highlight_without_tags_is_the_escaped_word() {
    let found = symbols("a&<b>");
    let shown = found[0].highlighted.replace("<span>", "").replace("</span>", "");
    assert_eq!(shown, escape_html("a&<b>"));
    assert_eq!(shown, "a&amp;&lt;b&gt;");
}

#[test]
fn scan_word_goes_by_the_marks() {
    let word: Vec<char> = "ab".chars().collect();
    assert!(scan_word(&word, &vec![true, true]).is_none());
    let found = scan_word(&word, &vec![true, false]);
    assert!(matches!(found, Some(e) if e.count == 1 && e.highlighted == "a<span>b</span>"));
}

#[test]
fn compare_counts_shared_pairs() {
    assert_eq!(compare("night", "nacht"), (25, 75));
    assert_eq!(compare("Hello", "hELLO"), (100, 0));
    assert_eq!(compare("abc", "xyz"), (0, 100));
    assert_eq!(compare("", "abc"), (0, 100));
    assert_eq!(compare("a", "a"), (0, 100));
    assert_eq!(compare("ПРИВЕТ мир", "привет Мир"), (100, 0));
}

#[test]
fn compare_is_symmetric_and_counts_pairs_once() {
    assert_eq!(compare_texts("aaaa", "aab"), 66);
    assert_eq!(compare_texts("aab", "aaaa"), 66);
    assert_eq!(compare_texts("abab", "ab"), 66);
}

#[test]
fn html_escapes() {
    assert_eq!(escape_html("<a href=\"x\">'&'</a>"), "&lt;a href=&quot;x&quot;&gt;&#039;&amp;&#039;&lt;/a&gt;");
    assert_eq!(escape_html("&lt;"), "&amp;lt;");
    assert_eq!(escape_html("плюс +"), "плюс +");
}

#[test]
fn html_escapes_piece_by_piece_and_apart() {
    let (a, b) = ("a<\"", "'&b>");
    let whole = format!("{}{}", a, b);
    assert_eq!(escape_html(&whole), format!("{}{}", escape_html(a), escape_html(b)));
    assert_ne!(escape_html("<"), escape_html("&lt;"));
}

#[test]
fn words_end_at_any_white_space() {
    assert_eq!(split_whitespace(" a\u{a0}b\tc\n\nd "), vec!["a", "b", "c", "d"]);
    assert_eq!(split_whitespace(" \n"), Vec::<String>::new());
    let chars: Vec<char> = "a b\u{2003}".chars().collect();
    assert_eq!(mark_whitespace(&chars), vec![false, true, false, true]);
    assert_eq!(split_words(&chars, &vec![true, false, true, false]), vec![" ", "\u{2003}"]);
}

#[test]
fn joining_and_splitting() {
    let words = strings(&["один", "два", "три"]);
    assert_eq!(join_words(&words, 0, 3), "один два три");
    assert_eq!(join_words(&words, 1, 1), "два");
    assert_eq!(split_whitespace(&join_words(&words, 0, 3)), words);
}

#[test]
fn trimming_and_searching() {
    assert_eq!(trim(" \t a b \u{a0}"), "a b");
    assert_eq!(trim("  "), "");
    let marked = |s: &str, m: &[bool]| trim_marked(&s.chars().collect(), &m.to_vec());
    assert_eq!(marked("abc", &[true, false, true]), "b");
    assert_eq!(marked(" b ", &[false, true, false]), " b ");
    assert_eq!(marked("ab", &[true, true]), "");
    let hay: Vec<char> = "abcab".chars().collect();
    let chars = |s: &str| s.chars().collect::<Vec<char>>();
    assert!(contains(&hay, &chars("cab")));
    assert!(contains(&hay, &chars("")));
    assert!(!contains(&hay, &chars("cb")));
    assert!(!contains(&hay, &chars("abcabc")));
}
