use selecta::compute_match;
use selecta::matcher::chars_equal;
use selecta::matcher::find_char_in_string;
use selecta::matcher::find_end_of_match;
use selecta::matcher::get_match_indices;
use selecta::ranker::single_thread;
use selecta::score;
use selecta::text::trim_eol;
use selecta::Score;

fn chars(s: &str) -> Vec<char> {
    s.chars().collect()
}

/// The score's numeric value: `(num / span_len) / sample_len`.
fn val(sc: &Score) -> f64 {
    (sc.num as f64 / sc.span_len as f64) / sc.sample_len as f64
}

#[test]
fn trim_eol_test() {
    let mut x = "asdf\n".to_string();
    trim_eol(&mut x);
    assert_eq!("asdf", x);
}

#[test]
fn trim_eol_handles_crlf_and_empty() {
    let mut x = "line\r\n".to_string();
    trim_eol(&mut x);
    assert_eq!("line", x);

    let mut y = "\n\r\n".to_string();
    trim_eol(&mut y);
    assert_eq!("", y);

    let mut z = "no eol".to_string();
    trim_eol(&mut z);
    assert_eq!("no eol", z);
}

#[test]
fn chars_equal_test() {
    assert!(chars_equal(&'a', &'a'));
    assert!(chars_equal(&'a', &'A'));
    assert!(chars_equal(&'A', &'A'));
    assert!(!chars_equal(&'b', &'a'));
}

#[test]
fn find_char_in_string_test() {
    assert_eq!(find_char_in_string(&chars("00100"), '1'), vec![2]);
    assert_eq!(find_char_in_string(&chars("10100"), '1'), vec![0, 2]);
    assert_eq!(find_char_in_string(&chars("00100"), '2'), vec![]);
}

#[test]
fn get_match_indices_test() {
    assert_eq!(
        get_match_indices(&chars("asdf"), &chars("sdf"), 0).unwrap(),
        vec![0, 1, 2, 3]
    );
    assert_eq!(get_match_indices(&chars("000"), &chars("12"), 0), None);
}

#[test]
fn find_end_of_match_test() {
    assert_eq!(find_end_of_match(&chars("a"), &chars("a"), 0), None);
    assert_eq!(find_end_of_match(&chars("ba"), &chars("a"), 1), None);
    assert_eq!(find_end_of_match(&chars("aaa"), &chars("aa"), 0), Some(2));
    assert_eq!(find_end_of_match(&chars("aaa"), &chars("b"), 0), None);
    assert_eq!(
        find_end_of_match(&chars("this is a long match"), &chars("this is a match"), 0),
        None
    );
    assert_eq!(
        find_end_of_match(&chars("this is a long match"), &chars("his is a match"), 0),
        Some(19)
    );
}

#[test]
fn basic_scoring() {
    assert_eq!(val(&score("", "a")), 0.0);
    assert_eq!(val(&score("a", "")), 1.0);
    assert_eq!(val(&score("short", "longer")), 0.0);
    assert_eq!(val(&score("a", "b")), 0.0);
    assert_eq!(val(&score("ab", "ac")), 0.0);

    assert!(val(&score("a", "a")) > 0.0);
    assert!(val(&score("ab", "a")) > 0.0);
    assert!(val(&score("ba", "a")) > 0.0);
    assert!(val(&score("bab", "a")) > 0.0);
    assert!(val(&score("babababab", "aaaa")) > 0.0);

    assert_eq!(val(&score("a", "a")), 1_f64 / "a".len() as f64);
    assert_eq!(val(&score("ab", "ab")), 0.5);
    assert_eq!(
        val(&score("a long string", "a long string")),
        1_f64 / "a long string".len() as f64
    );
    assert_eq!(
        val(&score("spec/search_spec.rb", "sear")),
        1_f64 / "spec/search_spec.rb".len() as f64
    );
}

#[test]
fn character_matching() {
    assert!(val(&score("/! symbols $^", "/!$^")) > 0.0);

    assert_eq!(val(&score("a", "A")), 0.0);
    assert_eq!(val(&score("A", "a")), 1.0);
    assert_eq!(val(&score("A", "A")), 1.0);

    assert_eq!(val(&score("a", "aa")), 0.0);
}

#[test]
fn match_equality() {
    assert!(val(&score("selecta.gemspec", "asp")) > val(&score("algorithm4_spec.rb", "asp")));
    assert!(val(&score("README.md", "em")) > val(&score("benchmark.rb", "em")));
    assert!(val(&score("search.rb", "sear")) > val(&score("spec/search_spec.rb", "sear")));

    assert!(val(&score("fbb", "fbb")) > val(&score("foo bar baz", "fbb")));
    assert!(val(&score("foo", "foo")) > val(&score("longer foo", "foo")));
    assert!(val(&score("foo", "foo")) > val(&score("foo longer", "foo")));
    assert!(val(&score("1/2/3/4", "1/2/3")) > val(&score("1/9/2/3/4", "1/2/3")));

    assert!(val(&score("long 12 long", "12")) > val(&score("1 long 2", "12")));

    assert_eq!(val(&score("121padding2", "12")), 1.0 / "121padding2".len() as f64);
    assert_eq!(val(&score("1padding212", "12")), 1.0 / "1padding212".len() as f64);
}

#[test]
fn single_thread_test() {
    println!("{:?}", single_thread(&["abcd", "bcde"], "bcd"));
}

#[test]
fn score_is_exact_rational() {
    let sc = score("ab", "ab");
    assert_eq!(sc.num, 2);
    assert_eq!(sc.span_len, 2);
    assert_eq!(sc.sample_len, 2);

    let no_match = score("short", "longer");
    assert_eq!(no_match.num, 0);
    assert_eq!(no_match.span_len, 1);
    assert_eq!(no_match.sample_len, 1);
}

#[test]
fn rank_excludes_zero_scores() {
    let ranked = compute_match(&["short"], "longer");
    assert!(ranked.is_empty());
}

#[test]
fn rank_is_stable_on_ties() {
    let ranked = compute_match(&["ab", "ba"], "");
    assert_eq!(ranked, vec!["ab", "ba"]);
}

#[test]
fn rank_end_to_end_gemspec() {
    let ranked = compute_match(&["selecta.gemspec", "algorithm4_spec.rb"], "asp");
    assert_eq!(ranked, vec!["selecta.gemspec", "algorithm4_spec.rb"]);
}

#[test]
fn rank_end_to_end_prefix_tie() {
    let ranked = compute_match(&["abcd", "bcde"], "bcd");
    assert_eq!(ranked, vec!["abcd", "bcde"]);
}

#[test]
fn rank_orders_by_descending_score() {
    let ranked = compute_match(&["1 long 2", "long 12 long", "no digits"], "12");
    assert_eq!(ranked, vec!["long 12 long", "1 long 2"]);
}
