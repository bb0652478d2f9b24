use bin_encode_decode::Charset;

#[test]
fn charset_with_duplicate_is_unsafe() {
    assert!(!Charset::judge_charset_safe("aabc"));
}

#[test]
fn charset_without_duplicate_is_safe() {
    assert!(Charset::judge_charset_safe("abcd"));
}

#[test]
fn empty_charset_is_safe() {
    assert!(Charset::judge_charset_safe(""));
}

#[test]
fn single_character_charset_is_safe() {
    assert!(Charset::judge_charset_safe("x"));
}

#[test]
fn duplicate_far_apart_is_found() {
    assert!(!Charset::judge_charset_safe("abcdefghijklmnopqrstuvwxyza"));
    assert!(!Charset::judge_charset_safe("abcdefghijklmnopqrstuvwxyzz"));
}

#[test]
fn duplicate_of_a_wide_character_is_found() {
    assert!(Charset::judge_charset_safe("aé日🦀"));
    assert!(!Charset::judge_charset_safe("aé日🦀é"));
    assert!(!Charset::judge_charset_safe("🦀a🦀"));
}

#[test]
fn case_and_look_alikes_are_distinct() {
    assert!(Charset::judge_charset_safe("aA"));
    assert!(Charset::judge_charset_safe("eé"));
}

#[test]
fn symbols_are_the_characters_in_order() {
    assert_eq!(Charset::symbols("a日c"), vec!['a', '日', 'c']);
    assert_eq!(Charset::symbols(""), Vec::<char>::new());
}

#[test]
fn position_is_the_index_of_the_character() {
    let symbols = Charset::symbols("abcd");
    assert_eq!(Charset::position(&symbols, 'a'), Some(0));
    assert_eq!(Charset::position(&symbols, 'c'), Some(2));
    assert_eq!(Charset::position(&symbols, 'd'), Some(3));
    assert_eq!(Charset::position(&symbols, 'e'), None);
}

#[test]
fn position_is_the_first_where_a_character_repeats() {
    let symbols = Charset::symbols("abcabc");
    assert_eq!(Charset::position(&symbols, 'b'), Some(1));
    assert_eq!(Charset::position(&symbols, 'c'), Some(2));
}

#[test]
fn position_in_an_empty_charset_is_none() {
    let symbols = Charset::symbols("");
    assert_eq!(Charset::position(&symbols, 'a'), None);
}
