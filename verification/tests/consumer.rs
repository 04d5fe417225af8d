use expr_compiler::utils::Consumer;

#[test]
fn consumer() {
    consumer_next();
    consumer_peek();
    consumer_to_usize();
    consumer_skip_space();
    consumer_next_until_space();
}

#[test]
fn consumer_next() {
    let mut con = Consumer::new("consumer");
    assert_eq!(con.next(), Some("c".to_string()));
    assert_eq!(con.next_n(3), Some("ons".to_string()));
    assert_eq!(con.next_n(1000), None);
    assert_eq!(con.next(), None);
}

#[test]
fn consumer_next_until_space() {
    let mut con = Consumer::new("This is a pen.\t Say hi.");
    assert_eq!(con.next_until_space(), Some("This".to_string()));
    con.skip_space();
    assert_eq!(con.next_until_space(), Some("is".to_string()));
    con.skip_space();
    assert_eq!(con.next_until_space(), Some("a".to_string()));
    con.skip_space();
    assert_eq!(con.next_until_space(), Some("pen.".to_string()));
    con.skip_space();
    assert_eq!(con.next_until_space(), Some("Say".to_string()));
}

#[test]
fn consumer_peek() {
    let mut con = Consumer::new("Hello people");
    assert_eq!(con.peek(), Some("H".to_string()));
    assert_eq!(con.next_n(4), Some("Hell".to_string()));
    assert_eq!(con.peek_n(1000), None);
    assert_eq!(con.peek_n(8), Some("o people".to_string()));
}

#[test]
fn consumer_to_usize() {
    let mut con = Consumer::new("12345");
    assert_eq!(con.to_usize(), Some(12345));
    let mut con = Consumer::new("a");
    assert_eq!(con.to_usize(), None);
    let mut con = Consumer::new("123a");
    assert_eq!(con.to_usize(), Some(123));
}

#[test]
fn consumer_skip_space() {
    let mut con = Consumer::new("  \t  konnichwassup   ");
    con.skip_space();
    assert_eq!(con.peek(), Some("k".to_string()));
    con.skip_space();
    assert_eq!(con.next_n(13), Some("konnichwassup".to_string()));
    con.skip_space();
    assert_eq!(con.peek(), None);
}

#[test]
fn peek_does_not_move_the_cursor() {
    let con = Consumer::new("ab");
    assert_eq!(con.peek(), Some("a".to_string()));
    assert_eq!(con.peek(), Some("a".to_string()));
    assert_eq!(con.peek_char(), Some('a'));
    assert_eq!(con.peek_n(2), Some("ab".to_string()));
    assert_eq!(con.peek_n(2), Some("ab".to_string()));
}

#[test]
fn peek_n_with_too_few_characters_reads_nothing() {
    let mut con = Consumer::new("abc");
    assert_eq!(con.next_n(1), Some("a".to_string()));
    assert_eq!(con.peek_n(3), None);
    // the two characters that are left are still there
    assert_eq!(con.peek_n(2), Some("bc".to_string()));
    assert_eq!(con.next(), Some("b".to_string()));
}

#[test]
fn next_n_with_too_few_characters_reads_what_is_left() {
    let mut con = Consumer::new("abc");
    assert_eq!(con.next_n(4), None);
    assert_eq!(con.peek(), None);
    assert_eq!(con.next_char(), None);
}

#[test]
fn next_n_up_to_the_end() {
    let mut con = Consumer::new("abc");
    assert_eq!(con.next_n(3), Some("abc".to_string()));
    assert_eq!(con.peek(), None);
    assert_eq!(con.next_n(0), Some(String::new()));
    assert_eq!(con.peek_n(0), Some(String::new()));
    assert_eq!(con.next_n(1), None);
}

#[test]
fn zero_characters_of_an_empty_input() {
    let mut con = Consumer::new("");
    assert_eq!(con.peek(), None);
    assert_eq!(con.peek_n(0), Some(String::new()));
    assert_eq!(con.next_n(0), Some(String::new()));
    assert_eq!(con.next(), None);
    assert_eq!(con.to_usize(), None);
    assert_eq!(con.next_until_space(), Some(String::new()));
    con.skip_space();
    assert_eq!(con.peek(), None);
}

#[test]
fn next_char_walks_the_input() {
    let mut con = Consumer::new("a+");
    assert_eq!(con.next_char(), Some('a'));
    assert_eq!(con.peek_char(), Some('+'));
    assert_eq!(con.next_char(), Some('+'));
    assert_eq!(con.next_char(), None);
    assert_eq!(con.peek_char(), None);
}

#[test]
fn characters_beyond_ascii_count_once() {
    let mut con = Consumer::new("é\u{3042}x");
    assert_eq!(con.next(), Some("é".to_string()));
    assert_eq!(con.peek_n(2), Some("\u{3042}x".to_string()));
    assert_eq!(con.next_n(2), Some("\u{3042}x".to_string()));
    assert_eq!(con.next(), None);
}

#[test]
fn skip_space_is_idempotent() {
    let mut con = Consumer::new(" \t x y");
    con.skip_space();
    assert_eq!(con.peek(), Some("x".to_string()));
    con.skip_space();
    assert_eq!(con.peek(), Some("x".to_string()));
    assert_eq!(con.next(), Some("x".to_string()));
    con.skip_space();
    con.skip_space();
    assert_eq!(con.next(), Some("y".to_string()));
    con.skip_space();
    assert_eq!(con.peek(), None);
}

#[test]
fn skip_space_leaves_a_newline() {
    let mut con = Consumer::new(" \n1");
    con.skip_space();
    assert_eq!(con.peek(), Some("\n".to_string()));
}

#[test]
fn next_until_space_at_a_blank_is_empty() {
    let mut con = Consumer::new(" a");
    assert_eq!(con.next_until_space(), Some(String::new()));
    assert_eq!(con.peek(), Some(" ".to_string()));
    let mut con = Consumer::new("\ta");
    assert_eq!(con.next_until_space(), Some(String::new()));
}

#[test]
fn to_usize_leaves_the_cursor_where_no_digit_is() {
    let mut con = Consumer::new("x1");
    assert_eq!(con.to_usize(), None);
    assert_eq!(con.peek(), Some("x".to_string()));
    let mut con = Consumer::new(" 1");
    assert_eq!(con.to_usize(), None);
    assert_eq!(con.peek(), Some(" ".to_string()));
    let mut con = Consumer::new("-1");
    assert_eq!(con.to_usize(), None);
    let mut con = Consumer::new("+1");
    assert_eq!(con.to_usize(), None);
}

#[test]
fn to_usize_stops_at_the_first_other_character() {
    let mut con = Consumer::new("42+7");
    assert_eq!(con.to_usize(), Some(42));
    assert_eq!(con.next(), Some("+".to_string()));
    assert_eq!(con.to_usize(), Some(7));
    assert_eq!(con.to_usize(), None);
}

#[test]
fn to_usize_reads_leading_zeros() {
    let mut con = Consumer::new("0007");
    assert_eq!(con.to_usize(), Some(7));
    let mut con = Consumer::new("0");
    assert_eq!(con.to_usize(), Some(0));
}

#[test]
fn to_usize_takes_ascii_digits_only() {
    // an Arabic-Indic digit is numeric, but no decimal digit of this language
    let mut con = Consumer::new("\u{0663}");
    assert_eq!(con.to_usize(), None);
    assert_eq!(con.peek(), Some("\u{0663}".to_string()));
}

#[test]
fn to_usize_of_the_largest_word() {
    let text = usize::MAX.to_string();
    let mut con = Consumer::new(&text);
    assert_eq!(con.to_usize(), Some(usize::MAX));
    assert_eq!(con.peek(), None);
}

#[test]
fn to_usize_wraps_beyond_the_word() {
    // usize::MAX + 1 wraps to 0, usize::MAX * 10 + 7 to -10 + 7
    let max = usize::MAX as u128;
    let mut con = Consumer::new(&(max + 1).to_string());
    assert_eq!(con.to_usize(), Some(0));
    let mut con = Consumer::new(&(max + 6).to_string());
    assert_eq!(con.to_usize(), Some(5));
    let mut con = Consumer::new(&(max * 10 + 7).to_string());
    assert_eq!(con.to_usize(), Some(usize::MAX - 2));
    assert_eq!(con.peek(), None);
}
