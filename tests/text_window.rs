use expr_front::text::TextWindow;

#[test]
fn as_str_returns_empty_string_when_window_initialized() {
    assert_eq!("", TextWindow::new("testwin").as_str());
}

#[test]
fn as_bytes_returns_empty_string_when_window_initialized() {
    assert_eq!(b"", TextWindow::new("testwin").as_bytes());
}

#[test]
fn last_returns_none_when_window_initialized() {
    assert_eq!(None, TextWindow::new("testwin").last());
}

#[test]
fn take_loads_take_character_into_buffer() {
    let mut window = TextWindow::new("testwin");
    assert!(window.take().unwrap());
    assert_eq!("t", window.as_str());
}

#[test]
fn take_returns_false_when_at_end_of_file() {
    let mut window = TextWindow::new("testwin");
    for _ in 0..7 {
        assert!(window.take().unwrap());
    }
    assert!(!window.take().unwrap());
    assert_eq!("testwin", window.as_str());
}

#[test]
fn backtrack_moves_end_pointer_back_to_provided_value() {
    let mut window = TextWindow::new("testwin");
    assert!(window.take().unwrap());
    assert!(window.take().unwrap());
    assert!(window.take().unwrap());
    assert!(window.take().unwrap());
    assert_eq!("test", window.as_str());
    assert_eq!(b"test", window.as_bytes());
    let marker = window.end();
    assert!(window.take().unwrap());
    assert!(window.take().unwrap());
    assert!(window.take().unwrap());
    assert_eq!("testwin", window.as_str());
    window.backtrack(marker);
    assert_eq!("test", window.as_str());
}

#[test]
fn advance_moves_offset_up_to_end_pointer() {
    let mut window = TextWindow::new("testwin");
    assert!(window.take().unwrap());
    assert!(window.take().unwrap());
    assert!(window.take().unwrap());
    assert!(window.take().unwrap());
    assert_eq!("test", window.as_str());
    window.advance();
    assert_eq!("", window.as_str());
    assert_eq!(None, window.last());
    assert!(window.take().unwrap());
    assert!(window.take().unwrap());
    assert!(window.take().unwrap());
    assert_eq!("win", window.as_str());
}

#[test]
fn take_moves_in_character_increments() {
    let mut window = TextWindow::new("a¶Ё₵𐆓e\u{0301}");
    assert!(window.take().unwrap());
    assert_eq!("a", window.as_str());
    assert_eq!(Some('a'), window.last());
    assert_eq!(1, window.end());
    assert!(window.take().unwrap());
    assert_eq!("a¶", window.as_str());
    assert_eq!(Some('¶'), window.last());
    assert_eq!(3, window.end());
    assert!(window.take().unwrap());
    assert_eq!("a¶Ё", window.as_str());
    assert_eq!(Some('Ё'), window.last());
    assert_eq!(5, window.end());
    assert!(window.take().unwrap());
    assert_eq!("a¶Ё₵", window.as_str());
    assert_eq!(Some('₵'), window.last());
    assert_eq!(8, window.end());
    assert!(window.take().unwrap());
    assert_eq!("a¶Ё₵𐆓", window.as_str());
    assert_eq!(Some('𐆓'), window.last());
    assert_eq!(12, window.end());
    assert!(window.take().unwrap());
    assert_eq!("a¶Ё₵𐆓e", window.as_str());
    assert_eq!(Some('e'), window.last());
    assert_eq!(13, window.end());
    assert!(window.take().unwrap());
    assert_eq!("a¶Ё₵𐆓e\u{0301}", window.as_str());
    assert_eq!(Some('\u{0301}'), window.last());
    assert_eq!(15, window.end());
}

#[test]
fn peek_returns_false_at_eof() {
    let mut window = TextWindow::new("0");
    assert!(window.take().unwrap());
    assert!(!window.peek(..));
}

#[test]
fn peek_returns_true_if_predicate_matches() {
    let window = TextWindow::new("0");
    assert!(window.peek('0'..='9'));
}

#[test]
fn peek_returns_false_if_predicate_does_not_match() {
    let window = TextWindow::new("0");
    assert!(!window.peek('1'..='9'));
}

#[test]
fn scan_while_expands_window_to_all_characters_matching_predicate() {
    let mut window = TextWindow::new("0123456789/abcdef");

    // Inclusive Range
    window.scan_while('0'..='9').unwrap();
    assert_eq!("0123456789", window.as_str());
    assert_eq!(Some('9'), window.last());
    assert_eq!(10, window.end());
    window.reset();

    // Exclusive Range
    window.scan_while('0'..'9').unwrap();
    assert_eq!("012345678", window.as_str());
    assert_eq!(Some('8'), window.last());
    assert_eq!(9, window.end());
    window.reset();

    // Inclusive RangeTo
    window.scan_while(..='9').unwrap();
    assert_eq!("0123456789/", window.as_str());
    assert_eq!(Some('/'), window.last());
    assert_eq!(11, window.end());
    window.reset();

    // Exclusive RangeTo
    window.scan_while(..'9').unwrap();
    assert_eq!("012345678", window.as_str());
    assert_eq!(Some('8'), window.last());
    assert_eq!(9, window.end());
    window.reset();

    // RangeFrom ('/' is below '0')
    window.scan_while('0'..).unwrap();
    assert_eq!("0123456789", window.as_str());
    assert_eq!(Some('9'), window.last());
    assert_eq!(10, window.end());
    window.reset();

    // RangeFull
    window.scan_while(..).unwrap();
    assert_eq!("0123456789/abcdef", window.as_str());
    assert_eq!(Some('f'), window.last());
    assert_eq!(17, window.end());
    window.reset();

    // char
    window.scan_while('0').unwrap();
    assert_eq!("0", window.as_str());
    assert_eq!(Some('0'), window.last());
    assert_eq!(1, window.end());
    window.reset();

    // Fn
    window.scan_while(|c: char| c.to_digit(10).unwrap() < 9).unwrap();
    assert_eq!("012345678", window.as_str());
    assert_eq!(Some('8'), window.last());
    assert_eq!(9, window.end());
    window.reset();
}

#[test]
fn take_if_only_expands_window_if_next_char_matches_predicate() {
    let mut window = TextWindow::new("0123456789/abcdef");

    // Inclusive Range
    window.take_if('0'..='9').unwrap();
    assert_eq!("0", window.as_str());
    assert_eq!(Some('0'), window.last());
    assert_eq!(1, window.end());
    window.reset();
    window.take_if('a'..='z').unwrap();
    assert_eq!("", window.as_str());
    assert_eq!(None, window.last());
    assert_eq!(0, window.end());
    window.reset();

    // Exclusive Range
    window.take_if('0'..'9').unwrap();
    assert_eq!("0", window.as_str());
    assert_eq!(Some('0'), window.last());
    assert_eq!(1, window.end());
    window.reset();
    window.take_if('1'..'9').unwrap();
    assert_eq!("", window.as_str());
    assert_eq!(None, window.last());
    assert_eq!(0, window.end());
    window.reset();

    // Inclusive RangeTo
    window.take_if(..='9').unwrap();
    assert_eq!("0", window.as_str());
    assert_eq!(Some('0'), window.last());
    assert_eq!(1, window.end());
    window.reset();
    window.take_if(..='/').unwrap();
    assert_eq!("", window.as_str());
    assert_eq!(None, window.last());
    assert_eq!(0, window.end());
    window.reset();

    // Exclusive RangeTo
    window.take_if(..'1').unwrap();
    assert_eq!("0", window.as_str());
    assert_eq!(Some('0'), window.last());
    assert_eq!(1, window.end());
    window.reset();
    window.take_if(..'0').unwrap();
    assert_eq!("", window.as_str());
    assert_eq!(None, window.last());
    assert_eq!(0, window.end());
    window.reset();

    // RangeFrom ('/' is below '0')
    window.take_if('0'..).unwrap();
    assert_eq!("0", window.as_str());
    assert_eq!(Some('0'), window.last());
    assert_eq!(1, window.end());
    window.reset();
    window.take_if('1'..).unwrap();
    assert_eq!("", window.as_str());
    assert_eq!(None, window.last());
    assert_eq!(0, window.end());
    window.reset();

    // RangeFull
    window.take_if(..).unwrap();
    assert_eq!("0", window.as_str());
    assert_eq!(Some('0'), window.last());
    assert_eq!(1, window.end());
    window.reset();

    // char
    window.take_if('0').unwrap();
    assert_eq!("0", window.as_str());
    assert_eq!(Some('0'), window.last());
    assert_eq!(1, window.end());
    window.reset();
    window.take_if('1').unwrap();
    assert_eq!("", window.as_str());
    assert_eq!(None, window.last());
    assert_eq!(0, window.end());
    window.reset();

    // Fn
    window.take_if(|c: char| c.to_digit(10).unwrap() < 9).unwrap();
    assert_eq!("0", window.as_str());
    assert_eq!(Some('0'), window.last());
    assert_eq!(1, window.end());
    window.reset();
    window.take_if(|c: char| c.to_digit(10).unwrap() > 0).unwrap();
    assert_eq!("", window.as_str());
    assert_eq!(None, window.last());
    assert_eq!(0, window.end());
    window.reset();
}

#[test]
fn scan_until_stops_at_the_first_matching_character() {
    let mut window = TextWindow::new("abc/def");
    window.scan_until('/').unwrap();
    assert_eq!("abc", window.as_str());
    assert_eq!(Some('c'), window.last());
    assert_eq!(3, window.end());
}

#[test]
fn scan_while_over_nothing_keeps_the_window_empty() {
    let mut window = TextWindow::new("abc");
    window.scan_while('0'..='9').unwrap();
    assert_eq!("", window.as_str());
    assert_eq!(None, window.last());
    assert_eq!(0, window.end());
}

#[test]
fn last_is_tests_the_last_taken_character() {
    let mut window = TextWindow::new("-1");
    assert!(!window.last_is('-'));
    assert!(window.take().unwrap());
    assert!(window.last_is('-'));
    assert!(!window.last_is('0'..='9'));
}

#[test]
fn span_and_offset_follow_the_window() {
    let mut window = TextWindow::new("ab cd");
    window.scan_until(' ').unwrap();
    assert_eq!(0, window.span().start());
    assert_eq!(2, window.span().end());
    window.advance();
    assert_eq!(2, window.offset());
    assert!(window.take().unwrap());
    assert_eq!(2, window.span().start());
    assert_eq!(3, window.span().end());
}

#[test]
fn backtrack_restores_the_last_multibyte_character() {
    let mut window = TextWindow::new("a¶Ё");
    assert!(window.take().unwrap());
    assert!(window.take().unwrap());
    let marker = window.end();
    assert!(window.take().unwrap());
    assert_eq!(Some('Ё'), window.last());
    window.backtrack(marker);
    assert_eq!("a¶", window.as_str());
    assert_eq!(Some('¶'), window.last());
    assert_eq!(3, window.end());
    window.backtrack(0);
    assert_eq!("", window.as_str());
    assert_eq!(None, window.last());
}

#[test]
fn peek_does_not_move_the_window() {
    let mut window = TextWindow::new("12");
    assert!(window.take().unwrap());
    assert!(window.peek('2'));
    assert_eq!("1", window.as_str());
    assert_eq!(Some('1'), window.last());
    assert_eq!(1, window.end());
}

#[test]
fn take_at_end_clears_last() {
    let mut window = TextWindow::new("x");
    assert!(window.take().unwrap());
    assert_eq!(Some('x'), window.last());
    assert!(!window.take().unwrap());
    assert_eq!(None, window.last());
    assert_eq!("x", window.as_str());
}
