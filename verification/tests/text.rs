use pstree::text::append_decimal;
use pstree::text::char_is_space;
use pstree::text::chars_of;
use pstree::text::find_char;
use pstree::text::parse_i32;
use pstree::text::trim_range;

fn trim_of(text: &str) -> String {
    let chars: Vec<char> = text.chars().collect();
    let (lo, hi) = trim_range(&chars, 0, chars.len());
    chars[lo..hi].iter().collect()
}

fn number_of(text: &str) -> Option<i32> {
    let chars: Vec<char> = text.chars().collect();
    parse_i32(&chars, 0, chars.len())
}

#[test]
fn white_space_is_what_std_calls_white_space() {
    let mut code: u32 = 0;
    while code <= 0x10FFFF {
        if let Some(c) = char::from_u32(code) {
            assert_eq!(char_is_space(c), c.is_whitespace(), "code point {:#x}", code);
        }
        code += 1;
    }
}

#[test]
fn white_space_examples() {
    assert!(char_is_space(' '));
    assert!(char_is_space('\t'));
    assert!(char_is_space('\n'));
    assert!(char_is_space('\r'));
    assert!(char_is_space('\u{3000}'));
    assert!(!char_is_space('a'));
    assert!(!char_is_space(':'));
    assert!(!char_is_space('\u{200B}'));
}

#[test]
fn chars_of_gives_every_character() {
    assert_eq!(chars_of(""), Vec::<char>::new());
    assert_eq!(chars_of("a:b"), vec!['a', ':', 'b']);
    assert_eq!(chars_of("é\u{3000}z"), vec!['é', '\u{3000}', 'z']);
}

#[test]
fn find_char_stops_at_the_first_mark() {
    let chars: Vec<char> = "ab:cd:ef".chars().collect();
    assert_eq!(find_char(&chars, 0, chars.len(), ':'), 2);
    assert_eq!(find_char(&chars, 3, chars.len(), ':'), 5);
    assert_eq!(find_char(&chars, 2, chars.len(), ':'), 2);
}

#[test]
fn find_char_gives_the_end_where_the_mark_is_missing() {
    let chars: Vec<char> = "ab:cd".chars().collect();
    assert_eq!(find_char(&chars, 0, 2, ':'), 2);
    assert_eq!(find_char(&chars, 3, 5, ':'), 5);
    assert_eq!(find_char(&chars, 4, 4, ':'), 4);
    assert_eq!(find_char(&chars, 0, chars.len(), '\n'), 5);
}

#[test]
fn trim_range_drops_white_space_at_both_ends() {
    let chars: Vec<char> = "  \tsh \n".chars().collect();
    assert_eq!(trim_range(&chars, 0, chars.len()), (3, 5));
    assert_eq!(trim_range(&chars, 3, 5), (3, 5));
    assert_eq!(trim_range(&chars, 4, 6), (4, 5));
}

#[test]
fn trim_range_of_white_space_alone_is_empty() {
    let chars: Vec<char> = " \t \n".chars().collect();
    let (lo, hi) = trim_range(&chars, 0, chars.len());
    assert_eq!(lo, hi);
    let (lo, hi) = trim_range(&chars, 2, 2);
    assert_eq!((lo, hi), (2, 2));
}

#[test]
fn trim_range_agrees_with_std_trim() {
    let samples = [
        "",
        " ",
        "a",
        " a",
        "a ",
        "  a b  ",
        "\ta\tb\n",
        "\r\n",
        "\u{a0}x\u{2003}",
        "\u{85}\u{1680}y z\u{2028}\u{2029}",
        "x\u{200b}",
        " : ",
        "kworker/0:1H-events_highpri\n",
    ];
    for sample in samples.iter() {
        assert_eq!(trim_of(sample), sample.trim(), "sample {:?}", sample);
    }
}

#[test]
fn parse_i32_reads_plain_numbers() {
    assert_eq!(number_of("0"), Some(0));
    assert_eq!(number_of("1"), Some(1));
    assert_eq!(number_of("51"), Some(51));
    assert_eq!(number_of("4194304"), Some(4194304));
    assert_eq!(number_of("007"), Some(7));
}

#[test]
fn parse_i32_reads_signs() {
    assert_eq!(number_of("-1"), Some(-1));
    assert_eq!(number_of("+1"), Some(1));
    assert_eq!(number_of("-0"), Some(0));
    assert_eq!(number_of("+0"), Some(0));
    assert_eq!(number_of("-"), None);
    assert_eq!(number_of("+"), None);
    assert_eq!(number_of("+-1"), None);
    assert_eq!(number_of("--1"), None);
    assert_eq!(number_of("1-"), None);
}

#[test]
fn parse_i32_keeps_to_the_range_of_i32() {
    assert_eq!(number_of("2147483647"), Some(i32::MAX));
    assert_eq!(number_of("2147483648"), None);
    assert_eq!(number_of("-2147483648"), Some(i32::MIN));
    assert_eq!(number_of("-2147483649"), None);
    assert_eq!(number_of("+2147483647"), Some(i32::MAX));
    assert_eq!(number_of("99999999999999999999999999"), None);
    assert_eq!(number_of("-99999999999999999999999999"), None);
    assert_eq!(number_of("00000000000000000000000002147483647"), Some(i32::MAX));
    assert_eq!(number_of("-00000000000000000000000002147483648"), Some(i32::MIN));
}

#[test]
fn parse_i32_refuses_what_is_no_number() {
    assert_eq!(number_of(""), None);
    assert_eq!(number_of(" 1"), None);
    assert_eq!(number_of("1 "), None);
    assert_eq!(number_of("1a"), None);
    assert_eq!(number_of("a1"), None);
    assert_eq!(number_of("1.0"), None);
    assert_eq!(number_of("0x10"), None);
    assert_eq!(number_of("１２"), None);
    assert_eq!(number_of("99999999999999999999x"), None);
}

#[test]
fn parse_i32_agrees_with_std_parse() {
    let samples = [
        "", "0", "-0", "+0", "+", "-", "12", "-12", "+12", "1 2", "12\n", "2147483647",
        "2147483648", "-2147483648", "-2147483649", "4294967296", "000", "-000", "0-0", "٣", "1_000",
        "1e3", "+-0", "-+0", "123456789", "1234567890", "12345678901", "/", ":", "0:", "-2147483647",
    ];
    for sample in samples.iter() {
        assert_eq!(number_of(sample), sample.parse::<i32>().ok(), "sample {:?}", sample);
    }
}

#[test]
fn parse_i32_reads_a_part_of_the_text() {
    let chars: Vec<char> = "Pid:\t4711\n".chars().collect();
    assert_eq!(parse_i32(&chars, 5, 9), Some(4711));
    assert_eq!(parse_i32(&chars, 4, 9), None);
    assert_eq!(parse_i32(&chars, 5, 10), None);
    assert_eq!(parse_i32(&chars, 5, 5), None);
    assert_eq!(parse_i32(&chars, 8, 9), Some(1));
}

#[test]
fn what_is_written_reads_back() {
    let samples = [0, 1, -1, 9, 10, -10, 99, 100, 4711, -4711, 1_000_000, i32::MAX, i32::MIN, i32::MAX - 1, i32::MIN + 1];
    for n in samples.iter() {
        let mut text = String::new();
        append_decimal(&mut text, *n);
        assert_eq!(number_of(&text), Some(*n));
    }
}
