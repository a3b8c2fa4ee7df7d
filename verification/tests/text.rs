use iris::text::{chars_of, copy_range, digit, find_words, is_space_char, parse_mac, parse_number, spells, split_lines};
use std::io::BufRead;

fn chars(s: &str) -> Vec<char> {
    s.chars().collect()
}

#[test]
fn white_space_is_what_unicode_says() {
    for n in 0..=0x10FFFFu32 {
        if let Some(c) = char::from_u32(n) {
            assert_eq!(is_space_char(c), c.is_whitespace(), "U+{:04X}", n);
        }
    }
}

#[test]
fn characters_of_a_text() {
    assert_eq!(chars_of(""), Vec::<char>::new());
    assert_eq!(chars_of("aé\u{3000}z"), vec!['a', 'é', '\u{3000}', 'z']);
}

#[test]
fn words_are_runs_without_white_space() {
    assert_eq!(find_words(&chars("")), vec![]);
    assert_eq!(find_words(&chars(" \t ")), vec![]);
    assert_eq!(find_words(&chars("fire")), vec![(0, 4)]);
    assert_eq!(find_words(&chars("  fire a\t\tbc ")), vec![(2, 6), (7, 8), (10, 12)]);
    for line in ["a b  c", " x", "x ", "één twee\u{a0}drie", "\u{2003}wide\u{2003}"] {
        let cs = chars(line);
        let got: Vec<String> =
            find_words(&cs).iter().map(|&(a, b)| cs[a..b].iter().collect()).collect();
        let want: Vec<String> = line.split_whitespace().map(|w| w.to_string()).collect();
        assert_eq!(got, want, "{:?}", line);
    }
}

#[test]
fn spelling() {
    let cs = chars("say fire");
    assert!(spells(&cs, 0, 3, "say"));
    assert!(spells(&cs, 4, 8, "fire"));
    assert!(!spells(&cs, 0, 3, "sax"));
    assert!(!spells(&cs, 0, 4, "say"));
    assert!(!spells(&cs, 0, 2, "say"));
    assert!(spells(&cs, 3, 3, ""));
    assert_eq!(copy_range(&cs, 4, 8), chars("fire"));
}

#[test]
fn digits() {
    assert_eq!(digit('0', 10), Some(0));
    assert_eq!(digit('9', 10), Some(9));
    assert_eq!(digit('a', 10), None);
    assert_eq!(digit('a', 16), Some(10));
    assert_eq!(digit('F', 16), Some(15));
    assert_eq!(digit('g', 16), None);
    assert_eq!(digit('/', 16), None);
    assert_eq!(digit(':', 16), None);
    for n in 0..0x3000u32 {
        if let Some(c) = char::from_u32(n) {
            assert_eq!(digit(c, 10), c.to_digit(10), "U+{:04X}", n);
            assert_eq!(digit(c, 16), c.to_digit(16), "U+{:04X}", n);
        }
    }
}

#[test]
fn numbers_read_as_the_standard_library_reads_them() {
    let samples = [
        "", "+", "-", "0", "+0", "-0", "7", "007", "+7", "++7", "7+", " 7", "7 ", "1_000", "255",
        "256", "0255", "18446744073709551615", "18446744073709551616", "+18446744073709551615",
        "99999999999999999999999999", "1e3", "１２", "ff", "FF", "+ff", "fg", "100", "0ff", "0x1f",
        "00000000000000000000000000000000000001",
    ];
    for s in samples {
        let cs = chars(s);
        assert_eq!(parse_number(&cs, 0, cs.len(), 10, u64::MAX), s.parse::<u64>().ok(), "{:?}", s);
        assert_eq!(
            parse_number(&cs, 0, cs.len(), 10, 255),
            s.parse::<u8>().ok().map(|v| v as u64),
            "{:?}",
            s
        );
        assert_eq!(
            parse_number(&cs, 0, cs.len(), 16, 255),
            u8::from_str_radix(s, 16).ok().map(|v| v as u64),
            "{:?}",
            s
        );
    }
    let cs = chars("xx12yy");
    assert_eq!(parse_number(&cs, 2, 4, 10, 100), Some(12));
    assert_eq!(parse_number(&cs, 2, 4, 10, 11), None);
    assert_eq!(parse_number(&cs, 2, 2, 10, 100), None);
}

#[test]
fn hardware_addresses() {
    assert_eq!(parse_mac(&chars("00:01:02:03:04:05")), Some([0, 1, 2, 3, 4, 5]));
    assert_eq!(parse_mac(&chars("aa:bb:cc:dd:ee:ff")), Some([170, 187, 204, 221, 238, 255]));
    assert_eq!(parse_mac(&chars("a:B:c:D:e:F")), Some([10, 11, 12, 13, 14, 15]));
    for bad in [
        "", ":", ":::::", "00:01:02:03:04", "00:01:02:03:04:05:06", "00:01:02:03:04:ZZ",
        "00:01:02:03:04:05:", "hello", "000102030405", "00:01:02:03:04:1ff", "00:01::03:04:05",
    ] {
        assert_eq!(parse_mac(&chars(bad)), None, "{:?}", bad);
    }
}

#[test]
fn lines_are_split_as_a_buffered_reader_splits_them() {
    for text in [
        "", "\n", "\n\n", "a", "a\n", "a\nb", "a\n\nb\n", "a\r\nb\r\n", "a\rb\n", "a\r", "\r\n",
        "\r", "a\r\r\nb", "é\n\u{3000}\n", "say x\n\n\n",
    ] {
        let want: Vec<String> = text.as_bytes().lines().map(|l| l.unwrap()).collect();
        assert_eq!(split_lines(text), want, "{:?}", text);
    }
}
