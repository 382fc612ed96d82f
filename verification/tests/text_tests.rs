use ftpdown::text::{find_exec, parse_u16_exec, rfind_char_exec, split_exec, trim_exec};

fn chars(s: &str) -> Vec<char> {
    s.chars().collect()
}

#[test]
fn trim_removes_unicode_white_space() {
    assert_eq!(trim_exec(&chars("\u{3000}\t a b \u{a0}\n")), chars("a b"));
    assert_eq!(trim_exec(&chars("   ")), chars(""));
    assert_eq!(trim_exec(&chars("x")), chars("x"));
}

#[test]
fn parse_u16_follows_str_parse() {
    for s in ["0", "21", "+21", "0065535", "65535", "65536", "", "+", "-1", " 1", "1a", "99999999999"] {
        assert_eq!(parse_u16_exec(&chars(s)), s.parse::<u16>().ok(), "{:?}", s);
    }
}

#[test]
fn split_follows_str_split() {
    for s in ["", ",", "a,b", "a,,b,", "abc"] {
        let expected: Vec<Vec<char>> = s.split(',').map(chars).collect();
        assert_eq!(split_exec(&chars(s), ','), expected, "{:?}", s);
    }
}

#[test]
fn find_gives_first_and_rfind_last() {
    assert_eq!(find_exec(&chars("abcabc"), &chars("bc")), Some(1));
    assert_eq!(find_exec(&chars("abc"), &chars("x")), None);
    assert_eq!(find_exec(&chars("abc"), &chars("")), Some(0));
    assert_eq!(rfind_char_exec(&chars("a;b;c"), ';'), Some(3));
    assert_eq!(rfind_char_exec(&chars("abc"), ';'), None);
}
