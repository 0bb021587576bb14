use aurashell::environment::Environment;
use aurashell::number::{parse_i32, push_count, push_decimal};
use aurashell::text::{
    chars_of, find_char, first_word_of, has_prefix, is_blank, join_strings, lines_of, same,
    string_of, trimmed, trimmed_end, without_nul, Edge,
};

fn cs(s: &str) -> Vec<char> {
    chars_of(s)
}

#[test]
fn characters_and_strings() {
    assert_eq!(string_of(&cs("aé❯")), "aé❯");
    assert_eq!(cs("é❯").len(), 2);
    assert!(same("a", "a") && !same("a", "b"));
    assert!(is_blank("") && !is_blank(" "));
    assert!(without_nul("ab") && !without_nul("a\0b"));
    assert_eq!(find_char(&cs("a=b=c"), '='), 1);
    assert_eq!(find_char(&cs("abc"), '='), 3);
    assert!(has_prefix(&cs("export x"), &cs("export ")) && !has_prefix(&cs("exp"), &cs("export")));
}

#[test]
fn trimming() {
    for s in ["", " ", " a ", "\u{3000}a b\u{85}\r\n", "\u{200b}a", "\u{1c}a"] {
        assert_eq!(string_of(trimmed(&cs(s), Edge::White)), s.trim());
    }
    assert_eq!(string_of(trimmed(&cs("\"\"a\" b\""), Edge::Only('"'))), "a\" b");
    assert_eq!(string_of(trimmed_end(&cs("\na\n\n"), '\n')), "\na");
}

#[test]
fn lines_and_words() {
    for s in ["", "\n", "a", "a\n", "a\r\nb", "a\r", "\r\n\n x \r\r\ny", "a\n\n"] {
        let got: Vec<String> = lines_of(&cs(s)).iter().map(|l| string_of(l)).collect();
        let want: Vec<&str> = s.lines().collect();
        assert_eq!(got, want, "{:?}", s);
    }
    for s in ["", "  ", " a b", "a", "\ta\u{a0}b"] {
        assert_eq!(first_word_of(&cs(s)).map(string_of).as_deref(), s.split_whitespace().next());
    }
    assert_eq!(join_strings(&["a".to_string(), "".to_string(), "b".to_string()], ", "), "a, , b");
    assert_eq!(join_strings(&[], ", "), "");
}

#[test]
fn numbers() {
    for v in [0i64, 7, -1, 10, 4096, i64::MAX, i64::MIN] {
        let mut s = "x".to_string();
        push_decimal(&mut s, v);
        assert_eq!(s, format!("x{}", v));
    }
    let mut s = String::new();
    push_count(&mut s, usize::MAX);
    assert_eq!(s, usize::MAX.to_string());
    for t in ["0", "-0", "+5", "007", "2147483647", "-2147483648", "2147483648", "-2147483649", "",
        "-", "+", " 1", "1 ", "1a", "--1", "٣", "99999999999999999999"]
    {
        assert_eq!(parse_i32(&cs(t)), t.parse::<i32>().ok(), "{:?}", t);
    }
}

#[test]
fn environments_keep_their_order() {
    let mut e = Environment::new();
    assert_eq!(e.count(), 0);
    e.set("A", "1");
    e.set("B", "2");
    e.set("A", "3");
    assert_eq!(e.get("A"), Some("3"));
    assert_eq!((e.name_at(0), e.value_at(0)), ("A", "3"));
    assert_eq!((e.name_at(1), e.value_at(1)), ("B", "2"));
    e.remove("A");
    e.remove("X");
    assert_eq!(e.get("A"), None);
    assert_eq!(e.count(), 1);
}
