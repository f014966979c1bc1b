use download_parallel::text::{
    after_last_exec, chars_of, contains_ci, contains_str, lines_of, parse_usize, push_decimal,
    split_once, starts_with_ci_exec, str_eq, trim_str,
};

#[test]
fn split_once_first_occurrence() {
    assert_eq!(split_once("a=b=c", "="), Some(("a", "b=c")));
    assert_eq!(split_once("abc", "x"), None);
    assert_eq!(split_once("abc", ""), Some(("", "abc")));
    assert_eq!(split_once("héllo wörld", "ö"), Some(("héllo w", "rld")));
}

#[test]
fn contains_checks() {
    assert!(contains_str("Content-Length: 5", "Length"));
    assert!(!contains_str("Content-Length: 5", "length"));
    assert!(contains_ci("Content-Length: 5", "content-length"));
    assert!(contains_ci("HTTPS://X", "https"));
    assert!(!contains_ci("htp://x", "http"));
}

#[test]
fn starts_with_ignoring_case() {
    assert!(starts_with_ci_exec("HOMEPATH", "home"));
    assert!(starts_with_ci_exec("Location: x", "location:"));
    assert!(!starts_with_ci_exec("XHOME", "home"));
    assert!(!starts_with_ci_exec("hom", "home"));
}

#[test]
fn lines_like_std() {
    for s in ["a\r\nb\n\nc", "a\r\nb\r\n", "x\r", "", "\n", "one", "a\r\r\nb"] {
        let ours: Vec<&str> = lines_of(s);
        let std_lines: Vec<&str> = s.lines().collect();
        assert_eq!(ours, std_lines, "for {:?}", s);
    }
}

#[test]
fn trim_like_std() {
    for s in ["  a b  ", "\u{a0}x\u{3000}", "", "   ", "\t\n y \r\n"] {
        assert_eq!(trim_str(s), s.trim());
    }
}

#[test]
fn after_last_separator() {
    assert_eq!(after_last_exec("Content-Length: 42", ':'), " 42");
    assert_eq!(after_last_exec("a:b:c", ':'), "c");
    assert_eq!(after_last_exec("none", ':'), "none");
    assert_eq!(after_last_exec("end:", ':'), "");
}

#[test]
fn parse_like_std() {
    for s in ["0", "42", "+7", "+", "", "-5", "12a", " 3", "18446744073709551615", "18446744073709551616", "007"] {
        assert_eq!(parse_usize(s), s.parse::<usize>().ok(), "for {:?}", s);
    }
}

#[test]
fn decimal_notation() {
    let mut s = String::from("n=");
    push_decimal(&mut s, 0);
    assert_eq!(s, "n=0");
    let mut t = String::new();
    push_decimal(&mut t, 1234567);
    assert_eq!(t, "1234567");
}

#[test]
fn chars_and_equality() {
    assert_eq!(chars_of("añb"), vec!['a', 'ñ', 'b']);
    assert!(str_eq("Super", "Super"));
    assert!(!str_eq("Super", "Supe"));
}
