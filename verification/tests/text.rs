use hallway::text::{
    chars_eq, chars_of, contains_chars, decimal_exec, find_char, lines_exec, replace_exec,
    split_char_exec, split_once_chars, starts_with_chars, string_of, trim_chars,
    trim_end_char_exec,
};

fn c(s: &str) -> Vec<char> {
    s.chars().collect()
}

fn strings(v: Vec<Vec<char>>) -> Vec<String> {
    v.into_iter().map(|x| x.into_iter().collect()).collect()
}

#[test]
fn trim_matches_std() {
    for s in ["  a b \t", "\u{3000}x\u{A0}", "", "   ", "\r\nline\n", "\u{2009}y\u{85}"] {
        let t: String = trim_chars(&c(s)).into_iter().collect();
        assert_eq!(t, s.trim());
    }
}

#[test]
fn lines_match_std() {
    for s in ["a\nb", "a\r\nb\r\n", "\n\n", "", "x\r", "one\n\ntwo\n", "\r\n"] {
        let got = strings(lines_exec(&c(s)));
        let want: Vec<String> = s.lines().map(|l| l.to_string()).collect();
        assert_eq!(got, want, "input {s:?}");
    }
}

#[test]
fn split_matches_std() {
    for s in ["a,b,,c", "", ",", "abc", "a,"] {
        let got = strings(split_char_exec(&c(s), ','));
        let want: Vec<String> = s.split(',').map(|l| l.to_string()).collect();
        assert_eq!(got, want);
    }
}

#[test]
fn replace_matches_std() {
    for s in ["a    b", "        ", "     x", "a   b", "    a    b    "] {
        let got: String = replace_exec(&c(s), &c("    "), &c("\t")).into_iter().collect();
        assert_eq!(got, s.replace("    ", "\t"));
    }
}

#[test]
fn search_helpers() {
    assert!(contains_chars(&c("Y24-25 Semester 2"), &c("Semester 2")));
    assert!(!contains_chars(&c("Semester"), &c("Semester 2")));
    assert!(contains_chars(&c("abc"), &c("")));
    assert!(starts_with_chars(&c("RC note"), &c("RC")));
    assert!(!starts_with_chars(&c(" RC"), &c("RC")));
    assert_eq!(find_char(&c("ab(c(d"), '('), Some(2));
    assert_eq!(find_char(&c("abc"), '('), None);
    let (a, b) = split_once_chars(&c("3-4(A,C)"), '(').unwrap();
    assert_eq!(a, c("3-4"));
    assert_eq!(b, c("A,C)"));
    assert_eq!(trim_end_char_exec(&c("A,C)))"), ')'), c("A,C"));
    assert!(chars_eq(&chars_of("S1"), &c("S1")));
    assert_eq!(string_of(&c("héllo")), "héllo");
}

#[test]
fn decimals() {
    for n in [0usize, 7, 10, 42, 1234567] {
        let got: String = decimal_exec(n).into_iter().collect();
        assert_eq!(got, n.to_string());
    }
}
