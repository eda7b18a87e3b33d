use pg_importer::text::{
    chars_of, contains_chars, decimal_string, find_chars, has_prefix, has_string, has_suffix,
    replace_chars, rfind_chars, same_chars, split_chars, split_text_lines, string_of, trim_chars,
    utf8_len_of,
};

fn cs(s: &str) -> Vec<char> {
    s.chars().collect()
}

fn st(v: &[char]) -> String {
    v.iter().collect()
}

#[test]
fn chars_and_strings_round_trip() {
    let v = chars_of("héllo €😀");
    assert_eq!(v, cs("héllo €😀"));
    assert_eq!(string_of(&v), "héllo €😀");
    assert_eq!(string_of(&[]), "");
}

#[test]
fn trim_removes_unicode_white_space() {
    assert_eq!(st(&trim_chars(&cs("  ab c \n"))), "ab c");
    assert_eq!(st(&trim_chars(&cs("\u{A0}\u{3000}x\u{2009}"))), "x");
    assert_eq!(st(&trim_chars(&cs(" \t\r\n"))), "");
    assert_eq!(st(&trim_chars(&cs("é"))), "é");
}

#[test]
fn prefixes_and_suffixes() {
    assert!(has_prefix(&cs("-- TOC entry"), &cs("-- TOC")));
    assert!(!has_prefix(&cs("-- TO"), &cs("-- TOC")));
    assert!(has_prefix(&cs("abc"), &cs("")));
    assert!(has_suffix(&cs("SELECT 1;"), &cs(";")));
    assert!(!has_suffix(&cs(";x"), &cs(";")));
    assert!(same_chars(&cs("abc"), &cs("abc")));
    assert!(!same_chars(&cs("abc"), &cs("abd")));
}

#[test]
fn find_and_rfind() {
    let s = cs("a);b);c");
    assert_eq!(find_chars(&s, &cs(");")), Some(1));
    assert_eq!(rfind_chars(&s, &cs(");")), Some(4));
    assert_eq!(find_chars(&s, &cs("zz")), None);
    assert_eq!(rfind_chars(&s, &cs("zz")), None);
    assert_eq!(find_chars(&s, &cs("")), Some(0));
    assert_eq!(rfind_chars(&s, &cs("")), Some(7));
    assert!(contains_chars(&s, &cs("b);")));
    assert!(!contains_chars(&cs(""), &cs("a")));
}

#[test]
fn replace_matches_std() {
    let cases = [
        ("aXbXc", "X", "YY"),
        ("aaa", "aa", "b"),
        ("abc", "", "x"),
        ("", "", "x"),
        ("CONSTRAINT a, CONSTRAINT b", "CONSTRAINT", "ADD CONSTRAINT"),
        ("héé", "é", "e"),
        ("abc", "zz", "q"),
    ];
    for (s, p, r) in cases.iter() {
        assert_eq!(st(&replace_chars(&cs(s), &cs(p), &cs(r))), s.replace(p, r));
    }
}

#[test]
fn replacing_a_text_by_itself_changes_nothing() {
    for (s, p) in [("abcabc", "bc"), ("aaaa", "aa"), ("xyz", ""), ("", "q")].iter() {
        assert_eq!(st(&replace_chars(&cs(s), &cs(p), &cs(p))), *s);
    }
}

#[test]
fn split_matches_std_and_joins_back() {
    for s in ["a;;b", "", ";", "abc", "x;y;"].iter() {
        let pieces: Vec<String> = split_chars(&cs(s), ';').iter().map(|p| st(p)).collect();
        let expected: Vec<String> = s.split(';').map(|p| p.to_string()).collect();
        assert_eq!(pieces, expected);
        assert_eq!(pieces.join(";"), *s);
    }
}

#[test]
fn lines_keep_their_newlines_and_concatenate_back() {
    let lines: Vec<String> = split_text_lines(&cs("a\nb")).iter().map(|l| st(l)).collect();
    assert_eq!(lines, vec!["a\n".to_string(), "b".to_string()]);
    let lines: Vec<String> = split_text_lines(&cs("a\n\n")).iter().map(|l| st(l)).collect();
    assert_eq!(lines, vec!["a\n".to_string(), "\n".to_string()]);
    assert!(split_text_lines(&cs("")).is_empty());
    let text = "x\r\n\n y \nz";
    let joined: String = split_text_lines(&cs(text)).iter().map(|l| st(l)).collect();
    assert_eq!(joined, text);
}

#[test]
fn utf8_lengths() {
    assert_eq!(utf8_len_of(&cs("a")), Some(1));
    assert_eq!(utf8_len_of(&cs("é")), Some(2));
    assert_eq!(utf8_len_of(&cs("€")), Some(3));
    assert_eq!(utf8_len_of(&cs("😀")), Some(4));
    assert_eq!(utf8_len_of(&cs("héllo €😀")), Some("héllo €😀".len()));
}

#[test]
fn decimal_notation() {
    assert_eq!(decimal_string(0), "0");
    assert_eq!(decimal_string(7), "7");
    assert_eq!(decimal_string(1234), "1234");
    assert_eq!(decimal_string(u64::MAX), u64::MAX.to_string());
}

#[test]
fn string_membership() {
    let v = vec!["public".to_string(), "geolite".to_string()];
    assert!(has_string(&v, &"geolite".to_string()));
    assert!(!has_string(&v, &"private".to_string()));
    assert!(!has_string(&Vec::new(), &"".to_string()));
}
