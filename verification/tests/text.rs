use c_flowchart::text::{
    class_has, decimal_string, has_char, same_text, slice, trim, trim_end, trim_start, CharClass,
};

#[test]
fn white_space_is_that_of_char() {
    let mut c: u32 = 0;
    while c <= 0x10ffff {
        if let Some(ch) = char::from_u32(c) {
            assert_eq!(
                class_has(CharClass::WhiteSpace, ch),
                ch.is_whitespace(),
                "U+{:04X}",
                c
            );
        }
        c += 1;
    }
}

#[test]
fn bracketing_is_parentheses_and_the_space() {
    for c in ['(', ')', ' '] {
        assert!(class_has(CharClass::Bracketing, c));
    }
    for c in ['\t', '\n', '[', ';', 'a'] {
        assert!(!class_has(CharClass::Bracketing, c));
    }
    assert!(class_has(CharClass::Semicolon, ';'));
    assert!(!class_has(CharClass::Semicolon, ' '));
}

#[test]
fn trimming_agrees_with_str() {
    let texts = [
        "", " ", "()", "((a + b))", " (a) ", "a", "(a", "a)", "((", "\t(a)\n", "f(x)",
        "int i = 0;", ";;", "a;;", " a ; ", "\u{3000}\u{e9}\u{a0}", "\u{200b}x\u{2003}",
    ];
    for t in texts {
        let bracketing = |c| c == '(' || c == ')' || c == ' ';
        assert_eq!(trim(t, CharClass::Bracketing), t.trim_matches(bracketing));
        assert_eq!(trim_end(t, CharClass::Semicolon), t.trim_end_matches(';'));
        assert_eq!(trim_start(t, CharClass::Semicolon), t.trim_start_matches(';'));
        assert_eq!(trim(t, CharClass::WhiteSpace), t.trim());
    }
}

#[test]
fn trimming_twice_is_trimming_once() {
    for t in [" ((a) (b)) ", "((", "x"] {
        let once = trim(t, CharClass::Bracketing);
        assert_eq!(trim(once, CharClass::Bracketing), once);
    }
    assert_eq!(trim(" ((a) (b)) ", CharClass::Bracketing), "a) (b");
}

#[test]
fn slices_lie_between_characters() {
    let s = "a\u{e9}z";
    assert_eq!(slice(s, 0, 4), Some("a\u{e9}z"));
    assert_eq!(slice(s, 1, 3), Some("\u{e9}"));
    assert_eq!(slice(s, 3, 3), Some(""));
    assert_eq!(slice(s, 4, 4), Some(""));
    assert_eq!(slice(s, 2, 3), None);
    assert_eq!(slice(s, 1, 2), None);
    assert_eq!(slice(s, 3, 1), None);
    assert_eq!(slice(s, 0, 5), None);
}

#[test]
fn slices_agree_with_str() {
    let s = "x \u{20ac}\u{1f600}\u{7f}y";
    for a in 0..s.len() + 2 {
        for b in 0..s.len() + 2 {
            assert_eq!(slice(s, a, b), s.get(a..b));
        }
    }
}

#[test]
fn a_part_is_the_slice_at_its_offsets() {
    let (before, part, behind) = ("\u{e9}=", "\u{20ac}1", ";\u{1f600}");
    let whole = format!("{}{}{}", before, part, behind);
    let start = before.len();
    assert_eq!(slice(&whole, start, start + part.len()), Some(part));
}

#[test]
fn texts_are_compared_by_their_characters() {
    assert!(same_text("", ""));
    assert!(same_text("if_statement", "if_statement"));
    assert!(!same_text("if_statement", "do_statement"));
    assert!(!same_text("if", "if_statement"));
    assert!(!same_text("e\u{301}", "\u{e9}"));
}

#[test]
fn characters_are_found() {
    assert!(has_char("int x = 1;", '='));
    assert!(!has_char("int x;", '='));
    assert!(!has_char("", '='));
    assert!(has_char("a\u{e9}", '\u{e9}'));
}

#[test]
fn numerals_are_decimal() {
    for n in [0, 1, 9, 10, 42, 99, 100, 1234567890, u64::MAX] {
        assert_eq!(decimal_string(n), format!("{}", n));
    }
    let mut n: u64 = 0;
    while n < 2000 {
        assert_eq!(decimal_string(n), format!("{}", n));
        n += 1;
    }
}
