use prettifier::{close, comma, is_well_leveled, open, prettify};

/// The structural characters of a text, in order.
fn structural_only(s: &str) -> String {
    s.chars().filter(|c| ['(', ')', '[', ']', '{', '}', ','].contains(c)).collect()
}

/// A text with every space and line break removed.
fn without_blanks(s: &str) -> String {
    s.chars().filter(|c| *c != ' ' && *c != '\n').collect()
}

/// Whether `a` can be read off `b` left to right without reordering.
fn is_subsequence(a: &str, b: &str) -> bool {
    let mut rest = b.chars();
    'outer: for want in a.chars() {
        for got in rest.by_ref() {
            if got == want {
                continue 'outer;
            }
        }
        return false;
    }
    true
}

#[test]
fn example_flat_call() {
    assert_eq!(prettify(String::from("a(b,c)")), "a(\n    b,\n    c\n)");
}

#[test]
fn example_nested_call() {
    assert_eq!(
        prettify(String::from("(a,(b,c))")),
        "(\n    a,\n    (\n        b,\n        c\n    )\n)"
    );
}

#[test]
fn example_no_structural_characters() {
    assert_eq!(prettify(String::from("hello world")), "hello world");
}

#[test]
fn empty_input_stays_empty() {
    assert_eq!(prettify(String::new()), "");
}

#[test]
fn blanks_alone_pass_through() {
    assert_eq!(prettify(String::from("  \n \n")), "  \n \n");
}

#[test]
fn all_bracket_kinds() {
    assert_eq!(
        prettify(String::from("{[x],y}")),
        "{\n    [\n        x\n    ],\n    y\n}"
    );
}

#[test]
fn mixed_bracket_kinds_close_the_innermost_group() {
    // a closer is not matched against its opener's kind
    assert_eq!(prettify(String::from("(x]")), "(\n    x\n]");
}

#[test]
fn open_emits_bracket_break_and_deeper_indent() {
    let mut level: usize = 0;
    let mut out = String::new();
    open(&mut level, &mut out, '(');
    assert_eq!(level, 1);
    assert_eq!(out, "(\n    ");
}

#[test]
fn open_appends_after_existing_text() {
    let mut level: usize = 1;
    let mut out = String::from("f");
    open(&mut level, &mut out, '[');
    assert_eq!(level, 2);
    assert_eq!(out, "f[\n        ");
}

#[test]
fn close_emits_break_shallower_indent_and_bracket() {
    let mut level: usize = 2;
    let mut out = String::new();
    close(&mut level, &mut out, ')');
    assert_eq!(level, 1);
    assert_eq!(out, "\n    )");
}

#[test]
fn close_at_level_one_reaches_the_margin() {
    let mut level: usize = 1;
    let mut out = String::new();
    close(&mut level, &mut out, '}');
    assert_eq!(level, 0);
    assert_eq!(out, "\n}");
}

#[test]
fn comma_breaks_at_the_current_level() {
    let level: usize = 2;
    let mut out = String::new();
    comma(&level, &mut out);
    assert_eq!(out, ",\n        ");
}

#[test]
fn well_leveled_accepts_balanced_and_flat_text() {
    assert!(is_well_leveled("a(b,c)"));
    assert!(is_well_leveled(""));
    assert!(is_well_leveled("hello world"));
    assert!(is_well_leveled("(x]"));
    // more openers than closers is still fine: the level never dips below zero
    assert!(is_well_leveled("((("));
}

#[test]
fn well_leveled_rejects_stray_closers() {
    assert!(!is_well_leveled(")"));
    assert!(!is_well_leveled("a)b("));
    assert!(!is_well_leveled("())("));
}

#[test]
fn no_character_is_lost_or_reordered() {
    let input = "fn main() { foo(1, bar[2], \"x,y\") }";
    assert!(is_well_leveled(input));
    let out = prettify(String::from(input));
    assert!(is_subsequence(input, &out));
    assert_eq!(without_blanks(&out), without_blanks(input));
}

#[test]
fn output_feeds_back_with_the_same_structure() {
    let input = "a(b,c(d,[e]))";
    let once = prettify(String::from(input));
    // the output is well-leveled again, so a second pass is allowed,
    // and it is governed by the same structural characters
    assert!(is_well_leveled(&once));
    let twice = prettify(once.clone());
    assert_eq!(structural_only(&once), structural_only(input));
    assert_eq!(structural_only(&twice), structural_only(input));
    assert_eq!(without_blanks(&twice), without_blanks(input));
}
