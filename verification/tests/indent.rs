use tetris::utils::{
    is_blank, indent_width, get_add_function, get_cut_function, reindent, replace_indent, Trim,
};

#[test]
fn test_is_blank() {
    assert!(is_blank(""));
    assert!(is_blank("   \t \r\n"));
    assert!(!is_blank("  x "));
}

#[test]
fn test_indent_width() {
    assert_eq!(indent_width(""), 0);
    assert_eq!(indent_width("abc"), 0);
    assert_eq!(indent_width("   abc"), 3);
    assert_eq!(indent_width("\t\t x"), 3);
    assert_eq!(indent_width("    "), 4);
}

#[test]
fn test_get_add_function() {
    assert_eq!(get_add_function("", "line"), "line");
    assert_eq!(get_add_function("--", "line"), "--line");
}

#[test]
fn test_get_cut_function() {
    assert_eq!(get_cut_function(2, "    x"), "  x");
    assert_eq!(get_cut_function(0, "abc"), "abc");
    // a cut never consumes the whole line: the last character stays
    assert_eq!(get_cut_function(10, "abc"), "c");
    assert_eq!(get_cut_function(3, ""), "");
}

#[test]
fn test_reindent() {
    let xs: Vec<String> = vec!["  a".to_string(), "   b".to_string(), "  c".to_string()];
    assert_eq!(reindent(&xs, "", 2), "a\n b\nc");
    assert_eq!(reindent(&xs, "> ", 3), "> a\n> b\n> c");
}

#[test]
fn test_reindent_drops_blank_edges() {
    let xs: Vec<String> = vec!["".to_string(), "  a".to_string(), "   ".to_string()];
    assert_eq!(reindent(&xs, "", 2), "a");
}

#[test]
fn test_replace_indent() {
    assert_eq!(replace_indent("  a\n   b", ""), "a\n b");
    assert_eq!(replace_indent("  a\r\n  b", ""), "a\nb");
    assert_eq!(replace_indent("  a\n  b", "__"), "__a\n__b");
}

#[test]
fn test_trim_indent_template() {
    let template = "
        . a . .
        * b * .
    ";
    assert_eq!(template.trim_indent(), ". a . .\n* b * .");
    assert_eq!("  x\n  y".replace_indent("+"), "+x\n+y");
}
