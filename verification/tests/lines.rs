use loot_filter::lines::content_to_lines;

#[test]
fn test_basic_parsing() {
    let content = r#"Show
BaseType "Mirror of Kalandra" # Very rare
SetFontSize 45 # Big size
# Hiding
Hide # Not interesting
BaseType "Scroll of Wisdom""#;

    let lines = content_to_lines(content);

    assert_eq!(
        lines,
        vec![
            "Show",
            "BaseType \"Mirror of Kalandra\"",
            "SetFontSize 45",
            "Hide",
            "BaseType \"Scroll of Wisdom\""
        ]
    );
}

#[test]
fn lines_test_empty_content() {
    let content = "";
    let lines = content_to_lines(content);
    assert!(lines.is_empty());
}

#[test]
fn test_tabs_and_spaces() {
    let content = "\t  Show  \t\n\t\tBaseType \"Mirror\"  \t";
    let lines = content_to_lines(content);
    assert_eq!(lines, vec!["Show", "BaseType \"Mirror\""]);
}

#[test]
fn test_empty_lines() {
    let content = "\r\n\r\n        Show\r\n\r\n  BaseType \"Mirror\"\r\n\r\n";

    let lines = content_to_lines(content);
    assert_eq!(lines, vec!["Show", "BaseType \"Mirror\""]);
}
