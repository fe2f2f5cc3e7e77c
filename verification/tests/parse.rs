use loot_filter::parse::{parse_filter_file, SectionType};

#[test]
fn parse_test_parse_basic_sections() {
    let content = r#"Show
    BaseType == "Mirror of Kalandra"
    SetFontSize 45

Hide
    BaseType == "Scroll of Wisdom"
    SetFontSize 18

Show
    Class "Currency"
    SetFontSize 40"#;

    let sections = parse_filter_file(content).unwrap();

    assert_eq!(sections.len(), 3);

    // First section
    assert_eq!(sections[0].index, 0);
    assert_eq!(sections[0].type_, SectionType::Show);
    assert_eq!(sections[0].position.start_line, 0);
    assert_eq!(sections[0].position.end_line, 2);

    // Second section
    assert_eq!(sections[1].index, 1);
    assert_eq!(sections[1].type_, SectionType::Hide);
    assert_eq!(sections[1].position.start_line, 4);
    assert_eq!(sections[1].position.end_line, 6);

    // Third section
    assert_eq!(sections[2].index, 2);
    assert_eq!(sections[2].type_, SectionType::Show);
    assert_eq!(sections[2].position.start_line, 8);
    assert_eq!(sections[2].position.end_line, 10);
}

#[test]
fn parse_test_parse_with_comments() {
    let content = r#"# Comment at start
Show # Comment after Show
    BaseType == "Mirror" # Comment after rule

# Comment between sections
Hide
    BaseType == "Wisdom""#;

    let sections = parse_filter_file(content).unwrap();

    assert_eq!(sections.len(), 2);
    assert_eq!(sections[0].type_, SectionType::Show);
    assert_eq!(sections[1].type_, SectionType::Hide);
    assert!(sections[0].text.contains("Mirror"));
    assert!(sections[1].text.contains("Wisdom"));
}

#[test]
fn test_parse_with_empty_lines() {
    let content = "\r\n\r\nShow\r\n    BaseType == \"Mirror\"\r\n\r\nHide\r\n    BaseType == \"Wisdom\"\r\n\r\n";

    let sections = parse_filter_file(content).unwrap();

    assert_eq!(sections.len(), 2);
    assert_eq!(sections[0].type_, SectionType::Show);
    assert_eq!(sections[1].type_, SectionType::Hide);
}

#[test]
fn blank_lines_before_next_header_left_out() {
    // A section closed by the next header ends at its last non-blank line;
    // the final section runs to the last line, blank or not.
    let content = "Show\n    BaseType \"Mirror\"\n\nHide\n    SetFontSize 18\n\n ";

    let sections = parse_filter_file(content).unwrap();

    assert_eq!(sections.len(), 2);
    assert_eq!(sections[0].position.start_line, 0);
    assert_eq!(sections[0].position.end_line, 1);
    assert_eq!(sections[0].text, "Show\n    BaseType \"Mirror\"");
    assert_eq!(sections[1].position.start_line, 3);
    assert_eq!(sections[1].position.end_line, 6);
    assert_eq!(sections[1].text, "Hide\n    SetFontSize 18\n\n ");
}

#[test]
fn parse_test_single_section() {
    let content = "Show\n    BaseType == \"Mirror\"";

    let sections = parse_filter_file(content).unwrap();

    assert_eq!(sections.len(), 1);
    assert_eq!(sections[0].type_, SectionType::Show);
    assert_eq!(sections[0].index, 0);
    assert_eq!(sections[0].position.start_line, 0);
    assert_eq!(sections[0].position.end_line, 1);
}
