use loot_filter::sections::parse_sections;

#[test]
fn sections_test_parse_basic_sections() {
    let content = r#"Show
    BaseType == "Mirror of Kalandra"
    SetFontSize 45

 Hide
BaseType == "Scroll of Wisdom"
      SetFontSize 18
Show
    Class "Currency"
    SetFontSize 40"#;

    let sections = parse_sections(content).unwrap();

    assert_eq!(sections.len(), 3);

    // First section
    assert!(sections[0].is_show);
    assert_eq!(sections[0].position.start_line, 0);
    assert_eq!(sections[0].position.end_line, 3);

    let expected_text = r#"Show
    BaseType == "Mirror of Kalandra"
    SetFontSize 45
"#;

    assert_eq!(sections[0].text, expected_text);

    // Second section
    assert!(!sections[1].is_show);
    assert_eq!(sections[1].position.start_line, 4);
    assert_eq!(sections[1].position.end_line, 6);

    let expected_text = r#" Hide
BaseType == "Scroll of Wisdom"
      SetFontSize 18"#;

    assert_eq!(sections[1].text, expected_text);

    // Third section
    assert!(sections[2].is_show);
    assert_eq!(sections[2].position.start_line, 7);
    assert_eq!(sections[2].position.end_line, 9);

    let expected_text = r#"Show
    Class "Currency"
    SetFontSize 40"#;

    assert_eq!(sections[2].text, expected_text);
}

#[test]
fn sections_test_parse_with_comments() {
    let content = r#"# Comment at start
Show # Comment after Show
    BaseType == "Mirror" # Comment after rule

# Comment between sections
Hide
    BaseType == "Wisdom""#;

    let sections = parse_sections(content).unwrap();

    assert_eq!(sections.len(), 2);

    // First section
    assert!(sections[0].is_show);
    assert_eq!(sections[0].position.start_line, 1);
    assert_eq!(sections[0].position.end_line, 4);

    let expected_text = r#"Show # Comment after Show
    BaseType == "Mirror" # Comment after rule

# Comment between sections"#;

    assert_eq!(sections[0].text, expected_text);

    // Second section
    assert!(!sections[1].is_show);
    assert_eq!(sections[1].position.start_line, 5);
    assert_eq!(sections[1].position.end_line, 6);

    let expected_text = r#"Hide
    BaseType == "Wisdom""#;

    assert_eq!(sections[1].text, expected_text);
}

#[test]
fn sections_test_single_section() {
    let content = r#"Show
    BaseType == "Mirror""#;

    let sections = parse_sections(content).unwrap();

    assert_eq!(sections.len(), 1);
    assert!(sections[0].is_show);
    assert_eq!(sections[0].position.start_line, 0);
    assert_eq!(sections[0].position.end_line, 1);

    let expected_text = r#"Show
    BaseType == "Mirror""#;

    assert_eq!(sections[0].text, expected_text);
}

#[test]
fn test_tabs() {
    let content = "\n\t\t Hide\n\t\tBaseType == \"Mirror\"";

    let sections = parse_sections(content).unwrap();

    assert_eq!(sections.len(), 1);
    assert!(!sections[0].is_show);
    assert_eq!(sections[0].position.start_line, 1);
    assert_eq!(sections[0].position.end_line, 2);

    let expected_text = "\t\t Hide\n\t\tBaseType == \"Mirror\"";
    assert_eq!(sections[0].text, expected_text);
}

#[test]
fn blank_lines_before_next_header_kept() {
    // Unlike the indexed splitter, this one keeps blank lines at the end of
    // a section closed by the next header.
    let content = "Show\n    BaseType \"Mirror\"\n\nHide\n    SetFontSize 18";

    let sections = parse_sections(content).unwrap();

    assert_eq!(sections.len(), 2);
    assert_eq!(sections[0].position.start_line, 0);
    assert_eq!(sections[0].position.end_line, 2);
    assert_eq!(sections[0].text, "Show\n    BaseType \"Mirror\"\n");
    assert_eq!(sections[1].position.start_line, 3);
    assert_eq!(sections[1].position.end_line, 4);
}

#[test]
fn test_no_sections() {
    let content = r#"
    nothing to see here
    "#;

    let sections = parse_sections(content).unwrap();

    assert_eq!(sections.len(), 0);
}
