use loot_filter::blocks::parse_block_with_lines;
use loot_filter::blocks_with_lines::{BlockName, BlockWithLines};

#[test]
fn test_parse_blocks_success() {
    let blocks_with_lines = vec![
        BlockWithLines {
            order: 1,
            name: BlockName::Show,
            lines: vec![
                "BaseType == \"Mirror of Kalandra\"".to_string(),
                "SetFontSize 45".to_string(),
            ],
        },
        BlockWithLines {
            order: 2,
            name: BlockName::Hide,
            lines: vec![
                "Class \"Currency\"".to_string(),
                "SetFontSize 40".to_string(),
            ],
        },
    ];

    let result = parse_block_with_lines(&blocks_with_lines);
    assert!(result.is_ok());

    let blocks = result.unwrap();

    assert_eq!(blocks.len(), 2);

    // First block
    assert_eq!(blocks[0].order, 1);
    assert_eq!(blocks[0].name, BlockName::Show);
    assert_eq!(blocks[0].items.len(), 2);

    // Second block
    assert_eq!(blocks[1].order, 2);
    assert_eq!(blocks[1].name, BlockName::Hide);
    assert_eq!(blocks[1].items.len(), 2);
}
