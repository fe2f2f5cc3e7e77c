use loot_filter::block_item::{parse_block_item, tokenize_line};
use loot_filter::errors::ParseError;

#[test]
fn test_tokenize_line_without_quotes() {
    let line = "Rarity Normal Magic Rare";
    let tokens = tokenize_line(line);
    assert_eq!(tokens, vec!["Rarity", "Normal", "Magic", "Rare"]);
}

#[test]
fn test_tokenize_line_with_quotes() {
    let line = "BaseType == \"Time-Lost Emerald\" \"Time-Lost Ruby\" \"Time-Lost Sapphire\"";
    let tokens = tokenize_line(line);

    assert_eq!(
        tokens,
        vec![
            "BaseType",
            "==",
            "Time-Lost Emerald",
            "Time-Lost Ruby",
            "Time-Lost Sapphire"
        ]
    );
}

#[test]
fn test_parse_block_line_rarity() {
    let line = "Rarity Normal Magic Rare";
    let block_item = parse_block_item(line).unwrap();

    assert_eq!(block_item.name, "Rarity");
    assert_eq!(block_item.params, vec!["Normal", "Magic", "Rare"]);
}

#[test]
fn test_parse_block_line_basetype() {
    let line = "BaseType == \"Time-Lost Emerald\" \"Time-Lost Ruby\" \"Time-Lost Sapphire\"";
    let block_item = parse_block_item(line).unwrap();

    assert_eq!(block_item.name, "BaseType");
    assert_eq!(
        block_item.params,
        vec![
            "==",
            "Time-Lost Emerald",
            "Time-Lost Ruby",
            "Time-Lost Sapphire"
        ]
    );
}

#[test]
fn test_parse_block_line_unknown() {
    let line = "UnknownName param1 param2";
    let block_item = parse_block_item(line).unwrap();

    assert_eq!(block_item.name, "UnknownName");
    assert_eq!(block_item.params, vec!["param1", "param2"]);
}

#[test]
fn test_parse_block_line_empty() {
    let line = "";
    let result = parse_block_item(line);
    assert_eq!(result, Err(ParseError::EmptyLine));
}
