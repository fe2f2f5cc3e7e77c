use loot_filter::block_item::tokenize_line;
use loot_filter::blocks_with_lines::{is_block_start, BlockName};
use loot_filter::errors::ParseError;
use loot_filter::parse_content::parse_content;

#[test]
fn two_blocks_end_to_end() {
    let content = "Show\n    BaseType == \"Mirror of Kalandra\"\n    SetFontSize 45\nHide\n    Class \"Currency\"\n    SetFontSize 40";
    let blocks = parse_content(content).unwrap();

    assert_eq!(blocks.len(), 2);

    assert_eq!(blocks[0].order, 1);
    assert_eq!(blocks[0].name, BlockName::Show);
    assert_eq!(blocks[0].items.len(), 2);
    assert_eq!(blocks[0].items[0].name, "BaseType");
    assert_eq!(blocks[0].items[0].params, vec!["==", "Mirror of Kalandra"]);
    assert_eq!(blocks[0].items[1].name, "SetFontSize");
    assert_eq!(blocks[0].items[1].params, vec!["45"]);

    assert_eq!(blocks[1].order, 2);
    assert_eq!(blocks[1].name, BlockName::Hide);
    assert_eq!(blocks[1].items.len(), 2);
    assert_eq!(blocks[1].items[0].name, "Class");
    assert_eq!(blocks[1].items[0].params, vec!["Currency"]);
    assert_eq!(blocks[1].items[1].name, "SetFontSize");
    assert_eq!(blocks[1].items[1].params, vec!["40"]);
}

#[test]
fn comments_and_blank_lines() {
    let content = "# leading comment\nShow # inline\n    BaseType \"Mirror\" # trailing\n\nHide\n    BaseType \"Wisdom\"";
    let blocks = parse_content(content).unwrap();

    assert_eq!(blocks.len(), 2);
    assert_eq!(blocks[0].items.len(), 1);
    assert_eq!(blocks[0].items[0].name, "BaseType");
    assert_eq!(blocks[0].items[0].params, vec!["Mirror"]);
    assert_eq!(blocks[1].items.len(), 1);
    assert_eq!(blocks[1].items[0].name, "BaseType");
    assert_eq!(blocks[1].items[0].params, vec!["Wisdom"]);
}

#[test]
fn multi_value_quoted_list() {
    let content = "Show\n    BaseType == \"Time-Lost Emerald\" \"Time-Lost Ruby\" \"Time-Lost Sapphire\"";
    let blocks = parse_content(content).unwrap();

    assert_eq!(blocks.len(), 1);
    assert_eq!(blocks[0].items.len(), 1);
    assert_eq!(blocks[0].items[0].name, "BaseType");
    assert_eq!(
        blocks[0].items[0].params,
        vec!["==", "Time-Lost Emerald", "Time-Lost Ruby", "Time-Lost Sapphire"]
    );
}

#[test]
fn empty_block_suppressed() {
    let content = "Show\nHide\n    BaseType \"Mirror\"";
    let blocks = parse_content(content).unwrap();

    assert_eq!(blocks.len(), 1);
    assert_eq!(blocks[0].order, 1);
    assert_eq!(blocks[0].name, BlockName::Hide);
    assert_eq!(blocks[0].items.len(), 1);
    assert_eq!(blocks[0].items[0].name, "BaseType");
    assert_eq!(blocks[0].items[0].params, vec!["Mirror"]);
}

#[test]
fn no_headers_no_blocks() {
    let content = "nothing\nhere";
    let blocks = parse_content(content).unwrap();
    assert_eq!(blocks.len(), 0);
}

#[test]
fn tabs_and_leading_whitespace() {
    let content = "\n\t\tHide\n\t\tBaseType \"Mirror\"";
    let blocks = parse_content(content).unwrap();

    assert_eq!(blocks.len(), 1);
    assert_eq!(blocks[0].name, BlockName::Hide);
    assert_eq!(blocks[0].items.len(), 1);
}

#[test]
fn empty_content_no_blocks() {
    let blocks = parse_content("").unwrap();
    assert_eq!(blocks.len(), 0);
}

#[test]
fn orders_are_dense_over_emitted_blocks_only() {
    // The empty second block is dropped and does not consume an order index.
    let content = "Show\n    A 1\nShow\nHide\n    B 2\nShow\n    C 3";
    let blocks = parse_content(content).unwrap();

    assert_eq!(blocks.len(), 3);
    assert_eq!(blocks[0].order, 1);
    assert_eq!(blocks[1].order, 2);
    assert_eq!(blocks[2].order, 3);
    assert_eq!(blocks[0].name, BlockName::Show);
    assert_eq!(blocks[1].name, BlockName::Hide);
    assert_eq!(blocks[2].name, BlockName::Show);
}

#[test]
fn item_count_equals_interior_line_count() {
    let content = "Show\n    A 1\n    B 2\n    C 3\nHide\n    D 4";
    let blocks = parse_content(content).unwrap();

    assert_eq!(blocks.len(), 2);
    assert_eq!(blocks[0].items.len(), 3);
    assert_eq!(blocks[1].items.len(), 1);
}

#[test]
fn quotes_only_line_is_an_empty_line_error() {
    // A line of two quotes survives normalization but yields no token.
    let content = "Show\n    \"\"";
    let result = parse_content(content);
    assert_eq!(result, Err(ParseError::EmptyLine));
}

#[test]
fn hash_truncates_even_inside_quotes() {
    let content = "Show\n    BaseType \"Mir#ror\"";
    let blocks = parse_content(content).unwrap();

    assert_eq!(blocks.len(), 1);
    assert_eq!(blocks[0].items.len(), 1);
    assert_eq!(blocks[0].items[0].name, "BaseType");
    // The token is cut at the '#'; the quote never closes and the remainder
    // is emitted as the final token.
    assert_eq!(blocks[0].items[0].params, vec!["Mir"]);
    for item in &blocks[0].items {
        assert!(!item.name.contains('#'));
        for p in &item.params {
            assert!(!p.contains('#'));
        }
    }
}

#[test]
fn tokenize_joined_barewords_round_trip() {
    let words = vec!["Rarity", "Normal", "Magic", "Rare"];
    let line = words.join(" ");
    assert_eq!(tokenize_line(&line), words);
}

#[test]
fn tokenize_empty_quotes_yield_no_token() {
    let tokens = tokenize_line("\"\"");
    assert!(tokens.is_empty());
}

#[test]
fn tokenize_adjacent_quoted_strings() {
    assert_eq!(tokenize_line("\"a\" \"b\""), vec!["a", "b"]);
}

#[test]
fn tokenize_operator_then_quoted() {
    assert_eq!(tokenize_line("== \"Mirror\""), vec!["==", "Mirror"]);
}

#[test]
fn tokenize_quote_gluing_continues_token() {
    // An opening quote does not end the token being built; the quoted text
    // is appended to it.
    assert_eq!(tokenize_line("==\"Mirror\""), vec!["==Mirror"]);
}

#[test]
fn tokenize_unterminated_quote_tolerated() {
    assert_eq!(tokenize_line("BaseType \"Mirror of"), vec!["BaseType", "Mirror of"]);
}

#[test]
fn quoted_token_keeps_interior_spaces() {
    assert_eq!(tokenize_line("\"Time-Lost Emerald\""), vec!["Time-Lost Emerald"]);
}

#[test]
fn block_name_from_str_exact() {
    assert_eq!(BlockName::from_str("Show"), Some(BlockName::Show));
    assert_eq!(BlockName::from_str("Hide"), Some(BlockName::Hide));
    assert_eq!(BlockName::from_str("ShowHidden"), None);
    assert_eq!(BlockName::from_str(""), None);
}

#[test]
fn block_start_is_prefix_based() {
    assert_eq!(is_block_start("Show"), Some(BlockName::Show));
    assert_eq!(is_block_start("ShowHidden"), Some(BlockName::Show));
    assert_eq!(is_block_start("Hide the rest"), Some(BlockName::Hide));
    assert_eq!(is_block_start("BaseType"), None);
}

#[test]
fn parse_error_message() {
    assert_eq!(ParseError::EmptyLine.message(), "empty line");
}
