use vim_golf_bot::challenge::{BlockError, FromLines, TextBlock};
use vim_golf_bot::manage::{extract_content, parse_lines, ParseError};
use vim_golf_bot::text::{join_range, split_lines, strip_ticks};

fn strings(v: &[&str]) -> Vec<String> {
    v.iter().map(|s| s.to_string()).collect()
}

#[test]
fn split_lines_follows_line_endings() {
    assert_eq!(split_lines("a\nb\r\nc"), strings(&["a", "b", "c"]));
    assert_eq!(split_lines("a\n"), strings(&["a"]));
    assert_eq!(split_lines("a\n\n"), strings(&["a", ""]));
    assert_eq!(split_lines("\n"), strings(&[""]));
    assert_eq!(split_lines(""), Vec::<String>::new());
    assert_eq!(split_lines("x\r"), strings(&["x\r"]));
    assert_eq!(split_lines("é\nü"), strings(&["é", "ü"]));
}

#[test]
fn join_range_puts_line_feeds_between() {
    let ls = strings(&["a", "b", "c"]);
    assert_eq!(join_range(&ls, 0, 3), "a\nb\nc");
    assert_eq!(join_range(&ls, 1, 2), "b");
    assert_eq!(join_range(&ls, 2, 2), "");
}

#[test]
fn strip_ticks_removes_one_layer() {
    assert_eq!(strip_ticks("`abc`"), "abc");
    assert_eq!(strip_ticks("``abc``"), "`abc`");
    assert_eq!(strip_ticks("`abc"), "abc");
    assert_eq!(strip_ticks("abc`"), "abc");
    assert_eq!(strip_ticks("`"), "");
    assert_eq!(strip_ticks("abc"), "abc");
}

#[test]
fn block_reader_takes_tag_and_lines() {
    let ls = strings(&["Input:", "```rust", "let x;", "``` not a close", "```", "after"]);
    let mut pos = 0;
    let b = TextBlock::from_lines(&ls, &mut pos).unwrap();
    assert_eq!(b.lang, Some("rust".to_string()));
    assert_eq!(b.content, strings(&["let x;", "``` not a close"]));
    assert_eq!(pos, 5);
    assert!(matches!(TextBlock::from_lines(&ls, &mut pos), Err(BlockError::NoBlock)));
    assert_eq!(pos, 6);
}

#[test]
fn block_reader_reports_unterminated_block() {
    let ls = strings(&["```", "a", "b"]);
    let mut pos = 0;
    assert!(matches!(TextBlock::from_lines(&ls, &mut pos), Err(BlockError::Unterminated)));
    assert_eq!(pos, 3);
}

#[test]
fn markdown_form_of_a_block() {
    let b = TextBlock::new(Some("vim".to_string()), strings(&["a", "b"]));
    assert_eq!(b.as_markdown(), "```vim\na\nb\n```");
    let plain = TextBlock::new(None, strings(&["x"]));
    assert_eq!(plain.as_markdown(), "```\nx\n```");
    let empty = TextBlock::new(None, Vec::new());
    assert_eq!(empty.as_markdown(), "```\n```");
    let tagged_empty = TextBlock::new(Some("vim".to_string()), Vec::new());
    assert_eq!(tagged_empty.as_markdown(), "```vim\n```");
    assert_eq!(b.len(), 2);
    assert!(!b.is_empty());
    assert!(empty.is_empty());
}

#[test]
fn markdown_round_trip() {
    let b = TextBlock::new(Some("txt".to_string()), strings(&["  indented", "", "``x", "last"]));
    let lines = split_lines(&b.as_markdown());
    let mut pos = 0;
    let back = TextBlock::from_lines(&lines, &mut pos).unwrap();
    assert_eq!(back.lang, b.lang);
    assert_eq!(back.content, b.content);
    assert_eq!(pos, lines.len());

    let empty = TextBlock::new(Some("vim".to_string()), Vec::new());
    let lines = split_lines(&empty.as_markdown());
    let mut pos = 0;
    let back = TextBlock::from_lines(&lines, &mut pos).unwrap();
    assert_eq!(back.lang, Some("vim".to_string()));
    assert!(back.content.is_empty());
    assert_eq!(pos, 2);

    let untagged = TextBlock::new(None, strings(&["one"]));
    let lines = split_lines(&untagged.as_markdown());
    let mut pos = 0;
    let back = TextBlock::from_lines(&lines, &mut pos).unwrap();
    assert_eq!(back.lang, None);
    assert_eq!(back.content, untagged.content);
}

const DEFINITION: &str = "register\n\n# Delete first line\n\n## Short description\n\nInput:\n```\na\nb\nc\n```\nOutput:\n```\nb\nc\n```\n";

#[test]
fn definition_is_read() {
    let (title, description, input, output) = extract_content(DEFINITION).unwrap();
    assert_eq!(title, "Delete first line");
    assert_eq!(description, Some("## Short description\n\nInput:".to_string()));
    assert_eq!(input.lang, None);
    assert_eq!(input.content, strings(&["a", "b", "c"]));
    assert_eq!(output.content, strings(&["b", "c"]));
}

#[test]
fn definition_without_description() {
    let text = "register\n# T\n\n```vim\nx\n```\n```\ny\n```";
    let (title, description, input, output) = extract_content(text).unwrap();
    assert_eq!(title, "T");
    assert_eq!(description, None);
    assert_eq!(input.lang, Some("vim".to_string()));
    assert_eq!(input.content, strings(&["x"]));
    assert_eq!(output.content, strings(&["y"]));
}

#[test]
fn definition_errors() {
    assert_eq!(extract_content("").err(), Some(ParseError::MissingTitle));
    assert_eq!(extract_content("register\n\n\n").err(), Some(ParseError::MissingTitle));
    assert_eq!(extract_content("register\n## Not a title\n```\na\n```").err(), Some(ParseError::MissingTitle));
    assert_eq!(extract_content("# Title on the command line\n").err(), Some(ParseError::MissingTitle));
    assert_eq!(extract_content("register\n# T\nno blocks").err(), Some(ParseError::MissingInput));
    assert_eq!(extract_content("register\n# T\n```\na\n```\nOutput:").err(), Some(ParseError::MissingOutput));
    assert_eq!(extract_content("register\n# T\n```\na\n").err(), Some(ParseError::UnterminatedBlock));
    assert_eq!(extract_content("register\n# T\n```\na\n```\n```\nb").err(), Some(ParseError::UnterminatedBlock));
}

#[test]
fn parse_lines_skips_the_command_line() {
    let ls = strings(&["# ignored", "", "# Real", "```", "1", "```", "```", "2", "```"]);
    let (title, description, input, output) = parse_lines(&ls).unwrap();
    assert_eq!(title, "Real");
    assert_eq!(description, None);
    assert_eq!(input.content, strings(&["1"]));
    assert_eq!(output.content, strings(&["2"]));
}
