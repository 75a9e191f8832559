use katas::munging::{
    contains_sub, get_smallest_spread_football, get_smallest_spread_weather, parse_football,
    parse_u8, parse_weather, split_blank_tokens, split_weather_tokens,
};
use katas::text::split_lines;

#[test]
fn test_weather_spread() {
    let content = "  Dy MxT   MnT\n\
                   \n\
                   \x20  1  88*   59\n\
                   \x20  2  79    63\n\
                   \x20 14  61    59\n\
                   \x20 15  80    30\n\
                   mo  82.9  60.5\n";
    assert_eq!(Some(14), get_smallest_spread_weather(content));
}

#[test]
fn test_football_spread() {
    let content = "  Team P W L D F - A Pts\n\
                   \x201. Arsenal 38 26 9 3 79 - 36 87\n\
                   \x202. Aston_Villa 38 12 14 12 46 - 47 50\n\
                   \x20-------------------\n\
                   \x203. Chelsea 38 17 13 8 66 - 38 64\n";
    assert_eq!(
        Some("Aston_Villa".to_string()),
        get_smallest_spread_football(content)
    );
}

#[test]
fn test_parse_weather_line() {
    assert_eq!(Some((1, 88, 59)), parse_weather("   1  88*   59"));
    assert_eq!(Some((9, 86, 32)), parse_weather("9 86 32 trailing words"));
    assert_eq!(None, parse_weather("mo  82.9  60.5"));
    assert_eq!(None, parse_weather(""));
}

#[test]
fn test_parse_football_line() {
    let parsed = parse_football(" 1. Arsenal 38 26 9 3 79 - 36 87");
    assert_eq!(Some(("Arsenal".to_string(), 79, 36)), parsed);
    assert_eq!(None, parse_football(" ------------------- "));
}

#[test]
fn test_parse_u8_values() {
    assert_eq!(Some(0), parse_u8("0"));
    assert_eq!(Some(7), parse_u8("+7"));
    assert_eq!(Some(255), parse_u8("255"));
    assert_eq!(Some(14), parse_u8("014"));
    assert_eq!(None, parse_u8("256"));
    assert_eq!(None, parse_u8(""));
    assert_eq!(None, parse_u8("+"));
    assert_eq!(None, parse_u8("1a"));
    assert_eq!(None, parse_u8("-3"));
}

#[test]
fn test_token_splitting() {
    assert_eq!(vec!["1", "88", "59"], split_weather_tokens("   1  88*   59"));
    let empty: Vec<String> = Vec::new();
    assert_eq!(empty, split_weather_tokens(" * * "));
    assert_eq!(
        vec!["a", "bc", "d"],
        split_blank_tokens("  a \t bc  d")
    );
}

#[test]
fn test_line_splitting() {
    assert_eq!(vec!["a", "b", "c"], split_lines("a\r\nb\nc"));
    assert_eq!(vec!["a", "", "b"], split_lines("a\n\nb\n"));
    let empty: Vec<String> = Vec::new();
    assert_eq!(empty, split_lines(""));
}

#[test]
fn test_contains_sub() {
    assert!(contains_sub("Aston_Villa", "Villa"));
    assert!(contains_sub("mo  82.9", "mo"));
    assert!(contains_sub("anything", ""));
    assert!(!contains_sub("short", "longer than it"));
    assert!(!contains_sub("day 14", "mo"));
}
