use ppick::color::{parse_hex, parse_highlight, Color, ParseHexError};

#[test]
fn test_parse_hex_valid() {
    assert_eq!(
        parse_hex("#80aec3"),
        Ok(Color::Rgb {
            r: 0x80,
            g: 0xAE,
            b: 0xC3
        })
    );
    assert_eq!(
        parse_hex("80aec3"),
        Ok(Color::Rgb {
            r: 0x80,
            g: 0xAE,
            b: 0xC3
        })
    );
    assert_eq!(
        parse_hex("4a00ff"),
        Ok(Color::Rgb {
            r: 0x4A,
            g: 0x00,
            b: 0xFF
        })
    );
    assert_eq!(
        parse_hex("#4ABCFF"),
        Ok(Color::Rgb {
            r: 0x4A,
            g: 0xBC,
            b: 0xFF
        })
    );
}

#[test]
fn test_parse_hex_invalid() {
    assert_eq!(parse_hex(""), Err(ParseHexError::InvalidLength));
    assert_eq!(parse_hex("#12345"), Err(ParseHexError::InvalidLength));
    assert_eq!(parse_hex("12345"), Err(ParseHexError::InvalidLength));
    assert!(matches!(parse_hex("#reallylong"), Err(ParseHexError::InvalidLength)));
    assert!(matches!(parse_hex("#foobar"), Err(ParseHexError::ParseIntError(_))));
}

#[test]
fn parse_hex_edge_cases() {
    assert!(matches!(parse_hex("##12345"), Err(ParseHexError::ParseIntError(_))));
    assert_eq!(parse_hex("##1234"), Err(ParseHexError::InvalidLength));
    assert_eq!(parse_hex("#+f+f+f"), Ok(Color::Rgb { r: 15, g: 15, b: 15 }));
    assert!(matches!(parse_hex("-1-1-1"), Err(ParseHexError::ParseIntError(_))));
    assert!(matches!(parse_hex("éabcd"), Err(ParseHexError::ParseIntError(_))));
    assert_eq!(parse_hex("éé"), Err(ParseHexError::InvalidLength));
    assert!(matches!(parse_hex("ééé"), Err(ParseHexError::ParseIntError(_))));
}

#[test]
fn parse_highlight_names_numbers_and_hex() {
    assert_eq!(parse_highlight("black"), Ok(Color::Black));
    assert_eq!(parse_highlight("bright-black"), Ok(Color::DarkGrey));
    assert_eq!(parse_highlight("red"), Ok(Color::DarkRed));
    assert_eq!(parse_highlight("bright-red"), Ok(Color::Red));
    assert_eq!(parse_highlight("white"), Ok(Color::Grey));
    assert_eq!(parse_highlight("bright-white"), Ok(Color::White));
    assert_eq!(parse_highlight("bright-cyan"), Ok(Color::Cyan));
    assert_eq!(parse_highlight("0"), Ok(Color::AnsiValue(0)));
    assert_eq!(parse_highlight("208"), Ok(Color::AnsiValue(208)));
    assert_eq!(parse_highlight("+7"), Ok(Color::AnsiValue(7)));
    assert_eq!(parse_highlight("#010203"), Ok(Color::Rgb { r: 1, g: 2, b: 3 }));
    assert_eq!(parse_highlight("123456"), Ok(Color::Rgb { r: 0x12, g: 0x34, b: 0x56 }));
}

#[test]
fn parse_highlight_rejects_other_text() {
    assert_eq!(parse_highlight("256"), Err("could not parse highlight".to_string()));
    assert_eq!(parse_highlight("Black"), Err("could not parse highlight".to_string()));
    assert_eq!(parse_highlight(""), Err("could not parse highlight".to_string()));
}
