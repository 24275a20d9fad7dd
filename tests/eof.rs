use brainfuck_int::eof::{parse_eof, EofIndicator, EofParseError};

#[test]
fn default_policy_is_zero_byte() {
    assert_eq!(EofIndicator::default(), EofIndicator::Char(0));
}

#[test]
fn unchanged_word_any_case() {
    assert_eq!(parse_eof("unchanged"), Ok(EofIndicator::Unchanged));
    assert_eq!(parse_eof("UnChAnGeD"), Ok(EofIndicator::Unchanged));
    assert_eq!(parse_eof("unchange"), Err(EofParseError));
}

#[test]
fn unsigned_decimal_bytes() {
    assert_eq!(parse_eof("0"), Ok(EofIndicator::Char(0)));
    assert_eq!(parse_eof("88"), Ok(EofIndicator::Char(88)));
    assert_eq!(parse_eof("255"), Ok(EofIndicator::Char(255)));
    assert_eq!(parse_eof("007"), Ok(EofIndicator::Char(7)));
    assert_eq!(parse_eof("+7"), Ok(EofIndicator::Char(7)));
    assert_eq!(parse_eof("256"), Err(EofParseError));
    assert_eq!(parse_eof("99999999999999999999"), Err(EofParseError));
    assert_eq!(parse_eof("+"), Err(EofParseError));
    assert_eq!(parse_eof(""), Err(EofParseError));
    assert_eq!(parse_eof("1x"), Err(EofParseError));
}

#[test]
fn signed_decimal_bytes() {
    assert_eq!(parse_eof("-1"), Ok(EofIndicator::Char(255)));
    assert_eq!(parse_eof("-128"), Ok(EofIndicator::Char(128)));
    assert_eq!(parse_eof("-0"), Ok(EofIndicator::Char(0)));
    assert_eq!(parse_eof("-129"), Err(EofParseError));
    assert_eq!(parse_eof("-"), Err(EofParseError));
}

#[test]
fn quoted_characters() {
    assert_eq!(parse_eof("'A'"), Ok(EofIndicator::Char(65)));
    assert_eq!(parse_eof("' '"), Ok(EofIndicator::Char(32)));
    assert_eq!(parse_eof("'''"), Ok(EofIndicator::Char(39)));
    assert_eq!(parse_eof("'ab'"), Err(EofParseError));
    assert_eq!(parse_eof("''"), Err(EofParseError));
    assert_eq!(parse_eof("'"), Err(EofParseError));
    assert_eq!(parse_eof("'\u{e9}'"), Err(EofParseError));
    assert_eq!(parse_eof("A"), Err(EofParseError));
}

#[test]
fn quoted_escapes() {
    assert_eq!(parse_eof("'\\0'"), Ok(EofIndicator::Char(0)));
    assert_eq!(parse_eof("'\\a'"), Ok(EofIndicator::Char(7)));
    assert_eq!(parse_eof("'\\b'"), Ok(EofIndicator::Char(8)));
    assert_eq!(parse_eof("'\\t'"), Ok(EofIndicator::Char(9)));
    assert_eq!(parse_eof("'\\n'"), Ok(EofIndicator::Char(10)));
    assert_eq!(parse_eof("'\\v'"), Ok(EofIndicator::Char(11)));
    assert_eq!(parse_eof("'\\f'"), Ok(EofIndicator::Char(12)));
    assert_eq!(parse_eof("'\\r'"), Ok(EofIndicator::Char(13)));
    assert_eq!(parse_eof("'\\e'"), Ok(EofIndicator::Char(27)));
    assert_eq!(parse_eof("'\\'"), Ok(EofIndicator::Char(92)));
    assert_eq!(parse_eof("'\\q'"), Err(EofParseError));
}

#[test]
fn from_str_matches_parse() {
    assert_eq!("unchanged".parse::<EofIndicator>(), Ok(EofIndicator::Unchanged));
    assert_eq!("-1".parse::<EofIndicator>(), Ok(EofIndicator::Char(255)));
    assert_eq!("x".parse::<EofIndicator>(), Err(EofParseError));
}

#[test]
fn shown_texts() {
    assert_eq!(EofIndicator::Char(65).shown_text(), "A");
    assert_eq!(EofIndicator::Char(233).shown_text(), "\u{e9}");
    assert_eq!(EofIndicator::Char(0).shown_text(), "\u{0}");
    assert_eq!(EofIndicator::Unchanged.shown_text(), "Unchanged");
    assert_eq!(EofIndicator::Unchanged.shown_text().parse::<EofIndicator>(), Ok(EofIndicator::Unchanged));
}
