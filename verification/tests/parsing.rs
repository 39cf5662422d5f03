use logo::chunks::Chunks;
use logo::command::{Command, MAX_NESTING};
use logo::error::{Instruction, NumberKind, ParseError};
use logo::text::{chars_of, hex_digit, is_decimal_text, is_space, parse_unsigned, same_text, words_of};
use logo::turning_direction::TurningDirection;

fn word(s: &str) -> String {
    String::from(s)
}

#[test]
fn short_and_long_names_give_the_same_command() {
    assert_eq!(Command::from_line("F 10"), Ok(Command::Forward(10)));
    assert_eq!(Command::from_line("FORWARD 10"), Ok(Command::Forward(10)));
    assert_eq!(Command::from_line("L"), Ok(Command::Left));
    assert_eq!(Command::from_line("LEFT"), Ok(Command::Left));
    assert_eq!(Command::from_line("R"), Ok(Command::Right));
    assert_eq!(Command::from_line("RIGHT"), Ok(Command::Right));
    assert_eq!(Command::from_line("U"), Ok(Command::Up));
    assert_eq!(Command::from_line("PENUP"), Ok(Command::Up));
    assert_eq!(Command::from_line("D"), Ok(Command::Down));
    assert_eq!(Command::from_line("PENDOWN"), Ok(Command::Down));
    assert_eq!(Command::from_line("S 2.5"), Ok(Command::SetSize(word("2.5"))));
    assert_eq!(Command::from_line("SETSIZE 2.5"), Ok(Command::SetSize(word("2.5"))));
    assert_eq!(Command::from_line("C 1 2 3"), Ok(Command::SetColor(1, 2, 3)));
    assert_eq!(Command::from_line("SETCOLOR 1 2 3"), Ok(Command::SetColor(1, 2, 3)));
}

#[test]
fn names_are_case_sensitive() {
    assert_eq!(
        Command::from_line("forward 10"),
        Err(ParseError::InvalidCommand(word("forward")))
    );
    assert_eq!(Command::from_line("MOVE 1"), Err(ParseError::InvalidCommand(word("MOVE"))));
}

#[test]
fn empty_line_is_an_empty_command() {
    assert_eq!(Command::from_line(""), Err(ParseError::EmptyCommand));
    assert_eq!(Command::from_line("  \t "), Err(ParseError::EmptyCommand));
}

#[test]
fn closing_bracket_is_the_marker() {
    assert_eq!(Command::from_line("]"), Ok(Command::EndRepeat));
    assert!(!Command::EndRepeat.is_finished());
}

#[test]
fn words_after_a_command_are_ignored() {
    assert_eq!(Command::from_line("LEFT over there"), Ok(Command::Left));
    assert_eq!(Command::from_line("F 3 4"), Ok(Command::Forward(3)));
}

#[test]
fn hex_colours_expand() {
    let expected = Ok(Command::SetColor(85, 85, 85));
    assert_eq!(Command::from_line("SETCOLOR 0x5"), expected);
    assert_eq!(Command::from_line("SETCOLOR 0x555555"), expected);
    assert_eq!(Command::from_line("SETCOLOR 85 85 85"), expected);
    assert_eq!(Command::from_line("C 0x555"), expected);
}

#[test]
fn hex_colours_split_into_channels() {
    assert_eq!(Command::from_line("C 0x1a2B3c"), Ok(Command::SetColor(0x1a, 0x2b, 0x3c)));
    assert_eq!(Command::from_line("C 0xf08"), Ok(Command::SetColor(0xff, 0x00, 0x88)));
    assert_eq!(Command::from_line("C 0xffeeee"), Ok(Command::SetColor(255, 238, 238)));
    assert_eq!(Command::colors_from_hex("0xA"), Ok((170, 170, 170)));
}

#[test]
fn hex_colours_are_normalized() {
    let long: Vec<char> = "0x112233".chars().collect();
    assert_eq!(Command::normalize_hex_str("0x123"), Ok(long.clone()));
    assert_eq!(Command::normalize_hex_str("0x112233"), Ok(long));
    let sevens: Vec<char> = "0x777777".chars().collect();
    assert_eq!(Command::normalize_hex_str("0x7"), Ok(sevens));
}

#[test]
fn malformed_hex_colours_fail() {
    assert_eq!(Command::from_line("C 0x12"), Err(ParseError::HexFormatError(word("0x12"))));
    assert_eq!(Command::from_line("C 0x1234567"), Err(ParseError::HexFormatError(word("0x1234567"))));
    assert_eq!(Command::from_line("C 0x"), Err(ParseError::HexFormatError(word("0x"))));
    assert_eq!(Command::from_line("C 0X5"), Err(ParseError::HexFormatError(word("0X5"))));
    assert_eq!(Command::from_line("C red"), Err(ParseError::HexFormatError(word("red"))));
    assert_eq!(Command::from_line("C x"), Err(ParseError::HexFormatError(word("x"))));
    assert_eq!(Command::from_line("C 0xg"), Err(ParseError::HexFormatError(word("0xg"))));
    assert_eq!(Command::from_line("C 256"), Err(ParseError::HexFormatError(word("256"))));
    assert_eq!(
        Command::normalize_hex_str("555555"),
        Err(ParseError::HexFormatError(word("555555")))
    );
}

#[test]
fn colour_components_fail_one_by_one() {
    assert_eq!(
        Command::from_line("C"),
        Err(ParseError::MissingParameter(Instruction::SetColor, NumberKind::Byte))
    );
    assert_eq!(
        Command::from_line("C 1"),
        Err(ParseError::MissingParameter(Instruction::SetColor, NumberKind::Byte))
    );
    assert_eq!(
        Command::from_line("C 1 2"),
        Err(ParseError::MissingParameter(Instruction::SetColor, NumberKind::Byte))
    );
    assert_eq!(Command::from_line("C 1 x 3"), Err(ParseError::ColorParseError(word("x"))));
    assert_eq!(Command::from_line("C 1 2 256"), Err(ParseError::ColorParseError(word("256"))));
    assert_eq!(Command::from_line("C 255 0 255"), Ok(Command::SetColor(255, 0, 255)));
}

#[test]
fn next_int_chunk_reads_a_byte() {
    let mut chunks = Chunks::new("12 300");
    assert_eq!(Command::next_int_chunk(&mut chunks), Ok(12));
    assert_eq!(Command::next_int_chunk(&mut chunks), Err(ParseError::ColorParseError(word("300"))));
    assert_eq!(
        Command::next_int_chunk(&mut chunks),
        Err(ParseError::MissingParameter(Instruction::SetColor, NumberKind::Byte))
    );
}

#[test]
fn missing_size_is_a_missing_parameter() {
    assert_eq!(
        Command::from_line("SETSIZE"),
        Err(ParseError::MissingParameter(Instruction::SetSize, NumberKind::Decimal))
    );
    assert_eq!(
        Command::setsize_from_str(None),
        Err(ParseError::MissingParameter(Instruction::SetSize, NumberKind::Decimal))
    );
}

#[test]
fn sizes_are_decimal_numbers() {
    assert_eq!(Command::setsize_from_str(Some("3")), Ok(Command::SetSize(word("3"))));
    assert_eq!(Command::setsize_from_str(Some("-0.5")), Ok(Command::SetSize(word("-0.5"))));
    assert_eq!(
        Command::setsize_from_str(Some("wide")),
        Err(ParseError::NumericParseError(word("wide"), NumberKind::Decimal))
    );
    assert_eq!(
        Command::from_line("S 1.2.3"),
        Err(ParseError::NumericParseError(word("1.2.3"), NumberKind::Decimal))
    );
}

#[test]
fn distances_are_unsigned_numbers() {
    assert_eq!(Command::forward_from_str(Some("0")), Ok(Command::Forward(0)));
    assert_eq!(Command::forward_from_str(Some("4294967295")), Ok(Command::Forward(4294967295)));
    assert_eq!(
        Command::forward_from_str(Some("4294967296")),
        Err(ParseError::NumericParseError(word("4294967296"), NumberKind::Unsigned))
    );
    assert_eq!(
        Command::forward_from_str(Some("-1")),
        Err(ParseError::NumericParseError(word("-1"), NumberKind::Unsigned))
    );
    assert_eq!(
        Command::forward_from_str(Some("ten")),
        Err(ParseError::NumericParseError(word("ten"), NumberKind::Unsigned))
    );
    assert_eq!(
        Command::forward_from_str(None),
        Err(ParseError::MissingParameter(Instruction::Forward, NumberKind::Unsigned))
    );
    assert_eq!(
        Command::from_line("FORWARD"),
        Err(ParseError::MissingParameter(Instruction::Forward, NumberKind::Unsigned))
    );
}

#[test]
fn repeat_reads_its_block() {
    assert_eq!(
        Command::from_line("REPEAT 3 [ FORWARD 10 RIGHT ]"),
        Ok(Command::Repeat(3, vec![Command::Forward(10), Command::Right]))
    );
    assert_eq!(Command::from_line("REPEAT 0 [ ]"), Ok(Command::Repeat(0, vec![])));
}

#[test]
fn repeat_blocks_nest() {
    let parsed = Command::from_line("REPEAT 2 [ REPEAT 2 [ FORWARD 5 ] LEFT ]");
    let expected = Command::Repeat(
        2,
        vec![Command::Repeat(2, vec![Command::Forward(5)]), Command::Left],
    );
    assert_eq!(parsed, Ok(expected));
    assert!(parsed.unwrap().is_finished());
}

#[test]
fn unterminated_repeat_fails() {
    assert_eq!(
        Command::from_line("REPEAT 2 [ FORWARD 5"),
        Err(ParseError::UnterminatedRepeatError)
    );
    assert_eq!(Command::from_line("REPEAT 2 ["), Err(ParseError::UnterminatedRepeatError));
    assert_eq!(
        Command::from_line("REPEAT 2 [ REPEAT 2 [ F 1 ]"),
        Err(ParseError::UnterminatedRepeatError)
    );
}

#[test]
fn malformed_repeat_fails() {
    assert_eq!(Command::from_line("REPEAT"), Err(ParseError::RepeatCountError(None)));
    assert_eq!(
        Command::from_line("REPEAT many [ L ]"),
        Err(ParseError::RepeatCountError(Some(word("many"))))
    );
    assert_eq!(Command::from_line("REPEAT 2"), Err(ParseError::RepeatOpenBracketError(None)));
    assert_eq!(
        Command::from_line("REPEAT 2 L ]"),
        Err(ParseError::RepeatOpenBracketError(Some(word("L"))))
    );
    assert_eq!(
        Command::from_line("REPEAT 2 [L ]"),
        Err(ParseError::RepeatOpenBracketError(Some(word("[L"))))
    );
}

#[test]
fn errors_inside_a_block_come_out_unchanged() {
    assert_eq!(
        Command::from_line("REPEAT 2 [ F 1 JUMP ]"),
        Err(ParseError::InvalidCommand(word("JUMP")))
    );
    assert_eq!(
        Command::from_line("REPEAT 2 [ REPEAT 3 [ F x ] ]"),
        Err(ParseError::NumericParseError(word("x"), NumberKind::Unsigned))
    );
    assert_eq!(
        Command::from_line("REPEAT 2 [ F"),
        Err(ParseError::MissingParameter(Instruction::Forward, NumberKind::Unsigned))
    );
}

#[test]
fn from_chunks_takes_only_the_words_it_reads() {
    let mut chunks = Chunks::new("F 1 REPEAT 2 [ L ] R");
    assert_eq!(chunks.remaining(), 8);
    assert_eq!(Command::from_chunks(&mut chunks), Ok(Command::Forward(1)));
    assert_eq!(chunks.remaining(), 6);
    assert_eq!(Command::from_chunks(&mut chunks), Ok(Command::Repeat(2, vec![Command::Left])));
    assert_eq!(chunks.remaining(), 1);
    assert_eq!(Command::from_chunks(&mut chunks), Ok(Command::Right));
    assert_eq!(Command::from_chunks(&mut chunks), Err(ParseError::EmptyCommand));
}

#[test]
fn a_block_may_span_several_lines() {
    let words = vec![word("REPEAT"), word("2"), word("["), word("F"), word("5"), word("]")];
    let mut chunks = Chunks::from_words(words);
    assert_eq!(chunks.next(), Some(word("REPEAT")));
    assert_eq!(
        Command::repeat_from_split(&mut chunks),
        Ok(Command::Repeat(2, vec![Command::Forward(5)]))
    );
    assert_eq!(chunks.remaining(), 0);
}

#[test]
fn setcolor_from_chunks_reads_three_words_or_one() {
    let mut chunks = Chunks::new("1 2 3 4");
    assert_eq!(Command::setcolor_from_chunks(&mut chunks), Ok(Command::SetColor(1, 2, 3)));
    assert_eq!(chunks.remaining(), 1);
    let mut chunks = Chunks::new("0xabc 2 3");
    assert_eq!(Command::setcolor_from_chunks(&mut chunks), Ok(Command::SetColor(0xaa, 0xbb, 0xcc)));
    assert_eq!(chunks.remaining(), 2);
}

#[test]
fn words_are_split_at_white_space() {
    assert_eq!(words_of("  F\t10 \u{3000} L\n"), vec![word("F"), word("10"), word("L")]);
    assert_eq!(words_of(""), Vec::<String>::new());
    assert_eq!(words_of("one"), vec![word("one")]);
    assert_eq!(words_of("a b"), vec![word("a"), word("b")]);
    let mut chunks = Chunks::new(" x  y ");
    assert_eq!(chunks.next(), Some(word("x")));
    assert_eq!(chunks.next(), Some(word("y")));
    assert_eq!(chunks.next(), None);
    assert_eq!(chunks.remaining(), 0);
}

#[test]
fn text_helpers() {
    assert_eq!(chars_of("a\u{e9}z"), vec!['a', '\u{e9}', 'z']);
    assert!(same_text("LEFT", "LEFT"));
    assert!(!same_text("LEFT", "LEFt"));
    assert!(is_space(' '));
    assert!(is_space('\u{a0}'));
    assert!(!is_space('x'));
    assert_eq!(hex_digit('f'), Some(15));
    assert_eq!(hex_digit('A'), Some(10));
    assert_eq!(hex_digit('9'), Some(9));
    assert_eq!(hex_digit('g'), None);
}

#[test]
fn unsigned_numbers() {
    assert_eq!(parse_unsigned("0", 255), Some(0));
    assert_eq!(parse_unsigned("+5", 255), Some(5));
    assert_eq!(parse_unsigned("007", 255), Some(7));
    assert_eq!(parse_unsigned("255", 255), Some(255));
    assert_eq!(parse_unsigned("256", 255), None);
    assert_eq!(parse_unsigned("", 255), None);
    assert_eq!(parse_unsigned("+", 255), None);
    assert_eq!(parse_unsigned("-5", 255), None);
    assert_eq!(parse_unsigned("1 ", 255), None);
    assert_eq!(parse_unsigned("99999999999999999999999", 4294967295), None);
    assert_eq!(parse_unsigned("4294967295", 4294967295), Some(4294967295));
}

#[test]
fn decimal_numbers() {
    assert!(is_decimal_text("2"));
    assert!(is_decimal_text("2.5"));
    assert!(is_decimal_text("+2.5"));
    assert!(is_decimal_text("-2.5"));
    assert!(is_decimal_text(".5"));
    assert!(is_decimal_text("5."));
    assert!(!is_decimal_text("."));
    assert!(!is_decimal_text(""));
    assert!(!is_decimal_text("-"));
    assert!(!is_decimal_text("1.2.3"));
    assert!(!is_decimal_text("--1"));
    assert!(!is_decimal_text("1_000"));
    assert!(!is_decimal_text("0x10"));
}

#[test]
fn decimal_numbers_with_exponents() {
    assert!(is_decimal_text("1e3"));
    assert!(is_decimal_text("1E3"));
    assert!(is_decimal_text("1.5e-3"));
    assert!(is_decimal_text("+.5E+10"));
    assert!(is_decimal_text("1.e1"));
    assert!(!is_decimal_text("1e"));
    assert!(!is_decimal_text("1e+"));
    assert!(!is_decimal_text("e5"));
    assert!(!is_decimal_text(".e1"));
    assert!(!is_decimal_text("1e5e"));
    assert!(!is_decimal_text("1e5.0"));
    assert!(!is_decimal_text("1e 5"));
}

#[test]
fn numbers_that_are_not_finite() {
    assert!(is_decimal_text("inf"));
    assert!(is_decimal_text("-inf"));
    assert!(is_decimal_text("+Infinity"));
    assert!(is_decimal_text("INFINITY"));
    assert!(is_decimal_text("NaN"));
    assert!(is_decimal_text("nan"));
    assert!(!is_decimal_text("infinit"));
    assert!(!is_decimal_text("in"));
    assert!(!is_decimal_text("nanx"));
    assert!(!is_decimal_text("i"));
}

#[test]
fn decimal_texts_are_what_a_float_parser_reads() {
    let texts = [
        "2", "2.5", "+2.5", "-2.5", ".5", "5.", ".", "", "-", "+", "1.2.3", "--1", "1e3", "1E3",
        "1.5e-3", "+.5E+10", "1.e1", "1e", "1e+", "e5", ".e1", "1e5e", "1e5.0", "inf", "-inf",
        "+Infinity", "INFINITY", "NaN", "nan", "infinit", "nanx", "1_0", " 1", "1 ", "0x1", "١",
    ];
    for text in texts {
        assert_eq!(is_decimal_text(text), text.parse::<f32>().is_ok(), "{}", text);
    }
}

#[test]
fn turning_direction_from_its_name() {
    assert_eq!(TurningDirection::from_string("LEFT"), Ok(TurningDirection::LEFT));
    assert_eq!(TurningDirection::from_string("L"), Ok(TurningDirection::LEFT));
    assert_eq!(TurningDirection::from_string("RIGHT"), Ok(TurningDirection::RIGHT));
    assert_eq!(TurningDirection::from_string("R"), Ok(TurningDirection::RIGHT));
    assert_eq!(TurningDirection::from_string("UP"), Err(word("UP")));
    assert_eq!(TurningDirection::from_string(""), Err(word("")));
}

fn nested(depth: u32) -> String {
    let mut text = String::new();
    for _ in 0..depth {
        text.push_str("REPEAT 1 [ ");
    }
    text.push_str("F 1 ");
    for _ in 0..depth {
        text.push_str("] ");
    }
    text
}

#[test]
fn blocks_nest_up_to_the_limit() {
    assert_eq!(MAX_NESTING, 128);
    let mut expected = Command::Forward(1);
    for _ in 0..MAX_NESTING {
        expected = Command::Repeat(1, vec![expected]);
    }
    assert_eq!(Command::from_line(&nested(MAX_NESTING)), Ok(expected));
    assert_eq!(Command::from_line(&nested(MAX_NESTING + 1)), Err(ParseError::NestingTooDeep));
    assert_eq!(Command::from_line(&nested(1000)), Err(ParseError::NestingTooDeep));
}

#[test]
fn the_depth_that_is_left_counts_the_block_itself() {
    let mut chunks = Chunks::new("2 [ L ]");
    assert_eq!(Command::repeat_within(&mut chunks, 0), Err(ParseError::NestingTooDeep));
    assert_eq!(chunks.remaining(), 4);
    assert_eq!(Command::repeat_within(&mut chunks, 1), Ok(Command::Repeat(2, vec![Command::Left])));
    let mut chunks = Chunks::new("REPEAT 2 [ REPEAT 3 [ L ] ]");
    assert_eq!(Command::from_chunks_within(&mut chunks, 1), Err(ParseError::NestingTooDeep));
    let mut chunks = Chunks::new("REPEAT 2 [ REPEAT 3 [ L ] ]");
    assert_eq!(
        Command::from_chunks_within(&mut chunks, 2),
        Ok(Command::Repeat(2, vec![Command::Repeat(3, vec![Command::Left])]))
    );
    let mut chunks = Chunks::new("F 3");
    assert_eq!(Command::from_chunks_within(&mut chunks, 0), Ok(Command::Forward(3)));
}
