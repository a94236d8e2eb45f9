use orderbook::command::Command;
use orderbook::csv::{
    parse_cancel_command, parse_flush_command, parse_line, parse_lines, parse_new_command,
    ParseError,
};

fn new_order(line: &str) -> (u64, u64, String, u64, u64, char) {
    match parse_line(line) {
        Ok(Some(Command::New(order))) => (
            order.user_id,
            order.user_order_id,
            order.symbol,
            order.price,
            order.quantity,
            order.side,
        ),
        other => panic!("not a new order: {:?}", other),
    }
}

#[test]
fn new_order_line() {
    assert_eq!(
        new_order("N, 1, IBM, 10, 100, B, 1"),
        (1, 1, "IBM".to_string(), 10, 100, 'B')
    );
    assert_eq!(
        new_order("N,2,AAPL,11,200,S,102"),
        (2, 102, "AAPL".to_string(), 11, 200, 'S')
    );
}

#[test]
fn new_order_from_fields() {
    let words = ["N", " 7", "GOOG ", "\t50", "20", " S ", "9\n"];
    match parse_new_command(&words) {
        Ok(Command::New(order)) => {
            assert_eq!(order.user_id, 7);
            assert_eq!(order.symbol, "GOOG");
            assert_eq!(order.price, 50);
            assert_eq!(order.quantity, 20);
            assert_eq!(order.side, 'S');
            assert_eq!(order.user_order_id, 9);
        }
        other => panic!("not a new order: {:?}", other),
    }
}

#[test]
fn side_is_the_first_character_of_its_field() {
    assert_eq!(new_order("N,1,IBM,10,100,Buy,1").5, 'B');
    assert_eq!(new_order("N,1,IBM,10,100,x,1").5, 'x');
}

#[test]
fn fields_after_the_last_are_not_looked_at() {
    assert_eq!(
        new_order("N,1,IBM,10,100,B,1,more,and more"),
        (1, 1, "IBM".to_string(), 10, 100, 'B')
    );
    assert!(matches!(parse_line("C,1,2,3"), Ok(Some(Command::Cancel(_)))));
    assert!(matches!(parse_line("F,1,2,3"), Ok(Some(Command::Flush))));
}

#[test]
fn symbol_may_be_empty_or_hold_spaces_inside() {
    assert_eq!(new_order("N,1,,10,100,B,1").2, "");
    assert_eq!(new_order("N,1, A B ,10,100,B,1").2, "A B");
}

#[test]
fn cancel_line() {
    match parse_line("C, 1, 101") {
        Ok(Some(Command::Cancel(cancel))) => {
            assert_eq!(cancel.user_id, 1);
            assert_eq!(cancel.user_order_id, 101);
        }
        other => panic!("not a cancel: {:?}", other),
    }
    match parse_cancel_command(&["C", "18446744073709551615", "+0"]) {
        Ok(Command::Cancel(cancel)) => {
            assert_eq!(cancel.user_id, u64::MAX);
            assert_eq!(cancel.user_order_id, 0);
        }
        other => panic!("not a cancel: {:?}", other),
    }
}

#[test]
fn flush_line() {
    assert!(matches!(parse_line("F"), Ok(Some(Command::Flush))));
    assert!(matches!(parse_line("  F  "), Ok(Some(Command::Flush))));
    assert!(matches!(parse_flush_command(), Ok(Command::Flush)));
}

#[test]
fn comments_and_blank_lines_are_skipped() {
    assert!(matches!(parse_line(""), Ok(None)));
    assert!(matches!(parse_line("   \t "), Ok(None)));
    assert!(matches!(parse_line("# N,1,IBM,10,100,B,1"), Ok(None)));
    assert!(matches!(parse_line("   #comment"), Ok(None)));
    assert!(matches!(parse_line("\u{a0}\u{3000}"), Ok(None)));
}

#[test]
fn tag_is_the_first_character_that_is_not_whitespace() {
    assert_eq!(
        new_order("  N,1,IBM,10,100,B,1"),
        (1, 1, "IBM".to_string(), 10, 100, 'B')
    );
    assert_eq!(new_order("New,1,IBM,10,100,B,1").0, 1);
}

#[test]
fn unrecognized_tag() {
    assert!(matches!(parse_line("X,1,2"), Err(ParseError::UnrecognizedCommand)));
    assert!(matches!(parse_line("n,1,IBM,10,100,B,1"), Err(ParseError::UnrecognizedCommand)));
    assert!(matches!(parse_line(",N"), Err(ParseError::UnrecognizedCommand)));
    assert!(matches!(parse_line("1"), Err(ParseError::UnrecognizedCommand)));
}

#[test]
fn missing_field() {
    assert!(matches!(parse_line("N"), Err(ParseError::MissingField)));
    assert!(matches!(parse_line("N,1,IBM,10,100,B"), Err(ParseError::MissingField)));
    assert!(matches!(parse_line("N,1,IBM,10,100"), Err(ParseError::MissingField)));
    assert!(matches!(parse_line("N,1,IBM,10,100, ,1"), Err(ParseError::MissingField)));
    assert!(matches!(parse_line("C,1"), Err(ParseError::MissingField)));
    assert!(matches!(parse_new_command(&[]), Err(ParseError::MissingField)));
    assert!(matches!(parse_cancel_command(&["C"]), Err(ParseError::MissingField)));
}

#[test]
fn invalid_number() {
    assert!(matches!(parse_line("N,one,IBM,10,100,B,1"), Err(ParseError::InvalidNumber)));
    assert!(matches!(parse_line("N,1,IBM,1.5,100,B,1"), Err(ParseError::InvalidNumber)));
    assert!(matches!(parse_line("N,1,IBM,10,-100,B,1"), Err(ParseError::InvalidNumber)));
    assert!(matches!(parse_line("N,1,IBM,10,100,B,"), Err(ParseError::InvalidNumber)));
    assert!(matches!(parse_line("N,1,IBM,10,100,B,+"), Err(ParseError::InvalidNumber)));
    assert!(matches!(parse_line("N,1,IBM,10,100,B,1 2"), Err(ParseError::InvalidNumber)));
    assert!(matches!(parse_line("C,1,0x10"), Err(ParseError::InvalidNumber)));
    assert!(matches!(
        parse_line("C,1,18446744073709551616"),
        Err(ParseError::InvalidNumber)
    ));
    assert!(matches!(
        parse_line("C,1,99999999999999999999999999"),
        Err(ParseError::InvalidNumber)
    ));
}

#[test]
fn the_first_wrong_field_decides_the_error() {
    assert!(matches!(parse_line("N,x,IBM"), Err(ParseError::InvalidNumber)));
    assert!(matches!(parse_line("N,1,IBM,10,100,,x"), Err(ParseError::MissingField)));
    assert!(matches!(parse_line("N,1,IBM,x"), Err(ParseError::InvalidNumber)));
    assert!(matches!(parse_line("C,x"), Err(ParseError::InvalidNumber)));
}

#[test]
fn numbers_agree_with_the_standard_library() {
    for text in ["0", "7", "+7", "007", "18446744073709551615", "00018446744073709551615"] {
        let line = format!("C,{},1", text);
        match parse_line(&line) {
            Ok(Some(Command::Cancel(cancel))) => {
                assert_eq!(cancel.user_id, text.parse::<u64>().unwrap())
            }
            other => panic!("not a cancel: {:?}", other),
        }
    }
    for text in ["", "+", "-1", "++1", "1+", "1_000", "٣", "18446744073709551616", "1e3"] {
        assert!(text.parse::<u64>().is_err());
        let line = format!("C,{},1", text);
        assert!(matches!(parse_line(&line), Err(ParseError::InvalidNumber)));
    }
}

#[test]
fn lines_are_read_in_order() {
    let lines = vec![
        "# two orders, a cancel and a flush".to_string(),
        "N, 1, IBM, 10, 100, B, 1".to_string(),
        "".to_string(),
        "N, 2, IBM, 11, 100, S, 102".to_string(),
        "C, 1, 1".to_string(),
        "F".to_string(),
    ];
    let commands = parse_lines(&lines).unwrap();
    assert_eq!(commands.len(), 4);
    assert!(matches!(&commands[0], Command::New(order) if order.user_id == 1));
    assert!(matches!(&commands[1], Command::New(order) if order.user_order_id == 102));
    assert!(matches!(&commands[2], Command::Cancel(cancel) if cancel.user_order_id == 1));
    assert!(matches!(&commands[3], Command::Flush));
}

#[test]
fn one_wrong_line_fails_the_batch() {
    let lines = vec![
        "N, 1, IBM, 10, 100, B, 1".to_string(),
        "C, 1".to_string(),
        "Q".to_string(),
    ];
    assert!(matches!(parse_lines(&lines), Err(ParseError::MissingField)));
    assert!(parse_lines(&[]).unwrap().is_empty());
}

#[test]
fn whitespace_agrees_with_the_standard_library() {
    for code in 0..0x11_0000u32 {
        if let Some(c) = char::from_u32(code) {
            let line = c.to_string();
            let skipped = matches!(parse_line(&line), Ok(None));
            assert_eq!(skipped, c.is_whitespace() || c == '#', "U+{:04X}", code);
        }
    }
}

#[test]
fn fields_are_trimmed_as_the_standard_library_trims() {
    for symbol in ["IBM", " IBM", "IBM\t", "\u{2003}IBM\u{a0}", " I B M ", "\r\n", ""] {
        let line = format!("N,1,{},10,100,B,1", symbol);
        assert_eq!(new_order(&line).2, symbol.trim());
    }
}
