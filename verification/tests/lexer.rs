use qarrot_optimizer::error::ParseError;
use qarrot_optimizer::input::lexer::{Pauli, Token, TokenIterator};
use qarrot_optimizer::operation::phase::Phase;

fn tokens(src: &str) -> Vec<Token> {
    let mut lexer = TokenIterator::new(src.as_bytes());
    let mut out = Vec::new();
    while let Some(token) = lexer.next().unwrap() {
        out.push(token);
    }
    out
}

fn first_error(src: &str) -> ParseError {
    let mut lexer = TokenIterator::new(src.as_bytes());
    loop {
        match lexer.next() {
            Ok(Some(_)) => {},
            Ok(None) => panic!("no error in {:?}", src),
            Err(e) => return e,
        }
    }
}

#[test]
fn test_end() {
    let src = "End\n";
    let tok = tokens(src);
    assert_eq!(tok.len(), 1);
    assert_eq!(tok[0], Token::End);

    // test with windows line ending and extraneous spaces
    let src = "End\r\n";
    let tok = tokens(src);
    assert_eq!(tok.len(), 1);
    assert_eq!(tok[0], Token::End);

    let src = "  End \n";
    let tok = tokens(src);
    assert_eq!(tok.len(), 1);
    assert_eq!(tok[0], Token::End);
}

#[test]
fn test_repeat() {
    let toks = tokens("Repeat 25\n");
    assert_eq!(toks.len(), 1);
    assert_eq!(toks[0], Token::Repeat(25));

    let toks = tokens(" Repeat 25\r\n");
    assert_eq!(toks.len(), 1);
    assert_eq!(toks[0], Token::Repeat(25));
}

#[test]
fn test_measure() {
    let toks = tokens("Measure +: IXYZ\r\n");
    assert_eq!(toks.len(), 5);
    assert_eq!(toks[0], Token::Measure(Phase::Positive));
    assert_eq!(toks[1], Token::Pauli(Pauli::I));
    assert_eq!(toks[2], Token::Pauli(Pauli::X));
    assert_eq!(toks[3], Token::Pauli(Pauli::Y));
    assert_eq!(toks[4], Token::Pauli(Pauli::Z));

    let toks = tokens(" Measure  - :  IXYZ \n");
    assert_eq!(toks.len(), 5);
    assert_eq!(toks[0], Token::Measure(Phase::Negative));
    assert_eq!(toks[1], Token::Pauli(Pauli::I));
    assert_eq!(toks[2], Token::Pauli(Pauli::X));
    assert_eq!(toks[3], Token::Pauli(Pauli::Y));
    assert_eq!(toks[4], Token::Pauli(Pauli::Z));
}

#[test]
fn test_rotate() {
    let toks = tokens("Rotate -2: IXYZ  \r\n");
    assert_eq!(toks.len(), 5);
    assert_eq!(toks[0], Token::Rotate(-2));
    assert_eq!(toks[1], Token::Pauli(Pauli::I));
    assert_eq!(toks[2], Token::Pauli(Pauli::X));
    assert_eq!(toks[3], Token::Pauli(Pauli::Y));
    assert_eq!(toks[4], Token::Pauli(Pauli::Z));

    let toks = tokens("Rotate 1: IXYZ\n");
    assert_eq!(toks.len(), 5);
    assert_eq!(toks[0], Token::Rotate(1));
    assert_eq!(toks[1], Token::Pauli(Pauli::I));
    assert_eq!(toks[2], Token::Pauli(Pauli::X));
    assert_eq!(toks[3], Token::Pauli(Pauli::Y));
    assert_eq!(toks[4], Token::Pauli(Pauli::Z));
}

#[test]
fn test_first_line() {
    let src = r#"
Measure +: XYZI
Repeat 5
  Rotate 2: XYZI
End"#;
    let mut tok_iter = TokenIterator::new(src.as_bytes());
    let mut buf = Vec::new();

    tok_iter.pop_line(&mut buf).unwrap();
    assert_eq!(buf.len(), 5);
    assert_eq!(buf[0], Token::Measure(Phase::Positive));

    // count the rest of the tokens
    let mut rest_toks = Vec::new();
    while let Some(token) = tok_iter.next().unwrap() {
        rest_toks.push(token);
    }
    assert_eq!(rest_toks.len(), 1 + 1 + 4 + 1);
}

#[test]
fn blank_lines_are_skipped_and_counted() {
    assert_eq!(tokens("\n   \n\t\r\nEnd\n\n"), vec![Token::End]);
    assert_eq!(tokens(""), vec![]);
    assert_eq!(tokens("\n\n"), vec![]);
    assert_eq!(first_error("\n\nfoo\n"), ParseError::UnrecognizedLine { line: 3 });
}

#[test]
fn peek_does_not_take_the_token() {
    let mut lexer = TokenIterator::new(b"Repeat 2\nEnd\n");
    assert_eq!(lexer.peek().unwrap(), Some(&Token::Repeat(2)));
    assert_eq!(lexer.peek().unwrap(), Some(&Token::Repeat(2)));
    assert_eq!(lexer.pop().unwrap(), Some(Token::Repeat(2)));
    assert_eq!(lexer.peek().unwrap(), Some(&Token::End));
    assert_eq!(lexer.next().unwrap(), Some(Token::End));
    assert_eq!(lexer.peek().unwrap(), None);
    assert_eq!(lexer.next().unwrap(), None);
}

#[test]
fn each_lexer_error() {
    assert_eq!(first_error("Rotate 1: Z\u{e9}\n"), ParseError::NonAscii { line: 1 });
    assert_eq!(first_error("Rotate 1 Z\n"), ParseError::UnrecognizedLine { line: 1 });
    assert_eq!(first_error("Rotate 1: ZA\n"), ParseError::UnrecognizedLine { line: 1 });
    assert_eq!(first_error("Rotate 1: xz\n"), ParseError::UnrecognizedLine { line: 1 });
    assert_eq!(first_error("Measure *: Z\n"), ParseError::UnrecognizedLine { line: 1 });
    assert_eq!(first_error("End 3\n"), ParseError::UnrecognizedLine { line: 1 });
    assert_eq!(first_error("Repeat\n"), ParseError::UnrecognizedLine { line: 1 });
    assert_eq!(first_error("Repeat -1\n"), ParseError::UnrecognizedLine { line: 1 });
    assert_eq!(first_error("\x0b\n"), ParseError::UnrecognizedLine { line: 1 });
    assert_eq!(first_error("Repeat 4294967296\n"), ParseError::BadRepeatCount { line: 1 });
    assert_eq!(first_error("End\nRotate 3: Z\n"), ParseError::AngleTooLarge { line: 2 });
    assert_eq!(first_error("Rotate -3: Z\n"), ParseError::AngleTooLarge { line: 1 });
    assert_eq!(first_error("Rotate 128: Z\n"), ParseError::BadAngle { line: 1 });
    assert_eq!(first_error("Rotate -129: Z\n"), ParseError::BadAngle { line: 1 });
    assert_eq!(first_error("Rotate -128: Z\n"), ParseError::AngleTooLarge { line: 1 });
}

#[test]
fn numbers_at_their_limits() {
    assert_eq!(tokens("Repeat 4294967295\n"), vec![Token::Repeat(u32::MAX)]);
    assert_eq!(tokens("Repeat 0007\n"), vec![Token::Repeat(7)]);
    assert_eq!(tokens("Rotate -0: Z"), vec![Token::Rotate(0), Token::Pauli(Pauli::Z)]);
    assert_eq!(tokens("\x0bEnd\x0c"), vec![Token::End]);
}

#[test]
fn an_end_of_text_mark_ends_a_line() {
    assert_eq!(tokens("End\x03End\x04End"), vec![Token::End, Token::End, Token::End]);
}

#[test]
fn pauli_letters_in_either_case() {
    assert_eq!(Pauli::try_from_char('x'), Ok(Pauli::X));
    assert_eq!(Pauli::try_from_char('Y'), Ok(Pauli::Y));
    assert_eq!(Pauli::try_from_char('i'), Ok(Pauli::I));
    assert_eq!(Pauli::try_from_char('q'), Err('q'));
    assert_eq!(Pauli::try_from_byte(b'Z'), Some(Pauli::Z));
    assert_eq!(Pauli::try_from_byte(b'0'), None);
}
