use brainfuck_compiler::lex::{lex, Token};

#[test]
fn lex_empty_is_empty() {
    assert_eq!(lex(String::new()).len(), 0);
}

#[test]
fn lex_coalesces_runs() {
    assert_eq!(lex(">>>".to_string()), vec![Token::MoveR(3)]);
    assert_eq!(lex("+".to_string()), vec![Token::Inc(1)]);
    assert_eq!(lex("<<".to_string()), vec![Token::MoveL(2)]);
    assert_eq!(lex("----".to_string()), vec![Token::Dec(4)]);
}

#[test]
fn lex_single_symbols() {
    assert_eq!(
        lex(".,[]".to_string()),
        vec![Token::Write, Token::Read, Token::JmpZero, Token::JmpNoZero]
    );
}

#[test]
fn lex_drops_commentary() {
    // commentary alone gives nothing
    assert_eq!(lex("hello world\n".to_string()).len(), 0);
    // commentary between runs leaves the neighbouring counts untouched
    assert_eq!(
        lex("++ comment ++".to_string()),
        vec![Token::Inc(2), Token::Inc(2)]
    );
    // commentary around single symbols changes nothing
    assert_eq!(
        lex("a.b,c".to_string()),
        vec![Token::Write, Token::Read]
    );
}

#[test]
fn lex_mixed_runs() {
    assert_eq!(
        lex("+++.".to_string()),
        vec![Token::Inc(3), Token::Write]
    );
    assert_eq!(
        lex("[-]".to_string()),
        vec![Token::JmpZero, Token::Dec(1), Token::JmpNoZero]
    );
    assert_eq!(
        lex("><".to_string()),
        vec![Token::MoveR(1), Token::MoveL(1)]
    );
}
