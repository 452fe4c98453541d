use brainfuck_compiler::ast::{parse, Error, NodeBlock, NodeStatement, Statement};
use brainfuck_compiler::lex::Token;

#[test]
fn parse_statement() {
    let input = vec![Token::MoveL(1)];
    let (rest, ast) = NodeStatement::parse(&input).unwrap();
    assert_eq!(rest.len(), 0);
    assert_eq!(ast.stat, Statement::MoveL(1));

    let input = vec![Token::MoveR(1)];
    let (rest, ast) = NodeStatement::parse(&input).unwrap();
    assert_eq!(rest.len(), 0);
    assert_eq!(ast.stat, Statement::MoveR(1));
}

#[test]
fn parse_block_1() {
    let input = vec![Token::MoveL(1), Token::MoveR(1)];
    let (rest, ast) = NodeBlock::parse(&input).unwrap();
    assert_eq!(rest.len(), 0);
    assert_eq!(ast.stats.len(), 2);
    assert_eq!(ast.stats[0].stat, Statement::MoveL(1));
    assert_eq!(ast.stats[1].stat, Statement::MoveR(1));
}

#[test]
fn parse_block_2() {
    let input = vec![
        Token::MoveL(1),
        Token::JmpZero,
        Token::MoveR(1),
        Token::JmpNoZero,
    ];
    let (rest, ast) = NodeBlock::parse(&input).unwrap();
    assert_eq!(rest.len(), 0);
    assert_eq!(ast.stats.len(), 2);
    assert_eq!(ast.stats[0].stat, Statement::MoveL(1));

    if let Statement::Loop(block) = &ast.stats[1].stat {
        assert_eq!(block.stats.len(), 1);
        assert_eq!(block.stats[0].stat, Statement::MoveR(1));
    } else {
        panic!("Expected loop statement");
    }
}

#[test]
fn parse_empty_input_gives_empty_block() {
    let input: Vec<Token> = vec![];
    let ast = parse(&input).unwrap();
    assert_eq!(ast.stats.len(), 0);
}

#[test]
fn parse_balanced_nesting_depth() {
    // [[[]]] parses to loops nested exactly three deep
    let input = vec![
        Token::JmpZero,
        Token::JmpZero,
        Token::JmpZero,
        Token::JmpNoZero,
        Token::JmpNoZero,
        Token::JmpNoZero,
    ];
    let ast = parse(&input).unwrap();
    assert_eq!(ast.stats.len(), 1);
    let mut depth = 0;
    let mut cur: &NodeBlock = &ast;
    while cur.stats.len() == 1 {
        if let Statement::Loop(inner) = &cur.stats[0].stat {
            depth += 1;
            cur = inner;
        } else {
            break;
        }
    }
    assert_eq!(depth, 3);
    assert_eq!(cur.stats.len(), 0);
}

#[test]
fn parse_unmatched_open_is_end_of_input() {
    let input = vec![Token::JmpZero];
    match parse(&input) {
        Err(Error::EndOfInput) => {}
        other => panic!("expected EndOfInput, got {:?}", other),
    }
    let input = vec![Token::Inc(2), Token::JmpZero, Token::Write];
    match parse(&input) {
        Err(Error::EndOfInput) => {}
        other => panic!("expected EndOfInput, got {:?}", other),
    }
}

#[test]
fn parse_stray_close_is_unexpected_token() {
    let input = vec![Token::JmpNoZero];
    match parse(&input) {
        Err(Error::UnexpectedToken(Token::JmpNoZero)) => {}
        other => panic!("expected UnexpectedToken, got {:?}", other),
    }
    let input = vec![Token::JmpZero, Token::JmpNoZero, Token::JmpNoZero];
    match parse(&input) {
        Err(Error::UnexpectedToken(Token::JmpNoZero)) => {}
        other => panic!("expected UnexpectedToken, got {:?}", other),
    }
}

#[test]
fn parse_loop_body_statements() {
    // "[-]" as tokens: a loop holding one subtract
    let input = vec![Token::JmpZero, Token::Dec(1), Token::JmpNoZero];
    let ast = parse(&input).unwrap();
    assert_eq!(ast.stats.len(), 1);
    if let Statement::Loop(block) = &ast.stats[0].stat {
        assert_eq!(block.stats.len(), 1);
        assert_eq!(block.stats[0].stat, Statement::Sub(1));
    } else {
        panic!("Expected loop statement");
    }
}

#[test]
fn debug_view_prints_tree() {
    let input = vec![
        Token::MoveL(1),
        Token::JmpZero,
        Token::Dec(12),
        Token::JmpNoZero,
    ];
    let ast = parse(&input).unwrap();
    assert_eq!(
        ast.to_text(),
        "Block\n  MoveL(1)\n  Loop\n    Block\n      Sub(12)\n"
    );
}
