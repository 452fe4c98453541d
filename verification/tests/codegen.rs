use brainfuck_compiler::ast::{parse, Error};
use brainfuck_compiler::compile;
use brainfuck_compiler::gen::QbeGenerator;
use brainfuck_compiler::lex::{lex, Token};

#[test]
fn compile_empty_program() {
    let out = compile(String::new()).unwrap();
    assert!(out.contains("function w $main()"));
    assert!(out.contains("@runtime"));
    assert!(out.contains("alloc8 480000"));
    assert!(out.contains("%ptr =l copy %tape"));
    assert!(out.contains("@start"));
    assert!(out.contains("ret 0"));
    // only the prologue and the final return: no loops, no guards
    assert_eq!(out.matches("@halt").count(), 0);
    assert_eq!(out.matches("@loop").count(), 0);
    assert_eq!(out.matches("ret 1").count(), 0);
}

#[test]
fn compile_add_then_write_in_order() {
    let out = compile("+++.".to_string()).unwrap();
    let load = out.find("%v0 =w loadw %ptr").expect("load missing");
    let add = out.find("%v0 =w add %v0, 3").expect("add missing");
    let store = out.find("storew %v0, %ptr").expect("store missing");
    let call = out
        .find("call $write(w 1, l %ptr, l 1)")
        .expect("write call missing");
    assert!(load < add && add < store && store < call);
    assert_eq!(out.matches("loadw").count(), 1);
}

#[test]
fn compile_clear_cell_idiom() {
    let out = compile("[-]".to_string()).unwrap();
    assert!(out.contains("%v0 =w loadw %ptr"));
    assert!(out.contains("jnz %v0, @loop0, @end0"));
    assert!(out.contains("@loop0"));
    assert!(out.contains("@end0"));
    assert!(out.contains("%v1 =w sub %v1, 1"));
    assert!(out.contains("storew %v1, %ptr"));
}

#[test]
fn compile_read_call() {
    let out = compile(",".to_string()).unwrap();
    assert!(out.contains("call $read(w 0, l %ptr, l 1)"));
}

#[test]
fn compile_is_deterministic() {
    let a = compile("++[>+<-].".to_string()).unwrap();
    let b = compile("++[>+<-].".to_string()).unwrap();
    assert_eq!(a, b);
}

#[test]
fn every_move_gets_one_guard() {
    let out = compile("><".to_string()).unwrap();
    // one guard per pointer move, each directly after its update
    assert_eq!(out.matches("\n@halt").count(), 2);
    assert_eq!(out.matches("ret 1").count(), 2);
    let upd = out.find("%ptr =l add %ptr, 8").expect("move right missing");
    let off = out.find("%v1 =l sub %ptr, %tape").expect("offset missing");
    let cmp = out.find("%v2 =l csgtl 240000, %v1").expect("compare missing");
    assert!(upd < off && off < cmp);
    let upd2 = out.find("%ptr =l sub %ptr, 8").expect("move left missing");
    let off2 = out.find("%v4 =l sub %ptr, %tape").expect("offset missing");
    assert!(upd2 < off2 && cmp < upd2);
    // no other statement kind produces a guard
    let out2 = compile("+-.,[]".to_string()).unwrap();
    assert_eq!(out2.matches("\n@halt").count(), 0);
}

#[test]
fn move_counts_scale_by_stride() {
    let out = compile(">>>".to_string()).unwrap();
    assert!(out.contains("%ptr =l add %ptr, 24"));
    let out = compile("<<".to_string()).unwrap();
    assert!(out.contains("%ptr =l sub %ptr, 16"));
}

#[test]
fn generator_runs_on_parsed_ast() {
    let tokens = lex("+.".to_string());
    let ast = parse(&tokens).unwrap();
    let mut generator = QbeGenerator::new();
    let out = generator.gen(&ast).unwrap();
    assert!(out.contains("export function w $main()"));
    assert!(out.ends_with("\n"));
}

#[test]
fn compile_reports_parse_errors() {
    match compile("[".to_string()) {
        Err(Error::EndOfInput) => {}
        other => panic!("expected EndOfInput, got {:?}", other),
    }
    match compile("+]".to_string()) {
        Err(Error::UnexpectedToken(Token::JmpNoZero)) => {}
        other => panic!("expected UnexpectedToken, got {:?}", other),
    }
}
