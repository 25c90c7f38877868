use mylang::ast::{binop, ASMSegment, Asm, Expression, Function, Let, Op, Parameter, Program, Statement, Type_};
use mylang::file_info::{FileInfo, FI};
use mylang::parser::{parse_asm, parse_expression, parse_params, parse_program, Precedence};
use mylang::tokenizer::{tokenize, Token, TokenType};

type Exp = Expression;

fn add(x: Exp, y: Exp) -> Exp {
    binop(x, Op::Add, y)
}
fn sub(x: Exp, y: Exp) -> Exp {
    binop(x, Op::Sub, y)
}
fn lit(n: u64, fi: FI) -> Exp {
    Exp::U64(n, fi)
}
fn intz(n: u64) -> Exp {
    Exp::U64(n, FI::zero())
}
fn var(name: &str) -> Exp {
    Exp::Var(name.to_string(), FI::zero())
}
fn mul(x: Exp, y: Exp) -> Exp {
    binop(x, Op::Mul, y)
}
fn div(x: Exp, y: Exp) -> Exp {
    binop(x, Op::Div, y)
}
fn eq(x: Exp, y: Exp) -> Exp {
    binop(x, Op::Eq, y)
}
fn ne(x: Exp, y: Exp) -> Exp {
    binop(x, Op::Ne, y)
}
fn lt(x: Exp, y: Exp) -> Exp {
    binop(x, Op::LT, y)
}
fn gt(x: Exp, y: Exp) -> Exp {
    binop(x, Op::GT, y)
}

fn zero_out(exp: &mut Exp) {
    match exp {
        Exp::U64(_, ref mut fi) => *fi = FI::zero(),
        Exp::I64(_, ref mut fi) => *fi = FI::zero(),
        Exp::Var(_, ref mut fi) => *fi = FI::zero(),
        Exp::BinOp(le, _, re, ref mut fi) => {
            *fi = FI::zero();
            zero_out(le);
            zero_out(re);
        }
        Exp::Call(ref mut call) => {
            call.fi = FI::zero();
            call.args.iter_mut().for_each(zero_out);
        }
    }
}

fn parse_zeroed(input: &str) -> Exp {
    let tokens = tokenize(input);
    let (mut e, _) = match parse_expression(&tokens, 0, Precedence::Lowest) {
        Ok(r) => r,
        Err(_) => panic!("parse error"),
    };
    zero_out(&mut e);
    e
}

#[test]
fn test_parse_program() {
    let tokens = tokenize("fn main() -> u64 { let x: u64 = 42 + 1; }");
    let expected = Program {
        globals: Vec::new(),
        functions: vec![Function {
            name: "main".to_string(),
            params: Vec::new(),
            body: vec![Statement::Let(Let {
                name: "x".to_string(),
                ttype: Type_::U64(FI::new(3, 26)),
                value: add(lit(42, FI::new(2, 32)), lit(1, FI::new(1, 37))),
                fi: FI::new(20, 19),
            })],
            ret_type: Type_::U64(FI::new(3, 13)),
            fi: FI::new(41, 0),
        }],
    };

    let p = parse_program(tokens);

    assert_eq!(p, Ok(expected));
}

#[test]
fn test_parse_expression() {
    let cases = vec![
        ("42 + 1 + 2 - 3", sub(add(add(intz(42), intz(1)), intz(2)), intz(3))),
        ("42 + 1 * 2 - 3", sub(add(intz(42), mul(intz(1), intz(2))), intz(3))),
        ("42 + 1 * 2 / 3", add(intz(42), div(mul(intz(1), intz(2)), intz(3)))),
        (
            "42 + 1 * 2 / 3 == 4 + 5 * 6",
            eq(add(intz(42), div(mul(intz(1), intz(2)), intz(3))), add(intz(4), mul(intz(5), intz(6)))),
        ),
        (
            "42 + 1 * 2 / 3 != 4 + 5 * 6",
            ne(add(intz(42), div(mul(intz(1), intz(2)), intz(3))), add(intz(4), mul(intz(5), intz(6)))),
        ),
        (
            "42 + 1 * 2 / 3 < 4 + 5 * 6",
            lt(add(intz(42), div(mul(intz(1), intz(2)), intz(3))), add(intz(4), mul(intz(5), intz(6)))),
        ),
        (
            "42 + 1 * 2 / 3 > 4 + 5 * 6",
            gt(add(intz(42), div(mul(intz(1), intz(2)), intz(3))), add(intz(4), mul(intz(5), intz(6)))),
        ),
    ];

    for (input, expected) in cases {
        let e = parse_zeroed(input);
        assert_eq!(e, expected, "input: {}", input);
    }
}

#[test]
fn test_parse_parameters() {
    let input = "(x: u64, y: u64, z: u64)";
    let tokens = tokenize(input);
    let expected = vec![
        Parameter { name: "x".to_string(), ttype: Type_::U64(FI::zero()), fi: FI::zero() },
        Parameter { name: "y".to_string(), ttype: Type_::U64(FI::zero()), fi: FI::zero() },
        Parameter { name: "z".to_string(), ttype: Type_::U64(FI::zero()), fi: FI::zero() },
    ];

    let p = parse_params(&tokens, 0);
    let (mut p, _) = match p {
        Ok(r) => r,
        Err(_) => panic!("parse error"),
    };
    for par in p.iter_mut() {
        par.fi = FI::zero();
        par.ttype = par.ttype.zero();
    }

    assert_eq!(p, expected);
}

#[test]
fn test_parse_asm() {
    let input = r#"asm {
                mov rax, 42
                mov rdi, {a}
                syscall
            }
        "#;

    let expected = Asm {
        segments: vec![
            ASMSegment::String("mov rax, 42".to_string()),
            ASMSegment::Newline,
            ASMSegment::String("mov rdi, ".to_string()),
            ASMSegment::Variable("a".to_string()),
            ASMSegment::Newline,
            ASMSegment::String("syscall".to_string()),
            ASMSegment::Newline,
        ],
        fi: FI::new(100, 0),
    };

    let tokens = tokenize(input);
    let a = parse_asm(&tokens, 0).map(|(block, _)| block);

    assert_eq!(a, Ok(expected));
}

#[test]
fn comparison_binds_looser_than_arithmetic() {
    assert_eq!(parse_zeroed("a + b == c * d"), eq(add(var("a"), var("b")), mul(var("c"), var("d"))));
}

#[test]
fn same_precedence_groups_left() {
    assert_eq!(parse_zeroed("8 / 4 / 2"), div(div(intz(8), intz(4)), intz(2)));
    assert_eq!(parse_zeroed("1 - 2 + 3"), add(sub(intz(1), intz(2)), intz(3)));
}

#[test]
fn binop_span_covers_operands() {
    let tokens = tokenize("10 + 200");
    let (e, p) = parse_expression(&tokens, 0, Precedence::Lowest).ok().unwrap();
    assert_eq!(e.fi(), FileInfo::new(8, 0));
    assert_eq!(p, 5);
}

#[test]
fn call_expression_with_arguments() {
    let e = parse_zeroed("f(1, x + 2)");
    match e {
        Exp::Call(c) => {
            assert_eq!(c.name, "f");
            assert_eq!(c.args, vec![intz(1), add(var("x"), intz(2))]);
        }
        _ => panic!("not a call"),
    }
}

#[test]
fn statements_of_every_kind_parse() {
    let src = "global g: i64 = 1;\nfn main() -> u64 {\n let a: u64 = 1;\n a = a + 1;\n if (a < 2) { f(a); } else { a = 3; }\n while (a > 0) { a = a - 1; }\n do { a = a + 1; } while (a != 5);\n return a;\n}\nfn f(x: u64) -> u64 { return x; }";
    let p = parse_program(tokenize(src)).ok().unwrap();
    assert_eq!(p.globals.len(), 1);
    assert_eq!(p.functions.len(), 2);
    assert_eq!(p.functions[0].body.len(), 6);
    assert!(matches!(p.functions[0].body[2], Statement::If(_)));
    assert!(matches!(p.functions[0].body[3], Statement::While(_)));
    assert!(matches!(p.functions[0].body[4], Statement::DoWhile(_)));
    assert!(matches!(p.functions[0].body[5], Statement::Return(_)));
}

#[test]
fn missing_semicolon_is_a_parse_error() {
    let e = parse_program(tokenize("fn main() -> u64 { return 1 }")).err().unwrap();
    assert_eq!(e.expected, ";");
    assert_eq!(e.token.token_type, TokenType::RBrace);
}

#[test]
fn running_out_of_tokens_reports_end_of_input() {
    let tokens: Vec<Token> = tokenize("fn main() -> u64 {").into_iter().filter(|t| t.token_type != TokenType::EOF).collect();
    let e = parse_program(tokens).err().unwrap();
    assert_eq!(e.token.token_type, TokenType::EOF);
    assert_eq!(e.token.fi, FI::zero());
}

#[test]
fn illegal_character_is_rejected_by_the_parser() {
    assert!(parse_program(tokenize("fn main() -> u64 { let a: u64 = 1 # 2; }")).is_err());
}

#[test]
fn reparsing_reconstructed_source_gives_the_same_program() {
    let src = "global g: u64 = 2 * 3;\nfn main() -> u64 {\n  let a: u64 = g + 1 * 2 - 3; // note\n  if (a < 2) { a = f(a, 1); } else { a = 0; }\n  do { a = a - 1; } while (a > 0);\n  return a;\n}\nfn f(x: u64, y: u64) -> u64 { return x % y; }";
    let tokens = tokenize(src);
    let rebuilt: String = tokens.iter().map(|t| t.token_type.string()).collect();
    assert_eq!(rebuilt, src);
    let first = parse_program(tokens).ok().unwrap();
    let second = parse_program(tokenize(&rebuilt)).ok().unwrap();
    assert_eq!(first, second);
}

#[test]
fn parameter_list_allows_a_trailing_comma() {
    let tokens = tokenize("(a: u64, b: i64,)");
    let (ps, p) = parse_params(&tokens, 0).ok().unwrap();
    assert_eq!(ps.len(), 2);
    assert_eq!(p, 13);
    assert_eq!(ps[1].name, "b");
    assert_eq!(ps[1].fi, FI::new(6, 9));
}

#[test]
fn top_level_token_that_starts_nothing_is_reported() {
    let tokens = tokenize("  let");
    let e = parse_program(tokens).err().unwrap();
    assert_eq!(e.expected, "function or global");
    assert_eq!(e.token.fi, FI::new(3, 2));
}

#[test]
fn empty_input_is_an_empty_program() {
    let p = parse_program(tokenize(" \n // nothing\n")).ok().unwrap();
    assert!(p.functions.is_empty() && p.globals.is_empty());
}

#[test]
fn asm_on_one_line_keeps_its_text() {
    let tokens = tokenize("asm { push rax }");
    let (block, _) = parse_asm(&tokens, 0).ok().unwrap();
    assert_eq!(block.segments, vec![ASMSegment::String("push rax ".to_string())]);
}

#[test]
fn expression_span_runs_from_first_to_last_token() {
    let tokens = tokenize("  42 + 1 + 2 - 3 ;");
    let (e, p) = parse_expression(&tokens, 0, Precedence::Lowest).ok().unwrap();
    assert_eq!(e.fi(), FI::new(14, 2));
    assert_eq!(tokens[p].token_type, TokenType::Semicolon);
}

#[test]
fn parameter_list_with_blanks_before_commas() {
    let tokens = tokenize("(x: u64 , y: i64 )");
    let (ps, _) = parse_params(&tokens, 0).ok().unwrap();
    assert_eq!(ps.len(), 2);
    assert_eq!(ps[1].name, "y");
}

#[test]
fn malformed_brace_in_asm_is_an_error() {
    let tokens = tokenize("asm { mov rax, {1} }");
    assert!(parse_asm(&tokens, 0).is_err());
}

#[test]
fn program_of_globals_parses() {
    let p = parse_program(tokenize("global a: u64 = 1 + 2 * 3;\nglobal b: i64 = a;")).ok().unwrap();
    assert_eq!(p.globals.len(), 2);
    assert!(p.functions.is_empty());
    assert_eq!(p.globals[1].name, "b");
}
