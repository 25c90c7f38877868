use mylang::checked_program::CheckedProgram;
use mylang::code_generation::{can_lower, compile, CodeGenerator};
use mylang::parser::parse_program;
use mylang::tokenizer::tokenize;

const PRELUDE: &str = "
global _start
section .text
_start:
    call main
    ; exit syscall
    mov rax, 60
    xor rdi, rdi ; exit code 0
    syscall


";

fn compile_source(src: &str) -> String {
    let prog = parse_program(tokenize(src)).ok().unwrap();
    compile(prog).ok().unwrap()
}

#[test]
fn main_returns_forty_two_through_the_return_slot() {
    let text = compile_source("fn main() -> u64 { return 40 + 2; }");
    let expected = String::from(PRELUDE)
        + "main:\n\t; prologue\n\tpush rbp\n\tmov rbp, rsp\n\tsub rsp, 0\n\t; body\n"
        + "\tmov rax, 40\n\tpush rax\n\tmov rax, 2\n\tmov rbx, rax\n\tpop rax\n\tadd rax, rbx\n"
        + "\tmov [rbp + 16], rax\n\tadd rsp, 0\n\tpop rbp\n\tret\n"
        + "\t; epilogue\n\tadd rsp, 0\n\tpop rbp\n\tret\n"
        + "\n\nsection .data\n";
    assert_eq!(text, expected);
}

#[test]
fn locals_parameters_and_globals_are_addressed() {
    let text = compile_source(
        "global g: u64 = 7; fn main() -> u64 { let x: u64 = f(1, 2); x = g; } fn f(a: u64, b: u64) -> u64 { return a - b; }",
    );
    assert!(text.contains("main:\n\t; prologue\n\tpush rbp\n\tmov rbp, rsp\n\tsub rsp, 8\n"));
    assert!(text.contains(
        "\tmov rax, 1\n\tpush rax\n\tmov rax, 2\n\tpush rax\n\tsub rsp, 8\n\tcall f\n\tmov rax, [rsp]\n\tadd rsp, 24\n\tmov [rbp - 8], rax\n"
    ));
    assert!(text.contains("\tmov rax, [g]\n\tmov [rbp - 8], rax\n"));
    assert!(text.contains("\tmov rax, [rbp + 32]\n\tpush rax\n\tmov rax, [rbp + 24]\n"));
    assert!(text.ends_with("section .data\ng dq 7\n"));
}

#[test]
fn control_flow_lowers_with_negated_and_direct_jumps() {
    let text = compile_source(
        "fn main() -> u64 { let a: u64 = 0; if (a < 1) { a = 1; } else { a = 2; } while (a > 0) { a = a - 1; } do { a = a + 1; } while (a != 3); }",
    );
    assert!(text.contains("if_condition_0:\n"));
    assert!(text.contains("\tcmp rbx, rax\n\tjge else_0\nif_body_0:\n"));
    assert!(text.contains("\tjmp end_0\nelse_0:\n"));
    assert!(text.contains("while_condition_1:\n"));
    assert!(text.contains("\tjle while_end_1\nwhile_body_1:\n"));
    assert!(text.contains("\tjmp while_condition_1\nwhile_end_1:\n"));
    assert!(text.contains("do_while_body_2:\n"));
    assert!(text.contains("\tjne do_while_body_2\ndo_while_end_2:\n"));
}

#[test]
fn nested_constructs_take_distinct_labels() {
    let text = compile_source(
        "fn main() -> u64 { let a: u64 = 0; while (a < 5) { if (a == 2) { a = 4; } a = a + 1; } if (a > 1) { a = 0; } }",
    );
    assert!(text.contains("while_condition_0:\n"));
    assert!(text.contains("if_condition_1:\n"));
    assert!(text.contains("if_condition_2:\n"));
}

#[test]
fn division_and_modulo_sign_extend() {
    let text = compile_source("fn main() -> u64 { let a: u64 = 7 / 2; let b: u64 = 7 % 2; let c: u64 = 3 * 2; }");
    assert!(text.contains("\tpop rax\n\tcqo\n\tdiv rbx\n\tmov [rbp - 8], rax\n"));
    assert!(text.contains("\tpop rax\n\tcqo\n\tdiv rbx\n\tmov rax, rdx\n\tmov [rbp - 16], rax\n"));
    assert!(text.contains("\tpop rax\n\tmul rbx\n"));
}

#[test]
fn asm_block_substitutes_addresses() {
    let src = "fn main() -> u64 {\n let a: u64 = 1;\n asm {\n mov rax, 60\n mov rdi, {a}\n syscall\n }\n}";
    let text = compile_source(src);
    assert!(text.contains("\tmov rax, 60\n\tmov rdi, [rbp - 8]\n\tsyscall\n"));
}

#[test]
fn comparison_as_a_value_is_refused() {
    let prog = parse_program(tokenize("fn main() -> u64 { let a: u64 = 1 == 1; }")).ok().unwrap();
    assert!(!can_lower(&prog));
    assert!(compile(prog).is_err());
}

#[test]
fn generate_code_on_a_checked_program() {
    let prog = parse_program(tokenize("global h: i64 = 0 - 5; fn main() -> u64 {}")).ok().unwrap();
    let cp = CheckedProgram::check(prog).ok().unwrap();
    let text = CodeGenerator::generate_code(cp);
    assert!(text.ends_with("section .data\nh dq -5\n"));
}

#[test]
fn compile_reports_check_errors() {
    let prog = parse_program(tokenize("fn f() -> u64 {}")).ok().unwrap();
    let e = compile(prog).err().unwrap();
    assert_eq!(e.msg, "No main function found");
}

#[test]
fn asm_text_after_the_last_line_break_is_kept() {
    let text = compile_source("fn main() -> u64 { asm { syscall } }");
    assert!(text.contains("\t; body\n\tsyscall \n\t; epilogue\n"));
}

#[test]
fn asm_variable_that_does_not_exist_is_refused() {
    let prog = parse_program(tokenize("fn main() -> u64 {\n asm {\n mov rax, {nowhere}\n }\n}")).ok().unwrap();
    let e = compile(prog).err().unwrap();
    assert_eq!(e.msg, "Variable in asm block not found");
}
