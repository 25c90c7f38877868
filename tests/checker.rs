use mylang::checked_program::{CheckError, CheckedProgram};
use mylang::parser::parse_program;
use mylang::tokenizer::tokenize;

fn check_source(input: &str) -> Result<CheckedProgram, CheckError> {
    let ast = match parse_program(tokenize(input)) {
        Ok(ast) => ast,
        Err(_) => panic!("Error in parsing"),
    };
    CheckedProgram::check(ast)
}

fn assert_some_error(msg: &str, input: &str) {
    if check_source(input).is_ok() {
        panic!("Expected error: {}", msg);
    }
}

#[test]
fn test_check_program_errors() {
    assert_some_error(
        "Duplicate variable name in function",
        r#"
        fn main() -> u64 {
            let a: u64 = 5;
            let a: u64 = 6;
        }
        "#,
    );

    assert_some_error(
        "Duplicate parameter name in function",
        r#"fn main(a: u64, a: u64) -> u64 {}"#,
    );

    assert_some_error("No main function found", r#""#);

    assert_some_error(
        "Duplicate function name",
        r#"
        fn main() -> u64 {}
        fn add() -> u64 {}
        fn add() -> u64 {}
        "#,
    );

    assert_some_error(
        "Variable not found",
        r#"
        fn main() -> u64 {
            a = 5;
        }
        "#,
    );
}

#[test]
fn test_type_mismatches() {
    assert_some_error(
        "Type mismatch in let statement",
        r#"fn main() -> u64 {
            let a: u64 = 5;
            let b: i64 = a + 5;
            }
            "#,
    );

    assert_some_error(
        "Type mismatch in return statement",
        r#"fn main() -> u64 {}
            fn add(a: u64) -> i64 {
                return a;
            }
            "#,
    );

    assert_some_error(
        "Type mismatch in binary operation",
        r#"fn main() -> u64 {}
            fn add(a: u64, b: i64) -> u64 {
                let c: u64 = a + b;
            }
            "#,
    );
    assert_some_error(
        "Type mismatch in parameter",
        r#"fn main() -> u64 {
            let a: u64 = 5;
            add(a);
            }
            fn add(a: i64) -> u64 {}
            "#,
    );

    assert_some_error(
        "Type mismatch in function return",
        r#"fn main() -> u64 {
            let a: u64 = add(5);
            }
            fn add(a: u64) -> i64 {}
            "#,
    );
}

#[test]
fn globals_resolve_in_dependency_order() {
    let cp = check_source("global a: u64 = b + 1; global b: u64 = 2; fn main() -> u64 {}").ok().unwrap();
    assert_eq!(cp.program_env.global_values, vec![3, 2]);
    assert_eq!(cp.program_env.globals_def[0].name, "a");
    assert_eq!(cp.program_env.globals_def[1].name, "b");
}

#[test]
fn globals_chain_and_arithmetic() {
    let cp = check_source(
        "global c: u64 = a * b - 4 / 2 % 3; global a: u64 = b + 1; global b: u64 = 6; fn main() -> u64 {}",
    )
    .ok()
    .unwrap();
    assert_eq!(cp.program_env.global_values, vec![40, 7, 6]);
}

#[test]
fn globals_cycle_is_an_error() {
    let r = check_source("global a: u64 = b; global b: u64 = a; fn main() -> u64 {}");
    let e = r.err().unwrap();
    assert_eq!(e.msg, "Cyclic dependency in global variables");
}

#[test]
fn global_self_reference_is_a_cycle() {
    assert!(check_source("global a: u64 = a + 1; fn main() -> u64 {}").is_err());
}

#[test]
fn global_division_by_zero_is_an_error() {
    assert!(check_source("global a: u64 = 1 / 0; fn main() -> u64 {}").is_err());
}

#[test]
fn global_overflow_is_an_error() {
    assert!(check_source("global a: u64 = 9223372036854775807 + 1; fn main() -> u64 {}").is_err());
}

#[test]
fn global_with_comparison_or_call_is_an_error() {
    assert!(check_source("global a: u64 = 1 == 1; fn main() -> u64 {}").is_err());
    assert!(check_source("global a: u64 = main(); fn main() -> u64 {}").is_err());
}

#[test]
fn global_unknown_name_is_an_error() {
    assert!(check_source("global a: u64 = z; fn main() -> u64 {}").is_err());
}

#[test]
fn duplicate_parameter_reports_its_span() {
    let e = check_source("fn main() -> u64 {} fn f(a: u64, a: u64) -> u64 {}").err().unwrap();
    assert_eq!(e.msg, "Duplicate parameter name a in function f");
    assert_eq!(e.fi.offset, 33);
}

#[test]
fn duplicate_local_in_nested_block_is_an_error() {
    assert!(check_source(
        "fn main() -> u64 { let a: u64 = 1; if (a == 1) { let a: u64 = 2; } }"
    )
    .is_err());
}

#[test]
fn main_with_parameters_does_not_count() {
    let e = check_source("fn main(a: u64) -> u64 {}").err().unwrap();
    assert_eq!(e.msg, "No main function found");
}

#[test]
fn condition_must_be_a_comparison() {
    assert!(check_source("fn main() -> u64 { let a: u64 = 1; while (a + 1) { a = 2; } }").is_err());
    assert!(check_source("fn main() -> u64 { let a: u64 = 1; while (a < 3) { a = a + 1; } }").is_ok());
}

#[test]
fn call_with_wrong_argument_count_is_an_error() {
    assert!(check_source("fn main() -> u64 { f(1, 2); } fn f(a: u64) -> u64 {}").is_err());
}

#[test]
fn environments_record_slots() {
    let cp = check_source(
        "fn main() -> u64 { let x: u64 = 1; if (x == 1) { let y: u64 = 2; } } fn f(a: u64, b: i64) -> i64 { return b; }",
    )
    .ok()
    .unwrap();
    let main_env = &cp.function_envs[0];
    assert_eq!(main_env.local_variables.len(), 2);
    assert_eq!(main_env.get_local_pos("y"), Some(1));
    let f_env = &cp.function_envs[1];
    assert_eq!(f_env.get_param_pos("b"), Some(1));
    assert_eq!(f_env.get_local_pos("b"), None);
    assert!(cp.program_env.get_signature("f").is_some());
    assert!(cp.program_env.get_signature("g").is_none());
    assert!(cp.program_env.get_var("a", f_env).is_some());
    assert!(cp.program_env.get_global_def("a").is_none());
}

#[test]
fn parameters_shadow_globals() {
    let cp = check_source("global a: u64 = 1; fn main() -> u64 {} fn f(a: i64) -> i64 { return a; }").ok().unwrap();
    let v = cp.program_env.get_var("a", &cp.function_envs[1]).unwrap();
    assert!(v.ttype.eq(&mylang::ast::Type_::I64(mylang::file_info::FileInfo::zero())));
}

#[test]
fn call_to_unknown_function_is_an_error() {
    let e = check_source("fn main() -> u64 { g(); }").err().unwrap();
    assert_eq!(e.msg, "Function g not found");
}

#[test]
fn assignment_to_unknown_variable_names_it() {
    let e = check_source("fn main() -> u64 { a = 5; }").err().unwrap();
    assert_eq!(e.msg, "Variable a not found");
}

#[test]
fn comparison_condition_with_mismatched_sides_is_an_error() {
    let e = check_source("fn main() -> u64 {} fn f(a: i64) -> u64 { if (a < 1) { } }").err().unwrap();
    assert_eq!(e.msg, "Type mismatch in binary operation: i64 and u64");
}

#[test]
fn well_typed_program_checks() {
    let cp = check_source(
        "global n: u64 = 3; fn main() -> u64 { let s: u64 = 0; let i: u64 = 0; while (i < n) { s = s + sq(i); i = i + 1; } return s; } fn sq(x: u64) -> u64 { return x * x; }",
    );
    assert!(cp.is_ok());
}

#[test]
fn duplicate_local_names_it_and_carries_the_later_let_span() {
    let e = check_source("fn main() -> u64 { let a: u64 = 5; let a: u64 = 6; }").err().unwrap();
    assert_eq!(e.msg, "Duplicate variable name a in function main");
    assert_eq!(e.fi.offset, 35);
    assert_eq!(e.fi.length, 15);
}

#[test]
fn wrong_argument_count_gives_both_counts() {
    let e = check_source("fn main() -> u64 { f(1, 2); } fn f(a: u64) -> u64 {}").err().unwrap();
    assert_eq!(e.msg, "Function f takes 1 parameters, 2 given");
}
