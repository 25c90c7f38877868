use vstd::prelude::*;
use crate::ast::{ASMSegment, Asm, Assign, Call, DoWhile, Exp, Expression, Function, If, Let, Operator, Program, Statement, Stmt, While};
use crate::checked_program::{
    check_error, body_locals, params_view, scope, var_type,
    env_of, first_index, globals_view, is_fixpoint, program_ok, program_sigs, var_named, CheckError, CheckedProgram, FuncEnv,
    ProgEnv, VarView,
};
use crate::text::{decimal, push_decimal, push_signed_decimal, signed_decimal};

verus! {

/// Label numbers count modulo this.
pub open spec fn label_modulus() -> nat {
    0x1_0000_0000_0000_0000
}

/// An instruction line: a tab, the text, a line break.
pub open spec fn line(s: Seq<char>) -> Seq<char> {
    "\t"@ + s + "\n"@
}

/// A label line.
pub open spec fn label(s: Seq<char>) -> Seq<char> {
    s + ":\n"@
}

/// The label counter after `k` more labels.
pub open spec fn advance(c: u64, k: nat) -> u64 {
    ((c as nat + k) % label_modulus()) as u64
}

/// `name` followed by the label number `c`.
pub open spec fn numbered(name: Seq<char>, c: u64) -> Seq<char> {
    name + decimal(c as nat)
}

/// The operand that addresses variable `name` inside the function of `f`:
/// a parameter above the frame pointer (past the saved frame pointer, the
/// return address and the return-value slot), a local below it, else a
/// global by its symbol.
pub open spec fn var_address(name: Seq<char>, f: FuncEnv) -> Seq<char> {
    match first_index(f.params(), var_named(name)) {
        Some(i) => "[rbp + "@ + decimal(((f.params().len() - 1 - i) * 8 + 24) as nat) + "]"@,
        None => match first_index(f.locals(), var_named(name)) {
            Some(i) => "[rbp - "@ + decimal(((i + 1) * 8) as nat) + "]"@,
            None => "["@ + name + "]"@,
        },
    }
}

/// Combines the left operand in `rax` with the right one in `rbx`.
pub open spec fn op_code(op: Operator) -> Seq<char> {
    match op {
        Operator::Add => line("add rax, rbx"@),
        Operator::Sub => line("sub rax, rbx"@),
        Operator::Mul => line("mul rbx"@),
        Operator::Div => line("cqo"@) + line("div rbx"@),
        Operator::Mod => line("cqo"@) + line("div rbx"@) + line("mov rax, rdx"@),
        _ => Seq::empty(),
    }
}

/// Code that leaves the value of `e` in `rax`.
pub open spec fn expr_code(e: Expression, f: FuncEnv) -> Seq<char>
    decreases e,
{
    match e {
        Expression::U64(n, _) => line("mov rax, "@ + decimal(n as nat)),
        Expression::I64(n, _) => line("mov rax, "@ + signed_decimal(n as int)),
        Expression::Var(name, _) => line("mov rax, "@ + var_address(name@, f)),
        Expression::BinOp(l, op, r, _) => expr_code(*l, f) + line("push rax"@) + expr_code(*r, f) + line(
            "mov rbx, rax"@,
        ) + line("pop rax"@) + op_code(op),
        Expression::Call(c) => call_code(c, f),
    }
}

/// Code that pushes each argument, left to right.
pub open spec fn args_code(args: Seq<Expression>, f: FuncEnv) -> Seq<char>
    decreases args,
{
    if args.len() == 0 {
        Seq::empty()
    } else {
        args_code(args.drop_last(), f) + expr_code(args.last(), f) + line("push rax"@)
    }
}

/// A call: arguments pushed, a slot reserved for the result, the call, the
/// result loaded into `rax`, and the arguments and slot released.
pub open spec fn call_code(c: Call, f: FuncEnv) -> Seq<char>
    decreases c,
{
    args_code(c.args@, f) + line("sub rsp, 8"@) + line("call "@ + c.name@) + line("mov rax, [rsp]"@) + line(
        "add rsp, "@ + decimal((c.args.len() * 8 + 8) as nat),
    )
}

/// Evaluates both sides of a comparison and compares them.
pub open spec fn cond_code(cond: Expression, f: FuncEnv) -> Seq<char> {
    match cond {
        Expression::BinOp(l, _, r, _) => expr_code(*l, f) + line("push rax"@) + expr_code(*r, f) + line("pop rbx"@)
            + line("cmp rbx, rax"@),
        _ => Seq::empty(),
    }
}

/// The jump taken when the comparison does not hold.
pub open spec fn jump_unless(cond: Expression) -> Seq<char> {
    match cond {
        Expression::BinOp(_, Operator::LT, _, _) => "jge"@,
        Expression::BinOp(_, Operator::GT, _, _) => "jle"@,
        Expression::BinOp(_, Operator::Ne, _, _) => "je"@,
        Expression::BinOp(_, Operator::Eq, _, _) => "jne"@,
        _ => Seq::empty(),
    }
}

/// The jump taken when the comparison holds.
pub open spec fn jump_when(cond: Expression) -> Seq<char> {
    match cond {
        Expression::BinOp(_, Operator::LT, _, _) => "jl"@,
        Expression::BinOp(_, Operator::GT, _, _) => "jg"@,
        Expression::BinOp(_, Operator::Ne, _, _) => "jne"@,
        Expression::BinOp(_, Operator::Eq, _, _) => "je"@,
        _ => Seq::empty(),
    }
}

/// Releases the locals, restores the caller's frame pointer and returns.
pub open spec fn epilogue(f: FuncEnv) -> Seq<char> {
    line("add rsp, "@ + decimal((f.locals().len() * 8) as nat)) + line("pop rbp"@) + line("ret"@)
}

/// How many label numbers a statement takes.
pub open spec fn stmt_labels(s: Statement) -> nat
    decreases s,
{
    match s {
        Statement::If(i) => 1 + body_labels(i.body@) + body_labels(i.else_body@),
        Statement::While(w) => 1 + body_labels(w.body@),
        Statement::DoWhile(d) => 1 + body_labels(d.body@),
        _ => 0,
    }
}

pub open spec fn body_labels(ss: Seq<Statement>) -> nat
    decreases ss,
{
    if ss.len() == 0 {
        0
    } else {
        body_labels(ss.drop_last()) + stmt_labels(ss.last())
    }
}

/// The lines of an inline assembly block, and the text of the line still
/// open after it.
pub open spec fn asm_lines(segs: Seq<ASMSegment>, f: FuncEnv) -> (Seq<char>, Seq<char>)
    decreases segs.len(),
{
    if segs.len() == 0 {
        (Seq::empty(), Seq::empty())
    } else {
        let (out, cur) = asm_lines(segs.drop_last(), f);
        match segs.last() {
            ASMSegment::String(s) => (out, cur + s@),
            ASMSegment::Variable(v) => (out, cur + var_address(v@, f)),
            ASMSegment::Newline => (out + line(cur), Seq::empty()),
        }
    }
}

/// The lines of an inline assembly block; text after the last line break
/// makes a line of its own.
pub open spec fn asm_code(segs: Seq<ASMSegment>, f: FuncEnv) -> Seq<char> {
    let (out, cur) = asm_lines(segs, f);
    if cur.len() > 0 {
        out + line(cur)
    } else {
        out
    }
}

/// The code of a statement whose labels are numbered from `c`.
pub open spec fn stmt_code(s: Statement, f: FuncEnv, c: u64) -> Seq<char>
    decreases s,
{
    match s {
        Statement::Let(l) => expr_code(l.value, f) + line("mov "@ + var_address(l.name@, f) + ", rax"@),
        Statement::Assign(a) => expr_code(a.value, f) + line("mov "@ + var_address(a.name@, f) + ", rax"@),
        Statement::Return(r) => expr_code(r.value, f) + line("mov [rbp + 16], rax"@) + epilogue(f),
        Statement::Asm(a) => asm_code(a.segments@, f),
        Statement::Call(call) => call_code(call, f),
        Statement::If(i) => label(numbered("if_condition_"@, c)) + cond_code(i.condition, f) + line(
            jump_unless(i.condition) + " "@ + numbered("else_"@, c),
        ) + label(numbered("if_body_"@, c)) + body_code(i.body@, f, advance(c, 1)) + line(
            "jmp "@ + numbered("end_"@, c),
        ) + label(numbered("else_"@, c)) + body_code(i.else_body@, f, advance(c, 1 + body_labels(i.body@)))
            + label(numbered("end_"@, c)),
        Statement::While(w) => label(numbered("while_condition_"@, c)) + cond_code(w.condition, f) + line(
            jump_unless(w.condition) + " "@ + numbered("while_end_"@, c),
        ) + label(numbered("while_body_"@, c)) + body_code(w.body@, f, advance(c, 1)) + line(
            "jmp "@ + numbered("while_condition_"@, c),
        ) + label(numbered("while_end_"@, c)),
        Statement::DoWhile(d) => label(numbered("do_while_body_"@, c)) + body_code(d.body@, f, advance(c, 1))
            + label(numbered("do_while_condition_"@, c)) + cond_code(d.condition, f) + line(
            jump_when(d.condition) + " "@ + numbered("do_while_body_"@, c),
        ) + label(numbered("do_while_end_"@, c)),
    }
}

/// The code of a list of statements whose labels are numbered from `c`.
pub open spec fn body_code(ss: Seq<Statement>, f: FuncEnv, c: u64) -> Seq<char>
    decreases ss,
{
    if ss.len() == 0 {
        Seq::empty()
    } else {
        body_code(ss.drop_last(), f, c) + stmt_code(ss.last(), f, advance(c, body_labels(ss.drop_last())))
    }
}

/// A function: its label, a prologue that saves the caller's frame
/// pointer and reserves 8 bytes per local, its body, and the epilogue.
pub open spec fn function_code(func: Function, f: FuncEnv, c: u64) -> Seq<char> {
    label(func.name@) + line("; prologue"@) + line("push rbp"@) + line("mov rbp, rsp"@) + line(
        "sub rsp, "@ + decimal((f.locals().len() * 8) as nat),
    ) + line("; body"@) + body_code(func.body@, f, c) + line("; epilogue"@) + epilogue(f)
}

/// The code of the first `n` functions, labels numbered from `c`.
pub open spec fn functions_code(fs: Seq<Function>, envs: Seq<FuncEnv>, n: nat, c: u64) -> Seq<char>
    decreases n,
{
    if n == 0 {
        Seq::empty()
    } else {
        functions_code(fs, envs, (n - 1) as nat, c) + function_code(
            fs[n - 1],
            envs[n - 1],
            advance(c, functions_labels(fs, (n - 1) as nat)),
        )
    }
}

pub open spec fn functions_labels(fs: Seq<Function>, n: nat) -> nat
    decreases n,
{
    if n == 0 {
        0
    } else {
        functions_labels(fs, (n - 1) as nat) + body_labels(fs[n - 1].body@)
    }
}

/// One 8-byte data entry per global, holding its value.
pub open spec fn data_code(globals: Seq<VarView>, values: Seq<i64>, n: nat) -> Seq<char>
    decreases n,
{
    if n == 0 {
        Seq::empty()
    } else {
        data_code(globals, values, (n - 1) as nat) + globals[n - 1].0 + " dq "@ + signed_decimal(values[n - 1] as int)
            + "\n"@
    }
}

/// The entry point: calls `main`, then exits with status 0.
pub open spec fn prelude() -> Seq<char> {
    "\nglobal _start\nsection .text\n_start:\n    call main\n    ; exit syscall\n    mov rax, 60\n    xor rdi, rdi ; exit code 0\n    syscall\n\n\n"@
}

/// The whole assembly text of a checked program.
pub open spec fn program_code(cp: CheckedProgram) -> Seq<char> {
    prelude() + functions_code(cp.prog.functions@, cp.function_envs@, cp.prog.functions.len() as nat, 0)
        + "\n\nsection .data\n"@ + data_code(
        cp.program_env.globals(),
        cp.program_env.global_values@,
        cp.program_env.globals_def.len() as nat,
    )
}

/// No comparison is used as a value.
pub open spec fn value_ok(e: Expression) -> bool
    decreases e,
{
    match e {
        Expression::BinOp(l, op, r, _) => !op.is_comparison() && value_ok(*l) && value_ok(*r),
        Expression::Call(c) => args_value_ok(c.args@),
        _ => true,
    }
}

pub open spec fn args_value_ok(args: Seq<Expression>) -> bool
    decreases args,
{
    if args.len() == 0 {
        true
    } else {
        args_value_ok(args.drop_last()) && value_ok(args.last())
    }
}

/// A condition is a comparison of two values.
pub open spec fn cond_ok(e: Expression) -> bool {
    match e {
        Expression::BinOp(l, op, r, _) => op.is_comparison() && value_ok(*l) && value_ok(*r),
        _ => false,
    }
}

/// Every construct of the statement has a lowering: conditions are
/// comparisons and comparisons appear nowhere else.
pub open spec fn stmt_lowerable(s: Statement) -> bool
    decreases s,
{
    match s {
        Statement::If(i) => cond_ok(i.condition) && body_lowerable(i.body@) && body_lowerable(i.else_body@),
        Statement::While(w) => cond_ok(w.condition) && body_lowerable(w.body@),
        Statement::DoWhile(d) => cond_ok(d.condition) && body_lowerable(d.body@),
        Statement::Let(l) => value_ok(l.value),
        Statement::Assign(a) => value_ok(a.value),
        Statement::Return(r) => value_ok(r.value),
        Statement::Call(c) => args_value_ok(c.args@),
        Statement::Asm(_) => true,
    }
}

pub open spec fn body_lowerable(ss: Seq<Statement>) -> bool
    decreases ss,
{
    if ss.len() == 0 {
        true
    } else {
        body_lowerable(ss.drop_last()) && stmt_lowerable(ss.last())
    }
}

/// Every variable named in an inline assembly block of the statement is one
/// of `vars`.
pub open spec fn stmt_asm_ok(s: Statement, vars: Seq<VarView>) -> bool
    decreases s,
{
    match s {
        Statement::If(i) => body_asm_ok(i.body@, vars) && body_asm_ok(i.else_body@, vars),
        Statement::While(w) => body_asm_ok(w.body@, vars),
        Statement::DoWhile(d) => body_asm_ok(d.body@, vars),
        Statement::Asm(a) => segments_resolve(a.segments@, vars),
        _ => true,
    }
}

pub open spec fn body_asm_ok(ss: Seq<Statement>, vars: Seq<VarView>) -> bool
    decreases ss,
{
    if ss.len() == 0 {
        true
    } else {
        body_asm_ok(ss.drop_last(), vars) && stmt_asm_ok(ss.last(), vars)
    }
}

pub open spec fn segments_resolve(segs: Seq<ASMSegment>, vars: Seq<VarView>) -> bool {
    forall|k: int| 0 <= k < segs.len() ==> (#[trigger] segs[k] matches ASMSegment::Variable(v) ==> var_type(vars, v@) is Some)
}

/// Every asm variable of every function resolves to a parameter, a local or
/// a global of the program.
pub open spec fn program_asm_ok(p: Program) -> bool {
    forall|i: int|
        0 <= i < p.functions.len() ==> #[trigger] body_asm_ok(
            p.functions@[i].body@,
            params_view(p.functions@[i].params@) + body_locals(p.functions@[i].body@) + globals_view(p.globals@),
        )
}

/// Every function body of the program is lowerable.
pub open spec fn program_lowerable(p: Program) -> bool {
    forall|i: int| 0 <= i < p.functions.len() ==> #[trigger] body_lowerable(p.functions@[i].body@)
}

/// The checked program can be lowered: every function body is lowerable,
/// there is one environment per function and one value per global.
pub open spec fn lowerable(cp: CheckedProgram) -> bool {
    &&& program_lowerable(cp.prog)
    &&& cp.function_envs.len() == cp.prog.functions.len()
    &&& forall|i: int|
        0 <= i < cp.prog.functions.len() ==> #[trigger] body_asm_ok(
            cp.prog.functions@[i].body@,
            scope(&cp.function_envs@[i], &cp.program_env),
        )
    &&& cp.program_env.global_values.len() == cp.program_env.globals_def.len()
}

proof fn lemma_advance(c: u64, a: nat, b: nat)
    ensures
        advance(advance(c, a), b) == advance(c, a + b),
{
    let m = label_modulus() as int;
    let x = c as int + a;
    assert((x % m + b) % m == (x + b) % m) by {
        vstd::arithmetic::div_mod::lemma_add_mod_noop(x, b as int, m);
        vstd::arithmetic::div_mod::lemma_mod_twice(b as int, m);
        vstd::arithmetic::div_mod::lemma_mod_bound(x, m);
        vstd::arithmetic::div_mod::lemma_small_mod((x % m) as nat, m as nat);
        vstd::arithmetic::div_mod::lemma_add_mod_noop(x % m, b as int, m);
    }
}

/// The state of one generation run: the text so far and the next label
/// number.
pub struct CodeGenerator {
    assembly: String,
    lable_counter: u64,
}

impl CodeGenerator {
    pub closed spec fn text(&self) -> Seq<char> {
        self.assembly@
    }

    pub closed spec fn counter(&self) -> u64 {
        self.lable_counter
    }

    /// The assembly text of a checked program: the entry point, one block
    /// per function in declaration order, one data entry per global.
    pub fn generate_code(prog: CheckedProgram) -> (r: String)
        requires
            lowerable(prog),
        ensures
            r@ == program_code(prog),
    {
        let mut code_generator = CodeGenerator { assembly: String::new(), lable_counter: 0 };
        code_generator.generate_program(prog);
        code_generator.assembly
    }

    fn generate_program(&mut self, prog: CheckedProgram)
        requires
            lowerable(prog),
            old(self).text() == Seq::<char>::empty(),
            old(self).counter() == 0,
        ensures
            final(self).text() == program_code(prog),
    {
        self.assembly.append(
            "\nglobal _start\nsection .text\n_start:\n    call main\n    ; exit syscall\n    mov rax, 60\n    xor rdi, rdi ; exit code 0\n    syscall\n\n\n",
        );
        let ghost fs = prog.prog.functions@;
        let ghost envs = prog.function_envs@;
        assert(self.assembly@ == prelude());
        let mut i: usize = 0;
        while i < prog.prog.functions.len()
            invariant
                lowerable(prog),
                fs == prog.prog.functions@,
                envs == prog.function_envs@,
                i <= fs.len(),
                self.assembly@ == prelude() + functions_code(fs, envs, i as nat, 0),
                self.lable_counter == advance(0, functions_labels(fs, i as nat)),
            decreases fs.len() - i,
        {
            assert(body_lowerable(fs[i as int].body@));
            self.generate_function(&prog.prog.functions[i], &prog.program_env, &prog.function_envs[i]);
            proof {
                lemma_advance(0, functions_labels(fs, i as nat), body_labels(fs[i as int].body@));
            }
            i = i + 1;
        }
        self.assembly.append("\n\nsection .data\n");
        let ghost head = self.assembly@;
        let ghost globals = prog.program_env.globals();
        let mut i: usize = 0;
        while i < prog.program_env.globals_def.len()
            invariant
                lowerable(prog),
                globals == prog.program_env.globals(),
                i <= prog.program_env.globals_def.len(),
                self.assembly@ == head + data_code(globals, prog.program_env.global_values@, i as nat),
            decreases prog.program_env.globals_def.len() - i,
        {
            let global = &prog.program_env.globals_def[i];
            let value = prog.program_env.global_values[i];
            self.assembly.append(global.name.as_str());
            self.assembly.append(" dq ");
            push_signed_decimal(&mut self.assembly, value);
            self.assembly.append("\n");
            i = i + 1;
        }
    }

    fn add_asm(&mut self, s: &str)
        ensures
            final(self).assembly@ == old(self).assembly@ + line(s@),
            final(self).lable_counter == old(self).lable_counter,
    {
        self.assembly.append("\t");
        self.assembly.append(s);
        self.assembly.append("\n");
    }

    fn add_label(&mut self, s: &str)
        ensures
            final(self).assembly@ == old(self).assembly@ + label(s@),
            final(self).lable_counter == old(self).lable_counter,
    {
        self.assembly.append(s);
        self.assembly.append(":\n");
    }

    /// `name` followed by the label number `c`.
    fn label_name(name: &str, c: u64) -> (r: String)
        ensures
            r@ == numbered(name@, c),
    {
        let mut s = String::from_str(name);
        push_decimal(&mut s, c as u128);
        s
    }

    /// Takes the next label number.
    fn next_label(&mut self) -> (c: u64)
        ensures
            c == old(self).lable_counter,
            final(self).lable_counter == advance(c, 1),
            final(self).assembly == old(self).assembly,
    {
        let c = self.lable_counter;
        self.lable_counter = c.wrapping_add(1);
        c
    }

    fn generate_function(&mut self, function: &Function, prog_env: &ProgEnv, func_env: &FuncEnv)
        requires
            body_lowerable(function.body@),
        ensures
            final(self).assembly@ == old(self).assembly@ + function_code(*function, *func_env, old(self).lable_counter),
            final(self).lable_counter == advance(old(self).lable_counter, body_labels(function.body@)),
    {
        self.add_label(function.name.as_str());
        self.add_asm("; prologue");
        self.add_asm("push rbp");
        self.add_asm("mov rbp, rsp");
        let mut s = String::from_str("sub rsp, ");
        push_decimal(&mut s, (func_env.local_variables.len() as u128) * 8);
        self.add_asm(s.as_str());
        self.add_asm("; body");
        self.generate_body(&function.body, prog_env, func_env);
        self.add_asm("; epilogue");
        self.generate_function_epilogue(func_env);
    }

    fn generate_function_epilogue(&mut self, func_env: &FuncEnv)
        ensures
            final(self).assembly@ == old(self).assembly@ + epilogue(*func_env),
            final(self).lable_counter == old(self).lable_counter,
    {
        let mut s = String::from_str("add rsp, ");
        push_decimal(&mut s, (func_env.local_variables.len() as u128) * 8);
        self.add_asm(s.as_str());
        self.add_asm("pop rbp");
        self.add_asm("ret");
    }

    fn generate_body(&mut self, stmts: &Vec<Statement>, p_env: &ProgEnv, f_env: &FuncEnv)
        requires
            body_lowerable(stmts@),
        ensures
            final(self).assembly@ == old(self).assembly@ + body_code(stmts@, *f_env, old(self).lable_counter),
            final(self).lable_counter == advance(old(self).lable_counter, body_labels(stmts@)),
        decreases stmts,
    {
        let ghost c0 = self.lable_counter;
        let ghost a0 = self.assembly@;
        proof {
            lemma_advance_zero(c0);
        }
        let mut i: usize = 0;
        while i < stmts.len()
            invariant
                i <= stmts.len(),
                body_lowerable(stmts@),
                self.assembly@ == a0 + body_code(stmts@.subrange(0, i as int), *f_env, c0),
                self.lable_counter == advance(c0, body_labels(stmts@.subrange(0, i as int))),
            decreases stmts.len() - i,
        {
            proof {
                let pre = stmts@.subrange(0, i + 1);
                assert(pre.drop_last() == stmts@.subrange(0, i as int));
                lemma_body_lowerable_at(stmts@, i as int);
                lemma_advance(c0, body_labels(stmts@.subrange(0, i as int)), stmt_labels(stmts@[i as int]));
            }
            self.generate_statement(&stmts[i], p_env, f_env);
            i = i + 1;
        }
        assert(stmts@.subrange(0, stmts.len() as int) == stmts@);
    }

    fn generate_statement(&mut self, stmt: &Statement, p_env: &ProgEnv, f_env: &FuncEnv)
        requires
            stmt_lowerable(*stmt),
        ensures
            final(self).assembly@ == old(self).assembly@ + stmt_code(*stmt, *f_env, old(self).lable_counter),
            final(self).lable_counter == advance(old(self).lable_counter, stmt_labels(*stmt)),
        decreases stmt,
    {
        proof {
            lemma_advance_zero(self.lable_counter);
        }
        match stmt {
            Stmt::Let(let_stmt) => self.generate_let_statement(let_stmt, p_env, f_env),
            Stmt::If(if_stmt) => self.generate_if_statement(if_stmt, p_env, f_env),
            Stmt::While(while_stmt) => self.generate_while_stmt(while_stmt, p_env, f_env),
            Stmt::DoWhile(do_while) => self.generate_do_while_stmt(do_while, p_env, f_env),
            Stmt::Assign(assign_stmt) => self.generate_assign_statement(assign_stmt, p_env, f_env),
            Stmt::Return(return_stmt) => {
                self.generate_expression(&return_stmt.value, p_env, f_env);
                self.add_asm("mov [rbp + 16], rax");
                self.generate_function_epilogue(f_env);
            },
            Stmt::Asm(block) => self.generate_asm_block(block, p_env, f_env),
            Stmt::Call(call) => self.generate_call(call, p_env, f_env),
        }
    }

    fn generate_asm_block(&mut self, block: &Asm, p_env: &ProgEnv, f_env: &FuncEnv)
        ensures
            final(self).assembly@ == old(self).assembly@ + asm_code(block.segments@, *f_env),
            final(self).lable_counter == old(self).lable_counter,
    {
        let ghost a0 = self.assembly@;
        let ghost segs = block.segments@;
        let mut line_text = String::new();
        let mut i: usize = 0;
        while i < block.segments.len()
            invariant
                i <= segs.len(),
                segs == block.segments@,
                self.assembly@ == a0 + asm_lines(segs.subrange(0, i as int), *f_env).0,
                line_text@ == asm_lines(segs.subrange(0, i as int), *f_env).1,
                self.lable_counter == old(self).lable_counter,
            decreases segs.len() - i,
        {
            proof {
                assert(segs.subrange(0, i + 1).drop_last() == segs.subrange(0, i as int));
            }
            match &block.segments[i] {
                ASMSegment::String(s) => {
                    line_text.append(s.as_str());
                },
                ASMSegment::Variable(var) => {
                    let var_address = Self::get_var_address(var.as_str(), f_env, p_env);
                    line_text.append(var_address.as_str());
                },
                ASMSegment::Newline => {
                    self.add_asm(line_text.as_str());
                    line_text = String::new();
                },
            }
            i = i + 1;
        }
        assert(segs.subrange(0, segs.len() as int) == segs);
        if !line_text.as_str().is_empty() {
            self.add_asm(line_text.as_str());
        }
    }

    /// The operand that addresses variable `var_name`.
    fn get_var_address(var_name: &str, f_env: &FuncEnv, p_env: &ProgEnv) -> (r: String)
        ensures
            r@ == var_address(var_name@, *f_env),
    {
        if let Some(param_num) = f_env.get_param_pos(var_name) {
            let num_rev = f_env.function_params.len() - param_num - 1;
            let mut s = String::from_str("[rbp + ");
            push_decimal(&mut s, (num_rev as u128) * 8 + 24);
            s.append("]");
            return s;
        }
        if let Some(var_num) = f_env.get_local_pos(var_name) {
            let mut s = String::from_str("[rbp - ");
            push_decimal(&mut s, (var_num as u128 + 1) * 8);
            s.append("]");
            return s;
        }
        let mut s = String::from_str("[");
        s.append(var_name);
        s.append("]");
        s
    }

    fn generate_assign_statement(&mut self, assign: &Assign, p_env: &ProgEnv, f_env: &FuncEnv)
        requires
            value_ok(assign.value),
        ensures
            final(self).assembly@ == old(self).assembly@ + expr_code(assign.value, *f_env) + line(
                "mov "@ + var_address(assign.name@, *f_env) + ", rax"@,
            ),
            final(self).lable_counter == old(self).lable_counter,
    {
        self.generate_expression(&assign.value, p_env, f_env);
        let var_address = Self::get_var_address(assign.name.as_str(), f_env, p_env);
        self.add_asm(Self::mov_from_rax(&var_address).as_str());
    }

    /// `mov <target>, rax`
    fn mov_from_rax(target: &String) -> (r: String)
        ensures
            r@ == "mov "@ + target@ + ", rax"@,
    {
        let mut s = String::from_str("mov ");
        s.append(target.as_str());
        s.append(", rax");
        s
    }

    fn generate_let_statement(&mut self, let_stmt: &Let, p_env: &ProgEnv, f_env: &FuncEnv)
        requires
            value_ok(let_stmt.value),
        ensures
            final(self).assembly@ == old(self).assembly@ + expr_code(let_stmt.value, *f_env) + line(
                "mov "@ + var_address(let_stmt.name@, *f_env) + ", rax"@,
            ),
            final(self).lable_counter == old(self).lable_counter,
    {
        self.generate_expression(&let_stmt.value, p_env, f_env);
        let var_address = Self::get_var_address(let_stmt.name.as_str(), f_env, p_env);
        self.add_asm(Self::mov_from_rax(&var_address).as_str());
    }

    /// Evaluates both sides of a comparison and compares them.
    fn generate_comparison(&mut self, cond: &Exp, p_env: &ProgEnv, f_env: &FuncEnv)
        requires
            cond_ok(*cond),
        ensures
            final(self).assembly@ == old(self).assembly@ + cond_code(*cond, *f_env),
            final(self).lable_counter == old(self).lable_counter,
    {
        if let Expression::BinOp(e1, _, e2, _) = cond {
            self.generate_expression(e1, p_env, f_env);
            self.add_asm("push rax");
            self.generate_expression(e2, p_env, f_env);
            self.add_asm("pop rbx");
            self.add_asm("cmp rbx, rax");
        }
    }

    /// `jump` followed by a space and `target`.
    fn jump_line(jump: &str, target: &String) -> (r: String)
        ensures
            r@ == jump@ + " "@ + target@,
    {
        let mut s = String::from_str(jump);
        s.append(" ");
        s.append(target.as_str());
        s
    }

    /// `jmp target`
    fn jmp_to(target: &String) -> (r: String)
        ensures
            r@ == "jmp "@ + target@,
    {
        let mut s = String::from_str("jmp ");
        s.append(target.as_str());
        s
    }

    /// The jump taken when the comparison does not hold.
    fn negated_jump(cond: &Exp) -> (r: &'static str)
        requires
            cond_ok(*cond),
        ensures
            r@ == jump_unless(*cond),
    {
        match cond {
            Expression::BinOp(_, Operator::LT, _, _) => "jge",
            Expression::BinOp(_, Operator::GT, _, _) => "jle",
            Expression::BinOp(_, Operator::Ne, _, _) => "je",
            _ => "jne",
        }
    }

    /// The jump taken when the comparison holds.
    fn direct_jump(cond: &Exp) -> (r: &'static str)
        requires
            cond_ok(*cond),
        ensures
            r@ == jump_when(*cond),
    {
        match cond {
            Expression::BinOp(_, Operator::LT, _, _) => "jl",
            Expression::BinOp(_, Operator::GT, _, _) => "jg",
            Expression::BinOp(_, Operator::Ne, _, _) => "jne",
            _ => "je",
        }
    }

    fn generate_do_while_stmt(&mut self, do_while: &DoWhile, p_env: &ProgEnv, f_env: &FuncEnv)
        requires
            cond_ok(do_while.condition),
            body_lowerable(do_while.body@),
        ensures
            final(self).assembly@ == old(self).assembly@ + stmt_code(Statement::DoWhile(*do_while), *f_env, old(self).lable_counter),
            final(self).lable_counter == advance(old(self).lable_counter, stmt_labels(Statement::DoWhile(*do_while))),
        decreases do_while,
    {
        let label_count = self.next_label();
        let body_label = Self::label_name("do_while_body_", label_count);
        let condition_label = Self::label_name("do_while_condition_", label_count);
        let end_label = Self::label_name("do_while_end_", label_count);

        self.add_label(body_label.as_str());
        self.generate_body(&do_while.body, p_env, f_env);
        self.add_label(condition_label.as_str());
        self.generate_comparison(&do_while.condition, p_env, f_env);
        let jmp = Self::direct_jump(&do_while.condition);
        self.add_asm(Self::jump_line(jmp, &body_label).as_str());
        self.add_label(end_label.as_str());
        proof {
            lemma_advance(label_count, 1, body_labels(do_while.body@));
        }
    }

    fn generate_while_stmt(&mut self, while_stmt: &While, p_env: &ProgEnv, f_env: &FuncEnv)
        requires
            cond_ok(while_stmt.condition),
            body_lowerable(while_stmt.body@),
        ensures
            final(self).assembly@ == old(self).assembly@ + stmt_code(Statement::While(*while_stmt), *f_env, old(self).lable_counter),
            final(self).lable_counter == advance(old(self).lable_counter, stmt_labels(Statement::While(*while_stmt))),
        decreases while_stmt,
    {
        let label_count = self.next_label();
        let condition_label = Self::label_name("while_condition_", label_count);
        let body_label = Self::label_name("while_body_", label_count);
        let end_label = Self::label_name("while_end_", label_count);

        self.add_label(condition_label.as_str());
        self.generate_comparison(&while_stmt.condition, p_env, f_env);
        let jmp = Self::negated_jump(&while_stmt.condition);
        self.add_asm(Self::jump_line(jmp, &end_label).as_str());
        self.add_label(body_label.as_str());
        self.generate_body(&while_stmt.body, p_env, f_env);
        self.add_asm(Self::jmp_to(&condition_label).as_str());
        self.add_label(end_label.as_str());
        proof {
            lemma_advance(label_count, 1, body_labels(while_stmt.body@));
        }
    }

    #[verifier::rlimit(60)]
    fn generate_if_statement(&mut self, if_stmt: &If, p_env: &ProgEnv, f_env: &FuncEnv)
        requires
            cond_ok(if_stmt.condition),
            body_lowerable(if_stmt.body@),
            body_lowerable(if_stmt.else_body@),
        ensures
            final(self).assembly@ == old(self).assembly@ + stmt_code(Statement::If(*if_stmt), *f_env, old(self).lable_counter),
            final(self).lable_counter == advance(old(self).lable_counter, stmt_labels(Statement::If(*if_stmt))),
        decreases if_stmt,
    {
        let label_count = self.next_label();
        let if_condition_label = Self::label_name("if_condition_", label_count);
        let if_body_label = Self::label_name("if_body_", label_count);
        let else_label = Self::label_name("else_", label_count);
        let end_label = Self::label_name("end_", label_count);

        self.add_label(if_condition_label.as_str());
        self.generate_comparison(&if_stmt.condition, p_env, f_env);
        let jmp = Self::negated_jump(&if_stmt.condition);
        self.add_asm(Self::jump_line(jmp, &else_label).as_str());
        self.add_label(if_body_label.as_str());
        self.generate_body(&if_stmt.body, p_env, f_env);
        self.add_asm(Self::jmp_to(&end_label).as_str());
        self.add_label(else_label.as_str());
        proof {
            lemma_advance(label_count, 1, body_labels(if_stmt.body@));
        }
        self.generate_body(&if_stmt.else_body, p_env, f_env);
        self.add_label(end_label.as_str());
        proof {
            lemma_advance(label_count, 1 + body_labels(if_stmt.body@), body_labels(if_stmt.else_body@));
        }
    }

    fn generate_expression(&mut self, exp: &Exp, p_env: &ProgEnv, f_env: &FuncEnv)
        requires
            value_ok(*exp),
        ensures
            final(self).assembly@ == old(self).assembly@ + expr_code(*exp, *f_env),
            final(self).lable_counter == old(self).lable_counter,
        decreases exp,
    {
        match exp {
            Exp::U64(number, _) => {
                let mut s = String::from_str("mov rax, ");
                push_decimal(&mut s, *number as u128);
                self.add_asm(s.as_str());
            },
            Exp::I64(number, _) => {
                let mut s = String::from_str("mov rax, ");
                push_signed_decimal(&mut s, *number);
                self.add_asm(s.as_str());
            },
            Exp::Var(name, _) => {
                let var_address = Self::get_var_address(name.as_str(), f_env, p_env);
                let mut s = String::from_str("mov rax, ");
                s.append(var_address.as_str());
                self.add_asm(s.as_str());
            },
            Exp::BinOp(e1, op, e2, _) => {
                self.generate_expression(e1, p_env, f_env);
                self.add_asm("push rax");
                self.generate_expression(e2, p_env, f_env);
                self.add_asm("mov rbx, rax");
                self.add_asm("pop rax");
                match op {
                    Operator::Add => self.add_asm("add rax, rbx"),
                    Operator::Sub => self.add_asm("sub rax, rbx"),
                    Operator::Mul => self.add_asm("mul rbx"),
                    Operator::Div => {
                        self.add_asm("cqo");
                        self.add_asm("div rbx");
                    },
                    Operator::Mod => {
                        self.add_asm("cqo");
                        self.add_asm("div rbx");
                        self.add_asm("mov rax, rdx");
                    },
                    _ => {},
                }
            },
            Exp::Call(call) => {
                self.generate_call(call, p_env, f_env);
            },
        }
    }

    fn generate_call(&mut self, call: &Call, p_env: &ProgEnv, f_env: &FuncEnv)
        requires
            args_value_ok(call.args@),
        ensures
            final(self).assembly@ == old(self).assembly@ + call_code(*call, *f_env),
            final(self).lable_counter == old(self).lable_counter,
        decreases call,
    {
        let ghost a0 = self.assembly@;
        let ghost args = call.args@;
        let mut i: usize = 0;
        while i < call.args.len()
            invariant
                i <= args.len(),
                args == call.args@,
                args_value_ok(args),
                self.assembly@ == a0 + args_code(args.subrange(0, i as int), *f_env),
                self.lable_counter == old(self).lable_counter,
            decreases args.len() - i,
        {
            proof {
                assert(args.subrange(0, i + 1).drop_last() == args.subrange(0, i as int));
                lemma_args_value_ok_at(args, i as int);
            }
            self.generate_expression(&call.args[i], p_env, f_env);
            self.add_asm("push rax");
            i = i + 1;
        }
        assert(args.subrange(0, args.len() as int) == args);
        self.add_asm("sub rsp, 8");
        let mut s = String::from_str("call ");
        s.append(call.name.as_str());
        self.add_asm(s.as_str());
        self.add_asm("mov rax, [rsp]");
        let mut s = String::from_str("add rsp, ");
        push_decimal(&mut s, (call.args.len() as u128) * 8 + 8);
        self.add_asm(s.as_str());
    }
}

proof fn lemma_advance_zero(c: u64)
    ensures
        advance(c, 0) == c,
{
}

proof fn lemma_body_lowerable_at(ss: Seq<Statement>, i: int)
    requires
        body_lowerable(ss),
        0 <= i < ss.len(),
    ensures
        stmt_lowerable(ss[i]),
    decreases ss.len(),
{
    if i < ss.len() - 1 {
        lemma_body_lowerable_at(ss.drop_last(), i);
    }
}

proof fn lemma_args_value_ok_at(args: Seq<Expression>, i: int)
    requires
        args_value_ok(args),
        0 <= i < args.len(),
    ensures
        value_ok(args[i]),
    decreases args.len(),
{
    if i < args.len() - 1 {
        lemma_args_value_ok_at(args.drop_last(), i);
    }
}

fn value_lowerable(e: &Expression) -> (r: bool)
    ensures
        r == value_ok(*e),
    decreases e,
{
    match e {
        Expression::BinOp(l, op, r, _) => {
            match op {
                Operator::Eq | Operator::Ne | Operator::LT | Operator::GT => false,
                _ => value_lowerable(l) && value_lowerable(r),
            }
        },
        Expression::Call(c) => args_lowerable(&c.args),
        _ => true,
    }
}

fn args_lowerable(args: &Vec<Expression>) -> (r: bool)
    ensures
        r == args_value_ok(args@),
    decreases args,
{
    let mut i: usize = 0;
    while i < args.len()
        invariant
            i <= args.len(),
            args_value_ok(args@.subrange(0, i as int)),
        decreases args.len() - i,
    {
        assert(args@.subrange(0, i + 1).drop_last() == args@.subrange(0, i as int));
        if !value_lowerable(&args[i]) {
            proof {
                lemma_args_value_fail(args@, i as int);
            }
            return false;
        }
        i = i + 1;
    }
    assert(args@.subrange(0, args.len() as int) == args@);
    true
}

fn cond_lowerable(e: &Expression) -> (r: bool)
    ensures
        r == cond_ok(*e),
{
    match e {
        Expression::BinOp(l, op, r, _) => {
            match op {
                Operator::Eq | Operator::Ne | Operator::LT | Operator::GT => value_lowerable(l) && value_lowerable(r),
                _ => false,
            }
        },
        _ => false,
    }
}

fn stmt_can_lower(s: &Statement) -> (r: bool)
    ensures
        r == stmt_lowerable(*s),
    decreases s,
{
    match s {
        Statement::If(i) => cond_lowerable(&i.condition) && body_can_lower(&i.body) && body_can_lower(&i.else_body),
        Statement::While(w) => cond_lowerable(&w.condition) && body_can_lower(&w.body),
        Statement::DoWhile(d) => cond_lowerable(&d.condition) && body_can_lower(&d.body),
        Statement::Let(l) => value_lowerable(&l.value),
        Statement::Assign(a) => value_lowerable(&a.value),
        Statement::Return(r) => value_lowerable(&r.value),
        Statement::Call(c) => args_lowerable(&c.args),
        Statement::Asm(_) => true,
    }
}

fn body_can_lower(ss: &Vec<Statement>) -> (r: bool)
    ensures
        r == body_lowerable(ss@),
    decreases ss,
{
    let mut i: usize = 0;
    while i < ss.len()
        invariant
            i <= ss.len(),
            body_lowerable(ss@.subrange(0, i as int)),
        decreases ss.len() - i,
    {
        assert(ss@.subrange(0, i + 1).drop_last() == ss@.subrange(0, i as int));
        if !stmt_can_lower(&ss[i]) {
            proof {
                lemma_body_lowerable_fail(ss@, i as int);
            }
            return false;
        }
        i = i + 1;
    }
    assert(ss@.subrange(0, ss.len() as int) == ss@);
    true
}

proof fn lemma_args_value_fail(args: Seq<Expression>, i: int)
    requires
        0 <= i < args.len(),
        !value_ok(args[i]),
    ensures
        !args_value_ok(args),
    decreases args.len(),
{
    if i < args.len() - 1 {
        lemma_args_value_fail(args.drop_last(), i);
    }
}

proof fn lemma_body_lowerable_fail(ss: Seq<Statement>, i: int)
    requires
        0 <= i < ss.len(),
        !stmt_lowerable(ss[i]),
    ensures
        !body_lowerable(ss),
    decreases ss.len(),
{
    if i < ss.len() - 1 {
        lemma_body_lowerable_fail(ss.drop_last(), i);
    }
}

fn segments_can_resolve(segs: &Vec<ASMSegment>, f_env: &FuncEnv, p_env: &ProgEnv) -> (r: bool)
    ensures
        r == segments_resolve(segs@, scope(f_env, p_env)),
{
    let mut i: usize = 0;
    while i < segs.len()
        invariant
            i <= segs.len(),
            forall|k: int| 0 <= k < i ==> (#[trigger] segs@[k] matches ASMSegment::Variable(v) ==> var_type(scope(f_env, p_env), v@) is Some),
        decreases segs.len() - i,
    {
        if let ASMSegment::Variable(v) = &segs[i] {
            if p_env.get_var(v.as_str(), f_env).is_none() {
                return false;
            }
        }
        i = i + 1;
    }
    true
}

fn stmt_asm_resolves(s: &Statement, f_env: &FuncEnv, p_env: &ProgEnv) -> (r: bool)
    ensures
        r == stmt_asm_ok(*s, scope(f_env, p_env)),
    decreases s,
{
    match s {
        Statement::If(i) => body_asm_resolves(&i.body, f_env, p_env) && body_asm_resolves(&i.else_body, f_env, p_env),
        Statement::While(w) => body_asm_resolves(&w.body, f_env, p_env),
        Statement::DoWhile(d) => body_asm_resolves(&d.body, f_env, p_env),
        Statement::Asm(a) => segments_can_resolve(&a.segments, f_env, p_env),
        _ => true,
    }
}

fn body_asm_resolves(ss: &Vec<Statement>, f_env: &FuncEnv, p_env: &ProgEnv) -> (r: bool)
    ensures
        r == body_asm_ok(ss@, scope(f_env, p_env)),
    decreases ss,
{
    let mut i: usize = 0;
    while i < ss.len()
        invariant
            i <= ss.len(),
            body_asm_ok(ss@.subrange(0, i as int), scope(f_env, p_env)),
        decreases ss.len() - i,
    {
        assert(ss@.subrange(0, i + 1).drop_last() == ss@.subrange(0, i as int));
        if !stmt_asm_resolves(&ss[i], f_env, p_env) {
            proof {
                lemma_body_asm_fail(ss@, scope(f_env, p_env), i as int);
            }
            return false;
        }
        i = i + 1;
    }
    assert(ss@.subrange(0, ss.len() as int) == ss@);
    true
}

proof fn lemma_body_asm_fail(ss: Seq<Statement>, vars: Seq<VarView>, i: int)
    requires
        0 <= i < ss.len(),
        !stmt_asm_ok(ss[i], vars),
    ensures
        !body_asm_ok(ss, vars),
    decreases ss.len(),
{
    if i < ss.len() - 1 {
        lemma_body_asm_fail(ss.drop_last(), vars, i);
    }
}

/// Every function body of the program can be lowered: conditions are
/// comparisons, and comparisons stand nowhere else.
pub fn can_lower(prog: &Program) -> (r: bool)
    ensures
        r == program_lowerable(*prog),
{
    let mut i: usize = 0;
    while i < prog.functions.len()
        invariant
            i <= prog.functions.len(),
            forall|j: int| 0 <= j < i ==> #[trigger] body_lowerable(prog.functions@[j].body@),
        decreases prog.functions.len() - i,
    {
        if !body_can_lower(&prog.functions[i].body) {
            return false;
        }
        i = i + 1;
    }
    true
}

/// Checks a program and lowers it to assembly text. Fails where checking
/// fails, where a comparison stands elsewhere than as a condition
/// (comparison values have no lowering), or where an asm block names a
/// variable that does not exist.
#[verifier::rlimit(100)]
pub fn compile(prog: Program) -> (r: Result<String, CheckError>)
    ensures
        r is Ok <==> program_ok(prog) && program_lowerable(prog) && program_asm_ok(prog),
        r matches Err(e) ==> (!program_ok(prog) ==> check_error(prog, e)),
        r matches Err(e) ==> (program_ok(prog) && !program_lowerable(prog) ==> e.msg@ == "Comparison used as a value"@
            && exists|i: int|
            0 <= i < prog.functions.len() && !body_lowerable(prog.functions@[i].body@) && e.fi == (
            #[trigger] prog.functions@[i]).fi),
        r matches Err(e) ==> (program_ok(prog) && program_lowerable(prog) && !program_asm_ok(prog) ==> e.msg@
            == "Variable in asm block not found"@ && exists|i: int|
            0 <= i < prog.functions.len() && !body_asm_ok(
                prog.functions@[i].body@,
                params_view(prog.functions@[i].params@) + body_locals(prog.functions@[i].body@) + globals_view(prog.globals@),
            ) && e.fi == (#[trigger] prog.functions@[i]).fi),
        r matches Ok(text) ==> exists|cp: CheckedProgram|
            {
                &&& cp.prog == prog
                &&& cp.program_env.sigs() == program_sigs(prog.functions@)
                &&& cp.program_env.globals() == globals_view(prog.globals@)
                &&& is_fixpoint(prog.globals@, cp.program_env.global_values@)
                &&& cp.function_envs.len() == prog.functions.len()
                &&& forall|i: int|
                    0 <= i < prog.functions.len() ==> #[trigger] env_of(cp.function_envs@[i], prog.functions@[i])
                &&& text@ == program_code(cp)
            },
{
    let checked_prog = match CheckedProgram::check(prog) {
        Ok(cp) => cp,
        Err(e) => {
            return Err(e);
        },
    };
    let mut i: usize = 0;
    while i < checked_prog.prog.functions.len()
        invariant
            i <= checked_prog.prog.functions.len(),
            checked_prog.prog == prog,
            program_ok(prog),
            forall|j: int| 0 <= j < i ==> #[trigger] body_lowerable(checked_prog.prog.functions@[j].body@),
        decreases checked_prog.prog.functions.len() - i,
    {
        if !body_can_lower(&checked_prog.prog.functions[i].body) {
            return Err(CheckError::new("Comparison used as a value", checked_prog.prog.functions[i].fi));
        }
        i = i + 1;
    }
    assert(checked_prog.program_env.globals().len() == checked_prog.program_env.globals_def.len());
    let ghost p = checked_prog.prog;
    proof {
        assert forall|i: int| 0 <= i < p.functions.len() implies scope(&checked_prog.function_envs@[i], &checked_prog.program_env)
            == params_view(p.functions@[i].params@) + body_locals(p.functions@[i].body@) + globals_view(p.globals@) by {
            assert(env_of(checked_prog.function_envs@[i], p.functions@[i]));
        }
    }
    let mut i: usize = 0;
    while i < checked_prog.prog.functions.len()
        invariant
            i <= checked_prog.prog.functions.len(),
            checked_prog.function_envs.len() == checked_prog.prog.functions.len(),
            p == checked_prog.prog,
            checked_prog.prog == prog,
            program_ok(prog),
            program_lowerable(prog),
            forall|j: int|
                0 <= j < i ==> #[trigger] body_asm_ok(
                    checked_prog.prog.functions@[j].body@,
                    scope(&checked_prog.function_envs@[j], &checked_prog.program_env),
                ),
            forall|j: int| 0 <= j < p.functions.len() ==> scope(&checked_prog.function_envs@[j], &checked_prog.program_env)
                == params_view(p.functions@[j].params@) + body_locals(p.functions@[j].body@) + globals_view(p.globals@),
        decreases checked_prog.prog.functions.len() - i,
    {
        if !body_asm_resolves(&checked_prog.prog.functions[i].body, &checked_prog.function_envs[i], &checked_prog.program_env) {
            return Err(CheckError::new("Variable in asm block not found", checked_prog.prog.functions[i].fi));
        }
        i = i + 1;
    }
    proof {
        assert forall|i: int| 0 <= i < p.functions.len() implies #[trigger] body_asm_ok(
            p.functions@[i].body@,
            params_view(p.functions@[i].params@) + body_locals(p.functions@[i].body@) + globals_view(p.globals@),
        ) by {
            assert(body_asm_ok(p.functions@[i].body@, scope(&checked_prog.function_envs@[i], &checked_prog.program_env)));
        }
    }
    let assembly = CodeGenerator::generate_code(checked_prog);
    Ok(assembly)
}

} // verus!
