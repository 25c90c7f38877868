use vstd::prelude::*;
use crate::ast::{Program, Function, Parameter, Global, Statement, Expression, Call, Type_, Operator};
use crate::file_info::FI;
use crate::text::{decimal, push_decimal, str_eq};

verus! {

/// A program that passed checking, with what checking learnt about it.
pub struct CheckedProgram {
    pub prog: Program,
    pub program_env: ProgEnv,
    pub function_envs: Vec<FuncEnv>,
}

/// Program-wide facts: function signatures, global definitions and the
/// compile-time values of the globals (aligned with `Program::globals`).
pub struct ProgEnv {
    pub fn_sigs: Vec<FuncSig>,
    pub global_values: Vec<i64>,
    pub globals_def: Vec<Variable>,
}

pub struct FuncSig {
    pub name: String,
    pub params: Vec<Type_>,
    pub ret_type: Type_,
}

pub struct Variable {
    pub name: String,
    pub ttype: Type_,
}

/// What a function sees: its parameters and its locals, each list in
/// declaration order (a variable's slot is its position), and its return type.
pub struct FuncEnv {
    pub function_params: Vec<Variable>,
    pub local_variables: Vec<Variable>,
    pub ret_type: Type_,
}

pub struct CheckError {
    pub msg: String,
    pub fi: FI,
}

/// A variable as the rules see it: its name and its type.
pub type VarView = (Seq<char>, Type_);

/// A signature as the rules see it: name, parameter types, return type.
pub type SigView = (Seq<char>, Seq<Type_>, Type_);

impl View for Variable {
    type V = VarView;

    open spec fn view(&self) -> VarView {
        (self.name@, self.ttype)
    }
}

impl View for FuncSig {
    type V = SigView;

    open spec fn view(&self) -> SigView {
        (self.name@, self.params@, self.ret_type)
    }
}

pub open spec fn vars_view(vs: Seq<Variable>) -> Seq<VarView> {
    vs.map_values(|v: Variable| v@)
}

pub open spec fn sigs_view(ss: Seq<FuncSig>) -> Seq<SigView> {
    ss.map_values(|s: FuncSig| s@)
}

/// `i` is the first position of `s` whose element satisfies `p`.
pub open spec fn is_first<T>(s: Seq<T>, p: spec_fn(T) -> bool, i: int) -> bool {
    &&& 0 <= i < s.len()
    &&& p(s[i])
    &&& forall|j: int| 0 <= j < i ==> !p(#[trigger] s[j])
}

/// The first position of `s` whose element satisfies `p`, if any.
pub open spec fn first_index<T>(s: Seq<T>, p: spec_fn(T) -> bool) -> Option<int> {
    if exists|i: int| is_first(s, p, i) {
        Some(choose|i: int| is_first(s, p, i))
    } else {
        None
    }
}

pub open spec fn var_named(name: Seq<char>) -> spec_fn(VarView) -> bool {
    |v: VarView| v.0 == name
}

pub open spec fn sig_named(name: Seq<char>) -> spec_fn(SigView) -> bool {
    |s: SigView| s.0 == name
}

/// The type of the first variable called `name`.
pub open spec fn var_type(vars: Seq<VarView>, name: Seq<char>) -> Option<Type_> {
    match first_index(vars, var_named(name)) {
        Some(i) => Some(vars[i].1),
        None => None,
    }
}

/// The signature of the first function called `name`.
pub open spec fn sig_of(sigs: Seq<SigView>, name: Seq<char>) -> Option<SigView> {
    match first_index(sigs, sig_named(name)) {
        Some(i) => Some(sigs[i]),
        None => None,
    }
}

/// No two variables share a name.
pub open spec fn distinct_names(vs: Seq<VarView>) -> bool {
    forall|i: int, j: int| 0 <= i < j < vs.len() ==> vs[i].0 != vs[j].0
}

pub proof fn lemma_first_index_is<T>(s: Seq<T>, p: spec_fn(T) -> bool, i: int)
    requires
        is_first(s, p, i),
    ensures
        first_index(s, p) == Some(i),
{
    let c = choose|c: int| is_first(s, p, c);
    assert(is_first(s, p, c));
    if c < i {
        assert(!p(s[c]));
    } else if i < c {
        assert(!p(s[i]));
    }
}

pub proof fn lemma_first_index_none<T>(s: Seq<T>, p: spec_fn(T) -> bool)
    requires
        forall|j: int| 0 <= j < s.len() ==> !p(#[trigger] s[j]),
    ensures
        first_index(s, p) is None,
{
}

/// Where some element satisfies `p`, a first one does.
pub proof fn lemma_first_index_some<T>(s: Seq<T>, p: spec_fn(T) -> bool, j: int)
    requires
        0 <= j < s.len(),
        p(s[j]),
    ensures
        first_index(s, p) is Some,
    decreases j,
{
    if forall|m: int| 0 <= m < j ==> !p(#[trigger] s[m]) {
        assert(is_first(s, p, j));
    } else {
        let m = choose|m: int| 0 <= m < j && p(#[trigger] s[m]);
        lemma_first_index_some(s, p, m);
    }
}

/// Looking a name up in `a + b` finds it in `a` first, else in `b`.
pub proof fn lemma_var_type_concat(a: Seq<VarView>, b: Seq<VarView>, name: Seq<char>)
    ensures
        var_type(a + b, name) == (if var_type(a, name) is Some {
            var_type(a, name)
        } else {
            var_type(b, name)
        }),
{
    let p = var_named(name);
    let ab = a + b;
    match first_index(a, p) {
        Some(i) => {
            assert(is_first(a, p, i));
            assert(ab[i] == a[i]);
            assert forall|j: int| 0 <= j < i implies !p(#[trigger] ab[j]) by {
                assert(ab[j] == a[j]);
            }
            lemma_first_index_is(ab, p, i);
        },
        None => {
            assert forall|j: int| 0 <= j < a.len() implies !p(#[trigger] a[j]) by {
                if p(a[j]) {
                    lemma_first_index_some(a, p, j);
                }
            }
            match first_index(b, p) {
                Some(i) => {
                    assert(is_first(b, p, i));
                    assert(ab[a.len() + i] == b[i]);
                    assert forall|j: int| 0 <= j < a.len() + i implies !p(#[trigger] ab[j]) by {
                        if j < a.len() {
                            assert(ab[j] == a[j]);
                        } else {
                            assert(ab[j] == b[j - a.len()]);
                        }
                    }
                    lemma_first_index_is(ab, p, a.len() + i);
                },
                None => {
                    assert forall|j: int| 0 <= j < b.len() implies !p(#[trigger] b[j]) by {
                        if p(b[j]) {
                            lemma_first_index_some(b, p, j);
                        }
                    }
                    assert forall|j: int| 0 <= j < ab.len() implies !p(#[trigger] ab[j]) by {
                        if j < a.len() {
                            assert(ab[j] == a[j]);
                        } else {
                            assert(ab[j] == b[j - a.len()]);
                        }
                    }
                    lemma_first_index_none(ab, p);
                },
            }
        },
    }
}

/// The first position in `vars` of a variable called `name`.
fn position_of(vars: &Vec<Variable>, name: &str) -> (r: Option<usize>)
    ensures
        match r {
            Some(i) => first_index(vars_view(vars@), var_named(name@)) == Some(i as int),
            None => first_index(vars_view(vars@), var_named(name@)) is None,
        },
{
    let ghost vs = vars_view(vars@);
    let mut i: usize = 0;
    while i < vars.len()
        invariant
            i <= vars.len(),
            vs == vars_view(vars@),
            forall|j: int| 0 <= j < i ==> !var_named(name@)(#[trigger] vs[j]),
        decreases vars.len() - i,
    {
        if str_eq(vars[i].name.as_str(), name) {
            proof {
                lemma_first_index_is(vs, var_named(name@), i as int);
            }
            return Some(i);
        }
        i = i + 1;
    }
    proof {
        lemma_first_index_none(vs, var_named(name@));
    }
    None
}

impl CheckError {
    pub fn new(msg: &str, fi: FI) -> (r: CheckError)
        ensures
            r.msg@ == msg@,
            r.fi == fi,
    {
        CheckError { msg: String::from_str(msg), fi }
    }
}

/// "`what`: `a` and `b`", for two types that should agree.
fn mismatch(what: &str, a: Type_, b: Type_) -> (r: String)
    ensures
        r@ == mismatch_text(what@, a, b),
{
    let mut m = String::from_str(what);
    m.append(": ");
    match a {
        Type_::U64(_) => m.append("u64"),
        Type_::I64(_) => m.append("i64"),
    }
    m.append(" and ");
    match b {
        Type_::U64(_) => m.append("u64"),
        Type_::I64(_) => m.append("i64"),
    }
    m
}

/// "`prefix``name``suffix`", for messages that name what they are about.
fn message(prefix: &str, name: &str, suffix: &str) -> (r: String)
    ensures
        r@ == prefix@ + name@ + suffix@,
{
    let mut m = String::from_str(prefix);
    m.append(name);
    m.append(suffix);
    m
}

impl ProgEnv {
    pub open spec fn sigs(&self) -> Seq<SigView> {
        sigs_view(self.fn_sigs@)
    }

    pub open spec fn globals(&self) -> Seq<VarView> {
        vars_view(self.globals_def@)
    }

    /// The signature of the first function called `name`.
    pub fn get_signature(&self, name: &str) -> (r: Option<&FuncSig>)
        ensures
            match r {
                Some(s) => sig_of(self.sigs(), name@) == Some(s@),
                None => sig_of(self.sigs(), name@) is None,
            },
    {
        match sig_position(&self.fn_sigs, name) {
            Some(i) => Some(&self.fn_sigs[i]),
            None => None,
        }
    }

    /// The first global called `name`.
    pub fn get_global_def(&self, name: &str) -> (r: Option<&Variable>)
        ensures
            match r {
                Some(v) => v.name@ == name@ && var_type(self.globals(), name@) == Some(v.ttype),
                None => var_type(self.globals(), name@) is None,
            },
    {
        match position_of(&self.globals_def, name) {
            Some(i) => Some(&self.globals_def[i]),
            None => None,
        }
    }

    /// The variable that `name` refers to inside the function of `f_env`:
    /// a parameter, else a local, else a global.
    pub fn get_var<'a>(&'a self, name: &str, f_env: &'a FuncEnv) -> (r: Option<&'a Variable>)
        ensures
            match r {
                Some(v) => v.name@ == name@ && var_type(scope(f_env, self), name@) == Some(v.ttype),
                None => var_type(scope(f_env, self), name@) is None,
            },
    {
        proof {
            lemma_var_type_concat(f_env.locals_scope(), self.globals(), name@);
        }
        if let Some(var) = f_env.get_var(name) {
            return Some(var);
        }
        self.get_global_def(name)
    }
}

/// Every variable that a function can name, in the order a name is looked
/// up: parameters, locals, globals.
pub open spec fn scope(f_env: &FuncEnv, p_env: &ProgEnv) -> Seq<VarView> {
    f_env.locals_scope() + p_env.globals()
}

impl FuncEnv {
    pub open spec fn params(&self) -> Seq<VarView> {
        vars_view(self.function_params@)
    }

    pub open spec fn locals(&self) -> Seq<VarView> {
        vars_view(self.local_variables@)
    }

    /// Parameters, then locals.
    pub open spec fn locals_scope(&self) -> Seq<VarView> {
        self.params() + self.locals()
    }

    fn get_var(&self, name: &str) -> (r: Option<&Variable>)
        ensures
            match r {
                Some(v) => v.name@ == name@ && var_type(self.locals_scope(), name@) == Some(v.ttype),
                None => var_type(self.locals_scope(), name@) is None,
            },
    {
        proof {
            lemma_var_type_concat(self.params(), self.locals(), name@);
        }
        if let Some(i) = position_of(&self.function_params, name) {
            return Some(&self.function_params[i]);
        }
        if let Some(i) = position_of(&self.local_variables, name) {
            return Some(&self.local_variables[i]);
        }
        None
    }

    /// The slot of the local called `name`.
    pub fn get_local_pos(&self, name: &str) -> (r: Option<usize>)
        ensures
            match r {
                Some(i) => first_index(self.locals(), var_named(name@)) == Some(i as int),
                None => first_index(self.locals(), var_named(name@)) is None,
            },
    {
        position_of(&self.local_variables, name)
    }

    /// The position of the parameter called `name`.
    pub fn get_param_pos(&self, name: &str) -> (r: Option<usize>)
        ensures
            match r {
                Some(i) => first_index(self.params(), var_named(name@)) == Some(i as int),
                None => first_index(self.params(), var_named(name@)) is None,
            },
    {
        position_of(&self.function_params, name)
    }
}

/// The type of `e`, where `vars` is the scope and `sigs` the functions; none
/// where a name is unresolved, the operands of an operation differ in type,
/// or a call does not fit its callee.
pub open spec fn expr_type(e: Expression, vars: Seq<VarView>, sigs: Seq<SigView>) -> Option<Type_>
    decreases e,
{
    match e {
        Expression::U64(_, _) => Some(Type_::U64(FI { length: 0, offset: 0 })),
        Expression::I64(_, _) => Some(Type_::I64(FI { length: 0, offset: 0 })),
        Expression::Var(name, _) => var_type(vars, name@),
        Expression::BinOp(l, _, r, _) => {
            match (expr_type(*l, vars, sigs), expr_type(*r, vars, sigs)) {
                (Some(a), Some(b)) => if a.same(b) {
                    Some(a)
                } else {
                    None
                },
                _ => None,
            }
        },
        Expression::Call(c) => call_type(c, vars, sigs),
    }
}

/// The type of a call: its callee's return type, where the callee exists
/// and every argument has the type of its parameter.
pub open spec fn call_type(c: Call, vars: Seq<VarView>, sigs: Seq<SigView>) -> Option<Type_>
    decreases c,
{
    match sig_of(sigs, c.name@) {
        Some(sig) => if sig.1.len() == c.args.len() && args_fit(c.args@, sig.1, vars, sigs) {
            Some(sig.2)
        } else {
            None
        },
        None => None,
    }
}

/// Each argument has the type of the parameter at its position.
pub open spec fn args_fit(args: Seq<Expression>, params: Seq<Type_>, vars: Seq<VarView>, sigs: Seq<SigView>) -> bool
    decreases args,
{
    if args.len() == 0 {
        true
    } else {
        args_fit(args.drop_last(), params, vars, sigs) && arg_fits(
            expr_type(args.last(), vars, sigs),
            params[args.len() - 1],
        )
    }
}

pub open spec fn arg_fits(t: Option<Type_>, param: Type_) -> bool {
    t is Some && t->0.same(param)
}

/// A condition of `if`, `while` and `do ... while` must be a comparison.
pub open spec fn is_comparison_exp(e: Expression) -> bool {
    e matches Expression::BinOp(_, op, _, _) && op.is_comparison()
}

/// The statement is well typed in a function returning `ret`.
pub open spec fn stmt_ok(s: Statement, vars: Seq<VarView>, sigs: Seq<SigView>, ret: Type_) -> bool
    decreases s,
{
    match s {
        Statement::If(i) => {
            &&& is_comparison_exp(i.condition)
            &&& expr_type(i.condition, vars, sigs) is Some
            &&& stmts_ok(i.body@, vars, sigs, ret)
            &&& stmts_ok(i.else_body@, vars, sigs, ret)
        },
        Statement::While(w) => {
            &&& is_comparison_exp(w.condition)
            &&& expr_type(w.condition, vars, sigs) is Some
            &&& stmts_ok(w.body@, vars, sigs, ret)
        },
        Statement::DoWhile(d) => {
            &&& is_comparison_exp(d.condition)
            &&& expr_type(d.condition, vars, sigs) is Some
            &&& stmts_ok(d.body@, vars, sigs, ret)
        },
        Statement::Let(l) => arg_fits(expr_type(l.value, vars, sigs), l.ttype),
        Statement::Asm(_) => true,
        Statement::Return(r) => arg_fits(expr_type(r.value, vars, sigs), ret),
        Statement::Assign(a) => {
            &&& expr_type(a.value, vars, sigs) is Some
            &&& var_type(vars, a.name@) is Some
            &&& arg_fits(expr_type(a.value, vars, sigs), var_type(vars, a.name@)->0)
        },
        Statement::Call(c) => call_type(c, vars, sigs) is Some,
    }
}

/// Every statement of the list is well typed.
pub open spec fn stmts_ok(ss: Seq<Statement>, vars: Seq<VarView>, sigs: Seq<SigView>, ret: Type_) -> bool
    decreases ss,
{
    if ss.len() == 0 {
        true
    } else {
        stmts_ok(ss.drop_last(), vars, sigs, ret) && stmt_ok(ss.last(), vars, sigs, ret)
    }
}

/// A list with an ill-typed element at `i` is ill typed.
proof fn lemma_stmts_ok_prefix(ss: Seq<Statement>, vars: Seq<VarView>, sigs: Seq<SigView>, ret: Type_, i: int)
    requires
        0 <= i < ss.len(),
        !stmt_ok(ss[i], vars, sigs, ret),
    ensures
        !stmts_ok(ss, vars, sigs, ret),
    decreases ss.len(),
{
    if i == ss.len() - 1 {
    } else {
        lemma_stmts_ok_prefix(ss.drop_last(), vars, sigs, ret, i);
    }
}

/// Arguments with an ill-typed argument at `i` do not fit.
proof fn lemma_args_fit_prefix(args: Seq<Expression>, params: Seq<Type_>, vars: Seq<VarView>, sigs: Seq<SigView>, i: int)
    requires
        0 <= i < args.len(),
        !arg_fits(expr_type(args[i], vars, sigs), params[i]),
    ensures
        !args_fit(args, params, vars, sigs),
    decreases args.len(),
{
    if i == args.len() - 1 {
    } else {
        lemma_args_fit_prefix(args.drop_last(), params, vars, sigs, i);
    }
}

/// The name of a type as the source spells it.
pub open spec fn type_spelling(t: Type_) -> Seq<char> {
    match t {
        Type_::U64(_) => "u64"@,
        Type_::I64(_) => "i64"@,
    }
}

/// "`what`: `a` and `b`", the message for two types that should agree.
pub open spec fn mismatch_text(what: Seq<char>, a: Type_, b: Type_) -> Seq<char> {
    what + ": "@ + type_spelling(a) + " and "@ + type_spelling(b)
}

/// A check error as the rules see it: its message and its span.
pub type ErrView = (Seq<char>, FI);

pub open spec fn err_view(e: CheckError) -> ErrView {
    (e.msg@, e.fi)
}

/// The first error found in `e`, where `e` is ill typed: an unresolved
/// name, then the left operand, the right operand, and a mismatch between
/// them, each with the span of the expression concerned.
pub open spec fn expr_error(e: Expression, vars: Seq<VarView>, sigs: Seq<SigView>) -> ErrView
    decreases e,
{
    match e {
        Expression::Var(name, fi) => ("Variable "@ + name@ + " not found"@, fi),
        Expression::BinOp(l, _, r, fi) => if expr_type(*l, vars, sigs) is None {
            expr_error(*l, vars, sigs)
        } else if expr_type(*r, vars, sigs) is None {
            expr_error(*r, vars, sigs)
        } else {
            (
                mismatch_text(
                    "Type mismatch in binary operation"@,
                    expr_type(*l, vars, sigs)->0,
                    expr_type(*r, vars, sigs)->0,
                ),
                fi,
            )
        },
        Expression::Call(c) => call_error(c, vars, sigs),
        _ => (Seq::empty(), FI { length: 0, offset: 0 }),
    }
}

/// The first error found in a call that does not fit its callee.
pub open spec fn call_error(c: Call, vars: Seq<VarView>, sigs: Seq<SigView>) -> ErrView
    decreases c,
{
    match sig_of(sigs, c.name@) {
        None => ("Function "@ + c.name@ + " not found"@, c.fi),
        Some(sig) => if sig.1.len() != c.args.len() {
            (
                "Function "@ + c.name@ + " takes "@ + decimal(sig.1.len()) + " parameters, "@ + decimal(c.args.len() as nat)
                    + " given"@,
                c.fi,
            )
        } else {
            args_error(c.args@, sig.1, vars, sigs)
        },
    }
}

/// The error at the first argument that does not fit its parameter.
pub open spec fn args_error(args: Seq<Expression>, params: Seq<Type_>, vars: Seq<VarView>, sigs: Seq<SigView>) -> ErrView
    decreases args,
{
    if args.len() == 0 {
        (Seq::empty(), FI { length: 0, offset: 0 })
    } else if !args_fit(args.drop_last(), params, vars, sigs) {
        args_error(args.drop_last(), params, vars, sigs)
    } else if expr_type(args.last(), vars, sigs) is None {
        expr_error(args.last(), vars, sigs)
    } else {
        (
            mismatch_text(
                "Type mismatch in parameter"@,
                expr_type(args.last(), vars, sigs)->0,
                params[args.len() - 1],
            ),
            args.last().span(),
        )
    }
}

/// The error for a condition that is not a comparison.
pub open spec fn cond_error(e: Expression) -> ErrView {
    match e {
        Expression::BinOp(_, _, _, fi) => ("Invalid comparison expression: arithmetic operator"@, fi),
        _ => ("Invalid comparison expression: not a comparison"@, e.span()),
    }
}

/// The first error found in an ill-typed statement.
pub open spec fn stmt_error(s: Statement, vars: Seq<VarView>, sigs: Seq<SigView>, ret: Type_) -> ErrView
    decreases s,
{
    match s {
        Statement::If(i) => if !is_comparison_exp(i.condition) {
            cond_error(i.condition)
        } else if expr_type(i.condition, vars, sigs) is None {
            expr_error(i.condition, vars, sigs)
        } else if !stmts_ok(i.body@, vars, sigs, ret) {
            stmts_error(i.body@, vars, sigs, ret)
        } else {
            stmts_error(i.else_body@, vars, sigs, ret)
        },
        Statement::While(w) => if !is_comparison_exp(w.condition) {
            cond_error(w.condition)
        } else if expr_type(w.condition, vars, sigs) is None {
            expr_error(w.condition, vars, sigs)
        } else {
            stmts_error(w.body@, vars, sigs, ret)
        },
        Statement::DoWhile(d) => if !is_comparison_exp(d.condition) {
            cond_error(d.condition)
        } else if expr_type(d.condition, vars, sigs) is None {
            expr_error(d.condition, vars, sigs)
        } else {
            stmts_error(d.body@, vars, sigs, ret)
        },
        Statement::Let(l) => if expr_type(l.value, vars, sigs) is None {
            expr_error(l.value, vars, sigs)
        } else {
            (mismatch_text("Type mismatch in let statement"@, expr_type(l.value, vars, sigs)->0, l.ttype), l.fi)
        },
        Statement::Return(r) => if expr_type(r.value, vars, sigs) is None {
            expr_error(r.value, vars, sigs)
        } else {
            (mismatch_text("Type mismatch in return statement"@, expr_type(r.value, vars, sigs)->0, ret), r.fi)
        },
        Statement::Assign(a) => if expr_type(a.value, vars, sigs) is None {
            expr_error(a.value, vars, sigs)
        } else if var_type(vars, a.name@) is None {
            ("Variable "@ + a.name@ + " not found"@, a.fi)
        } else {
            (
                mismatch_text(
                    "Type mismatch in assignment"@,
                    expr_type(a.value, vars, sigs)->0,
                    var_type(vars, a.name@)->0,
                ),
                a.fi,
            )
        },
        Statement::Call(c) => call_error(c, vars, sigs),
        Statement::Asm(_) => (Seq::empty(), FI { length: 0, offset: 0 }),
    }
}

/// The error of the first ill-typed statement of the list.
pub open spec fn stmts_error(ss: Seq<Statement>, vars: Seq<VarView>, sigs: Seq<SigView>, ret: Type_) -> ErrView
    decreases ss,
{
    if ss.len() == 0 {
        (Seq::empty(), FI { length: 0, offset: 0 })
    } else if !stmts_ok(ss.drop_last(), vars, sigs, ret) {
        stmts_error(ss.drop_last(), vars, sigs, ret)
    } else {
        stmt_error(ss.last(), vars, sigs, ret)
    }
}

proof fn lemma_stmts_error_at(ss: Seq<Statement>, vars: Seq<VarView>, sigs: Seq<SigView>, ret: Type_, i: int)
    requires
        0 <= i < ss.len(),
        stmts_ok(ss.subrange(0, i), vars, sigs, ret),
        !stmt_ok(ss[i], vars, sigs, ret),
    ensures
        stmts_error(ss, vars, sigs, ret) == stmt_error(ss[i], vars, sigs, ret),
    decreases ss.len(),
{
    if i == ss.len() - 1 {
        assert(ss.drop_last() == ss.subrange(0, i));
    } else {
        lemma_stmts_ok_prefix(ss.drop_last(), vars, sigs, ret, i);
        assert(ss.drop_last().subrange(0, i) == ss.subrange(0, i));
        lemma_stmts_error_at(ss.drop_last(), vars, sigs, ret, i);
    }
}

proof fn lemma_args_error_at(args: Seq<Expression>, params: Seq<Type_>, vars: Seq<VarView>, sigs: Seq<SigView>, i: int)
    requires
        0 <= i < args.len(),
        args_fit(args.subrange(0, i), params, vars, sigs),
        !arg_fits(expr_type(args[i], vars, sigs), params[i]),
    ensures
        args_error(args, params, vars, sigs) == (if expr_type(args[i], vars, sigs) is None {
            expr_error(args[i], vars, sigs)
        } else {
            (
                mismatch_text("Type mismatch in parameter"@, expr_type(args[i], vars, sigs)->0, params[i]),
                args[i].span(),
            )
        }),
    decreases args.len(),
{
    if i == args.len() - 1 {
        assert(args.drop_last() == args.subrange(0, i));
    } else {
        lemma_args_fit_prefix(args.drop_last(), params, vars, sigs, i);
        assert(args.drop_last().subrange(0, i) == args.subrange(0, i));
        lemma_args_error_at(args.drop_last(), params, vars, sigs, i);
    }
}

impl CheckedProgram {
    fn check_expression(exp: &Expression, f_env: &FuncEnv, p_env: &ProgEnv) -> (r: Result<Type_, CheckError>)
        ensures
            match r {
                Ok(t) => expr_type(*exp, scope(f_env, p_env), p_env.sigs()) == Some(t),
                Err(e) => expr_type(*exp, scope(f_env, p_env), p_env.sigs()) is None && err_view(e) == expr_error(
                    *exp,
                    scope(f_env, p_env),
                    p_env.sigs(),
                ),
            },
        decreases exp,
    {
        match exp {
            Expression::U64(_, _) => Ok(Type_::U64(FI::zero())),
            Expression::I64(_, _) => Ok(Type_::I64(FI::zero())),
            Expression::Var(variable, fi) => {
                match p_env.get_var(variable.as_str(), f_env) {
                    Some(var) => Ok(var.ttype),
                    None => Err(CheckError { msg: message("Variable ", variable.as_str(), " not found"), fi: *fi }),
                }
            },
            Expression::BinOp(e1, _op, e2, fi) => {
                let ltype = Self::check_expression(e1, f_env, p_env)?;
                let rtype = Self::check_expression(e2, f_env, p_env)?;
                if ltype.neq(&rtype) {
                    return Err(CheckError { msg: mismatch("Type mismatch in binary operation", ltype, rtype), fi: *fi });
                }
                Ok(ltype)
            },
            Expression::Call(call) => Self::check_call(call, f_env, p_env),
        }
    }

    fn check_call(call: &Call, f_env: &FuncEnv, p_env: &ProgEnv) -> (r: Result<Type_, CheckError>)
        ensures
            match r {
                Ok(t) => call_type(*call, scope(f_env, p_env), p_env.sigs()) == Some(t),
                Err(e) => call_type(*call, scope(f_env, p_env), p_env.sigs()) is None && err_view(e) == call_error(
                    *call,
                    scope(f_env, p_env),
                    p_env.sigs(),
                ),
            },
        decreases call,
    {
        let ghost vars = scope(f_env, p_env);
        let ghost sigs = p_env.sigs();
        let fn_sig = match p_env.get_signature(call.name.as_str()) {
            Some(s) => s,
            None => {
                return Err(CheckError { msg: message("Function ", call.name.as_str(), " not found"), fi: call.fi });
            },
        };
        if fn_sig.params.len() != call.args.len() {
            let mut msg = message("Function ", call.name.as_str(), " takes ");
            push_decimal(&mut msg, fn_sig.params.len() as u128);
            msg.append(" parameters, ");
            push_decimal(&mut msg, call.args.len() as u128);
            msg.append(" given");
            return Err(CheckError { msg, fi: call.fi });
        }
        let mut i: usize = 0;
        while i < call.args.len()
            invariant
                i <= call.args.len(),
                fn_sig.params.len() == call.args.len(),
                sig_of(sigs, call.name@) == Some(fn_sig@),
                vars == scope(f_env, p_env),
                sigs == p_env.sigs(),
                args_fit(call.args@.subrange(0, i as int), fn_sig.params@, vars, sigs),
            decreases call.args.len() - i,
        {
            let arg = &call.args[i];
            let exp_type = match Self::check_expression(arg, f_env, p_env) {
                Ok(t) => t,
                Err(e) => {
                    proof {
                        lemma_args_fit_prefix(call.args@, fn_sig.params@, vars, sigs, i as int);
                        lemma_args_error_at(call.args@, fn_sig.params@, vars, sigs, i as int);
                    }
                    return Err(e);
                },
            };
            proof {
                assert(call.args@.subrange(0, i + 1).drop_last() == call.args@.subrange(0, i as int));
            }
            if exp_type.neq(&fn_sig.params[i]) {
                proof {
                    lemma_args_fit_prefix(call.args@, fn_sig.params@, vars, sigs, i as int);
                    lemma_args_error_at(call.args@, fn_sig.params@, vars, sigs, i as int);
                }
                return Err(CheckError { msg: mismatch("Type mismatch in parameter", exp_type, fn_sig.params[i]), fi: arg.fi() });
            }
            i = i + 1;
        }
        assert(call.args@.subrange(0, call.args.len() as int) == call.args@);
        Ok(fn_sig.ret_type)
    }

    fn check_comparison_operator(exp: &Expression) -> (r: Result<(), CheckError>)
        ensures
            r is Ok <==> is_comparison_exp(*exp),
            r matches Err(e) ==> err_view(e) == cond_error(*exp),
    {
        if let Expression::BinOp(_, op, _, fi) = exp {
            match op {
                Operator::Eq | Operator::Ne | Operator::LT | Operator::GT => return Ok(()),
                _ => return Err(CheckError::new("Invalid comparison expression: arithmetic operator", *fi)),
            }
        }
        Err(CheckError::new("Invalid comparison expression: not a comparison", exp.fi()))
    }

    fn check_statements(stmts: &Vec<Statement>, f_env: &FuncEnv, p_env: &ProgEnv) -> (r: Result<(), CheckError>)
        ensures
            r is Ok <==> stmts_ok(stmts@, scope(f_env, p_env), p_env.sigs(), f_env.ret_type),
            r matches Err(e) ==> err_view(e) == stmts_error(stmts@, scope(f_env, p_env), p_env.sigs(), f_env.ret_type),
        decreases stmts,
    {
        let ghost vars = scope(f_env, p_env);
        let ghost sigs = p_env.sigs();
        let mut i: usize = 0;
        while i < stmts.len()
            invariant
                i <= stmts.len(),
                vars == scope(f_env, p_env),
                sigs == p_env.sigs(),
                stmts_ok(stmts@.subrange(0, i as int), vars, sigs, f_env.ret_type),
            decreases stmts.len() - i,
        {
            proof {
                assert(stmts@.subrange(0, i + 1).drop_last() == stmts@.subrange(0, i as int));
            }
            if let Err(e) = Self::check_statement(&stmts[i], f_env, p_env) {
                proof {
                    lemma_stmts_ok_prefix(stmts@, vars, sigs, f_env.ret_type, i as int);
                    lemma_stmts_error_at(stmts@, vars, sigs, f_env.ret_type, i as int);
                }
                return Err(e);
            }
            i = i + 1;
        }
        assert(stmts@.subrange(0, stmts.len() as int) == stmts@);
        Ok(())
    }

    fn check_statement(stmt: &Statement, f_env: &FuncEnv, p_env: &ProgEnv) -> (r: Result<(), CheckError>)
        ensures
            r is Ok <==> stmt_ok(*stmt, scope(f_env, p_env), p_env.sigs(), f_env.ret_type),
            r matches Err(e) ==> err_view(e) == stmt_error(*stmt, scope(f_env, p_env), p_env.sigs(), f_env.ret_type),
        decreases stmt,
    {
        match stmt {
            Statement::If(if_stmt) => {
                if let Err(e) = Self::check_comparison_operator(&if_stmt.condition) {
                    return Err(e);
                }
                if let Err(e) = Self::check_expression(&if_stmt.condition, f_env, p_env) {
                    return Err(e);
                }
                if let Err(e) = Self::check_statements(&if_stmt.body, f_env, p_env) {
                    return Err(e);
                }
                if let Err(e) = Self::check_statements(&if_stmt.else_body, f_env, p_env) {
                    return Err(e);
                }
            },
            Statement::While(while_stmt) => {
                if let Err(e) = Self::check_comparison_operator(&while_stmt.condition) {
                    return Err(e);
                }
                if let Err(e) = Self::check_expression(&while_stmt.condition, f_env, p_env) {
                    return Err(e);
                }
                if let Err(e) = Self::check_statements(&while_stmt.body, f_env, p_env) {
                    return Err(e);
                }
            },
            Statement::DoWhile(do_while_stmt) => {
                if let Err(e) = Self::check_comparison_operator(&do_while_stmt.condition) {
                    return Err(e);
                }
                if let Err(e) = Self::check_expression(&do_while_stmt.condition, f_env, p_env) {
                    return Err(e);
                }
                if let Err(e) = Self::check_statements(&do_while_stmt.body, f_env, p_env) {
                    return Err(e);
                }
            },
            Statement::Let(let_stmt) => {
                let exp_type = Self::check_expression(&let_stmt.value, f_env, p_env)?;
                if exp_type.neq(&let_stmt.ttype) {
                    return Err(CheckError { msg: mismatch("Type mismatch in let statement", exp_type, let_stmt.ttype), fi: let_stmt.fi });
                }
            },
            Statement::Asm(_) => {},
            Statement::Return(return_stmt) => {
                let exp_type = Self::check_expression(&return_stmt.value, f_env, p_env)?;
                if exp_type.neq(&f_env.ret_type) {
                    return Err(CheckError { msg: mismatch("Type mismatch in return statement", exp_type, f_env.ret_type), fi: return_stmt.fi });
                }
            },
            Statement::Assign(assign_stmt) => {
                let exp_type = Self::check_expression(&assign_stmt.value, f_env, p_env)?;
                let var = match p_env.get_var(assign_stmt.name.as_str(), f_env) {
                    Some(v) => v,
                    None => {
                        return Err(CheckError { msg: message("Variable ", assign_stmt.name.as_str(), " not found"), fi: assign_stmt.fi });
                    },
                };
                if exp_type.neq(&var.ttype) {
                    return Err(CheckError { msg: mismatch("Type mismatch in assignment", exp_type, var.ttype), fi: assign_stmt.fi });
                }
            },
            Statement::Call(call) => {
                if let Err(e) = Self::check_call(call, f_env, p_env) {
                    return Err(e);
                }
            },
        }
        Ok(())
    }
}

/// The locals that a statement declares, nested blocks included, in the
/// order of their declarations.
pub open spec fn stmt_locals(s: Statement) -> Seq<VarView>
    decreases s,
{
    match s {
        Statement::Let(l) => seq![(l.name@, l.ttype)],
        Statement::If(i) => body_locals(i.body@) + body_locals(i.else_body@),
        Statement::While(w) => body_locals(w.body@),
        Statement::DoWhile(d) => body_locals(d.body@),
        _ => Seq::empty(),
    }
}

/// The locals that a list of statements declares, in order.
pub open spec fn body_locals(ss: Seq<Statement>) -> Seq<VarView>
    decreases ss,
{
    if ss.len() == 0 {
        Seq::empty()
    } else {
        body_locals(ss.drop_last()) + stmt_locals(ss.last())
    }
}

pub open spec fn params_view(ps: Seq<Parameter>) -> Seq<VarView> {
    ps.map_values(|p: Parameter| (p.name@, p.ttype))
}

/// The function is well formed: parameter names are distinct, local names
/// are distinct, and every statement is well typed where names resolve to
/// parameters, then locals, then `globals`.
pub open spec fn function_ok(f: Function, globals: Seq<VarView>, sigs: Seq<SigView>) -> bool {
    &&& distinct_names(params_view(f.params@))
    &&& distinct_names(body_locals(f.body@))
    &&& stmts_ok(f.body@, params_view(f.params@) + body_locals(f.body@) + globals, sigs, f.ret_type)
}

proof fn lemma_body_locals_concat(a: Seq<Statement>, b: Seq<Statement>)
    ensures
        body_locals(a + b) == body_locals(a) + body_locals(b),
    decreases b.len(),
{
    if b.len() == 0 {
        assert(a + b == a);
        assert(body_locals(a) + body_locals(b) == body_locals(a));
    } else {
        assert((a + b).drop_last() == a + b.drop_last());
        assert((a + b).last() == b.last());
        lemma_body_locals_concat(a, b.drop_last());
        assert(body_locals(a) + body_locals(b.drop_last()) + stmt_locals(b.last()) == body_locals(a) + (
        body_locals(b.drop_last()) + stmt_locals(b.last())));
    }
}

/// The locals of a list start with those of its first `i + 1` statements.
proof fn lemma_body_locals_prefix(ss: Seq<Statement>, i: int)
    requires
        0 <= i < ss.len(),
    ensures
        body_locals(ss) == body_locals(ss.subrange(0, i)) + stmt_locals(ss[i]) + body_locals(
            ss.subrange(i + 1, ss.len() as int),
        ),
        body_locals(ss.subrange(0, i + 1)) == body_locals(ss.subrange(0, i)) + stmt_locals(ss[i]),
{
    let pre = ss.subrange(0, i + 1);
    assert(pre.drop_last() == ss.subrange(0, i));
    assert(ss == pre + ss.subrange(i + 1, ss.len() as int));
    lemma_body_locals_concat(pre, ss.subrange(i + 1, ss.len() as int));
}

proof fn lemma_not_distinct_extend(a: Seq<VarView>, b: Seq<VarView>)
    requires
        !distinct_names(a),
    ensures
        !distinct_names(a + b),
{
    let (i, j) = choose|i: int, j: int| 0 <= i < j < a.len() && a[i].0 == a[j].0;
    assert((a + b)[i] == a[i] && (a + b)[j] == a[j]);
}

/// The `let`s that a statement declares, nested blocks included, in order:
/// each name with the span of its `let`.
pub open spec fn stmt_lets(s: Statement) -> Seq<(Seq<char>, FI)>
    decreases s,
{
    match s {
        Statement::Let(l) => seq![(l.name@, l.fi)],
        Statement::If(i) => body_lets(i.body@) + body_lets(i.else_body@),
        Statement::While(w) => body_lets(w.body@),
        Statement::DoWhile(d) => body_lets(d.body@),
        _ => Seq::empty(),
    }
}

pub open spec fn body_lets(ss: Seq<Statement>) -> Seq<(Seq<char>, FI)>
    decreases ss,
{
    if ss.len() == 0 {
        Seq::empty()
    } else {
        body_lets(ss.drop_last()) + stmt_lets(ss.last())
    }
}

pub open spec fn var_names(vs: Seq<VarView>) -> Seq<Seq<char>> {
    vs.map_values(|v: VarView| v.0)
}

/// `names[j]` is the first name that repeats an earlier one.
pub open spec fn first_repeat(names: Seq<Seq<char>>, j: int) -> bool {
    &&& 0 <= j < names.len()
    &&& exists|i: int| 0 <= i < j && names[i] == #[trigger] names[j]
    &&& forall|a: int, b: int| 0 <= a < b < j ==> names[a] != names[b]
}

proof fn lemma_stmt_lets(s: Statement)
    ensures
        stmt_lets(s).len() == stmt_locals(s).len(),
        forall|k: int| 0 <= k < stmt_lets(s).len() ==> #[trigger] stmt_lets(s)[k].0 == stmt_locals(s)[k].0,
    decreases s,
{
    match s {
        Statement::If(i) => {
            lemma_body_lets(i.body@);
            lemma_body_lets(i.else_body@);
            let a = body_lets(i.body@);
            let b = body_lets(i.else_body@);
            assert forall|k: int| 0 <= k < stmt_lets(s).len() implies #[trigger] stmt_lets(s)[k].0 == stmt_locals(s)[k].0 by {
                if k < a.len() {
                    assert(stmt_lets(s)[k] == a[k]);
                    assert(stmt_locals(s)[k] == body_locals(i.body@)[k]);
                } else {
                    assert(stmt_lets(s)[k] == b[k - a.len()]);
                    assert(stmt_locals(s)[k] == body_locals(i.else_body@)[k - a.len()]);
                }
            }
        },
        Statement::While(w) => {
            lemma_body_lets(w.body@);
        },
        Statement::DoWhile(d) => {
            lemma_body_lets(d.body@);
        },
        _ => {},
    }
}

proof fn lemma_body_lets(ss: Seq<Statement>)
    ensures
        body_lets(ss).len() == body_locals(ss).len(),
        forall|k: int| 0 <= k < body_lets(ss).len() ==> #[trigger] body_lets(ss)[k].0 == body_locals(ss)[k].0,
    decreases ss,
{
    if ss.len() > 0 {
        lemma_body_lets(ss.drop_last());
        lemma_stmt_lets(ss.last());
        let a = body_lets(ss.drop_last());
        assert forall|k: int| 0 <= k < body_lets(ss).len() implies #[trigger] body_lets(ss)[k].0 == body_locals(ss)[k].0 by {
            if k < a.len() {
                assert(body_lets(ss)[k] == a[k]);
                assert(body_locals(ss)[k] == body_locals(ss.drop_last())[k]);
            } else {
                assert(body_lets(ss)[k] == stmt_lets(ss.last())[k - a.len()]);
                assert(body_locals(ss)[k] == stmt_locals(ss.last())[k - a.len()]);
            }
        }
    }
}

proof fn lemma_body_lets_concat(a: Seq<Statement>, b: Seq<Statement>)
    ensures
        body_lets(a + b) == body_lets(a) + body_lets(b),
    decreases b.len(),
{
    if b.len() == 0 {
        assert(a + b == a);
        assert(body_lets(a) + body_lets(b) == body_lets(a));
    } else {
        assert((a + b).drop_last() == a + b.drop_last());
        assert((a + b).last() == b.last());
        lemma_body_lets_concat(a, b.drop_last());
        assert(body_lets(a) + body_lets(b.drop_last()) + stmt_lets(b.last()) == body_lets(a) + (body_lets(b.drop_last())
            + stmt_lets(b.last())));
    }
}

/// The `let`s of statement `i` stand in the `let`s of the list right after
/// those of the statements before it.
proof fn lemma_lets_at(ss: Seq<Statement>, i: int, k: int)
    requires
        0 <= i < ss.len(),
        0 <= k < stmt_lets(ss[i]).len(),
    ensures
        body_locals(ss.subrange(0, i)).len() + k < body_lets(ss).len(),
        body_lets(ss)[body_locals(ss.subrange(0, i)).len() + k] == stmt_lets(ss[i])[k],
{
    let pre = ss.subrange(0, i + 1);
    assert(pre.drop_last() == ss.subrange(0, i));
    assert(ss == pre + ss.subrange(i + 1, ss.len() as int));
    lemma_body_lets_concat(pre, ss.subrange(i + 1, ss.len() as int));
    lemma_body_lets(ss.subrange(0, i));
    let a = body_lets(ss.subrange(0, i));
    assert(body_lets(pre) == a + stmt_lets(ss[i]));
    assert(body_lets(ss)[a.len() + k] == body_lets(pre)[a.len() + k]);
}

/// A first repeat in a prefix is the first repeat of the whole.
proof fn lemma_first_repeat_extend(a: Seq<Seq<char>>, b: Seq<Seq<char>>, j: int)
    requires
        first_repeat(a, j),
    ensures
        first_repeat(a + b, j),
{
    let i = choose|i: int| 0 <= i < j && a[i] == #[trigger] a[j];
    assert((a + b)[i] == a[i] && (a + b)[j] == a[j]);
    assert forall|x: int, y: int| 0 <= x < y < j implies (a + b)[x] != (a + b)[y] by {
        assert((a + b)[x] == a[x] && (a + b)[y] == a[y]);
    }
}

impl CheckedProgram {
    /// Adds the locals that `stmts` declare to `locals`, failing at the
    /// first name that is already there.
    #[verifier::rlimit(100)]
    fn collect_locals(stmts: &Vec<Statement>, fname: &str, locals: &mut Vec<Variable>) -> (r: Result<(), CheckError>)
        requires
            distinct_names(vars_view(old(locals)@)),
        ensures
            r is Ok <==> distinct_names(vars_view(old(locals)@) + body_locals(stmts@)),
            r is Ok ==> vars_view(final(locals)@) == vars_view(old(locals)@) + body_locals(stmts@),
            r matches Err(e) ==> exists|j: int|
                0 <= j < body_lets(stmts@).len() && first_repeat(
                    var_names(vars_view(old(locals)@) + body_locals(stmts@)),
                    vars_view(old(locals)@).len() + j,
                ) && e.msg@ == "Duplicate variable name "@ + (#[trigger] body_lets(stmts@)[j]).0 + " in function "@ + fname@
                    && e.fi == body_lets(stmts@)[j].1,
        decreases stmts,
    {
        let ghost start = vars_view(locals@);
        let mut i: usize = 0;
        while i < stmts.len()
            invariant
                i <= stmts.len(),
                start == vars_view(old(locals)@),
                vars_view(locals@) == start + body_locals(stmts@.subrange(0, i as int)),
                distinct_names(vars_view(locals@)),
            decreases stmts.len() - i,
        {
            proof {
                lemma_body_locals_prefix(stmts@, i as int);
                assert(start + body_locals(stmts@) == start + body_locals(stmts@.subrange(0, i + 1))
                    + body_locals(stmts@.subrange(i + 1, stmts.len() as int)));
            }
            let ghost cur = vars_view(locals@);
            let ghost rest = body_locals(stmts@.subrange(i + 1, stmts.len() as int));
            proof {
                assert(cur + stmt_locals(stmts@[i as int]) + rest == start + body_locals(stmts@));
            }
            match &stmts[i] {
                Statement::Let(let_stmt) => {
                    if let Some(j) = position_of(locals, let_stmt.name.as_str()) {
                        proof {
                            let both = cur + seq![(let_stmt.name@, let_stmt.ttype)];
                            assert(stmt_locals(stmts@[i as int]) == seq![(let_stmt.name@, let_stmt.ttype)]);
                            assert(start + body_locals(stmts@.subrange(0, i + 1)) == both);
                            assert(is_first(cur, var_named(let_stmt.name@), j as int));
                            assert(both[j as int] == cur[j as int]);
                            assert(both[cur.len() as int].0 == let_stmt.name@);
                            assert(!distinct_names(both));
                            lemma_not_distinct_extend(both, rest);
                            assert(both + rest == start + body_locals(stmts@));
                            let nb = var_names(both);
                            assert(nb[j as int] == nb[cur.len() as int]);
                            assert forall|a: int, b: int| 0 <= a < b < cur.len() implies nb[a] != nb[b] by {
                                assert(nb[a] == cur[a].0 && nb[b] == cur[b].0);
                            }
                            assert(first_repeat(nb, cur.len() as int));
                            lemma_first_repeat_extend(nb, var_names(rest), cur.len() as int);
                            assert(var_names(both + rest) =~= nb + var_names(rest));
                            lemma_lets_at(stmts@, i as int, 0);
                            let jj = body_locals(stmts@.subrange(0, i as int)).len() as int;
                            assert(stmt_lets(stmts@[i as int]) == seq![(let_stmt.name@, let_stmt.fi)]);
                            assert(cur.len() == start.len() + jj);
                            assert(body_lets(stmts@)[jj] == (let_stmt.name@, let_stmt.fi));
                        }
                        let mut msg = message("Duplicate variable name ", let_stmt.name.as_str(), " in function ");
                        msg.append(fname);
                        assert(msg@ == "Duplicate variable name "@ + let_stmt.name@ + " in function "@ + fname@);
                        return Err(CheckError { msg, fi: let_stmt.fi });
                    }
                    let v = Variable { name: let_stmt.name.clone(), ttype: let_stmt.ttype };
                    locals.push(v);
                    proof {
                        let both = cur + seq![(let_stmt.name@, let_stmt.ttype)];
                        assert(vars_view(locals@) == both);
                        assert forall|a: int, b: int| 0 <= a < b < both.len() implies both[a].0 != both[b].0 by {
                            if b == cur.len() && var_named(let_stmt.name@)(cur[a]) {
                                lemma_first_index_some(cur, var_named(let_stmt.name@), a);
                            }
                        }
                    }
                },
                Statement::If(if_stmt) => {
                    let r1 = Self::collect_locals(&if_stmt.body, fname, locals);
                    if let Err(e) = r1 {
                        proof {
                            lemma_not_distinct_extend(cur + body_locals(if_stmt.body@), body_locals(if_stmt.else_body@));
                            assert(cur + body_locals(if_stmt.body@) + body_locals(if_stmt.else_body@) == cur + stmt_locals(stmts@[i as int]));
                            lemma_not_distinct_extend(cur + stmt_locals(stmts@[i as int]), body_locals(stmts@.subrange(i + 1, stmts.len() as int)));
                            let jp = choose|jp: int|
                                0 <= jp < body_lets(if_stmt.body@).len() && first_repeat(
                                    var_names(cur + body_locals(if_stmt.body@)),
                                    cur.len() + jp,
                                ) && e.msg@ == "Duplicate variable name "@ + (#[trigger] body_lets(if_stmt.body@)[jp]).0
                                    + " in function "@ + fname@ && e.fi == body_lets(if_stmt.body@)[jp].1;
                            lemma_first_repeat_extend(var_names(cur + body_locals(if_stmt.body@)), var_names(body_locals(if_stmt.else_body@) + rest), cur.len() + jp);
                            assert(var_names(start + body_locals(stmts@)) =~= var_names(cur + body_locals(if_stmt.body@)) + var_names(body_locals(if_stmt.else_body@) + rest));
                            assert(stmt_lets(stmts@[i as int])[jp] == body_lets(if_stmt.body@)[jp]);
                            lemma_lets_at(stmts@, i as int, jp);
                            let jj = body_locals(stmts@.subrange(0, i as int)).len() as int;
                            assert(cur.len() == start.len() + jj);
                            assert(body_lets(stmts@)[jj + jp] == body_lets(if_stmt.body@)[jp]);
                        }
                        return Err(e);
                    }
                    let r2 = Self::collect_locals(&if_stmt.else_body, fname, locals);
                    proof {
                        assert(cur + body_locals(if_stmt.body@) + body_locals(if_stmt.else_body@) == cur + stmt_locals(stmts@[i as int]));
                    }
                    if let Err(e) = r2 {
                        proof {
                            lemma_not_distinct_extend(cur + stmt_locals(stmts@[i as int]), body_locals(stmts@.subrange(i + 1, stmts.len() as int)));
                            let mid = cur + body_locals(if_stmt.body@);
                            let jp = choose|jp: int|
                                0 <= jp < body_lets(if_stmt.else_body@).len() && first_repeat(
                                    var_names(mid + body_locals(if_stmt.else_body@)),
                                    mid.len() + jp,
                                ) && e.msg@ == "Duplicate variable name "@ + (#[trigger] body_lets(if_stmt.else_body@)[jp]).0
                                    + " in function "@ + fname@ && e.fi == body_lets(if_stmt.else_body@)[jp].1;
                            lemma_first_repeat_extend(var_names(mid + body_locals(if_stmt.else_body@)), var_names(rest), mid.len() + jp);
                            assert(var_names(start + body_locals(stmts@)) =~= var_names(mid + body_locals(if_stmt.else_body@)) + var_names(rest));
                            lemma_body_lets(if_stmt.body@);
                            let lb = body_lets(if_stmt.body@).len() as int;
                            assert(stmt_lets(stmts@[i as int])[lb + jp] == body_lets(if_stmt.else_body@)[jp]);
                            lemma_lets_at(stmts@, i as int, lb + jp);
                            let jj = body_locals(stmts@.subrange(0, i as int)).len() as int;
                            assert(cur.len() == start.len() + jj);
                            assert(body_lets(stmts@)[jj + lb + jp] == body_lets(if_stmt.else_body@)[jp]);
                        }
                        return Err(e);
                    }
                },
                Statement::While(while_stmt) => {
                    if let Err(e) = Self::collect_locals(&while_stmt.body, fname, locals) {
                        proof {
                            lemma_not_distinct_extend(cur + stmt_locals(stmts@[i as int]), body_locals(stmts@.subrange(i + 1, stmts.len() as int)));
                            let jp = choose|jp: int|
                                0 <= jp < body_lets(while_stmt.body@).len() && first_repeat(
                                    var_names(cur + body_locals(while_stmt.body@)),
                                    cur.len() + jp,
                                ) && e.msg@ == "Duplicate variable name "@ + (#[trigger] body_lets(while_stmt.body@)[jp]).0
                                    + " in function "@ + fname@ && e.fi == body_lets(while_stmt.body@)[jp].1;
                            lemma_first_repeat_extend(var_names(cur + body_locals(while_stmt.body@)), var_names(rest), cur.len() + jp);
                            assert(var_names(start + body_locals(stmts@)) =~= var_names(cur + body_locals(while_stmt.body@)) + var_names(rest));
                            assert(stmt_lets(stmts@[i as int])[jp] == body_lets(while_stmt.body@)[jp]);
                            lemma_lets_at(stmts@, i as int, jp);
                            let jj = body_locals(stmts@.subrange(0, i as int)).len() as int;
                            assert(cur.len() == start.len() + jj);
                        }
                        return Err(e);
                    }
                },
                Statement::DoWhile(do_while) => {
                    if let Err(e) = Self::collect_locals(&do_while.body, fname, locals) {
                        proof {
                            lemma_not_distinct_extend(cur + stmt_locals(stmts@[i as int]), body_locals(stmts@.subrange(i + 1, stmts.len() as int)));
                            let jp = choose|jp: int|
                                0 <= jp < body_lets(do_while.body@).len() && first_repeat(
                                    var_names(cur + body_locals(do_while.body@)),
                                    cur.len() + jp,
                                ) && e.msg@ == "Duplicate variable name "@ + (#[trigger] body_lets(do_while.body@)[jp]).0
                                    + " in function "@ + fname@ && e.fi == body_lets(do_while.body@)[jp].1;
                            lemma_first_repeat_extend(var_names(cur + body_locals(do_while.body@)), var_names(rest), cur.len() + jp);
                            assert(var_names(start + body_locals(stmts@)) =~= var_names(cur + body_locals(do_while.body@)) + var_names(rest));
                            assert(stmt_lets(stmts@[i as int])[jp] == body_lets(do_while.body@)[jp]);
                            lemma_lets_at(stmts@, i as int, jp);
                            let jj = body_locals(stmts@.subrange(0, i as int)).len() as int;
                            assert(cur.len() == start.len() + jj);
                        }
                        return Err(e);
                    }
                },
                _ => {
                    assert(cur + stmt_locals(stmts@[i as int]) == cur);
                },
            }
            proof {
                assert(start + body_locals(stmts@.subrange(0, i + 1)) == cur + stmt_locals(stmts@[i as int]));
            }
            i = i + 1;
        }
        proof {
            assert(stmts@.subrange(0, stmts.len() as int) == stmts@);
        }
        Ok(())
    }

    /// Checks one function: distinct parameter names, distinct local names,
    /// well-typed statements. Gives the function's environment.
    fn check_function(function: &Function, prog_env: &ProgEnv) -> (r: Result<FuncEnv, CheckError>)
        ensures
            r is Ok <==> function_ok(*function, prog_env.globals(), prog_env.sigs()),
            r matches Err(e) ==> function_error(*function, prog_env.globals(), prog_env.sigs(), e),
            r matches Ok(env) ==> {
                &&& env.params() == params_view(function.params@)
                &&& env.locals() == body_locals(function.body@)
                &&& env.ret_type == function.ret_type
            },
    {
        let mut function_params: Vec<Variable> = Vec::new();
        let mut local_variables: Vec<Variable> = Vec::new();
        let ghost pv = params_view(function.params@);

        let mut i: usize = 0;
        while i < function.params.len()
            invariant
                i <= function.params.len(),
                pv == params_view(function.params@),
                vars_view(function_params@) == pv.subrange(0, i as int),
                distinct_names(vars_view(function_params@)),
            decreases function.params.len() - i,
        {
            let param = &function.params[i];
            let ghost cur = vars_view(function_params@);
            if let Some(j) = position_of(&function_params, param.name.as_str()) {
                proof {
                    assert(is_first(cur, var_named(param.name@), j as int));
                    assert(pv[j as int] == cur[j as int]);
                    assert(pv[i as int].0 == param.name@);
                }
                let mut msg = message("Duplicate parameter name ", param.name.as_str(), " in function ");
                msg.append(function.name.as_str());
                proof {
                    assert forall|a: int, b: int| 0 <= a < b < i implies function.params@[a].name@ != function.params@[b].name@ by {
                        assert(cur[a] == pv[a] && cur[b] == pv[b]);
                    }
                    assert(first_duplicate_param(function.params@, i as int));
                }
                return Err(CheckError { msg, fi: param.fi });
            }
            function_params.push(Variable { name: param.name.clone(), ttype: param.ttype });
            proof {
                let next = vars_view(function_params@);
                assert(cur.len() == i);
                assert(function_params@.len() == i + 1);
                assert(next.len() == i + 1);
                assert(next[i as int] == pv[i as int]);
                assert(forall|k: int| 0 <= k < i ==> next[k] == cur[k]);
                assert(next =~= pv.subrange(0, i + 1));
                assert forall|a: int, b: int| 0 <= a < b < next.len() implies next[a].0 != next[b].0 by {
                    if b == cur.len() && var_named(param.name@)(cur[a]) {
                        lemma_first_index_some(cur, var_named(param.name@), a);
                    }
                }
            }
            i = i + 1;
        }
        assert(pv.subrange(0, function.params.len() as int) == pv);

        if let Err(e) = Self::collect_locals(&function.body, function.name.as_str(), &mut local_variables) {
            assert(vars_view(Seq::<Variable>::empty()) + body_locals(function.body@) == body_locals(function.body@));
            return Err(e);
        }
        assert(vars_view(Seq::<Variable>::empty()) + body_locals(function.body@) == body_locals(function.body@));

        let function_env = FuncEnv { function_params, local_variables, ret_type: function.ret_type };

        if let Err(e) = Self::check_statements(&function.body, &function_env, prog_env) {
            return Err(e);
        }
        Ok(function_env)
    }
}

pub open spec fn name_eq(n: Seq<char>) -> spec_fn(Seq<char>) -> bool {
    |x: Seq<char>| x == n
}

pub open spec fn strings_view(ss: Seq<String>) -> Seq<Seq<char>> {
    ss.map_values(|s: String| s@)
}

pub open spec fn global_names(gs: Seq<Global>) -> Seq<Seq<char>> {
    gs.map_values(|g: Global| g.name@)
}

/// The initializer uses literals, names of globals and arithmetic only.
pub open spec fn init_ok(e: Expression, names: Seq<Seq<char>>) -> bool
    decreases e,
{
    match e {
        Expression::U64(_, _) => true,
        Expression::I64(_, _) => true,
        Expression::Var(n, _) => first_index(names, name_eq(n@)) is Some,
        Expression::BinOp(l, op, r, _) => !op.is_comparison() && init_ok(*l, names) && init_ok(*r, names),
        Expression::Call(_) => false,
    }
}

/// The globals that an initializer names, left to right, by position.
pub open spec fn init_refs(e: Expression, names: Seq<Seq<char>>) -> Seq<int>
    decreases e,
{
    match e {
        Expression::Var(n, _) => match first_index(names, name_eq(n@)) {
            Some(i) => seq![i],
            None => Seq::empty(),
        },
        Expression::BinOp(l, _, r, _) => init_refs(*l, names) + init_refs(*r, names),
        _ => Seq::empty(),
    }
}

/// `a op b` on 64-bit signed integers; none where the result does not fit
/// or the divisor is zero.
pub open spec fn arith(op: Operator, a: i64, b: i64) -> Option<i64> {
    match op {
        Operator::Add => a.checked_add(b),
        Operator::Sub => a.checked_sub(b),
        Operator::Mul => a.checked_mul(b),
        Operator::Div => a.checked_div(b),
        Operator::Mod => a.checked_rem(b),
        _ => None,
    }
}

/// The value of an initializer, where the globals have the values `vals`.
pub open spec fn eval_init(e: Expression, names: Seq<Seq<char>>, vals: Seq<i64>) -> Option<i64>
    decreases e,
{
    match e {
        Expression::U64(n, _) => if n <= i64::MAX as u64 {
            Some(n as i64)
        } else {
            None
        },
        Expression::I64(n, _) => Some(n),
        Expression::Var(n, _) => match first_index(names, name_eq(n@)) {
            Some(i) => Some(vals[i]),
            None => None,
        },
        Expression::BinOp(l, op, r, _) => match (eval_init(*l, names, vals), eval_init(*r, names, vals)) {
            (Some(a), Some(b)) => arith(op, a, b),
            _ => None,
        },
        Expression::Call(_) => None,
    }
}

/// Which globals each global's initializer names.
pub open spec fn global_deps(gs: Seq<Global>) -> Seq<Seq<int>> {
    gs.map_values(|g: Global| init_refs(g.value, global_names(gs)))
}

/// `rank` strictly decreases along every dependency.
pub open spec fn is_ranking(g: Seq<Seq<int>>, rank: Seq<nat>) -> bool {
    &&& rank.len() == g.len()
    &&& forall|x: int, k: int|
        0 <= x < g.len() && 0 <= k < g[x].len() ==> 0 <= #[trigger] g[x][k] < g.len() && rank[g[x][k]] < rank[x]
}

/// No global depends on itself, directly or through others.
pub open spec fn acyclic(g: Seq<Seq<int>>) -> bool {
    exists|rank: Seq<nat>| is_ranking(g, rank)
}

/// Each global's value is what its initializer evaluates to.
pub open spec fn is_fixpoint(gs: Seq<Global>, vals: Seq<i64>) -> bool {
    &&& vals.len() == gs.len()
    &&& forall|i: int| 0 <= i < gs.len() ==> eval_init(#[trigger] gs[i].value, global_names(gs), vals) == Some(vals[i])
}

/// The globals can be given their compile-time values: initializers are
/// plain arithmetic over other globals, no dependency cycle exists, and
/// evaluation succeeds.
pub open spec fn globals_resolvable(gs: Seq<Global>) -> bool {
    &&& forall|i: int| 0 <= i < gs.len() ==> init_ok(#[trigger] gs[i].value, global_names(gs))
    &&& acyclic(global_deps(gs))
    &&& exists|vals: Seq<i64>| is_fixpoint(gs, vals)
}

pub open spec fn graph(deps: Seq<Vec<usize>>) -> Seq<Seq<int>> {
    deps.map_values(|v: Vec<usize>| v@.map_values(|x: usize| x as int))
}

pub open spec fn has_edge(g: Seq<Seq<int>>, x: int, y: int) -> bool {
    exists|k: int| 0 <= k < g[x].len() && g[x][k] == y
}

pub open spec fn graph_wf(g: Seq<Seq<int>>) -> bool {
    forall|x: int, k: int| 0 <= x < g.len() && 0 <= k < g[x].len() ==> 0 <= #[trigger] g[x][k] < g.len()
}

pub open spec fn white_count(s: Seq<u8>) -> nat
    decreases s.len(),
{
    if s.len() == 0 {
        0
    } else {
        white_count(s.drop_last()) + if s.last() == 0 {
            1nat
        } else {
            0nat
        }
    }
}

/// The `k`-th dependency of `stack[q]` stands in `stack` before it.
pub open spec fn placed_before(g: Seq<Seq<int>>, stack: Seq<usize>, q: int, k: int) -> bool {
    exists|q2: int| 0 <= q2 < q && stack[q2] as int == g[stack[q] as int][k]
}

/// The state of a depth-first walk: 0 unvisited, 1 on the current path,
/// 2 done. Done nodes are on `stack`, each after everything it depends on;
/// the nodes on `path` form a chain of dependencies.
#[verifier::opaque]
pub open spec fn dfs_inv(g: Seq<Seq<int>>, state: Seq<u8>, stack: Seq<usize>, path: Seq<int>) -> bool {
    &&& graph_wf(g)
    &&& state.len() == g.len()
    &&& state.len() <= usize::MAX
    &&& forall|x: int| 0 <= x < state.len() ==> #[trigger] state[x] <= 2
    &&& forall|x: int| 0 <= x < state.len() ==> (#[trigger] state[x] == 2 <==> stack.contains(x as usize))
    &&& forall|x: int| 0 <= x < state.len() ==> (#[trigger] state[x] == 1 <==> path.contains(x))
    &&& forall|q: int| 0 <= q < stack.len() ==> #[trigger] stack[q] < g.len()
    &&& stack.no_duplicates()
    &&& forall|q: int, k: int|
        0 <= q < stack.len() && 0 <= k < g[stack[q] as int].len() ==> #[trigger] placed_before(g, stack, q, k)
    &&& forall|a: int| 0 <= a < path.len() ==> 0 <= #[trigger] path[a] < g.len()
    &&& forall|a: int| 0 <= a < path.len() - 1 ==> has_edge(g, #[trigger] path[a], path[a + 1])
}

proof fn lemma_white_count_update(s: Seq<u8>, i: int, v: u8)
    requires
        0 <= i < s.len(),
    ensures
        s[i] == 0 && v != 0 ==> white_count(s.update(i, v)) + 1 == white_count(s),
        s[i] != 0 && v != 0 ==> white_count(s.update(i, v)) == white_count(s),
    decreases s.len(),
{
    let t = s.update(i, v);
    if i == s.len() - 1 {
        assert(t.drop_last() == s.drop_last());
    } else {
        assert(t.drop_last() == s.drop_last().update(i, v));
        lemma_white_count_update(s.drop_last(), i, v);
    }
}

/// `x` depends on some node of `r`.
pub open spec fn depends_into(g: Seq<Seq<int>>, r: Seq<int>, x: int) -> bool {
    exists|k: int| 0 <= k < g[x].len() && r.contains(#[trigger] g[x][k])
}

/// Where every node of `r` depends on a node of `r`, no ranking exists.
proof fn lemma_closed_no_ranking(g: Seq<Seq<int>>, r: Seq<int>)
    requires
        r.len() > 0,
        forall|a: int| 0 <= a < r.len() ==> 0 <= #[trigger] r[a] < g.len(),
        forall|a: int| 0 <= a < r.len() ==> depends_into(g, r, #[trigger] r[a]),
    ensures
        !acyclic(g),
{
    if acyclic(g) {
        let rank = choose|rank: Seq<nat>| is_ranking(g, rank);
        lemma_closed_rank_bound(g, r, rank, rank[r[0]] + 1);
    }
}

proof fn lemma_closed_rank_bound(g: Seq<Seq<int>>, r: Seq<int>, rank: Seq<nat>, m: nat)
    requires
        is_ranking(g, rank),
        forall|a: int| 0 <= a < r.len() ==> 0 <= #[trigger] r[a] < g.len(),
        forall|a: int| 0 <= a < r.len() ==> depends_into(g, r, #[trigger] r[a]),
    ensures
        forall|a: int| 0 <= a < r.len() ==> rank[#[trigger] r[a]] >= m,
    decreases m,
{
    if m > 0 {
        lemma_closed_rank_bound(g, r, rank, (m - 1) as nat);
        assert forall|a: int| 0 <= a < r.len() implies rank[#[trigger] r[a]] >= m by {
            assert(depends_into(g, r, r[a]));
            let k = choose|k: int| 0 <= k < g[r[a]].len() && r.contains(#[trigger] g[r[a]][k]);
            let b = choose|b: int| 0 <= b < r.len() && r[b] == g[r[a]][k];
            assert(rank[r[b]] >= m - 1);
        }
    }
}

/// Marking unvisited `n` as under way extends the path by `n`.
proof fn lemma_dfs_enter(g: Seq<Seq<int>>, s: Seq<u8>, st: Seq<usize>, path: Seq<int>, n: int)
    requires
        dfs_inv(g, s, st, path),
        0 <= n < s.len(),
        s[n] == 0,
        path.len() > 0 ==> has_edge(g, path.last(), n),
    ensures
        dfs_inv(g, s.update(n, 1), st, path.push(n)),
        !path.contains(n),
{
    reveal(dfs_inv);
    let s1 = s.update(n, 1);
    let path2 = path.push(n);
    assert forall|x: int| 0 <= x < s1.len() implies (#[trigger] s1[x] == 1 <==> path2.contains(x)) by {
        if x == n {
            assert(path2[path.len() as int] == x);
        } else {
            if path2.contains(x) {
                let a = choose|a: int| 0 <= a < path2.len() && path2[a] == x;
                assert(path[a] == x);
            }
            if path.contains(x) {
                let a = choose|a: int| 0 <= a < path.len() && path[a] == x;
                assert(path2[a] == x);
            }
        }
    }
    assert forall|x: int| 0 <= x < s1.len() implies (#[trigger] s1[x] == 2 <==> st.contains(x as usize)) by {
        if x == n {
            assert(s[x] != 2);
        } else {
            assert(s1[x] == s[x]);
        }
    }
    assert forall|x: int| 0 <= x < s1.len() implies #[trigger] s1[x] <= 2 by {
        if x != n {
            assert(s1[x] == s[x]);
        }
    }
    assert forall|a: int| 0 <= a < path2.len() - 1 implies has_edge(g, #[trigger] path2[a], path2[a + 1]) by {
        if a < path.len() - 1 {
            assert(path2[a] == path[a] && path2[a + 1] == path[a + 1]);
        } else {
            assert(path2[a] == path.last() && path2[a + 1] == n);
        }
    }
    assert forall|a: int| 0 <= a < path2.len() implies 0 <= #[trigger] path2[a] < g.len() by {
        if a < path.len() {
            assert(path2[a] == path[a]);
        }
    }
}

/// Marking `n`, whose dependencies are all done, as done moves it from the
/// path to the stack.
proof fn lemma_dfs_leave(g: Seq<Seq<int>>, s: Seq<u8>, st: Seq<usize>, path: Seq<int>, n: int)
    requires
        dfs_inv(g, s, st, path.push(n)),
        0 <= n < s.len(),
        s[n] == 1,
        !path.contains(n),
        forall|k: int| 0 <= k < g[n].len() ==> s[#[trigger] g[n][k]] == 2,
    ensures
        dfs_inv(g, s.update(n, 2), st.push(n as usize), path),
{
    reveal(dfs_inv);
    let path2 = path.push(n);
    let s1 = s.update(n, 2);
    let st1 = st.push(n as usize);
    assert(!st.contains(n as usize));
    assert forall|x: int| 0 <= x < s1.len() implies (#[trigger] s1[x] == 2 <==> st1.contains(x as usize)) by {
        if x == n {
            assert(st1[st.len() as int] == n);
        } else {
            if st1.contains(x as usize) {
                let a = choose|a: int| 0 <= a < st1.len() && st1[a] == x as usize;
                assert(st[a] == x as usize);
            }
            if st.contains(x as usize) {
                let a = choose|a: int| 0 <= a < st.len() && st[a] == x as usize;
                assert(st1[a] == x as usize);
            }
        }
    }
    assert forall|x: int| 0 <= x < s1.len() implies (#[trigger] s1[x] == 1 <==> path.contains(x)) by {
        if x != n {
            assert(s[x] == 1 <==> path2.contains(x));
            if path2.contains(x) {
                let a = choose|a: int| 0 <= a < path2.len() && path2[a] == x;
                assert(path[a] == x);
            }
            if path.contains(x) {
                let a = choose|a: int| 0 <= a < path.len() && path[a] == x;
                assert(path2[a] == x);
            }
        }
    }
    assert forall|q: int, k: int| 0 <= q < st1.len() && 0 <= k < g[st1[q] as int].len() implies #[trigger] placed_before(g, st1, q, k) by {
        if q < st.len() {
            assert(st1[q] == st[q]);
            assert(placed_before(g, st, q, k));
            let q2 = choose|q2: int| 0 <= q2 < q && st[q2] as int == g[st[q] as int][k];
            assert(st1[q2] == st[q2]);
        } else {
            assert(st1[q] == n);
            assert(s[g[n][k]] == 2);
            assert(st.contains(g[n][k] as usize));
            let q2 = choose|q2: int| 0 <= q2 < st.len() && st[q2] == g[n][k] as usize;
            assert(st1[q2] == st[q2]);
        }
    }
    assert forall|a: int| 0 <= a < path.len() - 1 implies has_edge(g, #[trigger] path[a], path[a + 1]) by {
        assert(path2[a] == path[a] && path2[a + 1] == path[a + 1]);
    }
    assert forall|a: int| 0 <= a < path.len() implies 0 <= #[trigger] path[a] < g.len() by {
        assert(path2[a] == path[a]);
    }
    assert forall|q: int| 0 <= q < st1.len() implies #[trigger] st1[q] < g.len() by {
        if q < st.len() {
            assert(st1[q] == st[q]);
        }
    }
    assert forall|a: int, b: int| 0 <= a < b < st1.len() implies st1[a] != st1[b] by {
        if b == st.len() {
            assert(st.contains(st1[a]));
        } else {
            assert(st[a] == st1[a] && st[b] == st1[b]);
        }
    }
}

/// A dependency of the last node of the path that is itself on the path
/// closes a cycle.
proof fn lemma_dfs_cycle(g: Seq<Seq<int>>, s: Seq<u8>, st: Seq<usize>, path: Seq<int>, k: int)
    requires
        dfs_inv(g, s, st, path),
        path.len() > 0,
        0 <= k < g[path.last()].len(),
        s[g[path.last()][k]] == 1,
    ensures
        !acyclic(g),
{
    reveal(dfs_inv);
    assert forall|a: int| 0 <= a < path.len() implies depends_into(g, path, #[trigger] path[a]) by {
        if a < path.len() - 1 {
            assert(has_edge(g, path[a], path[a + 1]));
            let j = choose|j: int| 0 <= j < g[path[a]].len() && g[path[a]][j] == path[a + 1];
            assert(path.contains(g[path[a]][j]));
        } else {
            assert(path.contains(g[path[a]][k]));
        }
    }
    lemma_closed_no_ranking(g, path);
}

proof fn lemma_dfs_state(g: Seq<Seq<int>>, s: Seq<u8>, st: Seq<usize>, path: Seq<int>)
    requires
        dfs_inv(g, s, st, path),
    ensures
        s.len() == g.len(),
        graph_wf(g),
{
    reveal(dfs_inv);
}

impl CheckedProgram {
    /// Visits global `n` and, before it, every global it depends on; pushes
    /// each on `stack` once everything it depends on is there. `path` holds
    /// the globals whose visit is under way, the last one depending on `n`.
    fn global_dfs(
        n: usize,
        deps: &Vec<Vec<usize>>,
        state: &mut Vec<u8>,
        stack: &mut Vec<usize>,
        Ghost(path): Ghost<Seq<int>>,
    ) -> (r: Result<(), CheckError>)
        requires
            dfs_inv(graph(deps@), old(state)@, old(stack)@, path),
            n < deps.len(),
            old(state)@[n as int] == 0,
            path.len() > 0 ==> has_edge(graph(deps@), path.last(), n as int),
        ensures
            r is Ok ==> {
                &&& dfs_inv(graph(deps@), final(state)@, final(stack)@, path)
                &&& final(state)@.len() == old(state)@.len()
                &&& final(state)@[n as int] == 2
                &&& white_count(final(state)@) < white_count(old(state)@)
                &&& forall|x: int|
                    0 <= x < old(state)@.len() && old(state)@[x] != 0 ==> #[trigger] final(state)@[x] == old(state)@[x]
                &&& final(stack)@.len() > old(stack)@.len()
                &&& final(stack)@.subrange(0, old(stack)@.len() as int) == old(stack)@
                &&& final(stack)@.last() == n
                &&& forall|q: int|
                    old(stack)@.len() <= q < final(stack)@.len() ==> old(state)@[#[trigger] final(stack)@[q] as int] == 0
            },
            r is Err ==> !acyclic(graph(deps@)),
            r matches Err(e) ==> e.msg@ == "Cyclic dependency in global variables"@,
        decreases white_count(old(state)@),
    {
        let ghost g = graph(deps@);
        let ghost s0 = state@;
        proof {
            lemma_dfs_state(g, state@, stack@, path);
            lemma_white_count_update(state@, n as int, 1);
            lemma_dfs_enter(g, state@, stack@, path, n as int);
        }
        state.set(n, 1);
        let ghost path2 = path.push(n as int);
        let ghost dn = g[n as int];
        let mut i: usize = 0;
        while i < deps[n].len()
            invariant
                g == graph(deps@),
                n < deps.len(),
                dn == g[n as int],
                i <= dn.len(),
                dfs_inv(g, state@, stack@, path2),
                path2 == path.push(n as int),
                !path.contains(n as int),
                state@[n as int] == 1,
                state@.len() == s0.len(),
                s0 == old(state)@,
                white_count(state@) < white_count(s0),
                forall|x: int| 0 <= x < s0.len() && s0[x] != 0 ==> #[trigger] state@[x] == s0[x],
                forall|k: int| 0 <= k < i ==> state@[#[trigger] dn[k]] == 2,
                stack@.len() >= old(stack)@.len(),
                stack@.subrange(0, old(stack)@.len() as int) == old(stack)@,
                forall|q: int| old(stack)@.len() <= q < stack@.len() ==> s0[#[trigger] stack@[q] as int] == 0,
            decreases dn.len() - i,
        {
            let dep = deps[n][i];
            proof {
                lemma_dfs_state(g, state@, stack@, path2);
                assert(dep as int == dn[i as int]);
            }
            if state[dep] == 0 {
                proof {
                    assert(path2.last() == n);
                    assert(has_edge(g, n as int, dep as int));
                }
                let ghost s1 = state@;
                let ghost st1 = stack@;
                match Self::global_dfs(dep, deps, state, stack, Ghost(path2)) {
                    Err(e) => {
                        return Err(e);
                    },
                    Ok(()) => {},
                }
                proof {
                    assert forall|k: int| 0 <= k < i + 1 implies state@[#[trigger] dn[k]] == 2 by {
                        if k < i {
                            assert(s1[dn[k]] == 2);
                        }
                    }
                    assert forall|q: int| old(stack)@.len() <= q < stack@.len() implies s0[#[trigger] stack@[q] as int] == 0 by {
                        if q < st1.len() {
                            assert(stack@[q] == stack@.subrange(0, st1.len() as int)[q]);
                            assert(st1[q] == stack@[q]);
                        } else {
                            reveal(dfs_inv);
                            assert(stack@[q] < g.len());
                            assert(s1[stack@[q] as int] == 0);
                        }
                    }
                    assert(stack@.subrange(0, old(stack)@.len() as int) =~= old(stack)@) by {
                        assert forall|q: int| 0 <= q < old(stack)@.len() implies stack@[q] == old(stack)@[q] by {
                            assert(stack@[q] == stack@.subrange(0, st1.len() as int)[q]);
                            assert(st1[q] == st1.subrange(0, old(stack)@.len() as int)[q]);
                        }
                    }
                }
            } else if state[dep] == 1 {
                proof {
                    assert(path2.last() == n);
                    lemma_dfs_cycle(g, state@, stack@, path2, i as int);
                }
                return Err(CheckError::new("Cyclic dependency in global variables", FI::zero()));
            } else {
                proof {
                    reveal(dfs_inv);
                }
            }
            i = i + 1;
        }
        proof {
            lemma_white_count_update(state@, n as int, 2);
            lemma_dfs_leave(g, state@, stack@, path, n as int);
        }
        let ghost st2 = stack@;
        state.set(n, 2);
        stack.push(n);
        proof {
            assert(stack@ == st2.push(n));
            assert(stack@.subrange(0, old(stack)@.len() as int) =~= old(stack)@) by {
                assert forall|q: int| 0 <= q < old(stack)@.len() implies stack@[q] == old(stack)@[q] by {
                    assert(st2[q] == st2.subrange(0, old(stack)@.len() as int)[q]);
                }
            }
        }
        Ok(())
    }
}

/// At the end of a walk that finished every node, the stack holds each node
/// once, after everything it depends on, and the graph has no cycle.
proof fn lemma_dfs_done(g: Seq<Seq<int>>, s: Seq<u8>, st: Seq<usize>)
    requires
        dfs_inv(g, s, st, Seq::empty()),
        forall|x: int| 0 <= x < s.len() ==> #[trigger] s[x] == 2,
    ensures
        forall|x: int| 0 <= x < g.len() ==> #[trigger] st.contains(x as usize),
        forall|q: int| 0 <= q < st.len() ==> #[trigger] st[q] < g.len(),
        st.no_duplicates(),
        forall|q: int, k: int| 0 <= q < st.len() && 0 <= k < g[st[q] as int].len() ==> #[trigger] placed_before(g, st, q, k),
        acyclic(g),
{
    reveal(dfs_inv);
    assert forall|x: int| 0 <= x < g.len() implies #[trigger] st.contains(x as usize) by {
        assert(s[x] == 2);
    }
    let rank = Seq::new(g.len(), |x: int| (choose|q: int| 0 <= q < st.len() && st[q] == x as usize) as nat);
    assert forall|x: int, k: int| 0 <= x < g.len() && 0 <= k < g[x].len() implies 0 <= #[trigger] g[x][k] < g.len() && rank[g[x][k]] < rank[x] by {
        assert(st.contains(x as usize));
        let qx = choose|q: int| 0 <= q < st.len() && st[q] == x as usize;
        assert(placed_before(g, st, qx, k));
        let q2 = choose|q2: int| 0 <= q2 < qx && st[q2] as int == g[st[qx] as int][k];
        let d = g[x][k];
        assert(st.contains(d as usize));
        let qd = choose|q: int| 0 <= q < st.len() && st[q] == d as usize;
        assert(rank[d] == qd);
        assert(rank[x] == qx);
        assert(qd == q2);
    }
    assert(is_ranking(g, rank));
}

/// The value of an initializer depends only on the globals it names.
proof fn lemma_eval_agree(e: Expression, names: Seq<Seq<char>>, v1: Seq<i64>, v2: Seq<i64>)
    requires
        forall|k: int| 0 <= k < init_refs(e, names).len() ==> v1[#[trigger] init_refs(e, names)[k]] == v2[init_refs(e, names)[k]],
    ensures
        eval_init(e, names, v1) == eval_init(e, names, v2),
    decreases e,
{
    match e {
        Expression::Var(n, _) => {
            if let Some(i) = first_index(names, name_eq(n@)) {
                assert(init_refs(e, names)[0] == i);
            }
        },
        Expression::BinOp(l, _, r, _) => {
            let rl = init_refs(*l, names);
            let rr = init_refs(*r, names);
            assert forall|k: int| 0 <= k < rl.len() implies v1[#[trigger] rl[k]] == v2[rl[k]] by {
                assert(init_refs(e, names)[k] == rl[k]);
            }
            assert forall|k: int| 0 <= k < rr.len() implies v1[#[trigger] rr[k]] == v2[rr[k]] by {
                assert(init_refs(e, names)[rl.len() + k] == rr[k]);
            }
            lemma_eval_agree(*l, names, v1, v2);
            lemma_eval_agree(*r, names, v1, v2);
        },
        _ => {},
    }
}

/// The first position in `names` of `name`.
fn name_position(names: &Vec<String>, name: &str) -> (r: Option<usize>)
    ensures
        match r {
            Some(i) => first_index(strings_view(names@), name_eq(name@)) == Some(i as int),
            None => first_index(strings_view(names@), name_eq(name@)) is None,
        },
{
    let ghost ns = strings_view(names@);
    let mut i: usize = 0;
    while i < names.len()
        invariant
            i <= names.len(),
            ns == strings_view(names@),
            forall|j: int| 0 <= j < i ==> !name_eq(name@)(#[trigger] ns[j]),
        decreases names.len() - i,
    {
        if str_eq(names[i].as_str(), name) {
            proof {
                lemma_first_index_is(ns, name_eq(name@), i as int);
            }
            return Some(i);
        }
        i = i + 1;
    }
    proof {
        lemma_first_index_none(ns, name_eq(name@));
    }
    None
}

impl CheckedProgram {
    /// The positions of the globals that an initializer names, left to right.
    fn vars_in_global_expression(exp: &Expression, names: &Vec<String>) -> (r: Result<Vec<usize>, CheckError>)
        ensures
            r is Ok <==> init_ok(*exp, strings_view(names@)),
            r matches Ok(v) ==> v@.map_values(|x: usize| x as int) == init_refs(*exp, strings_view(names@)),
        decreases exp,
    {
        match exp {
            Expression::U64(_, _) => Ok(Vec::new()),
            Expression::I64(_, _) => Ok(Vec::new()),
            Expression::Var(var, fi) => {
                match name_position(names, var.as_str()) {
                    Some(index) => {
                        let mut v: Vec<usize> = Vec::new();
                        v.push(index);
                        assert(v@.map_values(|x: usize| x as int) =~= seq![index as int]);
                        Ok(v)
                    },
                    None => Err(CheckError { msg: message("Global ", var.as_str(), " not found"), fi: *fi }),
                }
            },
            Expression::BinOp(e1, op, e2, fi) => {
                match op {
                    Operator::Eq | Operator::Ne | Operator::LT | Operator::GT => {
                        return Err(CheckError::new("Comparison operators not allowed in global expressions", *fi));
                    },
                    _ => {},
                }
                let mut vars = Self::vars_in_global_expression(e1, names)?;
                let mut more = Self::vars_in_global_expression(e2, names)?;
                let ghost a = vars@;
                let ghost b = more@;
                vars.append(&mut more);
                assert((a + b).map_values(|x: usize| x as int) =~= a.map_values(|x: usize| x as int) + b.map_values(
                    |x: usize| x as int,
                ));
                Ok(vars)
            },
            Expression::Call(call) => Err(CheckError::new("Function calls not allowed in global expressions", call.fi)),
        }
    }

    /// For each global, the positions of the globals its initializer names.
    fn find_global_dependencies(prog: &Program, names: &Vec<String>) -> (r: Result<Vec<Vec<usize>>, CheckError>)
        requires
            strings_view(names@) == global_names(prog.globals@),
        ensures
            r is Ok <==> forall|i: int|
                0 <= i < prog.globals.len() ==> init_ok(#[trigger] prog.globals@[i].value, global_names(prog.globals@)),
            r matches Ok(d) ==> graph(d@) == global_deps(prog.globals@),
    {
        let ghost gs = prog.globals@;
        let mut dependencies: Vec<Vec<usize>> = Vec::new();
        let mut i: usize = 0;
        while i < prog.globals.len()
            invariant
                i <= prog.globals.len(),
                gs == prog.globals@,
                strings_view(names@) == global_names(gs),
                graph(dependencies@) == global_deps(gs).subrange(0, i as int),
                dependencies@.len() == i,
                forall|j: int| 0 <= j < i ==> init_ok(#[trigger] gs[j].value, global_names(gs)),
            decreases prog.globals.len() - i,
        {
            let refs = Self::vars_in_global_expression(&prog.globals[i].value, names)?;
            let ghost before = dependencies@;
            dependencies.push(refs);
            proof {
                assert(before.len() == i);
                assert(dependencies@ == before.push(refs));
                assert forall|j: int| 0 <= j < i implies graph(dependencies@)[j] == global_deps(gs)[j] by {
                    assert(dependencies@[j] == before[j]);
                    assert(graph(before)[j] == global_deps(gs).subrange(0, i as int)[j]);
                }
                assert(graph(dependencies@) =~= global_deps(gs).subrange(0, i + 1));
            }
            i = i + 1;
        }
        assert(global_deps(gs).subrange(0, gs.len() as int) == global_deps(gs));
        Ok(dependencies)
    }

    /// The value of a global initializer, where the globals have the values
    /// `global_values`.
    fn eval_global_expression(exp: &Expression, global_values: &Vec<i64>, names: &Vec<String>) -> (r: Result<i64, CheckError>)
        requires
            global_values.len() == names.len(),
        ensures
            match r {
                Ok(v) => eval_init(*exp, strings_view(names@), global_values@) == Some(v),
                Err(_) => eval_init(*exp, strings_view(names@), global_values@) is None,
            },
        decreases exp,
    {
        match exp {
            Expression::U64(n, fi) => {
                if *n <= i64::MAX as u64 {
                    Ok(*n as i64)
                } else {
                    Err(CheckError::new("Integer literal out of range in global expression", *fi))
                }
            },
            Expression::I64(n, _) => Ok(*n),
            Expression::Var(var, fi) => {
                match name_position(names, var.as_str()) {
                    Some(index) => Ok(global_values[index]),
                    None => Err(CheckError { msg: message("Global ", var.as_str(), " not found"), fi: *fi }),
                }
            },
            Expression::BinOp(e1, op, e2, fi) => {
                let v1 = Self::eval_global_expression(e1, global_values, names)?;
                let v2 = Self::eval_global_expression(e2, global_values, names)?;
                let r = match op {
                    Operator::Add => v1.checked_add(v2),
                    Operator::Sub => v1.checked_sub(v2),
                    Operator::Mul => v1.checked_mul(v2),
                    Operator::Div => v1.checked_div(v2),
                    Operator::Mod => v1.checked_rem(v2),
                    _ => {
                        return Err(CheckError::new("Comparison operators not allowed in global expressions", *fi));
                    },
                };
                match r {
                    Some(v) => Ok(v),
                    None => Err(CheckError::new("Overflow or division by zero in global expression", *fi)),
                }
            },
            Expression::Call(call) => Err(CheckError::new("Function calls not allowed in global expressions", call.fi)),
        }
    }

    /// The compile-time values of the globals, aligned with `prog.globals`:
    /// each initializer is evaluated after the globals it names, in the
    /// order of a depth-first walk of the dependencies.
    fn resolve_global_values(prog: &Program) -> (r: Result<Vec<i64>, CheckError>)
        ensures
            r is Ok <==> globals_resolvable(prog.globals@),
            r matches Ok(v) ==> is_fixpoint(prog.globals@, v@),
            (forall|i: int| 0 <= i < prog.globals.len() ==> init_ok(#[trigger] prog.globals@[i].value, global_names(prog.globals@)))
                && !acyclic(global_deps(prog.globals@)) ==> (r matches Err(e) && e.msg@
                == "Cyclic dependency in global variables"@),
    {
        let ghost gs = prog.globals@;
        let n = prog.globals.len();
        let mut names: Vec<String> = Vec::new();
        let mut i: usize = 0;
        while i < n
            invariant
                i <= n,
                n == gs.len(),
                gs == prog.globals@,
                strings_view(names@) == global_names(gs).subrange(0, i as int),
                names@.len() == i,
            decreases n - i,
        {
            names.push(prog.globals[i].name.clone());
            assert(strings_view(names@) =~= global_names(gs).subrange(0, i + 1));
            i = i + 1;
        }
        assert(global_names(gs).subrange(0, n as int) == global_names(gs));
        let ghost ns = global_names(gs);

        let dependencies = Self::find_global_dependencies(prog, &names)?;
        let ghost g = graph(dependencies@);

        let mut state: Vec<u8> = Vec::new();
        let mut i: usize = 0;
        while i < n
            invariant
                i <= n,
                state@.len() == i,
                forall|x: int| 0 <= x < i ==> #[trigger] state@[x] == 0,
            decreases n - i,
        {
            state.push(0);
            i = i + 1;
        }
        let mut stack: Vec<usize> = Vec::new();
        proof {
            reveal(dfs_inv);
            assert(g.len() == n);
            assert forall|x: int, k: int| 0 <= x < g.len() && 0 <= k < g[x].len() implies 0 <= #[trigger] g[x][k] < g.len() by {
                assert(g[x] == init_refs(gs[x].value, ns));
                lemma_refs_in_range(gs[x].value, ns, k);
            }
            assert(dfs_inv(g, state@, stack@, Seq::empty()));
        }

        let mut i: usize = 0;
        while i < n
            invariant
                i <= n,
                n == gs.len(),
                gs == prog.globals@,
                g == graph(dependencies@),
                g == global_deps(gs),
                dependencies@.len() == n,
                dfs_inv(g, state@, stack@, Seq::empty()),
                state@.len() == n,
                forall|x: int| 0 <= x < i ==> #[trigger] state@[x] == 2,
            decreases n - i,
        {
            if state[i] == 0 {
                let ghost s1 = state@;
                match Self::global_dfs(i, &dependencies, &mut state, &mut stack, Ghost(Seq::empty())) {
                    Ok(()) => {},
                    Err(e) => {
                        return Err(e);
                    },
                }
                assert forall|x: int| 0 <= x < i implies #[trigger] state@[x] == 2 by {
                    assert(s1[x] == 2);
                }
            } else {
                proof {
                    reveal(dfs_inv);
                    assert(!Seq::<int>::empty().contains(i as int));
                }
            }
            i = i + 1;
        }
        proof {
            lemma_dfs_done(g, state@, stack@);
        }

        let mut values: Vec<i64> = Vec::new();
        let mut i: usize = 0;
        while i < n
            invariant
                i <= n,
                values@.len() == i,
            decreases n - i,
        {
            values.push(0);
            i = i + 1;
        }

        let mut t: usize = 0;
        while t < stack.len()
            invariant
                t <= stack.len(),
                n == gs.len(),
                gs == prog.globals@,
                g == global_deps(gs),
                acyclic(global_deps(gs)),
                ns == global_names(gs),
                strings_view(names@) == ns,
                names@.len() == n,
                values@.len() == n,
                forall|q: int| 0 <= q < stack@.len() ==> #[trigger] stack@[q] < g.len(),
                stack@.no_duplicates(),
                forall|q: int, k: int|
                    0 <= q < stack@.len() && 0 <= k < g[stack@[q] as int].len() ==> #[trigger] placed_before(g, stack@, q, k),
                forall|q: int|
                    0 <= q < t ==> eval_init(#[trigger] gs[stack@[q] as int].value, ns, values@) == Some(values@[stack@[q] as int]),
                forall|w: Seq<i64>, q: int|
                    is_fixpoint(gs, w) && 0 <= q < t ==> #[trigger] w[stack@[q] as int] == values@[stack@[q] as int],
            decreases stack.len() - t,
        {
            let x = stack[t];
            let ghost old_values = values@;
            let ghost e = gs[x as int].value;
            proof {
                assert(g[x as int] == init_refs(e, ns));
            }
            let v = match Self::eval_global_expression(&prog.globals[x].value, &values, &names) {
                Ok(v) => v,
                Err(err) => {
                    proof {
                        assert forall|w: Seq<i64>| !is_fixpoint(gs, w) by {
                            if is_fixpoint(gs, w) {
                                lemma_agree_before(g, stack@, t as int, e, ns, w, old_values);
                                lemma_eval_agree(e, ns, w, old_values);
                                assert(eval_init(gs[x as int].value, ns, w) == Some(w[x as int]));
                            }
                        }
                    }
                    return Err(err);
                },
            };
            values.set(x, v);
            proof {
                let nv = values@;
                assert forall|q: int| 0 <= q < t + 1 implies eval_init(#[trigger] gs[stack@[q] as int].value, ns, nv) == Some(nv[stack@[q] as int]) by {
                    let y = stack@[q];
                    assert(g[y as int] == init_refs(gs[y as int].value, ns));
                    lemma_agree_before(g, stack@, q, gs[y as int].value, ns, nv, old_values);
                    lemma_eval_agree(gs[y as int].value, ns, nv, old_values);
                    if q < t {
                        assert(stack@[q] != stack@[t as int]);
                    }
                }
                assert forall|w: Seq<i64>, q: int| is_fixpoint(gs, w) && 0 <= q < t + 1 implies #[trigger] w[stack@[q] as int] == nv[stack@[q] as int] by {
                    if q < t {
                        assert(stack@[q] != stack@[t as int]);
                    } else {
                        lemma_agree_before(g, stack@, t as int, e, ns, w, old_values);
                        lemma_eval_agree(e, ns, w, old_values);
                        assert(eval_init(gs[x as int].value, ns, w) == Some(w[x as int]));
                    }
                }
            }
            t = t + 1;
        }
        proof {
            assert forall|y: int| 0 <= y < gs.len() implies eval_init(#[trigger] gs[y].value, ns, values@) == Some(values@[y]) by {
                assert(stack@.contains(y as usize));
                let q = choose|q: int| 0 <= q < stack@.len() && stack@[q] == y as usize;
                assert(eval_init(gs[stack@[q] as int].value, ns, values@) == Some(values@[stack@[q] as int]));
            }
            assert(is_fixpoint(gs, values@));
        }
        Ok(values)
    }
}

/// Every position that an initializer names is a position of `names`.
proof fn lemma_refs_in_range(e: Expression, names: Seq<Seq<char>>, k: int)
    requires
        0 <= k < init_refs(e, names).len(),
    ensures
        0 <= init_refs(e, names)[k] < names.len(),
    decreases e,
{
    match e {
        Expression::BinOp(l, _, r, _) => {
            let rl = init_refs(*l, names);
            if k < rl.len() {
                lemma_refs_in_range(*l, names, k);
            } else {
                lemma_refs_in_range(*r, names, k - rl.len());
            }
        },
        Expression::Var(n, _) => {
            let i = first_index(names, name_eq(n@))->0;
            assert(is_first(names, name_eq(n@), i));
        },
        _ => {},
    }
}

/// Values that agree on every global placed before position `t` of the
/// stack agree on everything that the initializer of `stack[t]` names.
proof fn lemma_agree_before(
    g: Seq<Seq<int>>,
    st: Seq<usize>,
    t: int,
    e: Expression,
    names: Seq<Seq<char>>,
    v1: Seq<i64>,
    v2: Seq<i64>,
)
    requires
        0 <= t < st.len(),
        g[st[t] as int] == init_refs(e, names),
        forall|q: int, k: int| 0 <= q < st.len() && 0 <= k < g[st[q] as int].len() ==> #[trigger] placed_before(g, st, q, k),
        forall|q: int| 0 <= q < t ==> v1[#[trigger] st[q] as int] == v2[st[q] as int],
    ensures
        forall|k: int| 0 <= k < init_refs(e, names).len() ==> v1[#[trigger] init_refs(e, names)[k]] == v2[init_refs(e, names)[k]],
{
    assert forall|k: int| 0 <= k < init_refs(e, names).len() implies v1[#[trigger] init_refs(e, names)[k]] == v2[init_refs(e, names)[k]] by {
        assert(placed_before(g, st, t, k));
        let q2 = choose|q2: int| 0 <= q2 < t && st[q2] as int == g[st[t] as int][k];
        assert(v1[st[q2] as int] == v2[st[q2] as int]);
    }
}

pub open spec fn globals_view(gs: Seq<Global>) -> Seq<VarView> {
    gs.map_values(|g: Global| (g.name@, g.ttype))
}

pub open spec fn param_types(ps: Seq<Parameter>) -> Seq<Type_> {
    ps.map_values(|p: Parameter| p.ttype)
}

pub open spec fn program_sigs(fs: Seq<Function>) -> Seq<SigView> {
    fs.map_values(|f: Function| (f.name@, param_types(f.params@), f.ret_type))
}

pub open spec fn distinct_functions(fs: Seq<Function>) -> bool {
    forall|i: int, j: int| 0 <= i < j < fs.len() ==> fs[i].name@ != fs[j].name@
}

/// Some function is called `main` and takes no parameters.
pub open spec fn has_main(fs: Seq<Function>) -> bool {
    exists|i: int| 0 <= i < fs.len() && #[trigger] fs[i].name@ == "main"@ && fs[i].params.len() == 0
}

/// The program passes checking: function names are distinct, `main`
/// exists, the globals can be resolved, and every function is well formed.
pub open spec fn program_ok(p: Program) -> bool {
    &&& distinct_functions(p.functions@)
    &&& has_main(p.functions@)
    &&& globals_resolvable(p.globals@)
    &&& forall|i: int|
        0 <= i < p.functions.len() ==> #[trigger] function_ok(
            p.functions@[i],
            globals_view(p.globals@),
            program_sigs(p.functions@),
        )
}

/// `ps[j]` is the first parameter whose name an earlier parameter already has.
pub open spec fn first_duplicate_param(ps: Seq<Parameter>, j: int) -> bool {
    &&& 0 <= j < ps.len()
    &&& exists|i: int| 0 <= i < j && ps[i].name@ == #[trigger] ps[j].name@
    &&& forall|a: int, b: int| 0 <= a < b < j ==> ps[a].name@ != ps[b].name@
}

/// The error that checking function `f` reports: at the first repeated
/// parameter where parameter names repeat; where names are distinct, the
/// error of its first ill-typed statement.
pub open spec fn function_error(f: Function, globals: Seq<VarView>, sigs: Seq<SigView>, e: CheckError) -> bool {
    &&& !distinct_names(params_view(f.params@)) ==> exists|j: int|
        first_duplicate_param(f.params@, j) && e.msg@ == "Duplicate parameter name "@ + (#[trigger] f.params@[j]).name@
            + " in function "@ + f.name@ && e.fi == f.params@[j].fi
    &&& distinct_names(params_view(f.params@)) && !distinct_names(body_locals(f.body@)) ==> exists|j: int|
        0 <= j < body_lets(f.body@).len() && first_repeat(var_names(body_locals(f.body@)), j) && e.msg@
            == "Duplicate variable name "@ + (#[trigger] body_lets(f.body@)[j]).0 + " in function "@ + f.name@ && e.fi
            == body_lets(f.body@)[j].1
    &&& distinct_names(params_view(f.params@)) && distinct_names(body_locals(f.body@)) ==> err_view(e) == stmts_error(
        f.body@,
        params_view(f.params@) + body_locals(f.body@) + globals,
        sigs,
        f.ret_type,
    )
}

/// `fs[j]` is the first function whose name an earlier function already has.
pub open spec fn first_duplicate(fs: Seq<Function>, j: int) -> bool {
    &&& 0 <= j < fs.len()
    &&& exists|i: int| 0 <= i < j && fs[i].name@ == #[trigger] fs[j].name@
    &&& forall|a: int, b: int| 0 <= a < b < j ==> fs[a].name@ != fs[b].name@
}

/// The error that checking reports, stage by stage: a duplicate function
/// name (at the later function), a missing `main` (with an empty span), a
/// dependency cycle among globals whose initializers are otherwise fine.
pub open spec fn check_error(p: Program, e: CheckError) -> bool {
    let fs = p.functions@;
    &&& !distinct_functions(fs) ==> exists|j: int|
        first_duplicate(fs, j) && e.msg@ == "Duplicate function name "@ + (#[trigger] fs[j]).name@ + ""@ && e.fi
            == fs[j].fi
    &&& distinct_functions(fs) && !has_main(fs) ==> e.msg@ == "No main function found"@ && e.fi == FI {
        length: 0,
        offset: 0,
    }
    &&& distinct_functions(fs) && has_main(fs) && (forall|i: int|
        0 <= i < p.globals.len() ==> init_ok(#[trigger] p.globals@[i].value, global_names(p.globals@))) && !acyclic(
        global_deps(p.globals@),
    ) ==> e.msg@ == "Cyclic dependency in global variables"@
    &&& distinct_functions(fs) && has_main(fs) && globals_resolvable(p.globals@) ==> exists|i: int|
        0 <= i < fs.len() && (forall|k: int| 0 <= k < i ==> function_ok(#[trigger] fs[k], globals_view(p.globals@), program_sigs(fs)))
            && !function_ok(fs[i], globals_view(p.globals@), program_sigs(fs)) && #[trigger] function_error(
            fs[i],
            globals_view(p.globals@),
            program_sigs(fs),
            e,
        )
}

/// The environment that checking gives function `f`.
pub open spec fn env_of(env: FuncEnv, f: Function) -> bool {
    &&& env.params() == params_view(f.params@)
    &&& env.locals() == body_locals(f.body@)
    &&& env.ret_type == f.ret_type
}

/// The first position in `sigs` of a signature called `name`.
fn sig_position(sigs: &Vec<FuncSig>, name: &str) -> (r: Option<usize>)
    ensures
        match r {
            Some(i) => first_index(sigs_view(sigs@), sig_named(name@)) == Some(i as int),
            None => first_index(sigs_view(sigs@), sig_named(name@)) is None,
        },
{
    let ghost ss = sigs_view(sigs@);
    let mut i: usize = 0;
    while i < sigs.len()
        invariant
            i <= sigs.len(),
            ss == sigs_view(sigs@),
            forall|j: int| 0 <= j < i ==> !sig_named(name@)(#[trigger] ss[j]),
        decreases sigs.len() - i,
    {
        if str_eq(sigs[i].name.as_str(), name) {
            proof {
                lemma_first_index_is(ss, sig_named(name@), i as int);
            }
            return Some(i);
        }
        i = i + 1;
    }
    proof {
        lemma_first_index_none(ss, sig_named(name@));
    }
    None
}

impl CheckedProgram {
    /// Checks a whole program; on success, gives it back with its
    /// program-wide environment and one environment per function.
    pub fn check(prog: Program) -> (r: Result<CheckedProgram, CheckError>)
        ensures
            r is Ok <==> program_ok(prog),
            r matches Err(e) ==> check_error(prog, e),
            r matches Ok(cp) ==> {
                &&& cp.prog == prog
                &&& cp.program_env.sigs() == program_sigs(prog.functions@)
                &&& cp.program_env.globals() == globals_view(prog.globals@)
                &&& is_fixpoint(prog.globals@, cp.program_env.global_values@)
                &&& cp.function_envs.len() == prog.functions.len()
                &&& forall|i: int|
                    0 <= i < prog.functions.len() ==> #[trigger] env_of(cp.function_envs@[i], prog.functions@[i])
            },
    {
        let ghost fs = prog.functions@;
        let mut fn_sigs: Vec<FuncSig> = Vec::new();
        let mut i: usize = 0;
        while i < prog.functions.len()
            invariant
                i <= prog.functions.len(),
                fs == prog.functions@,
                sigs_view(fn_sigs@) == program_sigs(fs).subrange(0, i as int),
                fn_sigs@.len() == i,
                forall|a: int, b: int| 0 <= a < b < i ==> fs[a].name@ != fs[b].name@,
            decreases prog.functions.len() - i,
        {
            let function = &prog.functions[i];
            if let Some(j) = sig_position(&fn_sigs, function.name.as_str()) {
                proof {
                    assert(is_first(sigs_view(fn_sigs@), sig_named(function.name@), j as int));
                    assert(sigs_view(fn_sigs@)[j as int] == program_sigs(fs)[j as int]);
                    assert(!distinct_functions(fs));
                    assert(first_duplicate(fs, i as int));
                }
                return Err(CheckError { msg: message("Duplicate function name ", function.name.as_str(), ""), fi: function.fi });
            }
            proof {
                assert forall|a: int| 0 <= a < i implies fs[a].name@ != fs[i as int].name@ by {
                    assert(sigs_view(fn_sigs@)[a] == program_sigs(fs)[a]);
                    if fs[a].name@ == fs[i as int].name@ {
                        lemma_first_index_some(sigs_view(fn_sigs@), sig_named(function.name@), a);
                    }
                }
            }
            let mut params: Vec<Type_> = Vec::new();
            let mut k: usize = 0;
            while k < function.params.len()
                invariant
                    k <= function.params.len(),
                    params@ == param_types(function.params@).subrange(0, k as int),
                decreases function.params.len() - k,
            {
                params.push(function.params[k].ttype);
                assert(params@ =~= param_types(function.params@).subrange(0, k + 1));
                k = k + 1;
            }
            assert(params@ == param_types(function.params@));
            let ghost before = fn_sigs@;
            fn_sigs.push(FuncSig { name: function.name.clone(), params, ret_type: function.ret_type });
            proof {
                assert(fn_sigs@ == before.push(fn_sigs@[i as int]));
                assert forall|j: int| 0 <= j < i + 1 implies sigs_view(fn_sigs@)[j] == program_sigs(fs).subrange(0, i + 1)[j] by {
                    if j < i {
                        assert(fn_sigs@[j] == before[j]);
                        assert(sigs_view(before)[j] == program_sigs(fs).subrange(0, i as int)[j]);
                    }
                }
                assert(sigs_view(fn_sigs@) =~= program_sigs(fs).subrange(0, i + 1));
            }
            i = i + 1;
        }
        assert(program_sigs(fs).subrange(0, fs.len() as int) == program_sigs(fs));

        let mut found_main = false;
        let mut i: usize = 0;
        while i < fn_sigs.len()
            invariant
                i <= fn_sigs.len(),
                fn_sigs@.len() == fs.len(),
                sigs_view(fn_sigs@) == program_sigs(fs),
                found_main <==> exists|j: int| 0 <= j < i && #[trigger] fs[j].name@ == "main"@ && fs[j].params.len() == 0,
            decreases fn_sigs.len() - i,
        {
            proof {
                assert(sigs_view(fn_sigs@)[i as int] == program_sigs(fs)[i as int]);
            }
            if str_eq(fn_sigs[i].name.as_str(), "main") && fn_sigs[i].params.len() == 0 {
                found_main = true;
            }
            i = i + 1;
        }
        if !found_main {
            return Err(CheckError::new("No main function found", FI::zero()));
        }

        let global_values = match Self::resolve_global_values(&prog) {
            Ok(v) => v,
            Err(e) => {
                return Err(e);
            },
        };
        let ghost gs = prog.globals@;
        let mut globals_def: Vec<Variable> = Vec::new();
        let mut i: usize = 0;
        while i < prog.globals.len()
            invariant
                i <= prog.globals.len(),
                gs == prog.globals@,
                vars_view(globals_def@) == globals_view(gs).subrange(0, i as int),
                globals_def@.len() == i,
            decreases prog.globals.len() - i,
        {
            let global = &prog.globals[i];
            let ghost before = globals_def@;
            globals_def.push(Variable { name: global.name.clone(), ttype: global.ttype });
            proof {
                assert forall|j: int| 0 <= j < i + 1 implies vars_view(globals_def@)[j] == globals_view(gs).subrange(0, i + 1)[j] by {
                    if j < i {
                        assert(globals_def@[j] == before[j]);
                        assert(vars_view(before)[j] == globals_view(gs).subrange(0, i as int)[j]);
                    }
                }
                assert(vars_view(globals_def@) =~= globals_view(gs).subrange(0, i + 1));
            }
            i = i + 1;
        }
        assert(globals_view(gs).subrange(0, gs.len() as int) == globals_view(gs));

        let program_env = ProgEnv { fn_sigs, global_values, globals_def };

        let mut function_envs: Vec<FuncEnv> = Vec::new();
        let mut i: usize = 0;
        while i < prog.functions.len()
            invariant
                i <= prog.functions.len(),
                fs == prog.functions@,
                program_env.sigs() == program_sigs(fs),
                program_env.globals() == globals_view(prog.globals@),
                function_envs@.len() == i,
                distinct_functions(fs),
                has_main(fs),
                globals_resolvable(prog.globals@),
                forall|j: int| 0 <= j < i ==> #[trigger] env_of(function_envs@[j], fs[j]),
                forall|j: int| 0 <= j < i ==> #[trigger] function_ok(fs[j], globals_view(prog.globals@), program_sigs(fs)),
            decreases prog.functions.len() - i,
        {
            let function_env = match Self::check_function(&prog.functions[i], &program_env) {
                Ok(env) => env,
                Err(e) => {
                    return Err(e);
                },
            };
            function_envs.push(function_env);
            i = i + 1;
        }

        Ok(CheckedProgram { prog, program_env, function_envs })
    }
}

} // verus!
