//! Tree-walking interpreter over the high-level IR.
//!
//! Each function call gets a fresh variable scope holding only its
//! parameters (no closures); the caller's variables are restored when the
//! call returns. `print` hands each rendered line to a `PrintSink`. Every
//! step runs exactly as `crate::semantics` describes it, with
//! `STEP_BUDGET` as the depth budget of a run.
use vstd::prelude::*;
use crate::ast::{BinaryOp, EnumDecl, Param};
use crate::hir::{HExpr, HFunctionDecl, HProgram, HStmt};
use crate::semantics::{
    bind_params, declares_field, keeps_output, lemma_run_keeps_output, entry_key, enum_key, enum_named, field_value, first_keyed,
    function_key, function_named, i64_div, last_keyed, lemma_first_keyed_is, lemma_last_keyed_is,
    op_text, order_fields, sem_binary, sem_block, sem_call, sem_call_user, sem_condition,
    sem_enum_literal, sem_expr, sem_exprs, sem_named_fields, sem_run, sem_stmt, sem_stmts,
    sem_struct_literal, sem_while, struct_key, struct_named, type_error_text, variant_key,
    variant_named, Env, Flow, SpecError,
};
use crate::table::{find, has_key, insert, lookup};
use crate::text::{concat, string_is, string_of, usize_to_string, wrap};
use crate::value::{
    copy_value, fields_view, lemma_fields_view, lemma_values_view, values_equal, values_view,
    SpecValue, Value,
};

verus! {

#[derive(Debug, PartialEq)]
pub enum RuntimeError {
    UndefinedVariable(String),
    UndefinedFunction(String),
    WrongArgCount { callee: String, expected: usize, found: usize },
    NoMainFunction,
    TypeError(String),
    DivisionByZero,
    AlreadyDeclared(String),
    ImmutableAssignment(String),
    StructError(String),
    EnumError(String),
    IndexOutOfBounds(i64),
    /// Not a real user-facing error: used to unwind to the nearest
    /// function-call boundary when `?` meets an `Err`.
    TryPropagate(Value),
    NotResultShaped(String),
    /// The depth budget of the run ran out.
    StepLimitExceeded,
}

impl View for RuntimeError {
    type V = SpecError;

    open spec fn view(&self) -> SpecError {
        match self {
            RuntimeError::UndefinedVariable(s) => SpecError::UndefinedVariable(s@),
            RuntimeError::UndefinedFunction(s) => SpecError::UndefinedFunction(s@),
            RuntimeError::WrongArgCount { callee, expected, found } => SpecError::WrongArgCount {
                callee: callee@,
                expected: *expected as nat,
                found: *found as nat,
            },
            RuntimeError::NoMainFunction => SpecError::NoMainFunction,
            RuntimeError::TypeError(s) => SpecError::TypeError(s@),
            RuntimeError::DivisionByZero => SpecError::DivisionByZero,
            RuntimeError::AlreadyDeclared(s) => SpecError::AlreadyDeclared(s@),
            RuntimeError::ImmutableAssignment(s) => SpecError::ImmutableAssignment(s@),
            RuntimeError::StructError(s) => SpecError::StructError(s@),
            RuntimeError::EnumError(s) => SpecError::EnumError(s@),
            RuntimeError::IndexOutOfBounds(i) => SpecError::IndexOutOfBounds(*i),
            RuntimeError::TryPropagate(v) => SpecError::TryPropagate(v@),
            RuntimeError::NotResultShaped(s) => SpecError::NotResultShaped(s@),
            RuntimeError::StepLimitExceeded => SpecError::StepLimitExceeded,
        }
    }
}

/// Where printed lines go.
pub trait PrintSink {
    /// The lines handed to the sink so far, in order.
    spec fn lines(&self) -> Seq<Seq<char>>;

    /// Takes one more line.
    fn print(&mut self, line: &str)
        ensures
            final(self).lines() == old(self).lines().push(line@),
    ;
}

impl PrintSink for Vec<String> {
    open spec fn lines(&self) -> Seq<Seq<char>> {
        self@.map_values(|s: String| s@)
    }

    /// Appends `line` as the last element.
    fn print(&mut self, line: &str)
        ensures
            final(self)@.len() == old(self)@.len() + 1,
            final(self)@.drop_last() == old(self)@,
            final(self)@.last()@ == line@,
    {
        self.push(string_of(line));
        proof {
            assert(self@.map_values(|s: String| s@) =~= old(self)@.map_values(|s: String| s@).push(line@));
        }
    }
}

/// Where a `StreamSink` sends each line, such as a terminal.
pub trait LineWriter {
    fn write_line(&mut self, line: &str);
}

/// A sink that hands each line on to a writer as it comes, and keeps, as
/// its lines, those it handed on.
pub struct StreamSink<W: LineWriter> {
    writer: W,
    written: Ghost<Seq<Seq<char>>>,
}

impl<W: LineWriter> StreamSink<W> {
    pub fn new(writer: W) -> (r: Self)
        ensures
            r.lines() == Seq::<Seq<char>>::empty(),
    {
        StreamSink { writer, written: Ghost(Seq::empty()) }
    }

    /// Gives back the writer.
    pub fn into_writer(self) -> W {
        self.writer
    }
}

impl<W: LineWriter> PrintSink for StreamSink<W> {
    closed spec fn lines(&self) -> Seq<Seq<char>> {
        self.written@
    }

    fn print(&mut self, line: &str) {
        self.writer.write_line(line);
        self.written = Ghost(self.written@.push(line@));
    }
}

/// A variable binding: its current value plus whether `=` may update it.
pub struct Binding {
    pub value: Value,
    pub is_mutable: bool,
}

/// Whether a block finished normally or hit a `return`.
pub enum ControlFlow {
    Normal,
    Return(Value),
}

/// The variables an association list of bindings holds.
pub open spec fn env_map(v: Seq<(String, Binding)>) -> Env {
    Map::new(
        |k: Seq<char>| has_key(v, k),
        |k: Seq<char>| (lookup(v, k).unwrap().value@, lookup(v, k).unwrap().is_mutable),
    )
}

pub open spec fn result_view(r: Result<Value, RuntimeError>) -> Result<SpecValue, SpecError> {
    match r {
        Ok(v) => Ok(v@),
        Err(e) => Err(e@),
    }
}

pub open spec fn flow_view(r: Result<ControlFlow, RuntimeError>) -> Result<Flow, SpecError> {
    match r {
        Ok(ControlFlow::Normal) => Ok(Flow::Normal),
        Ok(ControlFlow::Return(v)) => Ok(Flow::Return(v@)),
        Err(e) => Err(e@),
    }
}

pub open spec fn bool_view(r: Result<bool, RuntimeError>) -> Result<bool, SpecError> {
    match r {
        Ok(b) => Ok(b),
        Err(e) => Err(e@),
    }
}

pub open spec fn fields_result_view(r: Result<Vec<(String, Value)>, RuntimeError>) -> Result<
    Seq<(Seq<char>, SpecValue)>,
    SpecError,
> {
    match r {
        Ok(v) => Ok(fields_view(v@)),
        Err(e) => Err(e@),
    }
}

/// The depth budget of a run: more than any real run needs.
pub const STEP_BUDGET: u64 = 18446744073709551615;

proof fn lemma_env_insert(old_env: Seq<(String, Binding)>, new_env: Seq<(String, Binding)>, key: String, b: Binding)
    requires
        lookup(new_env, key@) == Some(b),
        forall|k: Seq<char>| k != key@ ==> lookup(new_env, k) == lookup(old_env, k),
    ensures
        env_map(new_env) == env_map(old_env).insert(key@, (b.value@, b.is_mutable)),
{
    assert forall|k: Seq<char>| #[trigger] has_key(new_env, k) == (has_key(old_env, k) || k == key@) by {
        if k != key@ {
            assert(lookup(new_env, k) == lookup(old_env, k));
        }
    }
    assert(env_map(new_env) =~= env_map(old_env).insert(key@, (b.value@, b.is_mutable)));
}

proof fn lemma_values_update(vs: Seq<Value>, i: int, x: Value)
    requires
        0 <= i < vs.len(),
    ensures
        values_view(vs.update(i, x)) == values_view(vs).update(i, x@),
{
    lemma_values_view(vs);
    lemma_values_view(vs.update(i, x));
    assert(values_view(vs.update(i, x)) =~= values_view(vs).update(i, x@));
}

proof fn lemma_values_push(vs: Seq<Value>, x: Value)
    ensures
        values_view(vs.push(x)) == values_view(vs).push(x@),
{
    assert(vs.push(x).subrange(0, vs.len() as int) =~= vs);
}

proof fn lemma_fields_push(fs: Seq<(String, Value)>, e: (String, Value))
    ensures
        fields_view(fs.push(e)) == fields_view(fs).push((e.0@, e.1@)),
{
    assert(fs.push(e).subrange(0, fs.len() as int) =~= fs);
}

/// Once evaluating a prefix of `es` fails, evaluating all of `es` fails
/// the same way.
proof fn lemma_exprs_stop(p: HProgram, fuel: nat, env: Env, out: Seq<Seq<char>>, es: Seq<HExpr>, k: int)
    requires
        0 <= k <= es.len(),
        sem_exprs(p, fuel, env, out, es.take(k)).0 is Err,
    ensures
        sem_exprs(p, fuel, env, out, es) == sem_exprs(p, fuel, env, out, es.take(k)),
    decreases es.len() - k,
{
    if k < es.len() {
        assert(es.take(k + 1).drop_last() =~= es.take(k));
        lemma_exprs_stop(p, fuel, env, out, es, k + 1);
    } else {
        assert(es.take(k) =~= es);
    }
}

proof fn lemma_fields_stop(
    p: HProgram,
    fuel: nat,
    env: Env,
    out: Seq<Seq<char>>,
    decl: Seq<Param>,
    fs: Seq<(String, HExpr)>,
    in_enum: bool,
    owner: Seq<char>,
    k: int,
)
    requires
        0 <= k <= fs.len(),
        sem_named_fields(p, fuel, env, out, decl, fs.take(k), in_enum, owner).0 is Err,
    ensures
        sem_named_fields(p, fuel, env, out, decl, fs, in_enum, owner) == sem_named_fields(
            p,
            fuel,
            env,
            out,
            decl,
            fs.take(k),
            in_enum,
            owner,
        ),
    decreases fs.len() - k,
{
    if k < fs.len() {
        assert(fs.take(k + 1).drop_last() =~= fs.take(k));
        lemma_fields_stop(p, fuel, env, out, decl, fs, in_enum, owner, k + 1);
    } else {
        assert(fs.take(k) =~= fs);
    }
}

proof fn lemma_stmts_stop(p: HProgram, fuel: nat, env: Env, out: Seq<Seq<char>>, ss: Seq<HStmt>, k: int)
    requires
        0 <= k <= ss.len(),
        !(sem_stmts(p, fuel, env, out, ss.take(k)).0 matches Ok(Flow::Normal)),
    ensures
        sem_stmts(p, fuel, env, out, ss) == sem_stmts(p, fuel, env, out, ss.take(k)),
    decreases ss.len() - k,
{
    if k < ss.len() {
        assert(ss.take(k + 1).drop_last() =~= ss.take(k));
        lemma_stmts_stop(p, fuel, env, out, ss, k + 1);
    } else {
        assert(ss.take(k) =~= ss);
    }
}

pub struct Interpreter<S: PrintSink> {
    env: Vec<(String, Binding)>,
    sink: S,
}

impl<S: PrintSink> Interpreter<S> {
    /// The variables of the current call.
    pub closed spec fn variables(&self) -> Env {
        env_map(self.env@)
    }

    /// Every line the sink holds, in order: those it held when the
    /// interpreter was made, then those printed since.
    pub closed spec fn printed(&self) -> Seq<Seq<char>> {
        self.sink.lines()
    }

    /// The sink printed lines are handed to.
    pub closed spec fn output_sink(&self) -> S {
        self.sink
    }

    pub fn new(print_sink: S) -> (r: Self)
        ensures
            r.variables() == Map::<Seq<char>, (SpecValue, bool)>::empty(),
            r.printed() == print_sink.lines(),
            r.output_sink() == print_sink,
    {
        let r = Interpreter { env: Vec::new(), sink: print_sink };
        proof {
            assert(r.variables() =~= Map::<Seq<char>, (SpecValue, bool)>::empty());
        }
        r
    }

    /// Where printed lines went.
    pub fn sink(&self) -> (r: &S)
        ensures
            *r == self.output_sink(),
            r.lines() == self.printed(),
    {
        &self.sink
    }

    /// Gives back the sink.
    pub fn into_sink(self) -> (r: S)
        ensures
            r == self.output_sink(),
            r.lines() == self.printed(),
    {
        self.sink
    }

    /// Runs `main`, exactly as `sem_run` describes it with `STEP_BUDGET`:
    /// a program without a function named `main` fails with
    /// `NoMainFunction`; otherwise the result is that of `main`'s body,
    /// and the lines it prints follow those printed before.
    pub fn run(&mut self, program: &HProgram) -> (r: Result<(), RuntimeError>)
        ensures
            sem_run(*program, STEP_BUDGET as nat, old(self).variables(), old(self).printed()) == (
                match r {
                    Ok(()) => Ok::<(), SpecError>(()),
                    Err(e) => Err(e@),
                },
                final(self).variables(),
                final(self).printed(),
            ),
            keeps_output(old(self).printed(), final(self).printed()),
            final(self).output_sink().lines() == old(self).output_sink().lines() + final(self).printed().skip(
                old(self).printed().len() as int,
            ),
    {
        proof {
            lemma_run_keeps_output(*program, STEP_BUDGET as nat, self.variables(), self.printed());
        }
        let main_name = string_of("main");
        let k = match find_function(program, &main_name) {
            Some(k) => k,
            None => {
                return Err(RuntimeError::NoMainFunction);
            },
        };
        let r = match self.exec_block(program, STEP_BUDGET, &program.functions[k].body) {
            Ok(_) => Ok(()),
            Err(e) => Err(e),
        };
        proof {
            let before = old(self).printed();
            let after = self.printed();
            assert(after =~= before + after.skip(before.len() as int));
        }
        r
    }

    /// Runs statements in order until one returns or fails. A `?` that
    /// meets an `Err` inside the block makes the block return that `Err`
    /// value.
    #[verifier::rlimit(100)]
    fn exec_block(&mut self, p: &HProgram, fuel: u64, stmts: &Vec<HStmt>) -> (r: Result<ControlFlow, RuntimeError>)
        ensures
            sem_block(*p, fuel as nat, old(self).variables(), old(self).printed(), stmts@) == (
                flow_view(r),
                final(self).variables(),
                final(self).printed(),
            ),
        decreases fuel, 0int,
    {
        if fuel == 0 {
            return Err(RuntimeError::StepLimitExceeded);
        }
        let f = fuel - 1;
        let ghost env0 = self.variables();
        let ghost out0 = self.printed();
        let mut i: usize = 0;
        proof {
            assert(stmts@.take(0) =~= Seq::<HStmt>::empty());
        }
        while i < stmts.len()
            invariant
                i <= stmts@.len(),
                f == fuel - 1,
                fuel > 0,
                env0 == old(self).variables(),
                out0 == old(self).printed(),
                sem_block(*p, fuel as nat, env0, out0, stmts@) == sem_stmts(*p, f as nat, env0, out0, stmts@),
                sem_stmts(*p, f as nat, env0, out0, stmts@.take(i as int)) == (
                    Ok::<Flow, SpecError>(Flow::Normal),
                    self.variables(),
                    self.printed(),
                ),
            decreases stmts.len() - i,
        {
            let ghost before_env = self.variables();
            let ghost before_out = self.printed();
            let r = self.exec_stmt(p, f, &stmts[i]);
            proof {
                assert(stmts@.take(i + 1).drop_last() =~= stmts@.take(i as int));
                assert(stmts@.take(i + 1).last() == stmts@[i as int]);
            }
            match r {
                Err(RuntimeError::TryPropagate(v)) => {
                    proof {
                        lemma_stmts_stop(*p, f as nat, env0, out0, stmts@, i + 1);
                    }
                    return Ok(ControlFlow::Return(v));
                },
                Err(e) => {
                    proof {
                        lemma_stmts_stop(*p, f as nat, env0, out0, stmts@, i + 1);
                    }
                    return Err(e);
                },
                Ok(ControlFlow::Return(v)) => {
                    proof {
                        lemma_stmts_stop(*p, f as nat, env0, out0, stmts@, i + 1);
                    }
                    return Ok(ControlFlow::Return(v));
                },
                Ok(ControlFlow::Normal) => {},
            }
            i = i + 1;
        }
        proof {
            assert(stmts@.take(i as int) =~= stmts@);
        }
        Ok(ControlFlow::Normal)
    }

    fn exec_stmt(&mut self, p: &HProgram, fuel: u64, stmt: &HStmt) -> (r: Result<ControlFlow, RuntimeError>)
        ensures
            sem_stmt(*p, fuel as nat, old(self).variables(), old(self).printed(), *stmt) == (
                flow_view(r),
                final(self).variables(),
                final(self).printed(),
            ),
        decreases fuel, 0int,
    {
        if fuel == 0 {
            return Err(RuntimeError::StepLimitExceeded);
        }
        let f = fuel - 1;
        match stmt {
            HStmt::VariableDecl { name, value, is_mutable } => {
                if find(&self.env, name).is_some() {
                    return Err(RuntimeError::AlreadyDeclared(name.clone()));
                }
                let v = self.eval_expr(p, f, value)?;
                let ghost before = self.env@;
                let b = Binding { value: v, is_mutable: *is_mutable };
                insert(&mut self.env, name.clone(), b);
                proof {
                    lemma_env_insert(before, self.env@, *name, b);
                }
                Ok(ControlFlow::Normal)
            },
            HStmt::Assign { name, value } => {
                let v = self.eval_expr(p, f, value)?;
                match find(&self.env, name) {
                    None => Err(RuntimeError::UndefinedVariable(name.clone())),
                    Some(k) => {
                        if !self.env[k].1.is_mutable {
                            Err(RuntimeError::ImmutableAssignment(name.clone()))
                        } else {
                            let ghost before = self.env@;
                            let b = Binding { value: v, is_mutable: true };
                            insert(&mut self.env, name.clone(), b);
                            proof {
                                lemma_env_insert(before, self.env@, *name, b);
                            }
                            Ok(ControlFlow::Normal)
                        }
                    },
                }
            },
            HStmt::IndexAssign { name, index, value } => {
                let idx_val = self.eval_expr(p, f, index)?;
                let i = match idx_val {
                    Value::Int(i) => i,
                    other => {
                        let label = other.type_label();
                        return Err(RuntimeError::TypeError(concat(&string_of("array index must be Int, found "), label.as_str())));
                    },
                };
                let new_val = self.eval_expr(p, f, value)?;
                match find(&self.env, name) {
                    None => Err(RuntimeError::UndefinedVariable(name.clone())),
                    Some(k) => {
                        if !self.env[k].1.is_mutable {
                            return Err(RuntimeError::ImmutableAssignment(name.clone()));
                        }
                        let current = copy_value(&self.env[k].1.value);
                        let mut items = match current {
                            Value::Array(items) => items,
                            _ => {
                                return Err(RuntimeError::TypeError(string_of("cannot index-assign into a non-array")));
                            },
                        };
                        proof {
                            lemma_values_view(items@);
                        }
                        if i < 0 || (i as u64) >= (items.len() as u64) {
                            return Err(RuntimeError::IndexOutOfBounds(i));
                        }
                        let ghost old_items = items@;
                        let ghost nv = new_val;
                        items.set(i as usize, new_val);
                        proof {
                            lemma_values_update(old_items, i as int, nv);
                        }
                        let ghost before = self.env@;
                        let b = Binding { value: Value::Array(items), is_mutable: true };
                        insert(&mut self.env, name.clone(), b);
                        proof {
                            lemma_env_insert(before, self.env@, *name, b);
                        }
                        Ok(ControlFlow::Normal)
                    },
                }
            },
            HStmt::Expr(expr) => {
                self.eval_expr(p, f, expr)?;
                Ok(ControlFlow::Normal)
            },
            HStmt::If { condition, then_branch, else_branch } => {
                if self.eval_condition(p, f, condition)? {
                    self.exec_block(p, f, then_branch)
                } else {
                    match else_branch {
                        Some(else_stmts) => self.exec_block(p, f, else_stmts),
                        None => Ok(ControlFlow::Normal),
                    }
                }
            },
            HStmt::While { condition, body } => self.exec_while(p, f, condition, body),
            HStmt::Return(expr) => {
                let value = match expr {
                    Some(e) => self.eval_expr(p, f, e)?,
                    None => Value::Unit,
                };
                Ok(ControlFlow::Return(value))
            },
        }
    }

    fn exec_while(&mut self, p: &HProgram, fuel: u64, condition: &HExpr, body: &Vec<HStmt>) -> (r: Result<ControlFlow, RuntimeError>)
        ensures
            sem_while(*p, fuel as nat, old(self).variables(), old(self).printed(), *condition, body@) == (
                flow_view(r),
                final(self).variables(),
                final(self).printed(),
            ),
        decreases fuel, 0int,
    {
        let mut g = fuel;
        loop
            invariant
                g <= fuel,
                sem_while(*p, fuel as nat, old(self).variables(), old(self).printed(), *condition, body@)
                    == sem_while(*p, g as nat, self.variables(), self.printed(), *condition, body@),
            decreases g,
        {
            if g == 0 {
                return Err(RuntimeError::StepLimitExceeded);
            }
            g = g - 1;
            let go = match self.eval_condition(p, g, condition) {
                Ok(b) => b,
                Err(e) => {
                    return Err(e);
                },
            };
            if !go {
                return Ok(ControlFlow::Normal);
            }
            match self.exec_block(p, g, body) {
                Ok(ControlFlow::Normal) => {},
                other => {
                    return other;
                },
            }
        }
    }

    fn eval_condition(&mut self, p: &HProgram, fuel: u64, condition: &HExpr) -> (r: Result<bool, RuntimeError>)
        ensures
            final(self).env@ == old(self).env@,
            sem_condition(*p, fuel as nat, old(self).variables(), old(self).printed(), *condition) == (
                bool_view(r),
                final(self).printed(),
            ),
        decreases fuel, 0int,
    {
        if fuel == 0 {
            return Err(RuntimeError::StepLimitExceeded);
        }
        match self.eval_expr(p, fuel - 1, condition)? {
            Value::Bool(b) => Ok(b),
            other => {
                let label = other.type_label();
                Err(RuntimeError::TypeError(concat(&string_of("condition must be Bool, found "), label.as_str())))
            },
        }
    }

    /// Evaluates an expression; the variables are left as they were.
    fn eval_expr(&mut self, p: &HProgram, fuel: u64, expr: &HExpr) -> (r: Result<Value, RuntimeError>)
        ensures
            final(self).env@ == old(self).env@,
            sem_expr(*p, fuel as nat, old(self).variables(), old(self).printed(), *expr) == (
                result_view(r),
                final(self).printed(),
            ),
        decreases fuel, 0int,
    {
        if fuel == 0 {
            return Err(RuntimeError::StepLimitExceeded);
        }
        let f = fuel - 1;
        match expr {
            HExpr::StringLiteral(s) => Ok(Value::String(s.clone())),
            HExpr::IntLiteral(i) => Ok(Value::Int(*i)),
            HExpr::BoolLiteral(b) => Ok(Value::Bool(*b)),
            HExpr::Identifier(name) => match find(&self.env, name) {
                Some(k) => Ok(copy_value(&self.env[k].1.value)),
                None => Err(RuntimeError::UndefinedVariable(name.clone())),
            },
            HExpr::Binary { left, op, right } => {
                let l = self.eval_expr(p, f, left)?;
                let r = self.eval_expr(p, f, right)?;
                eval_binary(*op, l, r)
            },
            HExpr::Call { callee, args } => self.call_function(p, f, callee, args),
            HExpr::StructLiteral { name, fields } => self.eval_struct_literal(p, f, name, fields),
            HExpr::FieldAccess { object, field } => match self.eval_expr(p, f, object)? {
                Value::Struct { name, fields } => match first_field(&fields, field) {
                    Some(j) => Ok(copy_value(&fields[j].1)),
                    None => {
                        let msg = concat(&wrap("struct `", &name, "` has no field `"), field.as_str());
                        Err(RuntimeError::StructError(concat(&msg, "`")))
                    },
                },
                other => {
                    let label = other.type_label();
                    let msg = concat(&wrap("cannot access field `", field, "` on "), label.as_str());
                    Err(RuntimeError::TypeError(msg))
                },
            },
            HExpr::EnumLiteral { enum_name, variant, fields } => {
                self.eval_enum_literal(p, f, enum_name, variant, fields)
            },
            HExpr::ArrayLiteral(elements) => {
                let values = self.eval_exprs(p, f, elements)?;
                Ok(Value::Array(values))
            },
            HExpr::Index { array, index } => {
                let idx_val = self.eval_expr(p, f, index)?;
                let i = match idx_val {
                    Value::Int(i) => i,
                    other => {
                        let label = other.type_label();
                        return Err(RuntimeError::TypeError(concat(&string_of("array index must be Int, found "), label.as_str())));
                    },
                };
                let arr_val = self.eval_expr(p, f, array)?;
                match arr_val {
                    Value::Array(items) => {
                        proof {
                            lemma_values_view(items@);
                        }
                        if i < 0 || (i as u64) >= (items.len() as u64) {
                            return Err(RuntimeError::IndexOutOfBounds(i));
                        }
                        Ok(copy_value(&items[i as usize]))
                    },
                    other => {
                        let label = other.type_label();
                        Err(RuntimeError::TypeError(concat(&string_of("cannot index into "), label.as_str())))
                    },
                }
            },
            HExpr::Try(inner) => {
                let value = self.eval_expr(p, f, inner)?;
                match value {
                    Value::Enum { enum_name, variant, fields } => {
                        if string_is(&variant, "Ok") {
                            let value_name = string_of("value");
                            match first_field(&fields, &value_name) {
                                Some(j) => Ok(copy_value(&fields[j].1)),
                                None => Err(RuntimeError::NotResultShaped(wrap("enum `", &enum_name, "` variant `Ok` has no `value` field"))),
                            }
                        } else if string_is(&variant, "Err") {
                            Err(RuntimeError::TryPropagate(Value::Enum { enum_name, variant, fields }))
                        } else {
                            Err(RuntimeError::NotResultShaped(wrap("`?` requires an Ok/Err-shaped enum, found variant `", &variant, "`")))
                        }
                    },
                    _ => Err(RuntimeError::NotResultShaped(string_of("? used on a non-enum value"))),
                }
            },
            HExpr::IsVariant { scrutinee, enum_name, variant } => match self.eval_expr(p, f, scrutinee)? {
                Value::Enum { enum_name: vn, variant: vv, .. } => {
                    Ok(Value::Bool(vn == *enum_name && vv == *variant))
                },
                _ => Ok(Value::Bool(false)),
            },
            HExpr::VariantField { scrutinee, enum_name, variant, field } => match self.eval_expr(p, f, scrutinee)? {
                Value::Enum { fields, .. } => match first_field(&fields, field) {
                    Some(j) => Ok(copy_value(&fields[j].1)),
                    None => {
                        let path = concat(&wrap("variant `", enum_name, "::"), variant.as_str());
                        let msg = concat(&concat(&path, "` has no field `"), field.as_str());
                        Err(RuntimeError::EnumError(concat(&msg, "`")))
                    },
                },
                other => {
                    let label = other.type_label();
                    let msg = concat(&wrap("expected enum `", enum_name, "`, found "), label.as_str());
                    Err(RuntimeError::TypeError(msg))
                },
            },
        }
    }

    /// Evaluates `es` from left to right, each with `fuel`, stopping at the
    /// first error.
    fn eval_exprs(&mut self, p: &HProgram, fuel: u64, es: &Vec<HExpr>) -> (r: Result<Vec<Value>, RuntimeError>)
        ensures
            final(self).env@ == old(self).env@,
            sem_exprs(*p, fuel as nat, old(self).variables(), old(self).printed(), es@) == (
                match r {
                    Ok(vs) => Ok(values_view(vs@)),
                    Err(e) => Err(e@),
                },
                final(self).printed(),
            ),
            r matches Ok(vs) ==> vs@.len() == es@.len(),
        decreases fuel, 1int,
    {
        let ghost env0 = self.variables();
        let ghost out0 = self.printed();
        let mut values: Vec<Value> = Vec::new();
        let mut i: usize = 0;
        proof {
            assert(es@.take(0) =~= Seq::<HExpr>::empty());
        }
        while i < es.len()
            invariant
                i <= es@.len(),
                values@.len() == i,
                self.env@ == old(self).env@,
                env0 == self.variables(),
                out0 == old(self).printed(),
                sem_exprs(*p, fuel as nat, env0, out0, es@.take(i as int)) == (
                    Ok::<Seq<SpecValue>, SpecError>(values_view(values@)),
                    self.printed(),
                ),
            decreases es.len() - i,
        {
            proof {
                assert(es@.take(i + 1).drop_last() =~= es@.take(i as int));
                assert(es@.take(i + 1).last() == es@[i as int]);
            }
            let v = match self.eval_expr(p, fuel, &es[i]) {
                Ok(v) => v,
                Err(e) => {
                    proof {
                        lemma_exprs_stop(*p, fuel as nat, env0, out0, es@, i + 1);
                    }
                    return Err(e);
                },
            };
            let ghost before = values@;
            let ghost pushed = v;
            values.push(v);
            proof {
                lemma_values_push(before, pushed);
            }
            i = i + 1;
        }
        proof {
            assert(es@.take(i as int) =~= es@);
        }
        Ok(values)
    }

    /// Evaluates the named fields of a struct or variant literal from left
    /// to right; each name must be declared in `decl` and given once.
    fn eval_named_fields(
        &mut self,
        p: &HProgram,
        fuel: u64,
        decl: &Vec<Param>,
        fs: &Vec<(String, HExpr)>,
        in_enum: bool,
        owner: &String,
    ) -> (r: Result<Vec<(String, Value)>, RuntimeError>)
        ensures
            final(self).env@ == old(self).env@,
            sem_named_fields(*p, fuel as nat, old(self).variables(), old(self).printed(), decl@, fs@, in_enum, owner@)
                == (fields_result_view(r), final(self).printed()),
        decreases fuel, 1int,
    {
        let ghost env0 = self.variables();
        let ghost out0 = self.printed();
        let mut values: Vec<(String, Value)> = Vec::new();
        let mut i: usize = 0;
        proof {
            assert(fs@.take(0) =~= Seq::<(String, HExpr)>::empty());
        }
        while i < fs.len()
            invariant
                i <= fs@.len(),
                self.env@ == old(self).env@,
                env0 == self.variables(),
                out0 == old(self).printed(),
                sem_named_fields(*p, fuel as nat, env0, out0, decl@, fs@.take(i as int), in_enum, owner@) == (
                    Ok::<Seq<(Seq<char>, SpecValue)>, SpecError>(fields_view(values@)),
                    self.printed(),
                ),
            decreases fs.len() - i,
        {
            proof {
                assert(fs@.take(i + 1).drop_last() =~= fs@.take(i as int));
                assert(fs@.take(i + 1).last() == fs@[i as int]);
            }
            let field_name = &fs[i].0;
            if !param_named(decl, field_name) {
                let head = if in_enum {
                    wrap("variant `", owner, "` has no field `")
                } else {
                    wrap("struct `", owner, "` has no field `")
                };
                let msg = concat(&concat(&head, field_name.as_str()), "`");
                let e = if in_enum {
                    RuntimeError::EnumError(msg)
                } else {
                    RuntimeError::StructError(msg)
                };
                proof {
                    lemma_fields_stop(*p, fuel as nat, env0, out0, decl@, fs@, in_enum, owner@, i + 1);
                }
                return Err(e);
            }
            if first_field(&values, field_name).is_some() {
                let msg = wrap("field `", field_name, "` specified more than once");
                let e = if in_enum {
                    RuntimeError::EnumError(msg)
                } else {
                    RuntimeError::StructError(msg)
                };
                proof {
                    lemma_fields_stop(*p, fuel as nat, env0, out0, decl@, fs@, in_enum, owner@, i + 1);
                }
                return Err(e);
            }
            let value = match self.eval_expr(p, fuel, &fs[i].1) {
                Ok(v) => v,
                Err(e) => {
                    proof {
                        lemma_fields_stop(*p, fuel as nat, env0, out0, decl@, fs@, in_enum, owner@, i + 1);
                    }
                    return Err(e);
                },
            };
            let ghost before = values@;
            let entry = (field_name.clone(), value);
            let ghost pushed = entry;
            values.push(entry);
            proof {
                lemma_fields_push(before, pushed);
            }
            i = i + 1;
        }
        proof {
            assert(fs@.take(i as int) =~= fs@);
        }
        Ok(values)
    }

    fn eval_struct_literal(&mut self, p: &HProgram, fuel: u64, name: &String, fields: &Vec<(String, HExpr)>) -> (r: Result<Value, RuntimeError>)
        ensures
            final(self).env@ == old(self).env@,
            sem_struct_literal(*p, fuel as nat, old(self).variables(), old(self).printed(), name@, fields@) == (
                result_view(r),
                final(self).printed(),
            ),
        decreases fuel, 0int,
    {
        if fuel == 0 {
            return Err(RuntimeError::StepLimitExceeded);
        }
        let decl = match find_struct(p, name) {
            Some(k) => &p.structs[k],
            None => {
                return Err(RuntimeError::StructError(wrap("undefined struct `", name, "`")));
            },
        };
        if fields.len() != decl.fields.len() {
            let a = concat(&wrap("struct `", name, "` expects "), usize_to_string(decl.fields.len()).as_str());
            let b = concat(&concat(&a, " field(s), found "), usize_to_string(fields.len()).as_str());
            return Err(RuntimeError::StructError(b));
        }
        let values = self.eval_named_fields(p, fuel - 1, &decl.fields, fields, false, name)?;
        match order_values(&decl.fields, &values) {
            Ok(ordered) => Ok(Value::Struct { name: name.clone(), fields: ordered }),
            Err(missing) => {
                let msg = concat(&wrap("missing field `", &missing, "` in struct `"), name.as_str());
                Err(RuntimeError::StructError(concat(&msg, "`")))
            },
        }
    }

    fn eval_enum_literal(
        &mut self,
        p: &HProgram,
        fuel: u64,
        enum_name: &String,
        variant: &String,
        fields: &Vec<(String, HExpr)>,
    ) -> (r: Result<Value, RuntimeError>)
        ensures
            final(self).env@ == old(self).env@,
            sem_enum_literal(*p, fuel as nat, old(self).variables(), old(self).printed(), enum_name@, variant@, fields@)
                == (result_view(r), final(self).printed()),
        decreases fuel, 0int,
    {
        if fuel == 0 {
            return Err(RuntimeError::StepLimitExceeded);
        }
        let decl = match find_enum(p, enum_name) {
            Some(k) => &p.enums[k],
            None => {
                return Err(RuntimeError::EnumError(wrap("undefined enum `", enum_name, "`")));
            },
        };
        let variant_decl = match first_variant(decl, variant) {
            Some(j) => &decl.variants[j],
            None => {
                let msg = concat(&wrap("enum `", enum_name, "` has no variant `"), variant.as_str());
                return Err(RuntimeError::EnumError(concat(&msg, "`")));
            },
        };
        let path = concat(&concat(enum_name, "::"), variant.as_str());
        if fields.len() != variant_decl.fields.len() {
            let a = concat(&wrap("variant `", &path, "` expects "), usize_to_string(variant_decl.fields.len()).as_str());
            let b = concat(&concat(&a, " field(s), found "), usize_to_string(fields.len()).as_str());
            return Err(RuntimeError::EnumError(b));
        }
        let values = self.eval_named_fields(p, fuel - 1, &variant_decl.fields, fields, true, &path)?;
        match order_values(&variant_decl.fields, &values) {
            Ok(ordered) => Ok(Value::Enum { enum_name: enum_name.clone(), variant: variant.clone(), fields: ordered }),
            Err(missing) => {
                let msg = concat(&wrap("missing field `", &missing, "` in variant `"), path.as_str());
                Err(RuntimeError::EnumError(concat(&msg, "`")))
            },
        }
    }

    /// Calls a built-in (`print`, `len`, `push`) or a user function.
    fn call_function(&mut self, p: &HProgram, fuel: u64, callee: &String, args: &Vec<HExpr>) -> (r: Result<Value, RuntimeError>)
        ensures
            final(self).env@ == old(self).env@,
            sem_call(*p, fuel as nat, old(self).variables(), old(self).printed(), callee@, args@) == (
                result_view(r),
                final(self).printed(),
            ),
        decreases fuel, 0int,
    {
        if fuel == 0 {
            return Err(RuntimeError::StepLimitExceeded);
        }
        let f = fuel - 1;
        if string_is(callee, "print") {
            if args.len() != 1 {
                return Err(RuntimeError::WrongArgCount { callee: callee.clone(), expected: 1, found: args.len() });
            }
            let value = self.eval_expr(p, f, &args[0])?;
            let line = value.display();
            self.sink.print(line.as_str());
            return Ok(Value::Unit);
        }
        if string_is(callee, "len") {
            if args.len() != 1 {
                return Err(RuntimeError::WrongArgCount { callee: callee.clone(), expected: 1, found: args.len() });
            }
            return match self.eval_expr(p, f, &args[0])? {
                Value::Array(items) => {
                    proof {
                        lemma_values_view(items@);
                    }
                    let n = items.len();
                    if (n as u64) <= 9223372036854775807u64 {
                        Ok(Value::Int(n as i64))
                    } else {
                        Ok(Value::Int(i64::MAX))
                    }
                },
                _ => Err(RuntimeError::TypeError(string_of("len expects an Array"))),
            };
        }
        if string_is(callee, "push") {
            if args.len() != 2 {
                return Err(RuntimeError::WrongArgCount { callee: callee.clone(), expected: 2, found: args.len() });
            }
            let mut items = match self.eval_expr(p, f, &args[0])? {
                Value::Array(items) => items,
                _ => {
                    return Err(RuntimeError::TypeError(string_of("push expects an Array as its first argument")));
                },
            };
            let new_item = self.eval_expr(p, f, &args[1])?;
            let ghost before = items@;
            let ghost pushed = new_item;
            items.push(new_item);
            proof {
                lemma_values_push(before, pushed);
            }
            return Ok(Value::Array(items));
        }
        match find_function(p, callee) {
            Some(k) => self.call_user_function(p, f, &p.functions[k], args),
            None => Err(RuntimeError::UndefinedFunction(callee.clone())),
        }
    }

    /// Calls a user function: arguments are evaluated in the caller's
    /// scope, then the body runs in a scope holding only the parameters.
    #[verifier::rlimit(50)]
    fn call_user_function(&mut self, p: &HProgram, fuel: u64, func: &HFunctionDecl, args: &Vec<HExpr>) -> (r: Result<Value, RuntimeError>)
        ensures
            final(self).env@ == old(self).env@,
            sem_call_user(*p, fuel as nat, old(self).variables(), old(self).printed(), *func, args@) == (
                result_view(r),
                final(self).printed(),
            ),
        decreases fuel, 0int,
    {
        if fuel == 0 {
            return Err(RuntimeError::StepLimitExceeded);
        }
        let f = fuel - 1;
        if args.len() != func.params.len() {
            return Err(RuntimeError::WrongArgCount {
                callee: func.name.clone(),
                expected: func.params.len(),
                found: args.len(),
            });
        }
        let values = self.eval_exprs(p, f, args)?;
        let mut call_env = bind_values(&func.params, values);
        std::mem::swap(&mut self.env, &mut call_env);
        let result = self.exec_block(p, f, &func.body);
        std::mem::swap(&mut self.env, &mut call_env);
        match result {
            Ok(ControlFlow::Return(value)) => Ok(value),
            Ok(ControlFlow::Normal) => Ok(Value::Unit),
            Err(e) => Err(e),
        }
    }
}

/// The parameters bound, in order, to the argument values.
fn bind_values(params: &Vec<Param>, values: Vec<Value>) -> (r: Vec<(String, Binding)>)
    requires
        values@.len() == params@.len(),
    ensures
        env_map(r@) == bind_params(params@, values_view(values@)),
{
    let ghost vs = values_view(values@);
    proof {
        lemma_values_view(values@);
    }
    let n = params.len();
    let mut rest = values;
    let mut env: Vec<(String, Binding)> = Vec::new();
    let mut i: usize = 0;
    proof {
        assert(env_map(env@) =~= bind_params(params@.take(0), vs));
        assert(rest@ =~= values@.subrange(0, values@.len() as int));
    }
    while rest.len() > 0
        invariant
            i <= params@.len(),
            n == params@.len(),
            vs == values_view(values@),
            vs.len() == params@.len(),
            values@.len() == params@.len(),
            forall|j: int| 0 <= j < values@.len() ==> #[trigger] vs[j] == values@[j]@,
            rest@ == values@.subrange(i as int, values@.len() as int),
            env_map(env@) == bind_params(params@.take(i as int), vs),
        decreases rest.len(),
    {
        let v = rest.remove(0);
        let ghost before = env@;
        let b = Binding { value: v, is_mutable: false };
        insert(&mut env, params[i].name.clone(), b);
        proof {
            lemma_env_insert(before, env@, params@[i as int].name, b);
            assert(params@.take(i + 1).drop_last() =~= params@.take(i as int));
            assert(rest@ =~= values@.subrange(i + 1, values@.len() as int));
        }
        i = i + 1;
    }
    proof {
        assert(params@.take(i as int) =~= params@);
    }
    env
}

/// The values of the declared fields `decl`, in declaration order, or the
/// name of the first declared field without a value.
fn order_values(decl: &Vec<Param>, values: &Vec<(String, Value)>) -> (r: Result<Vec<(String, Value)>, String>)
    ensures
        order_fields(decl@, fields_view(values@)) == match r {
            Ok(o) => Ok(fields_view(o@)),
            Err(m) => Err(m@),
        },
{
    let mut ordered: Vec<(String, Value)> = Vec::new();
    let mut d: usize = 0;
    proof {
        assert(decl@.take(0) =~= Seq::<Param>::empty());
    }
    while d < decl.len()
        invariant
            d <= decl@.len(),
            order_fields(decl@.take(d as int), fields_view(values@)) == Ok::<Seq<(Seq<char>, SpecValue)>, Seq<char>>(
                fields_view(ordered@),
            ),
        decreases decl.len() - d,
    {
        proof {
            assert(decl@.take(d + 1).drop_last() =~= decl@.take(d as int));
            assert(decl@.take(d + 1).last() == decl@[d as int]);
        }
        match first_field(values, &decl[d].name) {
            Some(j) => {
                let ghost before = ordered@;
                let entry = (decl[d].name.clone(), copy_value(&values[j].1));
                let ghost pushed = entry;
                ordered.push(entry);
                proof {
                    lemma_fields_push(before, pushed);
                }
            },
            None => {
                proof {
                    lemma_order_stop(decl@, fields_view(values@), d + 1);
                }
                return Err(decl[d].name.clone());
            },
        }
        d = d + 1;
    }
    proof {
        assert(decl@.take(d as int) =~= decl@);
    }
    Ok(ordered)
}

proof fn lemma_order_stop(decl: Seq<Param>, vals: Seq<(Seq<char>, SpecValue)>, k: int)
    requires
        0 <= k <= decl.len(),
        order_fields(decl.take(k), vals) is Err,
    ensures
        order_fields(decl, vals) == order_fields(decl.take(k), vals),
    decreases decl.len() - k,
{
    if k < decl.len() {
        assert(decl.take(k + 1).drop_last() =~= decl.take(k));
        lemma_order_stop(decl, vals, k + 1);
    } else {
        assert(decl.take(k) =~= decl);
    }
}

/// Applies a binary operator to two values.
fn eval_binary(op: BinaryOp, l: Value, r: Value) -> (res: Result<Value, RuntimeError>)
    ensures
        result_view(res) == sem_binary(op, l@, r@),
{
    match op {
        BinaryOp::Add => match (l, r) {
            (Value::String(a), Value::String(b)) => Ok(Value::String(concat(&a, b.as_str()))),
            (Value::Int(a), Value::Int(b)) => Ok(Value::Int(a.wrapping_add(b))),
            (a, b) => Err(type_error("+", &a, &b)),
        },
        BinaryOp::Eq => Ok(Value::Bool(values_equal(&l, &r))),
        BinaryOp::NotEq => Ok(Value::Bool(!values_equal(&l, &r))),
        _ => int_op(l, r, op),
    }
}

/// The error for a binary operator applied to operands of wrong types.
fn type_error(op: &str, a: &Value, b: &Value) -> (e: RuntimeError)
    ensures
        e@ == SpecError::TypeError(type_error_text(op@, a@, b@)),
{
    let head = concat(&string_of("cannot apply `"), op);
    let head = concat(&head, "` to ");
    let with_a = concat(&head, a.type_label().as_str());
    let with_and = concat(&with_a, " and ");
    RuntimeError::TypeError(concat(&with_and, b.type_label().as_str()))
}

fn op_str(op: BinaryOp) -> (r: &'static str)
    ensures
        r@ == op_text(op),
{
    match op {
        BinaryOp::Add => "+",
        BinaryOp::Sub => "-",
        BinaryOp::Mul => "*",
        BinaryOp::Div => "/",
        BinaryOp::Eq => "==",
        BinaryOp::NotEq => "!=",
        BinaryOp::Lt => "<",
        BinaryOp::Gt => ">",
        BinaryOp::Le => "<=",
        BinaryOp::Ge => ">=",
    }
}

/// An operator that takes two integers (`-` `*` `/` `<` `>` `<=` `>=`).
fn int_op(l: Value, r: Value, op: BinaryOp) -> (res: Result<Value, RuntimeError>)
    requires
        !(op is Add || op is Eq || op is NotEq),
    ensures
        result_view(res) == sem_binary(op, l@, r@),
{
    match (l, r) {
        (Value::Int(a), Value::Int(b)) => match op {
            BinaryOp::Sub => Ok(Value::Int(a.wrapping_sub(b))),
            BinaryOp::Mul => Ok(Value::Int(a.wrapping_mul(b))),
            BinaryOp::Div => if b == 0 {
                Err(RuntimeError::DivisionByZero)
            } else {
                Ok(Value::Int(divide(a, b)))
            },
            BinaryOp::Lt => Ok(Value::Bool(a < b)),
            BinaryOp::Gt => Ok(Value::Bool(a > b)),
            BinaryOp::Le => Ok(Value::Bool(a <= b)),
            _ => Ok(Value::Bool(a >= b)),
        },
        (a, b) => Err(type_error(op_str(op), &a, &b)),
    }
}

fn magnitude(a: i64) -> (r: u64)
    ensures
        r as int == if a < 0 { -(a as int) } else { a as int },
{
    if a >= 0 {
        a as u64
    } else if a == i64::MIN {
        9223372036854775808u64
    } else {
        (-a) as u64
    }
}

/// `a / b`, truncating, wrapping on `MIN / -1`.
fn divide(a: i64, b: i64) -> (r: i64)
    requires
        b != 0,
    ensures
        r == i64_div(a, b),
{
    let ma = magnitude(a);
    let mb = magnitude(b);
    let q = ma / mb;
    proof {
        assert(q <= ma) by (nonlinear_arith)
            requires
                mb >= 1,
                q == ma / mb,
        ;
    }
    if (a < 0) != (b < 0) {
        if q == 9223372036854775808u64 {
            i64::MIN
        } else {
            -(q as i64)
        }
    } else {
        if q > 9223372036854775807u64 {
            i64::MIN
        } else {
            q as i64
        }
    }
}

/// Index of the first field named `name`.
fn first_field(fields: &Vec<(String, Value)>, name: &String) -> (r: Option<usize>)
    ensures
        r matches Some(j) ==> j < fields@.len() && fields@[j as int].0@ == name@ && field_value(
            fields_view(fields@),
            name@,
        ) == Some(fields@[j as int].1@),
        r is None ==> field_value(fields_view(fields@), name@) is None,
{
    proof {
        lemma_fields_view(fields@);
    }
    let mut i: usize = 0;
    while i < fields.len()
        invariant
            i <= fields.len(),
            forall|j: int| 0 <= j < i ==> (#[trigger] fields@[j]).0@ != name@,
        decreases fields.len() - i,
    {
        if fields[i].0 == *name {
            proof {
                lemma_fields_view(fields@);
                assert forall|j: int| 0 <= j < i implies entry_key()(#[trigger] fields_view(fields@)[j]) != name@ by {
                    assert(fields_view(fields@)[j] == (fields@[j].0@, fields@[j].1@));
                }
                assert(fields_view(fields@)[i as int] == (fields@[i as int].0@, fields@[i as int].1@));
                lemma_first_keyed_is(fields_view(fields@), entry_key(), name@, Some(i as int));
            }
            return Some(i);
        }
        i = i + 1;
    }
    proof {
        lemma_fields_view(fields@);
        assert forall|j: int| 0 <= j < fields_view(fields@).len() implies entry_key()(#[trigger] fields_view(fields@)[j]) != name@ by {
            assert(fields_view(fields@)[j] == (fields@[j].0@, fields@[j].1@));
        }
        lemma_first_keyed_is(fields_view(fields@), entry_key(), name@, None);
    }
    None
}

/// Whether some parameter is named `name`.
fn param_named(params: &Vec<Param>, name: &String) -> (r: bool)
    ensures
        r == declares_field(params@, name@),
{
    let mut i: usize = 0;
    while i < params.len()
        invariant
            i <= params.len(),
            forall|j: int| 0 <= j < i ==> (#[trigger] params@[j]).name@ != name@,
        decreases params.len() - i,
    {
        if params[i].name == *name {
            return true;
        }
        i = i + 1;
    }
    false
}

/// Index of the first variant named `name`.
fn first_variant(decl: &EnumDecl, name: &String) -> (r: Option<usize>)
    ensures
        r matches Some(j) ==> j < decl.variants@.len() && variant_named(*decl, name@) == Some(
            decl.variants@[j as int],
        ),
        r is None ==> variant_named(*decl, name@) is None,
{
    let mut i: usize = 0;
    while i < decl.variants.len()
        invariant
            i <= decl.variants.len(),
            forall|j: int| 0 <= j < i ==> variant_key()(#[trigger] decl.variants@[j]) != name@,
        decreases decl.variants.len() - i,
    {
        if decl.variants[i].name == *name {
            proof {
                lemma_first_keyed_is(decl.variants@, variant_key(), name@, Some(i as int));
            }
            return Some(i);
        }
        i = i + 1;
    }
    proof {
        lemma_first_keyed_is(decl.variants@, variant_key(), name@, None);
    }
    None
}

/// Index of the last function named `name` (a later declaration replaces
/// an earlier one).
fn find_function(program: &HProgram, name: &String) -> (r: Option<usize>)
    ensures
        r matches Some(k) ==> k < program.functions@.len() && function_named(*program, name@) == Some(
            program.functions@[k as int],
        ),
        r is None ==> function_named(*program, name@) is None,
{
    let mut i = program.functions.len();
    while i > 0
        invariant
            i <= program.functions.len(),
            forall|j: int| i <= j < program.functions@.len() ==> function_key()(#[trigger] program.functions@[j]) != name@,
        decreases i,
    {
        if program.functions[i - 1].name == *name {
            proof {
                lemma_last_keyed_is(program.functions@, function_key(), name@, Some(i - 1));
            }
            return Some(i - 1);
        }
        i = i - 1;
    }
    proof {
        lemma_last_keyed_is(program.functions@, function_key(), name@, None);
    }
    None
}

/// Index of the last struct named `name`.
fn find_struct(program: &HProgram, name: &String) -> (r: Option<usize>)
    ensures
        r matches Some(k) ==> k < program.structs@.len() && struct_named(*program, name@) == Some(
            program.structs@[k as int],
        ),
        r is None ==> struct_named(*program, name@) is None,
{
    let mut i = program.structs.len();
    while i > 0
        invariant
            i <= program.structs.len(),
            forall|j: int| i <= j < program.structs@.len() ==> struct_key()(#[trigger] program.structs@[j]) != name@,
        decreases i,
    {
        if program.structs[i - 1].name == *name {
            proof {
                lemma_last_keyed_is(program.structs@, struct_key(), name@, Some(i - 1));
            }
            return Some(i - 1);
        }
        i = i - 1;
    }
    proof {
        lemma_last_keyed_is(program.structs@, struct_key(), name@, None);
    }
    None
}

/// Index of the last enum named `name`.
fn find_enum(program: &HProgram, name: &String) -> (r: Option<usize>)
    ensures
        r matches Some(k) ==> k < program.enums@.len() && enum_named(*program, name@) == Some(
            program.enums@[k as int],
        ),
        r is None ==> enum_named(*program, name@) is None,
{
    let mut i = program.enums.len();
    while i > 0
        invariant
            i <= program.enums.len(),
            forall|j: int| i <= j < program.enums@.len() ==> enum_key()(#[trigger] program.enums@[j]) != name@,
        decreases i,
    {
        if program.enums[i - 1].name == *name {
            proof {
                lemma_last_keyed_is(program.enums@, enum_key(), name@, Some(i - 1));
            }
            return Some(i - 1);
        }
        i = i - 1;
    }
    proof {
        lemma_last_keyed_is(program.enums@, enum_key(), name@, None);
    }
    None
}

} // verus!
