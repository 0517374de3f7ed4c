//! Lowering from the syntax tree to the high-level IR.
//!
//! Every statement lowers one-to-one except `match`, which lowers to a
//! declaration of a fresh temporary `__match_scrutinee_N` holding the
//! scrutinee (evaluated once), followed by an if/else chain with one level
//! per arm in source order. A wildcard arm becomes the final unconditional
//! `else`, and arms after it are dropped. Enum variant patterns bind their
//! fields positionally, in the order the enum declares them.
use vstd::prelude::*;
use crate::ast::{
    copy_enum_decls, copy_params, copy_struct_decls, lemma_field_value_decreases,
    lemma_vec_elem_decreases, same_enum_decl, same_struct_decl, BinaryOp, EnumDecl, EnumVariant,
    Expr, FunctionDecl, MatchArm, Param, Pattern, Program, Stmt,
};
use crate::hir::{HExpr, HFunctionDecl, HProgram, HStmt};
use crate::semantics::{sem_expr, Env, SpecError};
use crate::value::SpecValue;
use crate::table::{find, insert, lookup};
use crate::text::{concat, decimal_digits, string_of, usize_to_string};

verus! {

/// `h` is `e` with every subexpression lowered in place.
pub open spec fn lowers_expr(e: Expr, h: HExpr) -> bool
    decreases e,
{
    match e {
        Expr::StringLiteral(s) => h == HExpr::StringLiteral(s),
        Expr::IntLiteral(v) => h == HExpr::IntLiteral(v),
        Expr::BoolLiteral(b) => h == HExpr::BoolLiteral(b),
        Expr::Identifier(n) => h == HExpr::Identifier(n),
        Expr::Binary { left, op, right } => h matches HExpr::Binary { left: hl, op: hop, right: hr }
            && hop == op && lowers_expr(*left, *hl) && lowers_expr(*right, *hr),
        Expr::Call { callee, args } => h matches HExpr::Call { callee: hc, args: ha } && hc == callee
            && ha@.len() == args@.len() && forall|i: int|
            0 <= i < args@.len() ==> lowers_expr(args@[i], #[trigger] ha@[i]),
        Expr::StructLiteral { name, fields } => h matches HExpr::StructLiteral { name: hn, fields: hf }
            && hn == name && hf@.len() == fields@.len() && forall|i: int|
            0 <= i < fields@.len() ==> (#[trigger] hf@[i]).0 == fields@[i].0 && lowers_expr(
                fields@[i].1,
                hf@[i].1,
            ),
        Expr::EnumLiteral { enum_name, variant, fields } => h matches HExpr::EnumLiteral {
            enum_name: he,
            variant: hv,
            fields: hf,
        } && he == enum_name && hv == variant && hf@.len() == fields@.len() && forall|i: int|
            0 <= i < fields@.len() ==> (#[trigger] hf@[i]).0 == fields@[i].0 && lowers_expr(
                fields@[i].1,
                hf@[i].1,
            ),
        Expr::FieldAccess { object, field } => h matches HExpr::FieldAccess { object: ho, field: hf }
            && hf == field && lowers_expr(*object, *ho),
        Expr::ArrayLiteral(elements) => h matches HExpr::ArrayLiteral(he) && he@.len()
            == elements@.len() && forall|i: int|
            0 <= i < elements@.len() ==> lowers_expr(elements@[i], #[trigger] he@[i]),
        Expr::Index { array, index } => h matches HExpr::Index { array: ha, index: hi }
            && lowers_expr(*array, *ha) && lowers_expr(*index, *hi),
        Expr::Try(inner) => h matches HExpr::Try(hi) && lowers_expr(*inner, *hi),
    }
}

/// Number of `match` statements lowering a block meets (each takes one
/// temporary).
pub open spec fn block_matches(ss: Seq<Stmt>) -> nat
    decreases ss, 0int,
{
    if ss.len() == 0 {
        0
    } else {
        block_matches(ss.subrange(0, ss.len() - 1)) + stmt_matches(ss[ss.len() - 1])
    }
}

pub open spec fn stmt_matches(s: Stmt) -> nat
    decreases s, 0int,
{
    match s {
        Stmt::If { then_branch, else_branch, .. } => block_matches(then_branch@) + match else_branch {
            Some(b) => block_matches(b@),
            None => 0,
        },
        Stmt::While { body, .. } => block_matches(body@),
        Stmt::Match { arms, .. } => 1 + arms_matches(arms@, 0),
        _ => 0,
    }
}

/// Matches met lowering arms from `start`, up to and including the first
/// wildcard arm.
pub open spec fn arms_matches(arms: Seq<MatchArm>, start: int) -> nat
    decreases arms, arms.len() - start,
{
    if start < 0 || start >= arms.len() {
        0
    } else {
        block_matches(arms[start].body@) + if arms[start].pattern is Wildcard {
            0
        } else {
            arms_matches(arms, start + 1)
        }
    }
}

/// The name of the `n`th match temporary.
pub open spec fn temp_name(n: nat) -> Seq<char> {
    "__match_scrutinee_"@ + decimal_digits(n)
}

/// The first `k` match temporaries, in the order a lowering takes them:
/// `__match_scrutinee_1` to `__match_scrutinee_k`.
pub open spec fn temps_numbered(k: nat) -> Seq<Seq<char>> {
    Seq::new(k, |i: int| temp_name((i + 1) as nat))
}

proof fn lemma_decimal_digits_len(n: nat)
    ensures
        decimal_digits(n).len() >= 1,
        n >= 10 ==> decimal_digits(n).len() >= 2,
    decreases n,
{
    if n >= 10 {
        lemma_decimal_digits_len(n / 10);
    }
}

/// Different numbers have different decimal digits.
pub proof fn lemma_decimal_digits_injective(n: nat, m: nat)
    requires
        decimal_digits(n) == decimal_digits(m),
    ensures
        n == m,
    decreases n,
{
    lemma_decimal_digits_len(n);
    lemma_decimal_digits_len(m);
    if n < 10 && m < 10 {
        let cn = (('0' as nat) + n) as char;
        let cm = (('0' as nat) + m) as char;
        assert(decimal_digits(n)[0] == cn);
        assert(decimal_digits(m)[0] == cm);
        assert(cn as nat == ('0' as nat) + n);
        assert(cm as nat == ('0' as nat) + m);
    } else if n >= 10 && m >= 10 {
        let dn = decimal_digits(n);
        let dm = decimal_digits(m);
        assert(dn.drop_last() =~= decimal_digits(n / 10));
        assert(dm.drop_last() =~= decimal_digits(m / 10));
        lemma_decimal_digits_injective(n / 10, m / 10);
        let cn = (('0' as nat) + (n % 10)) as char;
        let cm = (('0' as nat) + (m % 10)) as char;
        assert(dn.last() == cn);
        assert(dm.last() == cm);
        assert(cn as nat == ('0' as nat) + (n % 10));
        assert(cm as nat == ('0' as nat) + (m % 10));
    } else {
        lemma_decimal_digits_len(n / 10);
        lemma_decimal_digits_len(m / 10);
    }
}

/// The match temporaries of one lowering are `__match_scrutinee_1`,
/// `__match_scrutinee_2`, ... in the order they are taken, and no two of
/// them share a name: after `k` are taken, they are `temps_numbered(k)`,
/// the first of them (if any) is `__match_scrutinee_1`, and they are
/// pairwise distinct.
pub proof fn lemma_temps_numbered(k: nat)
    ensures
        temps_numbered(k).len() == k,
        forall|i: int| 0 <= i < k ==> #[trigger] temps_numbered(k)[i] == temp_name((i + 1) as nat),
        k >= 1 ==> temps_numbered(k)[0] == "__match_scrutinee_1"@,
        temps_numbered(k + 1) == temps_numbered(k).push(temp_name(k + 1)),
        forall|i: int, j: int| 0 <= i < j < k ==> #[trigger] temps_numbered(k)[i] != #[trigger] temps_numbered(k)[j],
{
    assert(temps_numbered(k + 1) =~= temps_numbered(k).push(temp_name(k + 1)));
    if k >= 1 {
        reveal_strlit("__match_scrutinee_1");
        reveal_strlit("__match_scrutinee_");
        assert(decimal_digits(1) =~= seq!['1']);
        assert(temp_name(1) =~= "__match_scrutinee_1"@);
    }
    assert forall|i: int, j: int| 0 <= i < j < k implies #[trigger] temps_numbered(k)[i] != #[trigger] temps_numbered(k)[j] by {
        let a = temp_name((i + 1) as nat);
        let b = temp_name((j + 1) as nat);
        if a == b {
            reveal_strlit("__match_scrutinee_");
            let pre = "__match_scrutinee_"@;
            assert(a.subrange(pre.len() as int, a.len() as int) =~= decimal_digits((i + 1) as nat));
            assert(b.subrange(pre.len() as int, b.len() as int) =~= decimal_digits((j + 1) as nat));
            lemma_decimal_digits_injective((i + 1) as nat, (j + 1) as nat);
        }
    }
}

/// `h` tests whether the value named `temp` matches `p`.
pub open spec fn is_pattern_test(temp: Seq<char>, p: Pattern, h: HExpr) -> bool {
    match p {
        Pattern::Wildcard => h == HExpr::BoolLiteral(true),
        Pattern::IntLiteral(v) => h matches HExpr::Binary { left, op, right } && op == BinaryOp::Eq
            && (*left matches HExpr::Identifier(t) && t@ == temp) && *right == HExpr::IntLiteral(v),
        Pattern::BoolLiteral(v) => h matches HExpr::Binary { left, op, right } && op == BinaryOp::Eq
            && (*left matches HExpr::Identifier(t) && t@ == temp) && *right == HExpr::BoolLiteral(v),
        Pattern::StringLiteral(v) => h matches HExpr::Binary { left, op, right } && op
            == BinaryOp::Eq && (*left matches HExpr::Identifier(t) && t@ == temp) && *right
            == HExpr::StringLiteral(v),
        Pattern::EnumVariant { enum_name, variant, .. } => h matches HExpr::IsVariant {
            scrutinee,
            enum_name: he,
            variant: hv,
        } && (*scrutinee matches HExpr::Identifier(t) && t@ == temp) && he == enum_name && hv
            == variant,
    }
}

/// A non-`match` statement and its lowering agree on the kind of statement
/// and on the lowered expressions in it.
pub open spec fn lowers_stmt_head(s: Stmt, h: HStmt) -> bool {
    match s {
        Stmt::VariableDecl { name, value, is_mutable } => h matches HStmt::VariableDecl {
            name: hn,
            value: hv,
            is_mutable: hm,
        } && hn == name && hm == is_mutable && lowers_expr(value, hv),
        Stmt::Assign { name, value } => h matches HStmt::Assign { name: hn, value: hv } && hn == name
            && lowers_expr(value, hv),
        Stmt::IndexAssign { name, index, value } => h matches HStmt::IndexAssign {
            name: hn,
            index: hi,
            value: hv,
        } && hn == name && lowers_expr(index, hi) && lowers_expr(value, hv),
        Stmt::Expr(e) => h matches HStmt::Expr(he) && lowers_expr(e, he),
        Stmt::If { condition, else_branch, .. } => h matches HStmt::If {
            condition: hc,
            else_branch: he,
            ..
        } && lowers_expr(condition, hc) && (he is Some <==> else_branch is Some),
        Stmt::While { condition, .. } => h matches HStmt::While { condition: hc, .. } && lowers_expr(
            condition,
            hc,
        ),
        Stmt::Return(e) => h matches HStmt::Return(he) && match (e, he) {
            (Some(x), Some(y)) => lowers_expr(x, y),
            (None, None) => true,
            _ => false,
        },
        Stmt::Match { .. } => false,
    }
}

/// Field names of `enum_name::variant` in an enum table.
pub open spec fn variant_fields(
    table: Seq<(String, Vec<(String, Vec<String>)>)>,
    enum_name: Seq<char>,
    variant: Seq<char>,
) -> Option<Seq<String>> {
    match lookup(table, enum_name) {
        Some(vs) => match lookup(vs@, variant) {
            Some(fs) => Some(fs@),
            None => None,
        },
        None => None,
    }
}

/// The field names of `variant` in the last of `vs` so named.
pub open spec fn variant_field_names(vs: Seq<EnumVariant>, variant: Seq<char>) -> Option<Seq<String>>
    decreases vs.len(),
{
    if vs.len() == 0 {
        None
    } else if vs.last().name@ == variant {
        Some(param_names(vs.last().fields@))
    } else {
        variant_field_names(vs.drop_last(), variant)
    }
}

pub open spec fn param_names(ps: Seq<Param>) -> Seq<String> {
    ps.map_values(|p: Param| p.name)
}

/// The field names that lowering binds for `enum_name::variant`: those
/// of the variant in the last enum of that name (a later declaration of a
/// name replaces an earlier one).
pub open spec fn declared_fields(enums: Seq<EnumDecl>, enum_name: Seq<char>, variant: Seq<char>) -> Option<
    Seq<String>,
>
    decreases enums.len(),
{
    if enums.len() == 0 {
        None
    } else if enums.last().name@ == enum_name {
        variant_field_names(enums.last().variants@, variant)
    } else {
        declared_fields(enums.drop_last(), enum_name, variant)
    }
}

/// `declared_fields` of `enums`, as a function of enum and variant names.
pub open spec fn program_fields(enums: Seq<EnumDecl>) -> spec_fn(Seq<char>, Seq<char>) -> Option<Seq<String>> {
    |e: Seq<char>, v: Seq<char>| declared_fields(enums, e, v)
}

/// The field names bound to `variant` in a variant table.
pub open spec fn field_list_of(vs: Seq<(String, Vec<String>)>, variant: Seq<char>) -> Option<Seq<String>> {
    match lookup(vs, variant) {
        Some(fs) => Some(fs@),
        None => None,
    }
}

/// `variant_fields` of a table, as a function of enum and variant names.
pub open spec fn table_fields(table: Seq<(String, Vec<(String, Vec<String>)>)>) -> spec_fn(Seq<char>, Seq<char>) -> Option<
    Seq<String>,
> {
    |e: Seq<char>, v: Seq<char>| variant_fields(table, e, v)
}

/// How many field-binding declarations an arm with pattern `p` begins
/// with: one per binding that has a declared field.
pub open spec fn binding_count(fields: spec_fn(Seq<char>, Seq<char>) -> Option<Seq<String>>, p: Pattern) -> int {
    match p {
        Pattern::EnumVariant { enum_name, variant, bindings } => match fields(enum_name@, variant@) {
            Some(fs) => if bindings@.len() < fs.len() {
                bindings@.len() as int
            } else {
                fs.len() as int
            },
            None => 0,
        },
        _ => 0,
    }
}

/// `h` declares the `i`th binding of `p` as that field of the value named
/// `temp`.
pub open spec fn is_binding(
    fields: spec_fn(Seq<char>, Seq<char>) -> Option<Seq<String>>,
    temp: Seq<char>,
    p: Pattern,
    i: int,
    h: HStmt,
) -> bool {
    &&& p matches Pattern::EnumVariant { enum_name, variant, bindings }
    &&& fields(enum_name@, variant@) matches Some(fs)
    &&& h matches HStmt::VariableDecl { name, value, is_mutable }
    &&& name == bindings@[i]
    &&& !is_mutable
    &&& value matches HExpr::VariantField { scrutinee, enum_name: ve, variant: vv, field }
    &&& *scrutinee matches HExpr::Identifier(t)
    &&& t@ == temp
    &&& ve == enum_name
    &&& vv == variant
    &&& field == fs[i]
}

/// `hs` lowers the block `ss` when `n` match temporaries were taken before.
pub open spec fn lowers_block(
    fields: spec_fn(Seq<char>, Seq<char>) -> Option<Seq<String>>,
    n: int,
    ss: Seq<Stmt>,
    hs: Seq<HStmt>,
) -> bool
    decreases ss, 0int,
{
    if ss.len() == 0 {
        hs.len() == 0
    } else {
        let pre = ss.subrange(0, ss.len() - 1);
        exists|k: int|
            #![trigger hs.subrange(0, k)]
            0 <= k <= hs.len() && lowers_block(fields, n, pre, hs.subrange(0, k)) && lowers_stmt(
                fields,
                n + block_matches(pre),
                ss[ss.len() - 1],
                hs.subrange(k, hs.len() as int),
            )
    }
}

/// `hs` lowers the statement `s` when `n` match temporaries were taken
/// before: one statement, or for a `match` the declaration of the next
/// temporary followed by the arms' chain.
pub open spec fn lowers_stmt(
    fields: spec_fn(Seq<char>, Seq<char>) -> Option<Seq<String>>,
    n: int,
    s: Stmt,
    hs: Seq<HStmt>,
) -> bool
    decreases s, 0int,
{
    match s {
        Stmt::If { condition, then_branch, else_branch } => hs.len() == 1 && (hs[0] matches HStmt::If {
            condition: hc,
            then_branch: ht,
            else_branch: he,
        } && lowers_expr(condition, hc) && lowers_block(fields, n, then_branch@, ht@) && match else_branch {
            Some(b) => he matches Some(hb) && lowers_block(fields, n + block_matches(then_branch@), b@, hb@),
            None => he is None,
        }),
        Stmt::While { condition, body } => hs.len() == 1 && (hs[0] matches HStmt::While { condition: hc, body: hb }
            && lowers_expr(condition, hc) && lowers_block(fields, n, body@, hb@)),
        Stmt::Match { scrutinee, arms } => hs.len() >= 1 && (hs[0] matches HStmt::VariableDecl {
            name,
            value,
            is_mutable,
        } && name@ == temp_name((n + 1) as nat) && !is_mutable && lowers_expr(scrutinee, value)) && lowers_arms(
            fields,
            n + 1,
            temp_name((n + 1) as nat),
            arms@,
            0,
            hs.subrange(1, hs.len() as int),
        ),
        _ => hs.len() == 1 && lowers_stmt_head(s, hs[0]),
    }
}

/// `hs` is the if/else chain for `arms[start..]` over the value named
/// `temp`: one level per arm, a wildcard arm's body as the final `else`,
/// nothing after it.
pub open spec fn lowers_arms(
    fields: spec_fn(Seq<char>, Seq<char>) -> Option<Seq<String>>,
    n: int,
    temp: Seq<char>,
    arms: Seq<MatchArm>,
    start: int,
    hs: Seq<HStmt>,
) -> bool
    decreases arms, arms.len() - start,
{
    if start < 0 || start >= arms.len() {
        hs.len() == 0
    } else if arms[start].pattern is Wildcard {
        lowers_pattern_body(fields, n, temp, arms[start].pattern, arms[start].body@, hs)
    } else {
        hs.len() == 1 && (hs[0] matches HStmt::If { condition, then_branch, else_branch } && is_pattern_test(
            temp,
            arms[start].pattern,
            condition,
        ) && lowers_pattern_body(fields, n, temp, arms[start].pattern, arms[start].body@, then_branch@)
            && match else_branch {
            Some(e) => e@.len() > 0 && lowers_arms(
                fields,
                n + block_matches(arms[start].body@),
                temp,
                arms,
                start + 1,
                e@,
            ),
            None => lowers_arms(fields, n + block_matches(arms[start].body@), temp, arms, start + 1, Seq::empty()),
        })
    }
}

/// `hs` is an arm's body: the declarations of its bindings, then the
/// lowered statements.
pub open spec fn lowers_pattern_body(
    fields: spec_fn(Seq<char>, Seq<char>) -> Option<Seq<String>>,
    n: int,
    temp: Seq<char>,
    p: Pattern,
    body: Seq<Stmt>,
    hs: Seq<HStmt>,
) -> bool
    decreases body, 1int,
{
    let b = binding_count(fields, p);
    &&& b <= hs.len()
    &&& forall|i: int| 0 <= i < b ==> is_binding(fields, temp, p, i, #[trigger] hs[i])
    &&& lowers_block(fields, n, body, hs.subrange(b, hs.len() as int))
}

/// Every statement but `match` lowers to exactly one statement: a block
/// with no `match` among its statements lowers to as many statements, the
/// `i`th lowering the `i`th.
pub proof fn lemma_lowering_one_to_one(
    fields: spec_fn(Seq<char>, Seq<char>) -> Option<Seq<String>>,
    n: int,
    ss: Seq<Stmt>,
    hs: Seq<HStmt>,
)
    requires
        lowers_block(fields, n, ss, hs),
        forall|i: int| 0 <= i < ss.len() ==> !(#[trigger] ss[i] is Match),
    ensures
        hs.len() == ss.len(),
        forall|i: int|
            0 <= i < ss.len() ==> lowers_stmt(fields, n + block_matches(ss.subrange(0, i)), ss[i], seq![#[trigger] hs[i]]),
    decreases ss.len(),
{
    if ss.len() > 0 {
        let pre = ss.subrange(0, ss.len() - 1);
        let k = choose|k: int|
            #![trigger hs.subrange(0, k)]
            0 <= k <= hs.len() && lowers_block(fields, n, pre, hs.subrange(0, k)) && lowers_stmt(
                fields,
                n + block_matches(pre),
                ss[ss.len() - 1],
                hs.subrange(k, hs.len() as int),
            );
        assert forall|i: int| 0 <= i < pre.len() implies !(#[trigger] pre[i] is Match) by {
            assert(pre[i] == ss[i]);
        }
        lemma_lowering_one_to_one(fields, n, pre, hs.subrange(0, k));
        assert forall|i: int| 0 <= i < ss.len() implies lowers_stmt(
            fields,
            n + block_matches(ss.subrange(0, i)),
            ss[i],
            seq![#[trigger] hs[i]],
        ) by {
            if i < pre.len() {
                assert(pre.subrange(0, i) =~= ss.subrange(0, i));
                assert(hs.subrange(0, k)[i] == hs[i]);
                assert(pre[i] == ss[i]);
            } else {
                assert(ss.subrange(0, i) =~= pre);
                assert(hs.subrange(k, hs.len() as int) =~= seq![hs[i]]);
            }
        }
    }
}

/// Lowers a whole program. Struct and enum declarations are kept as they
/// are; each function keeps its name, parameters and return type, and its
/// body is lowered as `lowers_block` describes, the match temporaries
/// numbered on from those of the functions before it.
pub fn lower_program(program: &Program) -> (r: HProgram)
    requires
        functions_matches(program.functions@, program.functions@.len() as int) <= usize::MAX,
    ensures
        r.structs@.len() == program.structs@.len(),
        forall|i: int| 0 <= i < program.structs@.len() ==> same_struct_decl(#[trigger] program.structs@[i], r.structs@[i]),
        r.enums@.len() == program.enums@.len(),
        forall|i: int| 0 <= i < program.enums@.len() ==> same_enum_decl(#[trigger] program.enums@[i], r.enums@[i]),
        r.functions@.len() == program.functions@.len(),
        forall|i: int| 0 <= i < program.functions@.len() ==> {
            &&& (#[trigger] r.functions@[i]).name == program.functions@[i].name
            &&& r.functions@[i].params@ == program.functions@[i].params@
            &&& r.functions@[i].return_type == program.functions@[i].return_type
            &&& lowers_block(
                program_fields(program.enums@),
                functions_matches(program.functions@, i) as int,
                program.functions@[i].body@,
                r.functions@[i].body@,
            )
        },
{
    let mut lowerer = Lowerer::new(&program.enums);
    lowerer.lower_program(program)
}

/// Matches met lowering the first `n` functions.
pub open spec fn functions_matches(fs: Seq<FunctionDecl>, n: int) -> nat
    decreases n,
{
    if n <= 0 || n > fs.len() {
        0
    } else {
        functions_matches(fs, n - 1) + block_matches(fs[n - 1].body@)
    }
}

/// A count capped at 2^64, which no `usize` exceeds.
pub open spec fn capped(n: nat) -> nat {
    if n > 0x1_0000_0000_0000_0000 {
        0x1_0000_0000_0000_0000
    } else {
        n
    }
}

fn cap_add(a: u128, b: u128) -> (r: u128)
    requires
        a <= 0x1_0000_0000_0000_0000,
        b <= 0x1_0000_0000_0000_0000,
    ensures
        r == capped((a + b) as nat),
{
    if a + b > 0x1_0000_0000_0000_0000 {
        0x1_0000_0000_0000_0000
    } else {
        a + b
    }
}

/// The `match` statements of a block, counted as `block_matches` counts.
fn count_block(ss: &Vec<Stmt>) -> (r: u128)
    ensures
        r == capped(block_matches(ss@)),
    decreases ss, 0int,
{
    let mut total: u128 = 0;
    let mut i: usize = 0;
    while i < ss.len()
        invariant
            i <= ss@.len(),
            total == capped(block_matches(ss@.subrange(0, i as int))),
        decreases ss.len() - i,
    {
        proof {
            lemma_vec_elem_decreases(*ss, i as int);
            assert(ss@.subrange(0, i + 1).subrange(0, i as int) =~= ss@.subrange(0, i as int));
        }
        let c = count_stmt(&ss[i]);
        total = cap_add(total, c);
        i = i + 1;
    }
    proof {
        assert(ss@.subrange(0, i as int) =~= ss@);
    }
    total
}

fn count_stmt(s: &Stmt) -> (r: u128)
    ensures
        r == capped(stmt_matches(*s)),
    decreases s, 0int,
{
    match s {
        Stmt::If { then_branch, else_branch, .. } => {
            proof {
                assert(decreases_to!(*s => s->If_then_branch));
            }
            let a = count_block(then_branch);
            let b = match else_branch {
                Some(e) => {
                    proof {
                        assert(decreases_to!(*s => s->If_else_branch));
                        assert(decreases_to!(s->If_else_branch => s->If_else_branch->0));
                    }
                    count_block(e)
                },
                None => 0,
            };
            cap_add(a, b)
        },
        Stmt::While { body, .. } => {
            proof {
                assert(decreases_to!(*s => s->While_body));
            }
            count_block(body)
        },
        Stmt::Match { arms, .. } => {
            proof {
                assert(decreases_to!(*s => s->Match_arms));
            }
            let c = count_arms(arms, 0);
            cap_add(1, c)
        },
        _ => 0,
    }
}

fn count_arms(arms: &Vec<MatchArm>, start: usize) -> (r: u128)
    ensures
        r == capped(arms_matches(arms@, start as int)),
    decreases arms, arms@.len() - start + 1,
{
    if start >= arms.len() {
        return 0;
    }
    proof {
        lemma_vec_elem_decreases(*arms, start as int);
        assert(decreases_to!(arms@[start as int] => arms@[start as int].body));
    }
    let b = count_block(&arms[start].body);
    if matches!(arms[start].pattern, Pattern::Wildcard) {
        return b;
    }
    let rest = count_arms(arms, start + 1);
    cap_add(b, rest)
}

/// Whether lowering `program` numbers its `match` temporaries within
/// `usize`, which `lower_program` needs.
pub fn lowering_fits(program: &Program) -> (r: bool)
    ensures
        r == (functions_matches(program.functions@, program.functions@.len() as int) <= usize::MAX),
{
    let mut total: u128 = 0;
    let mut i: usize = 0;
    while i < program.functions.len()
        invariant
            i <= program.functions@.len(),
            total == capped(functions_matches(program.functions@, i as int)),
        decreases program.functions.len() - i,
    {
        let c = count_block(&program.functions[i].body);
        total = cap_add(total, c);
        i = i + 1;
    }
    total <= usize::MAX as u128
}

struct Lowerer {
    // enum_name -> variant_name -> ordered field names
    enum_fields: Vec<(String, Vec<(String, Vec<String>)>)>,
    temp_counter: usize,
}

impl Lowerer {
    /// The match temporaries taken so far, in order.
    spec fn issued(&self) -> Seq<Seq<char>> {
        temps_numbered(self.temp_counter as nat)
    }

    fn new(enums: &Vec<EnumDecl>) -> (r: Self)
        ensures
            r.temp_counter == 0,
            r.issued() == Seq::<Seq<char>>::empty(),
            table_fields(r.enum_fields@) == program_fields(enums@),
    {
        let mut enum_fields: Vec<(String, Vec<(String, Vec<String>)>)> = Vec::new();
        let mut i: usize = 0;
        while i < enums.len()
            invariant
                i <= enums.len(),
                forall|en: Seq<char>, vn: Seq<char>|
                    #[trigger] variant_fields(enum_fields@, en, vn) == declared_fields(enums@.subrange(0, i as int), en, vn),
            decreases enums.len() - i,
        {
            let e = &enums[i];
            let mut variants: Vec<(String, Vec<String>)> = Vec::new();
            let mut j: usize = 0;
            while j < e.variants.len()
                invariant
                    j <= e.variants.len(),
                    forall|vn: Seq<char>|
                        #[trigger] field_list_of(variants@, vn) == variant_field_names(e.variants@.subrange(0, j as int), vn),
                decreases e.variants.len() - j,
            {
                let v = &e.variants[j];
                let mut names: Vec<String> = Vec::new();
                let mut k: usize = 0;
                while k < v.fields.len()
                    invariant
                        k <= v.fields.len(),
                        names@ == param_names(v.fields@.subrange(0, k as int)),
                    decreases v.fields.len() - k,
                {
                    names.push(v.fields[k].name.clone());
                    proof {
                        assert(param_names(v.fields@.subrange(0, k + 1)) =~= param_names(v.fields@.subrange(0, k as int)).push(
                            v.fields@[k as int].name,
                        ));
                    }
                    k = k + 1;
                }
                proof {
                    assert(v.fields@.subrange(0, k as int) =~= v.fields@);
                }
                let ghost before = variants@;
                insert(&mut variants, v.name.clone(), names);
                proof {
                    let vs = e.variants@.subrange(0, j + 1);
                    assert(vs.drop_last() =~= e.variants@.subrange(0, j as int));
                    assert(vs.last() == e.variants@[j as int]);
                    assert forall|vn: Seq<char>| #[trigger] field_list_of(variants@, vn) == variant_field_names(vs, vn) by {
                        if vn != v.name@ {
                            assert(field_list_of(before, vn) == variant_field_names(e.variants@.subrange(0, j as int), vn));
                        }
                    }
                }
                j = j + 1;
            }
            proof {
                assert(e.variants@.subrange(0, j as int) =~= e.variants@);
            }
            let ghost before = enum_fields@;
            insert(&mut enum_fields, e.name.clone(), variants);
            proof {
                let es = enums@.subrange(0, i + 1);
                assert(es.drop_last() =~= enums@.subrange(0, i as int));
                assert(es.last() == enums@[i as int]);
                assert forall|en: Seq<char>, vn: Seq<char>| #[trigger] variant_fields(enum_fields@, en, vn) == declared_fields(es, en, vn) by {
                    if en != e.name@ {
                        assert(variant_fields(before, en, vn) == declared_fields(enums@.subrange(0, i as int), en, vn));
                    } else {
                        assert(field_list_of(variants@, vn) == variant_field_names(e.variants@, vn));
                    }
                }
            }
            i = i + 1;
        }
        proof {
            assert(enums@.subrange(0, i as int) =~= enums@);
            assert(table_fields(enum_fields@) =~= program_fields(enums@));
        }
        Lowerer { enum_fields, temp_counter: 0 }
    }

    fn lower_program(&mut self, program: &Program) -> (r: HProgram)
        requires
            old(self).temp_counter + functions_matches(program.functions@, program.functions@.len() as int)
                <= usize::MAX,
        ensures
            r.structs@.len() == program.structs@.len(),
            forall|i: int| 0 <= i < program.structs@.len() ==> same_struct_decl(#[trigger] program.structs@[i], r.structs@[i]),
            r.enums@.len() == program.enums@.len(),
            forall|i: int| 0 <= i < program.enums@.len() ==> same_enum_decl(#[trigger] program.enums@[i], r.enums@[i]),
            r.functions@.len() == program.functions@.len(),
            forall|i: int| 0 <= i < program.functions@.len() ==> {
                &&& (#[trigger] r.functions@[i]).name == program.functions@[i].name
                &&& r.functions@[i].params@ == program.functions@[i].params@
                &&& r.functions@[i].return_type == program.functions@[i].return_type
                &&& lowers_block(
                    table_fields(old(self).enum_fields@),
                    old(self).temp_counter + functions_matches(program.functions@, i),
                    program.functions@[i].body@,
                    r.functions@[i].body@,
                )
            },
    {
        let mut functions: Vec<HFunctionDecl> = Vec::new();
        let mut i: usize = 0;
        while i < program.functions.len()
            invariant
                i <= program.functions.len(),
                self.temp_counter == old(self).temp_counter + functions_matches(program.functions@, i as int),
                old(self).temp_counter + functions_matches(program.functions@, program.functions@.len() as int)
                    <= usize::MAX,
                functions@.len() == i,
                self.enum_fields@ == old(self).enum_fields@,
                forall|k: int| 0 <= k < i ==> {
                    &&& (#[trigger] functions@[k]).name == program.functions@[k].name
                    &&& functions@[k].params@ == program.functions@[k].params@
                    &&& functions@[k].return_type == program.functions@[k].return_type
                    &&& lowers_block(
                        table_fields(old(self).enum_fields@),
                        old(self).temp_counter + functions_matches(program.functions@, k),
                        program.functions@[k].body@,
                        functions@[k].body@,
                    )
                },
            decreases program.functions.len() - i,
        {
            proof {
                lemma_functions_matches_mono(program.functions@, i + 1, program.functions@.len() as int);
            }
            let f = self.lower_function(&program.functions[i]);
            functions.push(f);
            i = i + 1;
        }
        HProgram {
            structs: copy_struct_decls(&program.structs),
            enums: copy_enum_decls(&program.enums),
            functions,
        }
    }

    fn lower_function(&mut self, f: &FunctionDecl) -> (r: HFunctionDecl)
        requires
            old(self).temp_counter + block_matches(f.body@) <= usize::MAX,
        ensures
            final(self).temp_counter == old(self).temp_counter + block_matches(f.body@),
            final(self).enum_fields@ == old(self).enum_fields@,
            r.name == f.name,
            r.params@ == f.params@,
            r.return_type == f.return_type,
            lowers_block(table_fields(old(self).enum_fields@), old(self).temp_counter as int, f.body@, r.body@),
    {
        let return_type = match &f.return_type {
            Some(t) => Some(t.clone()),
            None => None,
        };
        HFunctionDecl {
            name: f.name.clone(),
            params: copy_params(&f.params),
            return_type,
            body: self.lower_stmts(&f.body),
        }
    }

    /// The next match temporary's name: `__match_scrutinee_1`, `_2`, ...
    /// A lowerer starts with none issued (`new`), and each call adds the
    /// name it returns, so after `k` calls the names issued are
    /// `temps_numbered(k)`: the `k`-th call returned `__match_scrutinee_k`,
    /// and by `lemma_temps_numbered` no two calls returned the same name.
    fn fresh_temp(&mut self) -> (r: String)
        requires
            old(self).temp_counter < usize::MAX,
        ensures
            final(self).temp_counter == old(self).temp_counter + 1,
            final(self).enum_fields@ == old(self).enum_fields@,
            r@ == temp_name(final(self).temp_counter as nat),
            final(self).issued() == old(self).issued().push(r@),
    {
        proof {
            lemma_temps_numbered(old(self).temp_counter as nat);
        }
        self.temp_counter = self.temp_counter + 1;
        let n = usize_to_string(self.temp_counter);
        concat(&string_of("__match_scrutinee_"), n.as_str())
    }

    fn lower_stmts(&mut self, stmts: &Vec<Stmt>) -> (r: Vec<HStmt>)
        requires
            old(self).temp_counter + block_matches(stmts@) <= usize::MAX,
        ensures
            final(self).temp_counter == old(self).temp_counter + block_matches(stmts@),
            final(self).enum_fields@ == old(self).enum_fields@,
            lowers_block(table_fields(old(self).enum_fields@), old(self).temp_counter as int, stmts@, r@),
        decreases stmts, 0int,
    {
        let ghost fields = table_fields(self.enum_fields@);
        let ghost n0 = self.temp_counter as int;
        let mut out: Vec<HStmt> = Vec::new();
        let mut i: usize = 0;
        proof {
            assert(stmts@.subrange(0, 0) =~= Seq::<Stmt>::empty());
        }
        while i < stmts.len()
            invariant
                i <= stmts.len(),
                self.temp_counter == old(self).temp_counter + block_matches(stmts@.subrange(0, i as int)),
                old(self).temp_counter + block_matches(stmts@) <= usize::MAX,
                self.enum_fields@ == old(self).enum_fields@,
                fields == table_fields(old(self).enum_fields@),
                n0 == old(self).temp_counter,
                lowers_block(fields, n0, stmts@.subrange(0, i as int), out@),
            decreases stmts.len() - i,
        {
            proof {
                lemma_vec_elem_decreases(*stmts, i as int);
                assert(stmts@.subrange(0, i + 1).subrange(0, i as int) =~= stmts@.subrange(0, i as int));
                lemma_block_matches_prefix(stmts@, i + 1);
            }
            let ghost prev = out@;
            let lowered = self.lower_stmt(&stmts[i]);
            let ghost low = lowered@;
            let mut lowered = lowered;
            out.append(&mut lowered);
            proof {
                let ss = stmts@.subrange(0, i + 1);
                assert(ss.subrange(0, ss.len() - 1) =~= stmts@.subrange(0, i as int));
                assert(ss[ss.len() - 1] == stmts@[i as int]);
                assert(out@.subrange(0, prev.len() as int) =~= prev);
                assert(out@.subrange(prev.len() as int, out@.len() as int) =~= low);
                assert(lowers_block(fields, n0, ss, out@));
            }
            i = i + 1;
        }
        proof {
            assert(stmts@.subrange(0, stmts@.len() as int) =~= stmts@);
        }
        out
    }

    /// Lowers one statement: a single statement, except that `match`
    /// becomes the temporary's declaration followed by its if/else chain.
    fn lower_stmt(&mut self, stmt: &Stmt) -> (r: Vec<HStmt>)
        requires
            old(self).temp_counter + stmt_matches(*stmt) <= usize::MAX,
        ensures
            final(self).temp_counter == old(self).temp_counter + stmt_matches(*stmt),
            final(self).enum_fields@ == old(self).enum_fields@,
            lowers_stmt(table_fields(old(self).enum_fields@), old(self).temp_counter as int, *stmt, r@),
        decreases stmt, 0int,
    {
        match stmt {
            Stmt::VariableDecl { name, value, is_mutable } => vec![
                HStmt::VariableDecl {
                    name: name.clone(),
                    value: self.lower_expr(value),
                    is_mutable: *is_mutable,
                },
            ],
            Stmt::Assign { name, value } => vec![
                HStmt::Assign { name: name.clone(), value: self.lower_expr(value) },
            ],
            Stmt::IndexAssign { name, index, value } => {
                let hi = self.lower_expr(index);
                let hv = self.lower_expr(value);
                vec![HStmt::IndexAssign { name: name.clone(), index: hi, value: hv }]
            },
            Stmt::Expr(e) => vec![HStmt::Expr(self.lower_expr(e))],
            Stmt::If { condition, then_branch, else_branch } => {
                let hc = self.lower_expr(condition);
                proof {
                    assert(decreases_to!(*stmt => stmt->If_then_branch));
                }
                let ht = self.lower_stmts(then_branch);
                let he = match else_branch {
                    Some(b) => {
                        proof {
                            assert(decreases_to!(*stmt => stmt->If_else_branch));
                            assert(decreases_to!(stmt->If_else_branch => stmt->If_else_branch->0));
                        }
                        Some(self.lower_stmts(b))
                    },
                    None => None,
                };
                vec![HStmt::If { condition: hc, then_branch: ht, else_branch: he }]
            },
            Stmt::While { condition, body } => {
                let hc = self.lower_expr(condition);
                proof {
                    assert(decreases_to!(*stmt => stmt->While_body));
                }
                let hb = self.lower_stmts(body);
                vec![HStmt::While { condition: hc, body: hb }]
            },
            Stmt::Return(e) => {
                let he = match e {
                    Some(x) => Some(self.lower_expr(x)),
                    None => None,
                };
                vec![HStmt::Return(he)]
            },
            Stmt::Match { scrutinee, arms } => {
                proof {
                    assert(decreases_to!(*stmt => stmt->Match_arms));
                }
                self.lower_match(scrutinee, arms)
            },
        }
    }

    fn lower_match(&mut self, scrutinee: &Expr, arms: &Vec<MatchArm>) -> (r: Vec<HStmt>)
        requires
            old(self).temp_counter + 1 + arms_matches(arms@, 0) <= usize::MAX,
        ensures
            final(self).temp_counter == old(self).temp_counter + 1 + arms_matches(arms@, 0),
            final(self).enum_fields@ == old(self).enum_fields@,
            r@.len() >= 1,
            r@[0] matches HStmt::VariableDecl { name, value, is_mutable } && name@ == temp_name(
                (old(self).temp_counter + 1) as nat,
            ) && !is_mutable && lowers_expr(*scrutinee, value),
            lowers_arms(
                table_fields(old(self).enum_fields@),
                old(self).temp_counter + 1,
                temp_name((old(self).temp_counter + 1) as nat),
                arms@,
                0,
                r@.subrange(1, r@.len() as int),
            ),
        decreases arms, arms@.len() + 1,
    {
        let temp = self.fresh_temp();
        let value = self.lower_expr(scrutinee);
        let mut out: Vec<HStmt> = vec![HStmt::VariableDecl { name: temp.clone(), value, is_mutable: false }];
        let mut rest = self.lower_match_arms(&temp, arms, 0);
        let ghost tail = rest@;
        out.append(&mut rest);
        proof {
            assert(out@.subrange(1, out@.len() as int) =~= tail);
        }
        out
    }

    /// Builds the if/else chain for `arms[start..]`, one level per arm.
    fn lower_match_arms(&mut self, temp: &String, arms: &Vec<MatchArm>, start: usize) -> (r: Vec<HStmt>)
        requires
            old(self).temp_counter + arms_matches(arms@, start as int) <= usize::MAX,
        ensures
            final(self).temp_counter == old(self).temp_counter + arms_matches(arms@, start as int),
            final(self).enum_fields@ == old(self).enum_fields@,
            lowers_arms(table_fields(old(self).enum_fields@), old(self).temp_counter as int, temp@, arms@, start as int, r@),
        decreases arms, arms@.len() - start,
    {
        if start >= arms.len() {
            return Vec::new();
        }
        let arm = &arms[start];
        proof {
            lemma_vec_elem_decreases(*arms, start as int);
            assert(decreases_to!(arms@[start as int] => arms@[start as int].body));
        }
        let arm_body = self.lower_pattern_body(temp, &arm.pattern, &arm.body);
        if matches!(arm.pattern, Pattern::Wildcard) {
            return arm_body;
        }
        let test = self.pattern_test(temp, &arm.pattern);
        let else_branch = self.lower_match_arms(temp, arms, start + 1);
        let else_branch = if else_branch.len() == 0 {
            proof {
                assert(else_branch@ =~= Seq::<HStmt>::empty());
            }
            None
        } else {
            Some(else_branch)
        };
        vec![HStmt::If { condition: test, then_branch: arm_body, else_branch }]
    }

    fn pattern_test(&self, temp: &String, pattern: &Pattern) -> (r: HExpr)
        ensures
            is_pattern_test(temp@, *pattern, r),
    {
        match pattern {
            Pattern::Wildcard => HExpr::BoolLiteral(true),
            Pattern::IntLiteral(v) => HExpr::Binary {
                left: Box::new(HExpr::Identifier(temp.clone())),
                op: BinaryOp::Eq,
                right: Box::new(HExpr::IntLiteral(*v)),
            },
            Pattern::BoolLiteral(v) => HExpr::Binary {
                left: Box::new(HExpr::Identifier(temp.clone())),
                op: BinaryOp::Eq,
                right: Box::new(HExpr::BoolLiteral(*v)),
            },
            Pattern::StringLiteral(v) => HExpr::Binary {
                left: Box::new(HExpr::Identifier(temp.clone())),
                op: BinaryOp::Eq,
                right: Box::new(HExpr::StringLiteral(v.clone())),
            },
            Pattern::EnumVariant { enum_name, variant, .. } => HExpr::IsVariant {
                scrutinee: Box::new(HExpr::Identifier(temp.clone())),
                enum_name: enum_name.clone(),
                variant: variant.clone(),
            },
        }
    }

    /// Field-binding declarations (for an enum variant pattern with
    /// bindings), followed by the arm's own lowered body.
    fn lower_pattern_body(&mut self, temp: &String, pattern: &Pattern, body: &Vec<Stmt>) -> (r: Vec<HStmt>)
        requires
            old(self).temp_counter + block_matches(body@) <= usize::MAX,
        ensures
            final(self).temp_counter == old(self).temp_counter + block_matches(body@),
            final(self).enum_fields@ == old(self).enum_fields@,
            lowers_pattern_body(table_fields(old(self).enum_fields@), old(self).temp_counter as int, temp@, *pattern, body@, r@),
        decreases body, 1int,
    {
        let ghost fields = table_fields(self.enum_fields@);
        let mut out: Vec<HStmt> = Vec::new();
        if let Pattern::EnumVariant { enum_name, variant, bindings } = pattern {
            if let Some(k) = find(&self.enum_fields, enum_name) {
                if let Some(j) = find(&self.enum_fields[k].1, variant) {
                    let field_names = &self.enum_fields[k].1[j].1;
                    proof {
                        assert(fields(enum_name@, variant@) == Some(field_names@));
                    }
                    let mut i: usize = 0;
                    while i < bindings.len() && i < field_names.len()
                        invariant
                            i <= bindings.len(),
                            i <= field_names@.len(),
                            out@.len() == i,
                            fields == table_fields(self.enum_fields@),
                            fields(enum_name@, variant@) == Some(field_names@),
                            *pattern == (Pattern::EnumVariant { enum_name: *enum_name, variant: *variant, bindings: *bindings }),
                            forall|m: int| 0 <= m < i ==> is_binding(fields, temp@, *pattern, m, #[trigger] out@[m]),
                        decreases bindings.len() - i,
                    {
                        out.push(
                            HStmt::VariableDecl {
                                name: bindings[i].clone(),
                                value: HExpr::VariantField {
                                    scrutinee: Box::new(HExpr::Identifier(temp.clone())),
                                    enum_name: enum_name.clone(),
                                    variant: variant.clone(),
                                    field: field_names[i].clone(),
                                },
                                is_mutable: false,
                            },
                        );
                        i = i + 1;
                    }
                }
            }
        }
        let ghost prefix = out@;
        proof {
            assert(prefix.len() == binding_count(fields, *pattern));
        }
        let mut lowered = self.lower_stmts(body);
        let ghost low = lowered@;
        out.append(&mut lowered);
        proof {
            assert forall|i: int| 0 <= i < prefix.len() implies out@[i] == prefix[i] by {}
            assert(out@.subrange(prefix.len() as int, out@.len() as int) =~= low);
        }
        out
    }

    fn lower_expr(&self, expr: &Expr) -> (r: HExpr)
        ensures
            lowers_expr(*expr, r),
        decreases expr,
    {
        match expr {
            Expr::StringLiteral(s) => HExpr::StringLiteral(s.clone()),
            Expr::IntLiteral(v) => HExpr::IntLiteral(*v),
            Expr::BoolLiteral(v) => HExpr::BoolLiteral(*v),
            Expr::Identifier(n) => HExpr::Identifier(n.clone()),
            Expr::Binary { left, op, right } => HExpr::Binary {
                left: Box::new(self.lower_expr(left)),
                op: *op,
                right: Box::new(self.lower_expr(right)),
            },
            Expr::Call { callee, args } => {
                let mut hargs: Vec<HExpr> = Vec::new();
                let mut i: usize = 0;
                while i < args.len()
                    invariant
                        i <= args.len(),
                        hargs@.len() == i,
                        forall|k: int| 0 <= k < i ==> lowers_expr(args@[k], #[trigger] hargs@[k]),
                        *expr == (Expr::Call { callee: *callee, args: *args }),
                    decreases args.len() - i,
                {
                    proof {
                        assert(decreases_to!(*expr => expr->Call_args));
                        lemma_vec_elem_decreases(*args, i as int);
                    }
                    hargs.push(self.lower_expr(&args[i]));
                    i = i + 1;
                }
                HExpr::Call { callee: callee.clone(), args: hargs }
            },
            Expr::StructLiteral { name, fields } => {
                let mut hf: Vec<(String, HExpr)> = Vec::new();
                let mut i: usize = 0;
                while i < fields.len()
                    invariant
                        i <= fields.len(),
                        hf@.len() == i,
                        forall|k: int| 0 <= k < i ==> (#[trigger] hf@[k]).0 == fields@[k].0 && lowers_expr(fields@[k].1, hf@[k].1),
                        *expr == (Expr::StructLiteral { name: *name, fields: *fields }),
                    decreases fields.len() - i,
                {
                    proof {
                        assert(decreases_to!(*expr => expr->StructLiteral_fields));
                        lemma_field_value_decreases(*fields, i as int);
                    }
                    hf.push((fields[i].0.clone(), self.lower_expr(&fields[i].1)));
                    i = i + 1;
                }
                HExpr::StructLiteral { name: name.clone(), fields: hf }
            },
            Expr::FieldAccess { object, field } => HExpr::FieldAccess {
                object: Box::new(self.lower_expr(object)),
                field: field.clone(),
            },
            Expr::EnumLiteral { enum_name, variant, fields } => {
                let mut hf: Vec<(String, HExpr)> = Vec::new();
                let mut i: usize = 0;
                while i < fields.len()
                    invariant
                        i <= fields.len(),
                        hf@.len() == i,
                        forall|k: int| 0 <= k < i ==> (#[trigger] hf@[k]).0 == fields@[k].0 && lowers_expr(fields@[k].1, hf@[k].1),
                        *expr == (Expr::EnumLiteral { enum_name: *enum_name, variant: *variant, fields: *fields }),
                    decreases fields.len() - i,
                {
                    proof {
                        assert(decreases_to!(*expr => expr->EnumLiteral_fields));
                        lemma_field_value_decreases(*fields, i as int);
                    }
                    hf.push((fields[i].0.clone(), self.lower_expr(&fields[i].1)));
                    i = i + 1;
                }
                HExpr::EnumLiteral { enum_name: enum_name.clone(), variant: variant.clone(), fields: hf }
            },
            Expr::ArrayLiteral(elements) => {
                let mut he: Vec<HExpr> = Vec::new();
                let mut i: usize = 0;
                while i < elements.len()
                    invariant
                        i <= elements.len(),
                        he@.len() == i,
                        forall|k: int| 0 <= k < i ==> lowers_expr(elements@[k], #[trigger] he@[k]),
                        *expr == Expr::ArrayLiteral(*elements),
                    decreases elements.len() - i,
                {
                    proof {
                        assert(decreases_to!(*expr => expr->ArrayLiteral_0));
                        lemma_vec_elem_decreases(*elements, i as int);
                    }
                    he.push(self.lower_expr(&elements[i]));
                    i = i + 1;
                }
                HExpr::ArrayLiteral(he)
            },
            Expr::Index { array, index } => HExpr::Index {
                array: Box::new(self.lower_expr(array)),
                index: Box::new(self.lower_expr(index)),
            },
            Expr::Try(inner) => HExpr::Try(Box::new(self.lower_expr(inner))),
        }
    }
}

/// The matches of a prefix add up statement by statement, and never
/// exceed those of the whole block.
proof fn lemma_block_matches_prefix(ss: Seq<Stmt>, n: int)
    requires
        0 < n <= ss.len(),
    ensures
        block_matches(ss.subrange(0, n)) == block_matches(ss.subrange(0, n - 1)) + stmt_matches(ss[n - 1]),
        block_matches(ss.subrange(0, n)) <= block_matches(ss),
    decreases ss.len() - n,
{
    assert(ss.subrange(0, n).subrange(0, n - 1) =~= ss.subrange(0, n - 1));
    if n < ss.len() {
        lemma_block_matches_prefix(ss, n + 1);
    } else {
        assert(ss.subrange(0, n) =~= ss);
    }
}

proof fn lemma_functions_matches_mono(fs: Seq<FunctionDecl>, a: int, b: int)
    requires
        0 <= a <= b <= fs.len(),
    ensures
        functions_matches(fs, a) <= functions_matches(fs, b),
    decreases b - a,
{
    if a < b {
        lemma_functions_matches_mono(fs, a, b - 1);
    }
}

/// The test a pattern lowers to holds exactly when the value held by the
/// match temporary fits the pattern: evaluated where the temporary holds
/// `x`, a literal's test gives `true` exactly when `x` is that literal's
/// value, a variant's test exactly when `x` is a value of that enum's
/// variant, and a wildcard's test always holds.
pub proof fn lemma_literal_pattern_test(
    p: HProgram,
    fuel: nat,
    env: Env,
    out: Seq<Seq<char>>,
    temp: Seq<char>,
    pat: Pattern,
    h: HExpr,
)
    requires
        fuel >= 2,
        is_pattern_test(temp, pat, h),
        env.contains_key(temp),
    ensures
        sem_expr(p, fuel, env, out, h) == (
            Ok::<SpecValue, SpecError>(
                SpecValue::Bool(
                    match pat {
                        Pattern::IntLiteral(v) => env[temp].0 == SpecValue::Int(v),
                        Pattern::BoolLiteral(v) => env[temp].0 == SpecValue::Bool(v),
                        Pattern::StringLiteral(v) => env[temp].0 == SpecValue::Str(v@),
                        Pattern::EnumVariant { enum_name, variant, .. } => env[temp].0 matches SpecValue::Enum(
                            en,
                            vn,
                            _,
                        ) && en == enum_name@ && vn == variant@,
                        _ => true,
                    },
                ),
            ),
            out,
        ),
{
    let f = (fuel - 1) as nat;
    match h {
        HExpr::Binary { left, op, right } => {
            assert(sem_expr(p, f, env, out, *left) == (Ok::<SpecValue, SpecError>(env[temp].0), out));
            let (rv, o2) = sem_expr(p, f, env, out, *right);
            match pat {
                Pattern::IntLiteral(v) => assert(sem_expr(p, f, env, out, *right) == (Ok::<SpecValue, SpecError>(SpecValue::Int(v)), out)),
                Pattern::BoolLiteral(v) => assert(sem_expr(p, f, env, out, *right) == (Ok::<SpecValue, SpecError>(SpecValue::Bool(v)), out)),
                Pattern::StringLiteral(v) => assert(sem_expr(p, f, env, out, *right) == (Ok::<SpecValue, SpecError>(SpecValue::Str(v@)), out)),
                _ => {},
            }
        },
        HExpr::IsVariant { scrutinee, .. } => {
            assert(sem_expr(p, f, env, out, *scrutinee) == (Ok::<SpecValue, SpecError>(env[temp].0), out));
        },
        _ => {},
    }
}

} // verus!
