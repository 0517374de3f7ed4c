//! Loading a program made of several modules.
//!
//! From the entry module, every imported module is read through a
//! `ModuleSource`, lexed and parsed, depth first; a module met again while
//! its own imports are still loading closes a cycle. The loaded modules are
//! then linked: no name may be declared twice across them, and a module may
//! use a declaration of another module only when that declaration is
//! exported and the using module imports the declaring one directly.
use vstd::prelude::*;
use std::collections::HashMap;
use vstd::std_specs::hash::{contains_borrowed_key, maps_borrowed_key_to_value, obeys_key_model};
use crate::ast::{
    lemma_field_value_decreases, lemma_vec_elem_decreases, EnumDecl, EnumVariant, Expr,
    FunctionDecl, MatchArm, Param, Pattern, Program, Stmt, StructDecl,
};
use crate::lexer::{lemma_lex_tokens_shape, lex_error_debug, spec_lex, token_view, tokens_view, LexError, LexResult, Lexer};
use crate::grammar::program_at;
use crate::parser::{parse_error_debug, points_at_token, ParseError, Parser};
use crate::token::Token;
use crate::table::{find, lookup};
use crate::text::{string_of, wrap};

verus! {

#[derive(Debug, Clone, PartialEq, Eq)]
pub enum LoadError {
    Io(String),
    Lex(String),
    Parse(String),
    ModuleNameMismatch { file: String, declared: String },
    CyclicImport(String),
    DuplicateDeclaration { name: String, module_a: String, module_b: String },
    SymbolNotAccessible { name: String, from_module: String, origin_module: String },
    /// More modules were read than the load budget allows.
    ModuleLimitExceeded,
}

/// What a read of a module gave, its text taken by its characters.
pub open spec fn text_answer(r: Result<String, LoadError>) -> Result<Seq<char>, LoadError> {
    match r {
        Ok(t) => Ok(t@),
        Err(e) => Err(e),
    }
}

/// Where the source texts of modules come from.
pub trait ModuleSource {
    /// Whether `r` is an answer this source may give when asked for the
    /// module `name`.
    spec fn answers(&self, name: Seq<char>, r: Result<Seq<char>, LoadError>) -> bool;

    /// The source text of the module `name`.
    fn read_module(&self, name: &str) -> (r: Result<String, LoadError>)
        ensures
            self.answers(name@, text_answer(r)),
    ;
}

/// What a map of texts answers for the key `key`: the text stored under
/// it, or an `Io` error naming it when there is none. What `HashMap::get`
/// finds is known only under vstd's model of `String` keys
/// (`obeys_key_model`), so which of the two comes, and the text, hold
/// under it.
pub open spec fn map_answers(m: Map<String, String>, key: &str, r: Result<Seq<char>, LoadError>) -> bool {
    match r {
        Ok(t) => obeys_key_model::<String>() ==> exists|v: String|
            v@ == t && #[trigger] maps_borrowed_key_to_value(m, key, v),
        Err(LoadError::Io(msg)) => msg@ == "module `"@ + key@ + "` not found"@ && (obeys_key_model::<String>()
            ==> !contains_borrowed_key(m, key)),
        Err(_) => false,
    }
}

impl ModuleSource for HashMap<String, String> {
    open spec fn answers(&self, name: Seq<char>, r: Result<Seq<char>, LoadError>) -> bool {
        exists|key: &str| key@ == name && #[trigger] map_answers(self@, key, r)
    }

    /// The text stored under `name`; a name with no entry is reported as
    /// `Io`.
    fn read_module(&self, name: &str) -> (r: Result<String, LoadError>)
        ensures
            map_answers(self@, name, text_answer(r)),
    {
        let r = match self.get(name) {
            Some(text) => Ok(text.clone()),
            None => Err(LoadError::Io(wrap("module `", &string_of(name), "` not found"))),
        };
        proof {
            assert(map_answers(self@, name, text_answer(r)));
        }
        r
    }
}

/// Reads module texts for a `ReaderSource`; nothing is claimed of what it
/// gives back (a file system, say, may hold anything).
pub trait ModuleReader {
    fn read_text(&self, name: &str) -> Result<String, LoadError>;
}

/// A module source over a reader of whose answers nothing is known: any
/// answer is one it may give.
pub struct ReaderSource<R: ModuleReader> {
    pub reader: R,
}

impl<R: ModuleReader> ModuleSource for ReaderSource<R> {
    open spec fn answers(&self, name: Seq<char>, r: Result<Seq<char>, LoadError>) -> bool {
        true
    }

    fn read_module(&self, name: &str) -> (r: Result<String, LoadError>) {
        self.reader.read_text(name)
    }
}

/// A parsed module as the loader keeps it.
pub struct LoadedModule {
    pub name: String,
    pub imports: Vec<String>,
    pub structs: Vec<StructDecl>,
    pub enums: Vec<EnumDecl>,
    pub functions: Vec<FunctionDecl>,
}

// ---- declarations and duplicates ----

/// Each declaration of `m` by name, with the module's name: structs first,
/// then enums, then functions.
pub open spec fn module_entries(m: LoadedModule) -> Seq<(Seq<char>, Seq<char>)> {
    m.structs@.map_values(|d: StructDecl| (d.name@, m.name@)) + m.enums@.map_values(
        |d: EnumDecl| (d.name@, m.name@),
    ) + m.functions@.map_values(|d: FunctionDecl| (d.name@, m.name@))
}

/// The declarations of all modules, module by module.
pub open spec fn decl_entries(ms: Seq<LoadedModule>) -> Seq<(Seq<char>, Seq<char>)>
    decreases ms.len(),
{
    if ms.len() == 0 {
        Seq::empty()
    } else {
        decl_entries(ms.drop_last()) + module_entries(ms.last())
    }
}

/// Entry `j` declares a name that an earlier entry declares already.
pub open spec fn repeats_earlier(es: Seq<(Seq<char>, Seq<char>)>, j: int) -> bool {
    exists|i: int| 0 <= i < j && (#[trigger] es[i]).0 == es[j].0
}

pub open spec fn has_repeat(es: Seq<(Seq<char>, Seq<char>)>) -> bool {
    exists|j: int| 0 <= j < es.len() && #[trigger] repeats_earlier(es, j)
}

/// Entry `j` is the first one that repeats an earlier name, and `i` is the
/// first entry with that name.
pub open spec fn first_duplicate(es: Seq<(Seq<char>, Seq<char>)>, i: int, j: int) -> bool {
    &&& 0 <= i < j < es.len()
    &&& es[i].0 == es[j].0
    &&& forall|k: int| 0 <= k < i ==> (#[trigger] es[k]).0 != es[j].0
    &&& forall|k: int| 0 <= k < j ==> !#[trigger] repeats_earlier(es, k)
}

pub open spec fn pairs_view(v: Seq<(String, String)>) -> Seq<(Seq<char>, Seq<char>)> {
    v.map_values(|p: (String, String)| (p.0@, p.1@))
}

/// Appends the declarations of `m` to `out`.
fn push_module_entries(out: &mut Vec<(String, String)>, m: &LoadedModule)
    ensures
        pairs_view(final(out)@) == pairs_view(old(out)@) + module_entries(*m),
{
    let ghost base = pairs_view(out@);
    let mut i: usize = 0;
    while i < m.structs.len()
        invariant
            i <= m.structs@.len(),
            pairs_view(out@) == base + m.structs@.subrange(0, i as int).map_values(
                |d: StructDecl| (d.name@, m.name@),
            ),
        decreases m.structs.len() - i,
    {
        let ghost before = out@;
        out.push((m.structs[i].name.clone(), m.name.clone()));
        proof {
            assert(pairs_view(out@) =~= pairs_view(before).push((m.structs@[i as int].name@, m.name@)));
            assert(m.structs@.subrange(0, i + 1).map_values(|d: StructDecl| (d.name@, m.name@))
                =~= m.structs@.subrange(0, i as int).map_values(|d: StructDecl| (d.name@, m.name@)).push(
                (m.structs@[i as int].name@, m.name@),
            ));
        }
        i = i + 1;
    }
    proof {
        assert(m.structs@.subrange(0, i as int) =~= m.structs@);
    }
    let ghost base2 = pairs_view(out@);
    let mut i: usize = 0;
    while i < m.enums.len()
        invariant
            i <= m.enums@.len(),
            pairs_view(out@) == base2 + m.enums@.subrange(0, i as int).map_values(
                |d: EnumDecl| (d.name@, m.name@),
            ),
        decreases m.enums.len() - i,
    {
        let ghost before = out@;
        out.push((m.enums[i].name.clone(), m.name.clone()));
        proof {
            assert(pairs_view(out@) =~= pairs_view(before).push((m.enums@[i as int].name@, m.name@)));
            assert(m.enums@.subrange(0, i + 1).map_values(|d: EnumDecl| (d.name@, m.name@))
                =~= m.enums@.subrange(0, i as int).map_values(|d: EnumDecl| (d.name@, m.name@)).push(
                (m.enums@[i as int].name@, m.name@),
            ));
        }
        i = i + 1;
    }
    proof {
        assert(m.enums@.subrange(0, i as int) =~= m.enums@);
    }
    let ghost base3 = pairs_view(out@);
    let mut i: usize = 0;
    while i < m.functions.len()
        invariant
            i <= m.functions@.len(),
            pairs_view(out@) == base3 + m.functions@.subrange(0, i as int).map_values(
                |d: FunctionDecl| (d.name@, m.name@),
            ),
        decreases m.functions.len() - i,
    {
        let ghost before = out@;
        out.push((m.functions[i].name.clone(), m.name.clone()));
        proof {
            assert(pairs_view(out@) =~= pairs_view(before).push((m.functions@[i as int].name@, m.name@)));
            assert(m.functions@.subrange(0, i + 1).map_values(|d: FunctionDecl| (d.name@, m.name@))
                =~= m.functions@.subrange(0, i as int).map_values(|d: FunctionDecl| (d.name@, m.name@)).push(
                (m.functions@[i as int].name@, m.name@),
            ));
        }
        i = i + 1;
    }
    proof {
        assert(m.functions@.subrange(0, i as int) =~= m.functions@);
        assert(pairs_view(out@) =~= base + module_entries(*m));
    }
}

/// The declarations of all modules, module by module.
fn entries_of(ms: &Vec<LoadedModule>) -> (r: Vec<(String, String)>)
    ensures
        pairs_view(r@) == decl_entries(ms@),
{
    let mut out: Vec<(String, String)> = Vec::new();
    let mut k: usize = 0;
    proof {
        assert(pairs_view(out@) =~= decl_entries(ms@.subrange(0, 0)));
    }
    while k < ms.len()
        invariant
            k <= ms@.len(),
            pairs_view(out@) == decl_entries(ms@.subrange(0, k as int)),
        decreases ms.len() - k,
    {
        push_module_entries(&mut out, &ms[k]);
        proof {
            assert(ms@.subrange(0, k + 1).drop_last() =~= ms@.subrange(0, k as int));
        }
        k = k + 1;
    }
    proof {
        assert(ms@.subrange(0, k as int) =~= ms@);
    }
    out
}

/// The first repeated name: `(i, j)` with `j` the first entry repeating an
/// earlier name and `i` the first entry with that name.
fn find_duplicate(es: &Vec<(String, String)>) -> (r: Option<(usize, usize)>)
    ensures
        match r {
            Some((i, j)) => first_duplicate(pairs_view(es@), i as int, j as int),
            None => !has_repeat(pairs_view(es@)),
        },
{
    let ghost pv = pairs_view(es@);
    let mut j: usize = 0;
    while j < es.len()
        invariant
            j <= es@.len(),
            pv == pairs_view(es@),
            forall|k: int| 0 <= k < j ==> !#[trigger] repeats_earlier(pv, k),
        decreases es.len() - j,
    {
        let mut i: usize = 0;
        while i < j
            invariant
                i <= j < es@.len(),
                pv == pairs_view(es@),
                forall|k: int| 0 <= k < j ==> !#[trigger] repeats_earlier(pv, k),
                forall|k: int| 0 <= k < i ==> (#[trigger] pv[k]).0 != pv[j as int].0,
            decreases j - i,
        {
            if es[i].0 == es[j].0 {
                return Some((i, j));
            }
            i = i + 1;
        }
        j = j + 1;
    }
    None
}

// ---- visibility ----

/// What kind of declaration a name in a module's text refers to.
pub enum RefKind {
    /// A type in a signature or field list: a struct or an enum.
    TypeName,
    Function,
    Struct,
    Enum,
}

/// The names that an expression refers to, in source order.
pub open spec fn expr_refs(e: Expr) -> Seq<(RefKind, Seq<char>)>
    decreases e,
{
    match e {
        Expr::Binary { left, right, .. } => expr_refs(*left) + expr_refs(*right),
        Expr::Call { callee, args } => seq![(RefKind::Function, callee@)] + exprs_refs(args@),
        Expr::StructLiteral { name, fields } => seq![(RefKind::Struct, name@)] + field_refs(fields@),
        Expr::FieldAccess { object, .. } => expr_refs(*object),
        Expr::EnumLiteral { enum_name, fields, .. } => seq![(RefKind::Enum, enum_name@)] + field_refs(
            fields@,
        ),
        Expr::ArrayLiteral(elements) => exprs_refs(elements@),
        Expr::Index { array, index } => expr_refs(*array) + expr_refs(*index),
        Expr::Try(inner) => expr_refs(*inner),
        _ => Seq::empty(),
    }
}

pub open spec fn exprs_refs(es: Seq<Expr>) -> Seq<(RefKind, Seq<char>)>
    decreases es,
{
    if es.len() == 0 {
        Seq::empty()
    } else {
        exprs_refs(es.subrange(0, es.len() - 1)) + expr_refs(es[es.len() - 1])
    }
}

pub open spec fn field_refs(fs: Seq<(String, Expr)>) -> Seq<(RefKind, Seq<char>)>
    decreases fs,
{
    if fs.len() == 0 {
        Seq::empty()
    } else {
        field_refs(fs.subrange(0, fs.len() - 1)) + expr_refs(fs[fs.len() - 1].1)
    }
}

/// The names that a statement refers to, in source order.
pub open spec fn stmt_refs(s: Stmt) -> Seq<(RefKind, Seq<char>)>
    decreases s,
{
    match s {
        Stmt::VariableDecl { value, .. } => expr_refs(value),
        Stmt::Assign { value, .. } => expr_refs(value),
        Stmt::IndexAssign { index, value, .. } => expr_refs(index) + expr_refs(value),
        Stmt::Expr(e) => expr_refs(e),
        Stmt::If { condition, then_branch, else_branch } => {
            let rest = match else_branch {
                Some(b) => stmts_refs(b@),
                None => Seq::empty(),
            };
            expr_refs(condition) + stmts_refs(then_branch@) + rest
        },
        Stmt::While { condition, body } => expr_refs(condition) + stmts_refs(body@),
        Stmt::Return(e) => match e {
            Some(x) => expr_refs(x),
            None => Seq::empty(),
        },
        Stmt::Match { scrutinee, arms } => expr_refs(scrutinee) + arms_refs(arms@),
    }
}

pub open spec fn stmts_refs(ss: Seq<Stmt>) -> Seq<(RefKind, Seq<char>)>
    decreases ss,
{
    if ss.len() == 0 {
        Seq::empty()
    } else {
        stmts_refs(ss.subrange(0, ss.len() - 1)) + stmt_refs(ss[ss.len() - 1])
    }
}

/// An arm refers to the enum its pattern names, then to what its body
/// refers to.
pub open spec fn arms_refs(arms: Seq<MatchArm>) -> Seq<(RefKind, Seq<char>)>
    decreases arms,
{
    if arms.len() == 0 {
        Seq::empty()
    } else {
        let arm = arms[arms.len() - 1];
        arms_refs(arms.subrange(0, arms.len() - 1)) + pattern_refs(arm.pattern) + stmts_refs(
            arm.body@,
        )
    }
}

pub open spec fn pattern_refs(p: Pattern) -> Seq<(RefKind, Seq<char>)> {
    match p {
        Pattern::EnumVariant { enum_name, .. } => seq![(RefKind::Enum, enum_name@)],
        _ => Seq::empty(),
    }
}

pub open spec fn type_refs(ps: Seq<Param>) -> Seq<(RefKind, Seq<char>)> {
    ps.map_values(|p: Param| (RefKind::TypeName, p.ty@))
}

/// A function refers to its return type, its parameters' types, then to
/// what its body refers to.
pub open spec fn function_refs(f: FunctionDecl) -> Seq<(RefKind, Seq<char>)> {
    return_refs(f.return_type) + type_refs(f.params@) + stmts_refs(f.body@)
}

pub open spec fn return_refs(t: Option<String>) -> Seq<(RefKind, Seq<char>)> {
    match t {
        Some(t) => seq![(RefKind::TypeName, t@)],
        None => Seq::empty(),
    }
}

pub open spec fn functions_refs(fs: Seq<FunctionDecl>) -> Seq<(RefKind, Seq<char>)>
    decreases fs.len(),
{
    if fs.len() == 0 {
        Seq::empty()
    } else {
        functions_refs(fs.drop_last()) + function_refs(fs.last())
    }
}

pub open spec fn structs_refs(ds: Seq<StructDecl>) -> Seq<(RefKind, Seq<char>)>
    decreases ds.len(),
{
    if ds.len() == 0 {
        Seq::empty()
    } else {
        structs_refs(ds.drop_last()) + type_refs(ds.last().fields@)
    }
}

pub open spec fn variants_refs(vs: Seq<EnumVariant>) -> Seq<(RefKind, Seq<char>)>
    decreases vs.len(),
{
    if vs.len() == 0 {
        Seq::empty()
    } else {
        variants_refs(vs.drop_last()) + type_refs(vs.last().fields@)
    }
}

pub open spec fn enums_refs(ds: Seq<EnumDecl>) -> Seq<(RefKind, Seq<char>)>
    decreases ds.len(),
{
    if ds.len() == 0 {
        Seq::empty()
    } else {
        enums_refs(ds.drop_last()) + variants_refs(ds.last().variants@)
    }
}

/// What a module refers to: its functions, then its structs' fields, then
/// its enums' variant fields.
pub open spec fn module_refs(m: LoadedModule) -> Seq<(RefKind, Seq<char>)> {
    functions_refs(m.functions@) + structs_refs(m.structs@) + enums_refs(m.enums@)
}

/// Where each name of one kind is declared: the name, then the declaring
/// module and whether the declaration is exported.
pub struct Origins {
    pub structs: Seq<(String, (String, bool))>,
    pub enums: Seq<(String, (String, bool))>,
    pub fns: Seq<(String, (String, bool))>,
}

pub open spec fn struct_origins(ms: Seq<LoadedModule>) -> Seq<(String, (String, bool))>
    decreases ms.len(),
{
    if ms.len() == 0 {
        Seq::empty()
    } else {
        let m = ms.last();
        struct_origins(ms.drop_last()) + m.structs@.map_values(
            |d: StructDecl| (d.name, (m.name, d.is_exported)),
        )
    }
}

pub open spec fn enum_origins(ms: Seq<LoadedModule>) -> Seq<(String, (String, bool))>
    decreases ms.len(),
{
    if ms.len() == 0 {
        Seq::empty()
    } else {
        let m = ms.last();
        enum_origins(ms.drop_last()) + m.enums@.map_values(
            |d: EnumDecl| (d.name, (m.name, d.is_exported)),
        )
    }
}

pub open spec fn fn_origins(ms: Seq<LoadedModule>) -> Seq<(String, (String, bool))>
    decreases ms.len(),
{
    if ms.len() == 0 {
        Seq::empty()
    } else {
        let m = ms.last();
        fn_origins(ms.drop_last()) + m.functions@.map_values(
            |d: FunctionDecl| (d.name, (m.name, d.is_exported)),
        )
    }
}

pub open spec fn origins(ms: Seq<LoadedModule>) -> Origins {
    Origins { structs: struct_origins(ms), enums: enum_origins(ms), fns: fn_origins(ms) }
}

pub open spec fn imports_module(m: LoadedModule, name: Seq<char>) -> bool {
    exists|k: int| 0 <= k < m.imports@.len() && (#[trigger] m.imports@[k])@ == name
}

/// When `m` may not use `name` as `t` records it, the module declaring it.
/// A name `t` does not record is not checked here.
pub open spec fn blocked_by(t: Seq<(String, (String, bool))>, name: Seq<char>, m: LoadedModule) -> Option<
    Seq<char>,
> {
    match lookup(t, name) {
        None => None,
        Some((origin, exported)) => if origin@ == m.name@ || (exported && imports_module(
            m,
            origin@,
        )) {
            None
        } else {
            Some(origin@)
        },
    }
}

/// When `m` may not make reference `r`, the module declaring the name. A
/// type name is looked up among structs, then among enums.
pub open spec fn ref_blocked(o: Origins, m: LoadedModule, r: (RefKind, Seq<char>)) -> Option<Seq<char>> {
    match r.0 {
        RefKind::TypeName => match blocked_by(o.structs, r.1, m) {
            Some(x) => Some(x),
            None => blocked_by(o.enums, r.1, m),
        },
        RefKind::Function => blocked_by(o.fns, r.1, m),
        RefKind::Struct => blocked_by(o.structs, r.1, m),
        RefKind::Enum => blocked_by(o.enums, r.1, m),
    }
}

/// The first of `refs` that `m` may not make: its name and the module
/// declaring it.
pub open spec fn first_blocked(o: Origins, m: LoadedModule, refs: Seq<(RefKind, Seq<char>)>) -> Option<
    (Seq<char>, Seq<char>),
>
    decreases refs.len(),
{
    if refs.len() == 0 {
        None
    } else {
        match first_blocked(o, m, refs.drop_last()) {
            Some(x) => Some(x),
            None => match ref_blocked(o, m, refs.last()) {
                Some(origin) => Some((refs.last().1, origin)),
                None => None,
            },
        }
    }
}

/// The first reference, module by module, that its module may not make:
/// the name, the using module and the declaring module.
pub open spec fn visibility_error(o: Origins, ms: Seq<LoadedModule>) -> Option<
    (Seq<char>, Seq<char>, Seq<char>),
>
    decreases ms.len(),
{
    if ms.len() == 0 {
        None
    } else {
        match visibility_error(o, ms.drop_last()) {
            Some(x) => Some(x),
            None => match first_blocked(o, ms.last(), module_refs(ms.last())) {
                Some((name, origin)) => Some((name, ms.last().name@, origin)),
                None => None,
            },
        }
    }
}

/// `r` is what checking gives when `f` is the first blocked reference of
/// module `from`.
pub open spec fn reports(r: Result<(), LoadError>, f: Option<(Seq<char>, Seq<char>)>, from: Seq<char>) -> bool {
    match f {
        None => r is Ok,
        Some((n, o)) => r matches Err(LoadError::SymbolNotAccessible { name, from_module, origin_module })
            && name@ == n && from_module@ == from && origin_module@ == o,
    }
}

pub proof fn lemma_first_blocked_append(
    o: Origins,
    m: LoadedModule,
    a: Seq<(RefKind, Seq<char>)>,
    b: Seq<(RefKind, Seq<char>)>,
)
    ensures
        first_blocked(o, m, a + b) == match first_blocked(o, m, a) {
            Some(x) => Some(x),
            None => first_blocked(o, m, b),
        },
    decreases b.len(),
{
    if b.len() == 0 {
        assert(a + b =~= a);
    } else {
        assert((a + b).drop_last() =~= a + b.drop_last());
        lemma_first_blocked_append(o, m, a, b.drop_last());
    }
}

pub proof fn lemma_first_blocked_single(o: Origins, m: LoadedModule, r: (RefKind, Seq<char>))
    ensures
        first_blocked(o, m, seq![r]) == match ref_blocked(o, m, r) {
            Some(x) => Some((r.1, x)),
            None => None,
        },
        first_blocked(o, m, Seq::empty()) is None,
{
    assert(seq![r].drop_last() =~= Seq::<(RefKind, Seq<char>)>::empty());
}

/// Checks the references of one module against where names are declared.
struct Checker {
    structs: Vec<(String, (String, bool))>,
    enums: Vec<(String, (String, bool))>,
    fns: Vec<(String, (String, bool))>,
}

impl Checker {
    spec fn tables(&self) -> Origins {
        Origins { structs: self.structs@, enums: self.enums@, fns: self.fns@ }
    }

    /// Whether `m` imports the module `name` directly.
    fn imports(m: &LoadedModule, name: &String) -> (r: bool)
        ensures
            r == imports_module(*m, name@),
    {
        let mut k: usize = 0;
        while k < m.imports.len()
            invariant
                k <= m.imports@.len(),
                forall|j: int| 0 <= j < k ==> (#[trigger] m.imports@[j])@ != name@,
            decreases m.imports.len() - k,
        {
            if m.imports[k] == *name {
                return true;
            }
            k = k + 1;
        }
        false
    }

    /// `m` may use `name` as `t` records it: declared in `m`, or exported
    /// by a module `m` imports directly, or not recorded at all.
    fn check_accessible(name: &String, m: &LoadedModule, t: &Vec<(String, (String, bool))>) -> (r: Result<(), LoadError>)
        ensures
            reports(
                r,
                match blocked_by(t@, name@, *m) {
                    Some(o) => Some((name@, o)),
                    None => None,
                },
                m.name@,
            ),
    {
        match find(t, name) {
            None => Ok(()),
            Some(k) => {
                let origin = &t[k].1.0;
                let exported = t[k].1.1;
                if *origin == m.name {
                    return Ok(());
                }
                if exported && Self::imports(m, origin) {
                    return Ok(());
                }
                Err(LoadError::SymbolNotAccessible {
                    name: name.clone(),
                    from_module: m.name.clone(),
                    origin_module: origin.clone(),
                })
            },
        }
    }

    fn check_ref(&self, kind: RefKind, name: &String, m: &LoadedModule) -> (r: Result<(), LoadError>)
        ensures
            reports(
                r,
                match ref_blocked(self.tables(), *m, (kind, name@)) {
                    Some(o) => Some((name@, o)),
                    None => None,
                },
                m.name@,
            ),
    {
        match kind {
            RefKind::TypeName => {
                Self::check_accessible(name, m, &self.structs)?;
                Self::check_accessible(name, m, &self.enums)
            },
            RefKind::Function => Self::check_accessible(name, m, &self.fns),
            RefKind::Struct => Self::check_accessible(name, m, &self.structs),
            RefKind::Enum => Self::check_accessible(name, m, &self.enums),
        }
    }

    /// The first reference in `e` that `m` may not make.
    fn check_expr(&self, e: &Expr, m: &LoadedModule) -> (r: Result<(), LoadError>)
        ensures
            reports(r, first_blocked(self.tables(), *m, expr_refs(*e)), m.name@),
        decreases e,
    {
        let ghost o = self.tables();
        match e {
            Expr::Binary { left, right, .. } => {
                proof {
                    lemma_first_blocked_append(o, *m, expr_refs(**left), expr_refs(**right));
                }
                self.check_expr(left, m)?;
                self.check_expr(right, m)
            },
            Expr::Call { callee, args } => {
                proof {
                    lemma_first_blocked_append(o, *m, seq![(RefKind::Function, callee@)], exprs_refs(args@));
                    lemma_first_blocked_single(o, *m, (RefKind::Function, callee@));
                    assert(decreases_to!(*e => e->Call_args));
                }
                self.check_ref(RefKind::Function, callee, m)?;
                self.check_exprs(args, m)
            },
            Expr::StructLiteral { name, fields } => {
                proof {
                    lemma_first_blocked_append(o, *m, seq![(RefKind::Struct, name@)], field_refs(fields@));
                    lemma_first_blocked_single(o, *m, (RefKind::Struct, name@));
                    assert(decreases_to!(*e => e->StructLiteral_fields));
                }
                self.check_ref(RefKind::Struct, name, m)?;
                self.check_fields(fields, m)
            },
            Expr::FieldAccess { object, .. } => self.check_expr(object, m),
            Expr::EnumLiteral { enum_name, fields, .. } => {
                proof {
                    lemma_first_blocked_append(o, *m, seq![(RefKind::Enum, enum_name@)], field_refs(fields@));
                    lemma_first_blocked_single(o, *m, (RefKind::Enum, enum_name@));
                    assert(decreases_to!(*e => e->EnumLiteral_fields));
                }
                self.check_ref(RefKind::Enum, enum_name, m)?;
                self.check_fields(fields, m)
            },
            Expr::ArrayLiteral(elements) => {
                proof {
                    assert(decreases_to!(*e => e->ArrayLiteral_0));
                }
                self.check_exprs(elements, m)
            },
            Expr::Index { array, index } => {
                proof {
                    lemma_first_blocked_append(o, *m, expr_refs(**array), expr_refs(**index));
                }
                self.check_expr(array, m)?;
                self.check_expr(index, m)
            },
            Expr::Try(inner) => self.check_expr(inner, m),
            _ => Ok(()),
        }
    }

    fn check_exprs(&self, es: &Vec<Expr>, m: &LoadedModule) -> (r: Result<(), LoadError>)
        ensures
            reports(r, first_blocked(self.tables(), *m, exprs_refs(es@)), m.name@),
        decreases es,
    {
        let ghost o = self.tables();
        let mut result: Result<(), LoadError> = Ok(());
        let mut i: usize = 0;
        while i < es.len()
            invariant
                i <= es@.len(),
                o == self.tables(),
                reports(result, first_blocked(o, *m, exprs_refs(es@.subrange(0, i as int))), m.name@),
            decreases es.len() - i,
        {
            proof {
                assert(es@.subrange(0, i + 1).subrange(0, i as int) =~= es@.subrange(0, i as int));
                lemma_first_blocked_append(o, *m, exprs_refs(es@.subrange(0, i as int)), expr_refs(es@[i as int]));
                lemma_vec_elem_decreases(*es, i as int);
            }
            if result.is_ok() {
                result = self.check_expr(&es[i], m);
            }
            i = i + 1;
        }
        proof {
            assert(es@.subrange(0, i as int) =~= es@);
        }
        result
    }

    fn check_fields(&self, fs: &Vec<(String, Expr)>, m: &LoadedModule) -> (r: Result<(), LoadError>)
        ensures
            reports(r, first_blocked(self.tables(), *m, field_refs(fs@)), m.name@),
        decreases fs,
    {
        let ghost o = self.tables();
        let mut result: Result<(), LoadError> = Ok(());
        let mut i: usize = 0;
        while i < fs.len()
            invariant
                i <= fs@.len(),
                o == self.tables(),
                reports(result, first_blocked(o, *m, field_refs(fs@.subrange(0, i as int))), m.name@),
            decreases fs.len() - i,
        {
            proof {
                assert(fs@.subrange(0, i + 1).subrange(0, i as int) =~= fs@.subrange(0, i as int));
                lemma_first_blocked_append(o, *m, field_refs(fs@.subrange(0, i as int)), expr_refs(fs@[i as int].1));
                lemma_field_value_decreases(*fs, i as int);
            }
            if result.is_ok() {
                result = self.check_expr(&fs[i].1, m);
            }
            i = i + 1;
        }
        proof {
            assert(fs@.subrange(0, i as int) =~= fs@);
        }
        result
    }

    /// The first reference in `s` that `m` may not make.
    fn check_stmt(&self, s: &Stmt, m: &LoadedModule) -> (r: Result<(), LoadError>)
        ensures
            reports(r, first_blocked(self.tables(), *m, stmt_refs(*s)), m.name@),
        decreases s,
    {
        let ghost o = self.tables();
        match s {
            Stmt::VariableDecl { value, .. } => self.check_expr(value, m),
            Stmt::Assign { value, .. } => self.check_expr(value, m),
            Stmt::IndexAssign { index, value, .. } => {
                proof {
                    lemma_first_blocked_append(o, *m, expr_refs(*index), expr_refs(*value));
                }
                self.check_expr(index, m)?;
                self.check_expr(value, m)
            },
            Stmt::Expr(e) => self.check_expr(e, m),
            Stmt::If { condition, then_branch, else_branch } => {
                let ghost rest = match else_branch {
                    Some(b) => stmts_refs(b@),
                    None => Seq::empty(),
                };
                proof {
                    lemma_first_blocked_append(o, *m, expr_refs(*condition), stmts_refs(then_branch@));
                    lemma_first_blocked_append(o, *m, expr_refs(*condition) + stmts_refs(then_branch@), rest);
                    assert(decreases_to!(*s => s->If_then_branch));
                }
                self.check_expr(condition, m)?;
                self.check_stmts(then_branch, m)?;
                match else_branch {
                    Some(b) => {
                        proof {
                            assert(decreases_to!(*s => s->If_else_branch));
                            assert(decreases_to!(s->If_else_branch => s->If_else_branch->0));
                        }
                        self.check_stmts(b, m)
                    },
                    None => Ok(()),
                }
            },
            Stmt::While { condition, body } => {
                proof {
                    lemma_first_blocked_append(o, *m, expr_refs(*condition), stmts_refs(body@));
                    assert(decreases_to!(*s => s->While_body));
                }
                self.check_expr(condition, m)?;
                self.check_stmts(body, m)
            },
            Stmt::Return(e) => match e {
                Some(x) => self.check_expr(x, m),
                None => Ok(()),
            },
            Stmt::Match { scrutinee, arms } => {
                proof {
                    lemma_first_blocked_append(o, *m, expr_refs(*scrutinee), arms_refs(arms@));
                    assert(decreases_to!(*s => s->Match_arms));
                }
                self.check_expr(scrutinee, m)?;
                self.check_arms(arms, m)
            },
        }
    }

    fn check_stmts(&self, ss: &Vec<Stmt>, m: &LoadedModule) -> (r: Result<(), LoadError>)
        ensures
            reports(r, first_blocked(self.tables(), *m, stmts_refs(ss@)), m.name@),
        decreases ss,
    {
        let ghost o = self.tables();
        let mut result: Result<(), LoadError> = Ok(());
        let mut i: usize = 0;
        while i < ss.len()
            invariant
                i <= ss@.len(),
                o == self.tables(),
                reports(result, first_blocked(o, *m, stmts_refs(ss@.subrange(0, i as int))), m.name@),
            decreases ss.len() - i,
        {
            proof {
                assert(ss@.subrange(0, i + 1).subrange(0, i as int) =~= ss@.subrange(0, i as int));
                lemma_first_blocked_append(o, *m, stmts_refs(ss@.subrange(0, i as int)), stmt_refs(ss@[i as int]));
                lemma_vec_elem_decreases(*ss, i as int);
            }
            if result.is_ok() {
                result = self.check_stmt(&ss[i], m);
            }
            i = i + 1;
        }
        proof {
            assert(ss@.subrange(0, i as int) =~= ss@);
        }
        result
    }

    fn check_arms(&self, arms: &Vec<MatchArm>, m: &LoadedModule) -> (r: Result<(), LoadError>)
        ensures
            reports(r, first_blocked(self.tables(), *m, arms_refs(arms@)), m.name@),
        decreases arms,
    {
        let ghost o = self.tables();
        let mut result: Result<(), LoadError> = Ok(());
        let mut i: usize = 0;
        while i < arms.len()
            invariant
                i <= arms@.len(),
                o == self.tables(),
                reports(result, first_blocked(o, *m, arms_refs(arms@.subrange(0, i as int))), m.name@),
            decreases arms.len() - i,
        {
            let arm = &arms[i];
            let ghost before = arms_refs(arms@.subrange(0, i as int));
            proof {
                assert(arms@.subrange(0, i + 1).subrange(0, i as int) =~= arms@.subrange(0, i as int));
                assert(arms_refs(arms@.subrange(0, i + 1)) == before + pattern_refs(arm.pattern) + stmts_refs(arm.body@));
                lemma_first_blocked_append(o, *m, before, pattern_refs(arm.pattern));
                lemma_first_blocked_append(o, *m, before + pattern_refs(arm.pattern), stmts_refs(arm.body@));
                lemma_vec_elem_decreases(*arms, i as int);
                assert(decreases_to!(arms@[i as int] => arms@[i as int].body));
            }
            if result.is_ok() {
                if let Pattern::EnumVariant { enum_name, .. } = &arm.pattern {
                    proof {
                        lemma_first_blocked_single(o, *m, (RefKind::Enum, enum_name@));
                    }
                    result = self.check_ref(RefKind::Enum, enum_name, m);
                } else {
                    proof {
                        lemma_first_blocked_single(o, *m, (RefKind::Enum, Seq::empty()));
                        assert(pattern_refs(arm.pattern) =~= Seq::<(RefKind, Seq<char>)>::empty());
                    }
                }
            }
            if result.is_ok() {
                result = self.check_stmts(&arm.body, m);
            }
            i = i + 1;
        }
        proof {
            assert(arms@.subrange(0, i as int) =~= arms@);
        }
        result
    }

    /// The first parameter or field type that `m` may not use.
    fn check_types(&self, ps: &Vec<Param>, m: &LoadedModule) -> (r: Result<(), LoadError>)
        ensures
            reports(r, first_blocked(self.tables(), *m, type_refs(ps@)), m.name@),
    {
        let ghost o = self.tables();
        let mut result: Result<(), LoadError> = Ok(());
        let mut i: usize = 0;
        while i < ps.len()
            invariant
                i <= ps@.len(),
                o == self.tables(),
                reports(result, first_blocked(o, *m, type_refs(ps@.subrange(0, i as int))), m.name@),
            decreases ps.len() - i,
        {
            proof {
                assert(type_refs(ps@.subrange(0, i + 1)).drop_last() =~= type_refs(ps@.subrange(0, i as int)));
            }
            if result.is_ok() {
                result = self.check_ref(RefKind::TypeName, &ps[i].ty, m);
            }
            i = i + 1;
        }
        proof {
            assert(ps@.subrange(0, i as int) =~= ps@);
        }
        result
    }

    fn check_function(&self, f: &FunctionDecl, m: &LoadedModule) -> (r: Result<(), LoadError>)
        ensures
            reports(r, first_blocked(self.tables(), *m, function_refs(*f)), m.name@),
    {
        let ghost o = self.tables();
        proof {
            lemma_first_blocked_append(o, *m, return_refs(f.return_type), type_refs(f.params@));
            lemma_first_blocked_append(o, *m, return_refs(f.return_type) + type_refs(f.params@), stmts_refs(f.body@));
        }
        match &f.return_type {
            Some(t) => {
                proof {
                    lemma_first_blocked_single(o, *m, (RefKind::TypeName, t@));
                }
                self.check_ref(RefKind::TypeName, t, m)?;
            },
            None => {
                proof {
                    lemma_first_blocked_single(o, *m, (RefKind::TypeName, Seq::empty()));
                    assert(return_refs(f.return_type) =~= Seq::<(RefKind, Seq<char>)>::empty());
                }
            },
        }
        self.check_types(&f.params, m)?;
        self.check_stmts(&f.body, m)
    }

    /// The first reference in `m` that `m` may not make.
    fn check_module(&self, m: &LoadedModule) -> (r: Result<(), LoadError>)
        ensures
            reports(r, first_blocked(self.tables(), *m, module_refs(*m)), m.name@),
    {
        let ghost o = self.tables();
        let mut result: Result<(), LoadError> = Ok(());
        let mut i: usize = 0;
        while i < m.functions.len()
            invariant
                i <= m.functions@.len(),
                o == self.tables(),
                reports(result, first_blocked(o, *m, functions_refs(m.functions@.subrange(0, i as int))), m.name@),
            decreases m.functions.len() - i,
        {
            proof {
                assert(m.functions@.subrange(0, i + 1).drop_last() =~= m.functions@.subrange(0, i as int));
                lemma_first_blocked_append(o, *m, functions_refs(m.functions@.subrange(0, i as int)), function_refs(m.functions@[i as int]));
            }
            if result.is_ok() {
                result = self.check_function(&m.functions[i], m);
            }
            i = i + 1;
        }
        proof {
            assert(m.functions@.subrange(0, i as int) =~= m.functions@);
        }
        let ghost after_functions = functions_refs(m.functions@);
        let mut i: usize = 0;
        while i < m.structs.len()
            invariant
                i <= m.structs@.len(),
                o == self.tables(),
                reports(result, first_blocked(o, *m, after_functions + structs_refs(m.structs@.subrange(0, i as int))), m.name@),
            decreases m.structs.len() - i,
        {
            proof {
                assert(m.structs@.subrange(0, i + 1).drop_last() =~= m.structs@.subrange(0, i as int));
                assert(after_functions + structs_refs(m.structs@.subrange(0, i + 1)) =~= (after_functions
                    + structs_refs(m.structs@.subrange(0, i as int))) + type_refs(m.structs@[i as int].fields@));
                lemma_first_blocked_append(o, *m, after_functions + structs_refs(m.structs@.subrange(0, i as int)), type_refs(m.structs@[i as int].fields@));
            }
            if result.is_ok() {
                result = self.check_types(&m.structs[i].fields, m);
            }
            i = i + 1;
        }
        proof {
            assert(m.structs@.subrange(0, i as int) =~= m.structs@);
        }
        let ghost after_structs = after_functions + structs_refs(m.structs@);
        let mut i: usize = 0;
        while i < m.enums.len()
            invariant
                i <= m.enums@.len(),
                o == self.tables(),
                reports(result, first_blocked(o, *m, after_structs + enums_refs(m.enums@.subrange(0, i as int))), m.name@),
            decreases m.enums.len() - i,
        {
            let decl = &m.enums[i];
            let ghost base = after_structs + enums_refs(m.enums@.subrange(0, i as int));
            proof {
                assert(m.enums@.subrange(0, i + 1).drop_last() =~= m.enums@.subrange(0, i as int));
                assert(after_structs + enums_refs(m.enums@.subrange(0, i + 1)) =~= base + variants_refs(decl.variants@));
            }
            let mut v: usize = 0;
            while v < decl.variants.len()
                invariant
                    v <= decl.variants@.len(),
                    o == self.tables(),
                    reports(result, first_blocked(o, *m, base + variants_refs(decl.variants@.subrange(0, v as int))), m.name@),
                decreases decl.variants.len() - v,
            {
                proof {
                    assert(decl.variants@.subrange(0, v + 1).drop_last() =~= decl.variants@.subrange(0, v as int));
                    assert(base + variants_refs(decl.variants@.subrange(0, v + 1)) =~= (base + variants_refs(
                        decl.variants@.subrange(0, v as int),
                    )) + type_refs(decl.variants@[v as int].fields@));
                    lemma_first_blocked_append(o, *m, base + variants_refs(decl.variants@.subrange(0, v as int)), type_refs(decl.variants@[v as int].fields@));
                }
                if result.is_ok() {
                    result = self.check_types(&decl.variants[v].fields, m);
                }
                v = v + 1;
            }
            proof {
                assert(decl.variants@.subrange(0, v as int) =~= decl.variants@);
            }
            i = i + 1;
        }
        proof {
            assert(m.enums@.subrange(0, i as int) =~= m.enums@);
            assert(after_structs + enums_refs(m.enums@) =~= module_refs(*m));
        }
        result
    }
}

fn build_checker(ms: &Vec<LoadedModule>) -> (c: Checker)
    ensures
        c.tables() == origins(ms@),
{
    let mut c = Checker { structs: Vec::new(), enums: Vec::new(), fns: Vec::new() };
    let mut k: usize = 0;
    proof {
        assert(c.structs@ =~= struct_origins(ms@.subrange(0, 0)));
        assert(c.enums@ =~= enum_origins(ms@.subrange(0, 0)));
        assert(c.fns@ =~= fn_origins(ms@.subrange(0, 0)));
    }
    while k < ms.len()
        invariant
            k <= ms@.len(),
            c.structs@ == struct_origins(ms@.subrange(0, k as int)),
            c.enums@ == enum_origins(ms@.subrange(0, k as int)),
            c.fns@ == fn_origins(ms@.subrange(0, k as int)),
        decreases ms.len() - k,
    {
        let m = &ms[k];
        proof {
            assert(ms@.subrange(0, k + 1).drop_last() =~= ms@.subrange(0, k as int));
        }
        let ghost base = c.structs@;
        let mut i: usize = 0;
        while i < m.structs.len()
            invariant
                i <= m.structs@.len(),
                c.enums@ == enum_origins(ms@.subrange(0, k as int)),
                c.fns@ == fn_origins(ms@.subrange(0, k as int)),
                c.structs@ == base + m.structs@.subrange(0, i as int).map_values(
                    |d: StructDecl| (d.name, (m.name, d.is_exported)),
                ),
            decreases m.structs.len() - i,
        {
            let d = &m.structs[i];
            c.structs.push((d.name.clone(), (m.name.clone(), d.is_exported)));
            proof {
                assert(m.structs@.subrange(0, i + 1).map_values(|d: StructDecl| (d.name, (m.name, d.is_exported)))
                    =~= m.structs@.subrange(0, i as int).map_values(|d: StructDecl| (d.name, (m.name, d.is_exported))).push(
                    (d.name, (m.name, d.is_exported)),
                ));
            }
            i = i + 1;
        }
        proof {
            assert(m.structs@.subrange(0, i as int) =~= m.structs@);
        }
        let ghost base = c.enums@;
        let mut i: usize = 0;
        while i < m.enums.len()
            invariant
                i <= m.enums@.len(),
                c.structs@ == struct_origins(ms@.subrange(0, k + 1)),
                c.fns@ == fn_origins(ms@.subrange(0, k as int)),
                c.enums@ == base + m.enums@.subrange(0, i as int).map_values(
                    |d: EnumDecl| (d.name, (m.name, d.is_exported)),
                ),
            decreases m.enums.len() - i,
        {
            let d = &m.enums[i];
            c.enums.push((d.name.clone(), (m.name.clone(), d.is_exported)));
            proof {
                assert(m.enums@.subrange(0, i + 1).map_values(|d: EnumDecl| (d.name, (m.name, d.is_exported)))
                    =~= m.enums@.subrange(0, i as int).map_values(|d: EnumDecl| (d.name, (m.name, d.is_exported))).push(
                    (d.name, (m.name, d.is_exported)),
                ));
            }
            i = i + 1;
        }
        proof {
            assert(m.enums@.subrange(0, i as int) =~= m.enums@);
        }
        let ghost base = c.fns@;
        let mut i: usize = 0;
        while i < m.functions.len()
            invariant
                i <= m.functions@.len(),
                c.structs@ == struct_origins(ms@.subrange(0, k + 1)),
                c.enums@ == enum_origins(ms@.subrange(0, k + 1)),
                c.fns@ == base + m.functions@.subrange(0, i as int).map_values(
                    |d: FunctionDecl| (d.name, (m.name, d.is_exported)),
                ),
            decreases m.functions.len() - i,
        {
            let d = &m.functions[i];
            c.fns.push((d.name.clone(), (m.name.clone(), d.is_exported)));
            proof {
                assert(m.functions@.subrange(0, i + 1).map_values(|d: FunctionDecl| (d.name, (m.name, d.is_exported)))
                    =~= m.functions@.subrange(0, i as int).map_values(|d: FunctionDecl| (d.name, (m.name, d.is_exported))).push(
                    (d.name, (m.name, d.is_exported)),
                ));
            }
            i = i + 1;
        }
        proof {
            assert(m.functions@.subrange(0, i as int) =~= m.functions@);
        }
        k = k + 1;
    }
    proof {
        assert(ms@.subrange(0, k as int) =~= ms@);
    }
    c
}

/// The first reference, module by module, that its module may not make.
fn check_visibility(ms: &Vec<LoadedModule>) -> (r: Result<(), LoadError>)
    ensures
        match visibility_error(origins(ms@), ms@) {
            None => r is Ok,
            Some((n, from, o)) => r matches Err(LoadError::SymbolNotAccessible { name, from_module, origin_module })
                && name@ == n && from_module@ == from && origin_module@ == o,
        },
{
    let checker = build_checker(ms);
    let ghost o = origins(ms@);
    let mut result: Result<(), LoadError> = Ok(());
    let mut k: usize = 0;
    while k < ms.len()
        invariant
            k <= ms@.len(),
            checker.tables() == o,
            match visibility_error(o, ms@.subrange(0, k as int)) {
                None => result is Ok,
                Some((n, from, org)) => result matches Err(LoadError::SymbolNotAccessible { name, from_module, origin_module })
                    && name@ == n && from_module@ == from && origin_module@ == org,
            },
        decreases ms.len() - k,
    {
        proof {
            assert(ms@.subrange(0, k + 1).drop_last() =~= ms@.subrange(0, k as int));
        }
        if result.is_ok() {
            result = checker.check_module(&ms[k]);
        }
        k = k + 1;
    }
    proof {
        assert(ms@.subrange(0, k as int) =~= ms@);
    }
    result
}

pub open spec fn all_structs(ms: Seq<LoadedModule>) -> Seq<StructDecl>
    decreases ms.len(),
{
    if ms.len() == 0 {
        Seq::empty()
    } else {
        all_structs(ms.drop_last()) + ms.last().structs@
    }
}

pub open spec fn all_enums(ms: Seq<LoadedModule>) -> Seq<EnumDecl>
    decreases ms.len(),
{
    if ms.len() == 0 {
        Seq::empty()
    } else {
        all_enums(ms.drop_last()) + ms.last().enums@
    }
}

pub open spec fn all_functions(ms: Seq<LoadedModule>) -> Seq<FunctionDecl>
    decreases ms.len(),
{
    if ms.len() == 0 {
        Seq::empty()
    } else {
        all_functions(ms.drop_last()) + ms.last().functions@
    }
}

/// What linking `ms` gives: the first duplicate declaration if there is
/// one; else the first reference a module may not make; else one program
/// holding every module's declarations, module by module.
pub open spec fn link_outcome(ms: Seq<LoadedModule>, r: Result<Program, LoadError>) -> bool {
    let es = decl_entries(ms);
    if has_repeat(es) {
        r matches Err(LoadError::DuplicateDeclaration { name, module_a, module_b }) && exists|i: int, j: int|
            #[trigger] first_duplicate(es, i, j) && name@ == es[j].0 && module_a@ == es[i].1
                && module_b@ == es[j].1
    } else {
        match visibility_error(origins(ms), ms) {
            Some((n, from, o)) => r matches Err(LoadError::SymbolNotAccessible { name, from_module, origin_module })
                && name@ == n && from_module@ == from && origin_module@ == o,
            None => r matches Ok(p) && p.module_name is None && p.imports@.len() == 0 && p.structs@ == all_structs(ms)
                && p.enums@ == all_enums(ms) && p.functions@ == all_functions(ms),
        }
    }
}

/// Links loaded modules into one program: no name may be declared twice,
/// and every module may use only its own declarations and the exported
/// declarations of the modules it imports directly.
pub fn link_modules(ms: Vec<LoadedModule>) -> (r: Result<Program, LoadError>)
    ensures
        link_outcome(ms@, r),
{
    let es = entries_of(&ms);
    match find_duplicate(&es) {
        Some((i, j)) => {
            proof {
                let pv = pairs_view(es@);
                assert(pv[i as int] == (es@[i as int].0@, es@[i as int].1@));
                assert(pv[j as int] == (es@[j as int].0@, es@[j as int].1@));
                assert(repeats_earlier(pv, j as int));
                assert(has_repeat(pv));
            }
            return Err(LoadError::DuplicateDeclaration {
                name: es[j].0.clone(),
                module_a: es[i].1.clone(),
                module_b: es[j].1.clone(),
            });
        },
        None => {},
    }
    match check_visibility(&ms) {
        Ok(()) => {},
        Err(e) => {
            return Err(e);
        },
    }
    let ghost all = ms@;
    let total: usize = ms.len();
    let mut rest = ms;
    let mut structs: Vec<StructDecl> = Vec::new();
    let mut enums: Vec<EnumDecl> = Vec::new();
    let mut functions: Vec<FunctionDecl> = Vec::new();
    let mut k: usize = 0;
    proof {
        assert(structs@ =~= all_structs(all.subrange(0, 0)));
        assert(enums@ =~= all_enums(all.subrange(0, 0)));
        assert(functions@ =~= all_functions(all.subrange(0, 0)));
        assert(rest@ =~= all.subrange(0, all.len() as int));
        assert(all.len() == total);
    }
    while rest.len() > 0
        invariant
            k <= all.len(),
            all.len() <= usize::MAX,
            rest@ == all.subrange(k as int, all.len() as int),
            structs@ == all_structs(all.subrange(0, k as int)),
            enums@ == all_enums(all.subrange(0, k as int)),
            functions@ == all_functions(all.subrange(0, k as int)),
        decreases rest.len(),
    {
        let mut m = rest.remove(0);
        proof {
            assert(all.subrange(0, k + 1).drop_last() =~= all.subrange(0, k as int));
            assert(rest@ =~= all.subrange(k + 1, all.len() as int));
        }
        structs.append(&mut m.structs);
        enums.append(&mut m.enums);
        functions.append(&mut m.functions);
        k = k + 1;
    }
    proof {
        assert(all.subrange(0, k as int) =~= all);
    }
    Ok(Program { module_name: None, imports: Vec::new(), structs, enums, functions })
}

// ---- loading ----

/// Every module in `ms` has a name of its own.
pub open spec fn distinct_names(ms: Seq<LoadedModule>) -> bool {
    forall|i: int, j: int| 0 <= i < j < ms.len() ==> (#[trigger] ms[i]).name@ != (#[trigger] ms[j]).name@
}

pub open spec fn names_module(ms: Seq<LoadedModule>, name: Seq<char>) -> bool {
    exists|j: int| 0 <= j < ms.len() && (#[trigger] ms[j]).name@ == name
}

/// Every module that a module of `ms` imports comes before it in `ms`.
pub open spec fn imports_loaded_before(ms: Seq<LoadedModule>) -> bool {
    forall|i: int, k: int|
        0 <= i < ms.len() && 0 <= k < ms[i].imports@.len() ==> #[trigger] import_before(ms, i, k)
}

/// Import `k` of module `i` names a module that comes before it.
pub open spec fn import_before(ms: Seq<LoadedModule>, i: int, k: int) -> bool {
    exists|j: int| 0 <= j < i && (#[trigger] ms[j]).name@ == ms[i].imports@[k]@
}

/// The modules a load of `entry` reads: each once, every import before the
/// module importing it, and the entry last.
pub open spec fn closed_load(ms: Seq<LoadedModule>, entry: Seq<char>) -> bool {
    &&& ms.len() > 0
    &&& ms.last().name@ == entry
    &&& distinct_names(ms)
    &&& imports_loaded_before(ms)
    &&& reached_from_last(ms, 0)
}

/// Every module of `ms` from index `start` on, but the last, is imported
/// by a later one: nothing was loaded that the last does not need.
pub open spec fn reached_from_last(ms: Seq<LoadedModule>, start: int) -> bool {
    forall|i: int|
        #![trigger ms[i]]
        start <= i < ms.len() - 1 ==> exists|j: int| #![trigger ms[j]] i < j < ms.len() && listed(ms[j].imports@, ms[i].name@)
}

pub open spec fn listed(v: Seq<String>, name: Seq<char>) -> bool {
    exists|j: int| 0 <= j < v.len() && (#[trigger] v[j])@ == name
}

/// Reads at most this many modules in one load.
pub const LOAD_BUDGET: u64 = 18446744073709551615;

fn has_module(ms: &Vec<LoadedModule>, name: &String) -> (r: bool)
    ensures
        r == names_module(ms@, name@),
{
    let mut j: usize = 0;
    while j < ms.len()
        invariant
            j <= ms@.len(),
            forall|k: int| 0 <= k < j ==> (#[trigger] ms@[k]).name@ != name@,
        decreases ms.len() - j,
    {
        if ms[j].name == *name {
            return true;
        }
        j = j + 1;
    }
    false
}

fn is_listed(v: &Vec<String>, name: &String) -> (r: bool)
    ensures
        r == listed(v@, name@),
{
    let mut j: usize = 0;
    while j < v.len()
        invariant
            j <= v@.len(),
            forall|k: int| 0 <= k < j ==> (#[trigger] v@[k])@ != name@,
        decreases v.len() - j,
    {
        if v[j] == *name {
            return true;
        }
        j = j + 1;
    }
    false
}

/// `m` is what `text` derives: the tokens of `text`, in the grammar, give
/// a program with `m`'s imports and declarations, whose `module` header,
/// if it has one, names `m`.
pub open spec fn module_derives(text: Seq<char>, m: LoadedModule) -> bool {
    exists|toks: Seq<Token>, header: Option<String>|
        spec_lex(text) == LexResult::Tokens(tokens_view(toks)) && #[trigger] program_at(
            toks,
            0,
            Program {
                module_name: header,
                imports: m.imports,
                structs: m.structs,
                enums: m.enums,
                functions: m.functions,
            },
        ) && (header matches Some(h) ==> h@ == m.name@)
}

/// `m` was parsed from some text.
pub open spec fn parsed(m: LoadedModule) -> bool {
    exists|text: Seq<char>| #[trigger] module_derives(text, m)
}

/// The `module` header of `p`, if any, names `name`.
pub open spec fn header_fits(p: Program, name: Seq<char>) -> bool {
    p.module_name matches Some(h) ==> h@ == name
}

/// `m`, named `name`, holds the imports and declarations of `p`.
pub open spec fn holds_program(m: LoadedModule, name: Seq<char>, p: Program) -> bool {
    &&& m.name@ == name
    &&& m.imports == p.imports
    &&& m.structs == p.structs
    &&& m.enums == p.enums
    &&& m.functions == p.functions
}

/// What reading module `name` from `text` gives, `toks` being the tokens
/// the text lexes to: a text too long or that does not lex fails with
/// `Lex`, whose message says why (for a lexing error, as `{:?}` writes
/// it); otherwise the load succeeds exactly when the tokens derive a
/// program whose header, if any, names `name`, fails with
/// `ModuleNameMismatch` exactly when they derive one whose header names
/// another module, and fails with `Parse` exactly when they derive none,
/// its message the parse error, as `{:?}` writes it, naming a token of
/// the text.
pub open spec fn parses_as(
    name: Seq<char>,
    text: Seq<char>,
    toks: Option<Seq<Token>>,
    r: Result<LoadedModule, LoadError>,
) -> bool {
    if text.len() == usize::MAX {
        r matches Err(LoadError::Lex(msg)) && msg@ == "source text too long"@
    } else if spec_lex(text) is Overflow {
        r matches Err(LoadError::Lex(msg)) && msg@ == "integer literal out of range"@
    } else if spec_lex(text) is Error {
        r matches Err(LoadError::Lex(msg)) && exists|e: LexError|
            LexResult::Error(e@) == spec_lex(text) && msg@ == #[trigger] lex_error_debug(e)
    } else {
        match toks {
            None => false,
            Some(t) => {
                &&& spec_lex(text) == LexResult::Tokens(tokens_view(t))
                &&& (r is Ok) <==> exists|p: Program| #[trigger] program_at(t, 0, p) && header_fits(p, name)
                &&& (r matches Err(LoadError::Parse(_))) <==> forall|p: Program| !#[trigger] program_at(t, 0, p)
                &&& (r matches Err(LoadError::ModuleNameMismatch { .. })) <==> exists|p: Program|
                    #[trigger] program_at(t, 0, p) && !header_fits(p, name)
                &&& match r {
                    Ok(m) => exists|p: Program| #[trigger] program_at(t, 0, p) && holds_program(m, name, p),
                    Err(LoadError::ModuleNameMismatch { file, declared }) => file@ == name && declared@ != name
                        && exists|p: Program| #[trigger] program_at(t, 0, p) && p.module_name == Some(declared),
                    Err(LoadError::Parse(msg)) => exists|e: ParseError|
                        points_at_token(Err::<Program, ParseError>(e), t) && msg@ == #[trigger] parse_error_debug(e),
                    _ => false,
                }
            },
        }
    }
}

/// Two programs that the same tokens derive have the same header.
pub proof fn lemma_header_determined(t: Seq<Token>, p: Program, q: Program)
    requires
        program_at(t, 0, p),
        program_at(t, 0, q),
    ensures
        p.module_name == q.module_name,
{
}

/// Lexes and parses the text of module `name`, and gives the tokens the
/// text lexed to.
#[verifier::spinoff_prover]
#[verifier::rlimit(40)]
fn parse_module(name: &String, text: &String) -> (r: (Result<LoadedModule, LoadError>, Ghost<Option<Seq<Token>>>))
    ensures
        parses_as(name@, text@, r.1@, r.0),
        r.0 matches Ok(m) ==> m.name@ == name@ && module_derives(text@, m),
{
    if text.as_str().unicode_len() == usize::MAX {
        return (Err(LoadError::Lex(string_of("source text too long"))), Ghost(None));
    }
    let lexer = Lexer::new(text.as_str());
    let tokens = match lexer.try_tokenize() {
        None => {
            return (Err(LoadError::Lex(string_of("integer literal out of range"))), Ghost(None));
        },
        Some(Err(e)) => {
            let msg = e.debug_text();
            proof {
                assert(LexResult::Error(e@) == spec_lex(text@) && msg@ == lex_error_debug(e));
            }
            return (Err(LoadError::Lex(msg)), Ghost(None));
        },
        Some(Ok(tokens)) => tokens,
    };
    proof {
        lemma_lex_tokens_shape(text@, 0);
        assert(tokens_view(tokens@).len() == tokens@.len());
        assert(tokens_view(tokens@).last() == token_view(tokens@.last()));
    }
    let ghost toks = tokens@;
    let parsed_program = Parser::new(tokens).parse_program();
    let program = match parsed_program {
        Ok(p) => p,
        Err(e) => {
            let msg = e.debug_text();
            proof {
                assert(points_at_token(Err::<Program, ParseError>(e), toks) && msg@ == parse_error_debug(e));
            }
            return (Err(LoadError::Parse(msg)), Ghost(Some(toks)));
        },
    };
    proof {
        assert forall|q: Program| #[trigger] program_at(toks, 0, q) implies q.module_name == program.module_name by {
            lemma_header_determined(toks, q, program);
        }
    }
    if let Some(declared) = &program.module_name {
        if *declared != *name {
            let r = Err(LoadError::ModuleNameMismatch { file: name.clone(), declared: declared.clone() });
            proof {
                assert(program_at(toks, 0, program) && !header_fits(program, name@));
            }
            return (r, Ghost(Some(toks)));
        }
    }
    let ghost header = program.module_name;
    let m = LoadedModule {
        name: name.clone(),
        imports: program.imports,
        structs: program.structs,
        enums: program.enums,
        functions: program.functions,
    };
    proof {
        let q = Program {
            module_name: header,
            imports: m.imports,
            structs: m.structs,
            enums: m.enums,
            functions: m.functions,
        };
        assert(program_at(toks, 0, q));
        assert(header_fits(q, name@));
        assert(holds_program(m, name@, q));
        assert(spec_lex(text@) == LexResult::Tokens(tokens_view(toks)));
        assert(module_derives(text@, m));
    }
    (Ok(m), Ghost(Some(toks)))
}

/// What the source gave for one read of a module.
pub enum ReadAnswer {
    /// The source failed with this error.
    Failed(LoadError),
    /// The source gave `text`, which lexed to `tokens` and loaded as `parsed`.
    Read { text: Seq<char>, tokens: Option<Seq<Token>>, parsed: Result<LoadedModule, LoadError> },
}

/// Where a load stands: the modules loaded so far, the names whose
/// imports are still loading (innermost last), the reads left in the
/// budget, and how many reads were made.
pub struct LoadState {
    pub visited: Seq<LoadedModule>,
    pub in_progress: Seq<Seq<char>>,
    pub budget: nat,
    pub pos: nat,
}

/// Why a load stopped: an error the source or the parse of a text gave, a
/// module reached again while its imports were still loading, or the read
/// budget running out.
pub enum LoadStop {
    Given(LoadError),
    Cycle(Seq<char>),
    Limit,
}

pub open spec fn string_views(v: Seq<String>) -> Seq<Seq<char>> {
    v.map_values(|s: String| s@)
}

pub open spec fn state_of(visited: Seq<LoadedModule>, in_progress: Seq<String>, budget: u64, pos: nat) -> LoadState {
    LoadState { visited, in_progress: string_views(in_progress), budget: budget as nat, pos }
}

/// `e` is the error a load that stopped as `stop` reports.
pub open spec fn stops_with(stop: LoadStop, e: LoadError) -> bool {
    match stop {
        LoadStop::Given(g) => e == g,
        LoadStop::Cycle(n) => e matches LoadError::CyclicImport(s) && s@ == n,
        LoadStop::Limit => e is ModuleLimitExceeded,
    }
}

/// `full` begins with the reads `log`.
pub open spec fn extends_log(log: Seq<(Seq<char>, ReadAnswer)>, full: Seq<(Seq<char>, ReadAnswer)>) -> bool {
    log.len() <= full.len() && forall|i: int| 0 <= i < log.len() ==> #[trigger] full[i] == log[i]
}

/// Loading module `name` from state `st`, the reads answered as `log`
/// records from position `st.pos` on. A module already loaded is not read
/// again; one still loading its imports closes a cycle; otherwise the
/// next read must name `name` (else `None`: the log does not fit), and
/// its text is loaded, then each of its imports in order, and the module
/// joins the loaded ones.
pub open spec fn load_spec(log: Seq<(Seq<char>, ReadAnswer)>, name: Seq<char>, st: LoadState) -> (
    Option<Result<(), LoadStop>>,
    LoadState,
)
    decreases st.budget, 1int, 0int,
{
    if names_module(st.visited, name) {
        (Some(Ok(())), st)
    } else if st.in_progress.contains(name) {
        (Some(Err(LoadStop::Cycle(name))), st)
    } else if st.budget == 0 {
        (Some(Err(LoadStop::Limit)), st)
    } else if st.pos >= log.len() || log[st.pos as int].0 != name {
        (None, st)
    } else {
        let st1 = LoadState {
            visited: st.visited,
            in_progress: st.in_progress.push(name),
            budget: (st.budget - 1) as nat,
            pos: st.pos + 1,
        };
        match log[st.pos as int].1 {
            ReadAnswer::Failed(e) => (Some(Err(LoadStop::Given(e))), st1),
            ReadAnswer::Read { text, tokens, parsed } => if !parses_as(name, text, tokens, parsed) {
                (None, st1)
            } else {
                match parsed {
                    Err(e) => (Some(Err(LoadStop::Given(e))), st1),
                    Ok(m) => {
                        let (r, st2) = load_imports_spec(log, m, 0, st1);
                        match r {
                            Some(Ok(())) => (
                                Some(Ok(())),
                                LoadState {
                                    visited: st2.visited.push(m),
                                    in_progress: st2.in_progress.drop_last(),
                                    budget: st2.budget,
                                    pos: st2.pos,
                                },
                            ),
                            _ => (r, st2),
                        }
                    },
                }
            },
        }
    }
}

/// Loading the imports of `m` from the `k`-th on, in order, stopping at the
/// first that fails.
pub open spec fn load_imports_spec(log: Seq<(Seq<char>, ReadAnswer)>, m: LoadedModule, k: int, st: LoadState) -> (
    Option<Result<(), LoadStop>>,
    LoadState,
)
    decreases st.budget + 1, 0int, m.imports@.len() - k,
{
    if k < 0 || k >= m.imports@.len() {
        (Some(Ok(())), st)
    } else {
        let (r, st2) = load_spec(log, m.imports@[k]@, st);
        match r {
            Some(Ok(())) => if st2.budget <= st.budget {
                load_imports_spec(log, m, k + 1, st2)
            } else {
                (None, st2)
            },
            _ => (r, st2),
        }
    }
}

/// Loading `entry` with the reads answered as `log` records gives `r`:
/// the first read names `entry`, every read of the log is made, and
/// either the loaded modules link to `r`, or `r` is the error the load
/// stopped with.
pub open spec fn load_outcome(entry: Seq<char>, log: Seq<(Seq<char>, ReadAnswer)>, r: Result<Program, LoadError>) -> bool {
    &&& log.len() > 0
    &&& log[0].0 == entry
    &&& match load_spec(
        log,
        entry,
        LoadState { visited: Seq::empty(), in_progress: Seq::empty(), budget: LOAD_BUDGET as nat, pos: 0 },
    ) {
        (Some(Ok(())), st) => st.pos == log.len() && link_outcome(st.visited, r),
        (Some(Err(stop)), st) => st.pos == log.len() && (r matches Err(e) && stops_with(stop, e)),
        (None, _) => false,
    }
}

/// What the source answered in a read: its error, or the text it gave.
pub open spec fn read_answer(a: ReadAnswer) -> Result<Seq<char>, LoadError> {
    match a {
        ReadAnswer::Failed(e) => Err(e),
        ReadAnswer::Read { text, .. } => Ok(text),
    }
}

/// Every read in `log` got an answer `source` may give for that name.
pub open spec fn answered_by<M: ModuleSource>(source: M, log: Seq<(Seq<char>, ReadAnswer)>) -> bool {
    forall|i: int| 0 <= i < log.len() ==> source.answers(#[trigger] log[i].0, read_answer(log[i].1))
}

/// `res` is what the load that returned `r` and left state `st` amounts to.
pub open spec fn loads_as(res: (Option<Result<(), LoadStop>>, LoadState), r: Result<(), LoadError>, st: LoadState) -> bool {
    &&& res.1 == st
    &&& match r {
        Ok(()) => res.0 == Some(Ok::<(), LoadStop>(())),
        Err(e) => res.0 matches Some(Err(stop)) && stops_with(stop, e),
    }
}

proof fn lemma_listed_views(v: Seq<String>, name: Seq<char>)
    ensures
        listed(v, name) == string_views(v).contains(name),
{
    if listed(v, name) {
        let j = choose|j: int| 0 <= j < v.len() && (#[trigger] v[j])@ == name;
        assert(string_views(v)[j] == name);
    }
    if string_views(v).contains(name) {
        let j = choose|j: int| 0 <= j < string_views(v).len() && string_views(v)[j] == name;
        assert(v[j]@ == name);
    }
}

/// Loads module `name` and, first, everything it imports, depth first.
fn load_module<M: ModuleSource>(
    name: &String,
    source: &M,
    visited: &mut Vec<LoadedModule>,
    in_progress: &mut Vec<String>,
    budget: &mut u64,
    log: &mut Ghost<Seq<(Seq<char>, ReadAnswer)>>,
) -> (r: Result<(), LoadError>)
    requires
        answered_by(*source, old(log)@),
        distinct_names(old(visited)@),
        imports_loaded_before(old(visited)@),
        forall|j: int| 0 <= j < old(visited)@.len() ==> parsed(#[trigger] old(visited)@[j]),
    ensures
        distinct_names(final(visited)@),
        imports_loaded_before(final(visited)@),
        forall|j: int| 0 <= j < final(visited)@.len() ==> parsed(#[trigger] final(visited)@[j]),
        old(visited)@.len() <= final(visited)@.len(),
        final(visited)@.subrange(0, old(visited)@.len() as int) == old(visited)@,
        *final(budget) <= *old(budget),
        extends_log(old(log)@, final(log)@),
        answered_by(*source, final(log)@),
        forall|full: Seq<(Seq<char>, ReadAnswer)>|
            extends_log(final(log)@, full) ==> loads_as(
                #[trigger] load_spec(full, name@, state_of(old(visited)@, old(in_progress)@, *old(budget), old(log)@.len())),
                r,
                state_of(final(visited)@, final(in_progress)@, *final(budget), final(log)@.len()),
            ),
        r is Ok ==> {
            &&& names_module(final(visited)@, name@)
            &&& !names_module(old(visited)@, name@) ==> final(visited)@.last().name@ == name@
            &&& names_module(old(visited)@, name@) ==> final(visited)@ == old(visited)@
            &&& reached_from_last(final(visited)@, old(visited)@.len() as int)
            &&& final(in_progress)@ == old(in_progress)@
            &&& forall|j: int|
                old(visited)@.len() <= j < final(visited)@.len() ==> !listed(
                    old(in_progress)@,
                    (#[trigger] final(visited)@[j]).name@,
                )
        },
    decreases *old(budget),
{
    proof {
        lemma_listed_views(in_progress@, name@);
    }
    if has_module(visited, name) {
        proof {
            assert(visited@.subrange(0, visited@.len() as int) =~= visited@);
        }
        return Ok(());
    }
    if is_listed(in_progress, name) {
        proof {
            assert(visited@.subrange(0, visited@.len() as int) =~= visited@);
        }
        proof {
            lemma_listed_views(in_progress@, name@);
        }
        return Err(LoadError::CyclicImport(name.clone()));
    }
    if *budget == 0 {
        proof {
            assert(visited@.subrange(0, visited@.len() as int) =~= visited@);
        }
        return Err(LoadError::ModuleLimitExceeded);
    }
    *budget = *budget - 1;
    let ghost start_visited = visited@;
    let ghost start_progress = in_progress@;
    let ghost start_pos = log@.len();
    let ghost st0 = state_of(old(visited)@, old(in_progress)@, *old(budget), old(log)@.len());
    in_progress.push(name.clone());
    let ghost st1 = state_of(visited@, in_progress@, *budget, start_pos + 1);
    proof {
        assert(visited@.subrange(0, visited@.len() as int) =~= visited@);
        assert(string_views(in_progress@) =~= string_views(start_progress).push(name@));
        assert(!st0.in_progress.contains(name@));
    }
    let read = source.read_module(name.as_str());
    let text = match read {
        Ok(t) => t,
        Err(e) => {
            *log = Ghost(log@.push((name@, ReadAnswer::Failed(e))));
            proof {
                assert(read_answer(log@[start_pos as int].1) == text_answer(read));
                assert(answered_by(*source, log@));
                assert forall|full: Seq<(Seq<char>, ReadAnswer)>| extends_log(log@, full) implies loads_as(
                    #[trigger] load_spec(full, name@, st0),
                    Err::<(), LoadError>(e),
                    state_of(visited@, in_progress@, *budget, log@.len()),
                ) by {
                    assert(full[start_pos as int] == log@[start_pos as int]);
                }
            }
            return Err(e);
        },
    };
    let (outcome, Ghost(toks)) = parse_module(name, &text);
    *log = Ghost(log@.push((name@, ReadAnswer::Read { text: text@, tokens: toks, parsed: outcome })));
    let ghost entry = log@[start_pos as int];
    proof {
        assert(read_answer(entry.1) == text_answer(read));
        assert(answered_by(*source, log@));
    }
    let module = match outcome {
        Ok(m) => m,
        Err(e) => {
            proof {
                assert forall|full: Seq<(Seq<char>, ReadAnswer)>| extends_log(log@, full) implies loads_as(
                    #[trigger] load_spec(full, name@, st0),
                    Err::<(), LoadError>(e),
                    state_of(visited@, in_progress@, *budget, log@.len()),
                ) by {
                    assert(full[start_pos as int] == log@[start_pos as int]);
                }
            }
            return Err(e);
        },
    };
    proof {
        assert forall|full: Seq<(Seq<char>, ReadAnswer)>| extends_log(log@, full) implies #[trigger] load_imports_spec(
            full,
            module,
            0,
            st1,
        ) == load_imports_spec(full, module, 0, state_of(visited@, in_progress@, *budget, log@.len())) by {
        }
    }
    let mut k: usize = 0;
    while k < module.imports.len()
        invariant
            k <= module.imports@.len(),
            module.name@ == name@,
            distinct_names(visited@),
            imports_loaded_before(visited@),
            forall|j: int| 0 <= j < visited@.len() ==> parsed(#[trigger] visited@[j]),
            module_derives(text@, module),
            start_visited.len() <= visited@.len(),
            visited@.subrange(0, start_visited.len() as int) == start_visited,
            start_visited == old(visited)@,
            start_progress == old(in_progress)@,
            in_progress@ == start_progress.push(in_progress@.last()),
            in_progress@.last()@ == name@,
            !listed(start_progress, name@),
            !names_module(visited@, name@),
            forall|j: int|
                start_visited.len() <= j < visited@.len() ==> !listed(
                    start_progress,
                    (#[trigger] visited@[j]).name@,
                ),
            forall|q: int| 0 <= q < k ==> names_module(visited@, (#[trigger] module.imports@[q])@),
            forall|i: int|
                #![trigger visited@[i]]
                start_visited.len() <= i < visited@.len() ==> (exists|j: int|
                    #![trigger visited@[j]]
                    i < j < visited@.len() && listed(visited@[j].imports@, visited@[i].name@)) || listed(
                    module.imports@,
                    visited@[i].name@,
                ),
            *budget < *old(budget),
            extends_log(old(log)@, log@),
            answered_by(*source, log@),
            start_pos == old(log)@.len(),
            start_pos < log@.len(),
            entry == log@[start_pos as int],
            entry == (name@, ReadAnswer::Read { text: text@, tokens: toks, parsed: Ok::<LoadedModule, LoadError>(module) }),
            parses_as(name@, text@, toks, Ok::<LoadedModule, LoadError>(module)),
            st0 == state_of(old(visited)@, old(in_progress)@, *old(budget), old(log)@.len()),
            !st0.in_progress.contains(name@),
            !names_module(st0.visited, name@),
            st0.budget > 0,
            st1 == (LoadState {
                visited: st0.visited,
                in_progress: st0.in_progress.push(name@),
                budget: (st0.budget - 1) as nat,
                pos: st0.pos + 1,
            }),
            forall|full: Seq<(Seq<char>, ReadAnswer)>|
                extends_log(log@, full) ==> #[trigger] load_imports_spec(full, module, 0, st1)
                    == load_imports_spec(full, module, k as int, state_of(visited@, in_progress@, *budget, log@.len())),
        decreases module.imports.len() - k,
    {
        let ghost before = visited@;
        let ghost before_progress = in_progress@;
        let ghost before_log = log@;
        let ghost cur = state_of(visited@, in_progress@, *budget, log@.len());
        match load_module(&module.imports[k], source, visited, in_progress, budget, log) {
            Ok(()) => {},
            Err(e) => {
                proof {
                    assert forall|full: Seq<(Seq<char>, ReadAnswer)>| extends_log(log@, full) implies loads_as(
                        #[trigger] load_spec(full, name@, st0),
                        Err::<(), LoadError>(e),
                        state_of(visited@, in_progress@, *budget, log@.len()),
                    ) by {
                        assert(extends_log(before_log, full));
                        assert(full[start_pos as int] == log@[start_pos as int]);
                        assert(load_imports_spec(full, module, 0, st1) == load_imports_spec(full, module, k as int, cur));
                        assert(loads_as(load_spec(full, module.imports@[k as int]@, cur), Err::<(), LoadError>(e), state_of(visited@, in_progress@, *budget, log@.len())));
                    }
                    assert(visited@.subrange(0, start_visited.len() as int) =~= visited@.subrange(0, before.len() as int).subrange(0, start_visited.len() as int));
                }
                return Err(e);
            },
        }
        proof {
            assert(visited@.subrange(0, start_visited.len() as int) =~= visited@.subrange(0, before.len() as int).subrange(0, start_visited.len() as int));
            assert forall|j: int| start_visited.len() <= j < visited@.len() implies !listed(
                start_progress,
                (#[trigger] visited@[j]).name@,
            ) by {
                if j < before.len() {
                    assert(visited@[j] == visited@.subrange(0, before.len() as int)[j]);
                    assert(visited@[j] == before[j]);
                } else {
                    assert(!listed(before_progress, visited@[j].name@));
                    if listed(start_progress, visited@[j].name@) {
                        let w = choose|w: int| 0 <= w < start_progress.len() && (#[trigger] start_progress[w])@ == visited@[j].name@;
                        assert(before_progress[w] == start_progress[w]);
                    }
                }
            }
            assert(!names_module(visited@, name@)) by {
                if names_module(visited@, name@) {
                    let j = choose|j: int| 0 <= j < visited@.len() && (#[trigger] visited@[j]).name@ == name@;
                    if j < before.len() {
                        assert(visited@[j] == visited@.subrange(0, before.len() as int)[j]);
                        assert(before[j] == visited@[j]);
                    } else {
                        assert(!listed(before_progress, visited@[j].name@));
                        let last = before_progress.len() - 1;
                        assert(before_progress[last]@ == name@);
                    }
                }
            }
            assert forall|q: int| 0 <= q < k + 1 implies names_module(visited@, (#[trigger] module.imports@[q])@) by {
                if q < k {
                    let j = choose|j: int| 0 <= j < before.len() && (#[trigger] before[j]).name@ == module.imports@[q]@;
                    assert(visited@[j] == visited@.subrange(0, before.len() as int)[j]);
                }
            }
            assert forall|i: int|
                #![trigger visited@[i]]
                start_visited.len() <= i < visited@.len() implies (exists|j: int|
                    #![trigger visited@[j]]
                    i < j < visited@.len() && listed(visited@[j].imports@, visited@[i].name@)) || listed(
                    module.imports@,
                    visited@[i].name@,
                ) by {
                if i < before.len() {
                    assert(visited@[i] == visited@.subrange(0, before.len() as int)[i]);
                    if !listed(module.imports@, before[i].name@) {
                        let j = choose|j: int|
                            #![trigger before[j]]
                            i < j < before.len() && listed(before[j].imports@, before[i].name@);
                        assert(visited@[j] == visited@.subrange(0, before.len() as int)[j]);
                    }
                } else if i < visited@.len() - 1 {
                } else {
                    assert(module.imports@[k as int]@ == visited@[i].name@);
                    assert(listed(module.imports@, visited@[i].name@));
                }
            }
        }
        proof {
            assert forall|full: Seq<(Seq<char>, ReadAnswer)>| extends_log(log@, full) implies #[trigger] load_imports_spec(
                full,
                module,
                0,
                st1,
            ) == load_imports_spec(full, module, k + 1, state_of(visited@, in_progress@, *budget, log@.len())) by {
                assert(extends_log(before_log, full));
                assert(load_imports_spec(full, module, 0, st1) == load_imports_spec(full, module, k as int, cur));
                assert(loads_as(load_spec(full, module.imports@[k as int]@, cur), Ok::<(), LoadError>(()), state_of(visited@, in_progress@, *budget, log@.len())));
            }
        }
        k = k + 1;
    }
    let ghost cur_end = state_of(visited@, in_progress@, *budget, log@.len());
    in_progress.pop();
    let ghost mid = visited@;
    visited.push(module);
    proof {
        assert(in_progress@ =~= start_progress);
        assert(visited@.subrange(0, start_visited.len() as int) =~= mid.subrange(0, start_visited.len() as int));
        assert(visited@.last().name@ == name@);
        assert(names_module(visited@, name@));
        assert forall|i: int, j: int| 0 <= i < j < visited@.len() implies (#[trigger] visited@[i]).name@
            != (#[trigger] visited@[j]).name@ by {
            if j < mid.len() {
                assert(visited@[i] == mid[i] && visited@[j] == mid[j]);
            } else {
                assert(visited@[i] == mid[i]);
            }
        }
        assert forall|i: int, q: int|
            0 <= i < visited@.len() && 0 <= q < visited@[i].imports@.len() implies #[trigger] import_before(visited@, i, q) by {
            if i < mid.len() {
                assert(visited@[i] == mid[i]);
                assert(import_before(mid, i, q));
                let j = choose|j: int| 0 <= j < i && (#[trigger] mid[j]).name@ == mid[i].imports@[q]@;
                assert(visited@[j] == mid[j]);
            } else {
                assert(names_module(mid, visited@[i].imports@[q]@));
                let j = choose|j: int| 0 <= j < mid.len() && (#[trigger] mid[j]).name@ == visited@[i].imports@[q]@;
                assert(visited@[j] == mid[j]);
            }
        }
        assert forall|j: int| start_visited.len() <= j < visited@.len() implies !listed(
            start_progress,
            (#[trigger] visited@[j]).name@,
        ) by {
            if j < mid.len() {
                assert(visited@[j] == mid[j]);
            }
        }
        assert forall|j: int| 0 <= j < visited@.len() implies parsed(#[trigger] visited@[j]) by {
            if j < mid.len() {
                assert(visited@[j] == mid[j]);
            } else {
                assert(module_derives(text@, visited@[j]));
            }
        }
        assert forall|i: int|
            #![trigger visited@[i]]
            start_visited.len() <= i < visited@.len() - 1 implies exists|j: int|
                #![trigger visited@[j]]
                i < j < visited@.len() && listed(visited@[j].imports@, visited@[i].name@) by {
            assert(visited@[i] == mid[i]);
            if listed(module.imports@, mid[i].name@) {
                let last = visited@.len() - 1;
                assert(visited@[last] == module);
            } else {
                let j = choose|j: int| #![trigger mid[j]] i < j < mid.len() && listed(mid[j].imports@, mid[i].name@);
                assert(visited@[j] == mid[j]);
            }
        }
    }
    proof {
        assert(string_views(in_progress@) =~= cur_end.in_progress.drop_last());
        assert forall|full: Seq<(Seq<char>, ReadAnswer)>| extends_log(log@, full) implies loads_as(
            #[trigger] load_spec(full, name@, st0),
            Ok::<(), LoadError>(()),
            state_of(visited@, in_progress@, *budget, log@.len()),
        ) by {
            assert(full[start_pos as int] == log@[start_pos as int]);
            assert(load_imports_spec(full, module, 0, st1) == load_imports_spec(full, module, k as int, cur_end));
        }
    }
    Ok(())
}

/// Loads the program whose entry module is `entry`: that module and,
/// transitively, every module it imports, read from `source` and linked
/// into one program. Whatever `source` gives back, a program that loads
/// is the link of a set of modules read once each, every import before
/// its importer, the entry last, and every other module imported by one
/// loaded after it. And the result is what `load_outcome` gives for the
/// reads the load made, the first of them naming `entry`: an error the
/// source gave is passed on, a text loads as `parses_as` says, a module
/// reached again while its imports are loading is a `CyclicImport`, and
/// the loaded modules are linked. Every read in that log got an answer
/// `source` may give (`ModuleSource::answers`); for a map of texts, the
/// text stored under the name read.
pub fn load_program<M: ModuleSource>(entry: &str, source: &M) -> (r: Result<Program, LoadError>)
    ensures
        r is Ok ==> exists|ms: Seq<LoadedModule>|
            #[trigger] closed_load(ms, entry@) && link_outcome(ms, r) && forall|j: int|
                0 <= j < ms.len() ==> parsed(#[trigger] ms[j]),
        exists|log: Seq<(Seq<char>, ReadAnswer)>| #[trigger] load_outcome(entry@, log, r) && answered_by(*source, log),
{
    let mut visited: Vec<LoadedModule> = Vec::new();
    let mut in_progress: Vec<String> = Vec::new();
    let mut budget: u64 = LOAD_BUDGET;
    let entry_name = string_of(entry);
    proof {
        assert(visited@.len() == 0);
    }
    let mut log: Ghost<Seq<(Seq<char>, ReadAnswer)>> = Ghost(Seq::empty());
    let ghost st0 = state_of(visited@, in_progress@, budget, 0);
    proof {
        assert(string_views(in_progress@) =~= Seq::<Seq<char>>::empty());
        assert(extends_log(log@, log@));
        assert(answered_by(*source, log@));
    }
    match load_module(&entry_name, source, &mut visited, &mut in_progress, &mut budget, &mut log) {
        Ok(()) => {},
        Err(e) => {
            proof {
                assert(extends_log(log@, log@));
                assert(loads_as(load_spec(log@, entry@, st0), Err::<(), LoadError>(e), state_of(visited@, in_progress@, budget, log@.len())));
                assert(load_outcome(entry@, log@, Err::<Program, LoadError>(e)));
            }
            return Err(e);
        },
    }
    let ghost ms = visited@;
    proof {
        assert(!names_module(Seq::<LoadedModule>::empty(), entry@));
        assert(closed_load(ms, entry@));
        assert(extends_log(log@, log@));
        assert(loads_as(load_spec(log@, entry@, st0), Ok::<(), LoadError>(()), state_of(visited@, in_progress@, budget, log@.len())));
    }
    let r = link_modules(visited);
    proof {
        assert(load_outcome(entry@, log@, r));
    }
    r
}


// ---- what a module refers to reaches the visibility check ----

/// The expressions directly inside `e`: both operands of a binary
/// operator, a call's arguments, the field values of a struct or enum
/// literal, the object of a field access, an array's elements, the array
/// and index of an indexing, and the operand of `?`.
pub open spec fn subexprs(e: Expr) -> Seq<Expr> {
    match e {
        Expr::Binary { left, right, .. } => seq![*left, *right],
        Expr::Call { args, .. } => args@,
        Expr::StructLiteral { fields, .. } => fields@.map_values(|f: (String, Expr)| f.1),
        Expr::EnumLiteral { fields, .. } => fields@.map_values(|f: (String, Expr)| f.1),
        Expr::FieldAccess { object, .. } => seq![*object],
        Expr::ArrayLiteral(es) => es@,
        Expr::Index { array, index } => seq![*array, *index],
        Expr::Try(inner) => seq![*inner],
        _ => Seq::empty(),
    }
}

/// The declaration `e` itself names, not counting those inside it: a
/// call's function, a struct literal's struct, an enum literal's enum.
pub open spec fn own_ref(e: Expr) -> Option<(RefKind, Seq<char>)> {
    match e {
        Expr::Call { callee, .. } => Some((RefKind::Function, callee@)),
        Expr::StructLiteral { name, .. } => Some((RefKind::Struct, name@)),
        Expr::EnumLiteral { enum_name, .. } => Some((RefKind::Enum, enum_name@)),
        _ => None,
    }
}

proof fn lemma_contains_concat<T>(a: Seq<T>, b: Seq<T>, x: T)
    ensures
        (a.contains(x) || b.contains(x)) ==> (a + b).contains(x),
{
    if a.contains(x) {
        let i = choose|i: int| 0 <= i < a.len() && a[i] == x;
        assert((a + b)[i] == x);
    } else if b.contains(x) {
        let i = choose|i: int| 0 <= i < b.len() && b[i] == x;
        assert((a + b)[a.len() + i] == x);
    }
}

proof fn lemma_exprs_refs_each(es: Seq<Expr>, i: int, x: (RefKind, Seq<char>))
    requires
        0 <= i < es.len(),
        expr_refs(es[i]).contains(x),
    ensures
        exprs_refs(es).contains(x),
    decreases es.len(),
{
    let init = es.subrange(0, es.len() - 1);
    if i < es.len() - 1 {
        assert(init[i] == es[i]);
        lemma_exprs_refs_each(init, i, x);
    }
    lemma_contains_concat(exprs_refs(init), expr_refs(es[es.len() - 1]), x);
}

proof fn lemma_field_refs_each(fs: Seq<(String, Expr)>, i: int, x: (RefKind, Seq<char>))
    requires
        0 <= i < fs.len(),
        expr_refs(fs[i].1).contains(x),
    ensures
        field_refs(fs).contains(x),
    decreases fs.len(),
{
    let init = fs.subrange(0, fs.len() - 1);
    if i < fs.len() - 1 {
        assert(init[i] == fs[i]);
        lemma_field_refs_each(init, i, x);
    }
    lemma_contains_concat(field_refs(init), expr_refs(fs[fs.len() - 1].1), x);
}

/// Everything an expression directly inside `e` refers to, `e` refers to
/// as well: no operand, argument, field value or element escapes the
/// visibility check.
pub proof fn lemma_refs_reach_subexprs(e: Expr, i: int, x: (RefKind, Seq<char>))
    requires
        0 <= i < subexprs(e).len(),
        expr_refs(subexprs(e)[i]).contains(x),
    ensures
        expr_refs(e).contains(x),
{
    match e {
        Expr::Binary { left, right, .. } => {
            lemma_contains_concat(expr_refs(*left), expr_refs(*right), x);
        },
        Expr::Call { callee, args } => {
            lemma_exprs_refs_each(args@, i, x);
            lemma_contains_concat(seq![(RefKind::Function, callee@)], exprs_refs(args@), x);
        },
        Expr::StructLiteral { name, fields } => {
            lemma_field_refs_each(fields@, i, x);
            lemma_contains_concat(seq![(RefKind::Struct, name@)], field_refs(fields@), x);
        },
        Expr::EnumLiteral { enum_name, fields, .. } => {
            lemma_field_refs_each(fields@, i, x);
            lemma_contains_concat(seq![(RefKind::Enum, enum_name@)], field_refs(fields@), x);
        },
        Expr::ArrayLiteral(es) => {
            lemma_exprs_refs_each(es@, i, x);
        },
        Expr::Index { array, index } => {
            lemma_contains_concat(expr_refs(*array), expr_refs(*index), x);
        },
        _ => {},
    }
}

/// The declaration an expression itself names is among what it refers to.
pub proof fn lemma_own_ref_checked(e: Expr)
    requires
        own_ref(e) is Some,
    ensures
        expr_refs(e).contains(own_ref(e)->0),
{
    let x = own_ref(e)->0;
    match e {
        Expr::Call { callee, args } => {
            lemma_contains_concat(seq![x], exprs_refs(args@), x);
            assert(seq![x][0] == x);
        },
        Expr::StructLiteral { name, fields } => {
            lemma_contains_concat(seq![x], field_refs(fields@), x);
            assert(seq![x][0] == x);
        },
        Expr::EnumLiteral { enum_name, fields, .. } => {
            lemma_contains_concat(seq![x], field_refs(fields@), x);
            assert(seq![x][0] == x);
        },
        _ => {},
    }
}

proof fn lemma_stmts_refs_each(ss: Seq<Stmt>, j: int, x: (RefKind, Seq<char>))
    requires
        0 <= j < ss.len(),
        stmt_refs(ss[j]).contains(x),
    ensures
        stmts_refs(ss).contains(x),
    decreases ss.len(),
{
    let init = ss.subrange(0, ss.len() - 1);
    if j < ss.len() - 1 {
        assert(init[j] == ss[j]);
        lemma_stmts_refs_each(init, j, x);
    }
    lemma_contains_concat(stmts_refs(init), stmt_refs(ss[ss.len() - 1]), x);
}

proof fn lemma_functions_refs_each(fs: Seq<FunctionDecl>, k: int, x: (RefKind, Seq<char>))
    requires
        0 <= k < fs.len(),
        function_refs(fs[k]).contains(x),
    ensures
        functions_refs(fs).contains(x),
    decreases fs.len(),
{
    if k < fs.len() - 1 {
        assert(fs.drop_last()[k] == fs[k]);
        lemma_functions_refs_each(fs.drop_last(), k, x);
    }
    lemma_contains_concat(functions_refs(fs.drop_last()), function_refs(fs.last()), x);
}

/// What a statement of a function's body refers to, its module refers to.
pub proof fn lemma_body_refs_in_module(m: LoadedModule, k: int, j: int, x: (RefKind, Seq<char>))
    requires
        0 <= k < m.functions@.len(),
        0 <= j < m.functions@[k].body@.len(),
        stmt_refs(m.functions@[k].body@[j]).contains(x),
    ensures
        module_refs(m).contains(x),
{
    let f = m.functions@[k];
    lemma_stmts_refs_each(f.body@, j, x);
    lemma_contains_concat(return_refs(f.return_type) + type_refs(f.params@), stmts_refs(f.body@), x);
    lemma_functions_refs_each(m.functions@, k, x);
    lemma_contains_concat(functions_refs(m.functions@), structs_refs(m.structs@), x);
    lemma_contains_concat(functions_refs(m.functions@) + structs_refs(m.structs@), enums_refs(m.enums@), x);
}

proof fn lemma_first_blocked_some(o: Origins, m: LoadedModule, refs: Seq<(RefKind, Seq<char>)>, k: int)
    requires
        0 <= k < refs.len(),
        ref_blocked(o, m, refs[k]) is Some,
    ensures
        first_blocked(o, m, refs) is Some,
    decreases refs.len(),
{
    if k < refs.len() - 1 {
        assert(refs.drop_last()[k] == refs[k]);
        lemma_first_blocked_some(o, m, refs.drop_last(), k);
    }
}

proof fn lemma_visibility_error_some(o: Origins, ms: Seq<LoadedModule>, i: int)
    requires
        0 <= i < ms.len(),
        first_blocked(o, ms[i], module_refs(ms[i])) is Some,
    ensures
        visibility_error(o, ms) is Some,
    decreases ms.len(),
{
    if i < ms.len() - 1 {
        assert(ms.drop_last()[i] == ms[i]);
        lemma_visibility_error_some(o, ms.drop_last(), i);
    }
}

/// A module that refers, anywhere, to a declaration of another module
/// that is not exported, or whose module it does not import directly,
/// makes linking fail with `SymbolNotAccessible` (a name declared twice
/// is reported before that).
pub proof fn lemma_blocked_reference_fails(
    ms: Seq<LoadedModule>,
    i: int,
    x: (RefKind, Seq<char>),
    r: Result<Program, LoadError>,
)
    requires
        0 <= i < ms.len(),
        module_refs(ms[i]).contains(x),
        ref_blocked(origins(ms), ms[i], x) is Some,
        !has_repeat(decl_entries(ms)),
        link_outcome(ms, r),
    ensures
        r matches Err(LoadError::SymbolNotAccessible { .. }),
{
    let k = choose|k: int| 0 <= k < module_refs(ms[i]).len() && module_refs(ms[i])[k] == x;
    lemma_first_blocked_some(origins(ms), ms[i], module_refs(ms[i]), k);
    lemma_visibility_error_some(origins(ms), ms, i);
}

/// The expressions directly in statement `s`: a declaration's or
/// assignment's value (and an element assignment's index), an expression
/// statement, a condition, a returned value, a match's scrutinee.
pub open spec fn stmt_exprs(s: Stmt) -> Seq<Expr> {
    match s {
        Stmt::VariableDecl { value, .. } => seq![value],
        Stmt::Assign { value, .. } => seq![value],
        Stmt::IndexAssign { index, value, .. } => seq![index, value],
        Stmt::Expr(e) => seq![e],
        Stmt::If { condition, .. } => seq![condition],
        Stmt::While { condition, .. } => seq![condition],
        Stmt::Return(Some(x)) => seq![x],
        Stmt::Return(None) => Seq::empty(),
        Stmt::Match { scrutinee, .. } => seq![scrutinee],
    }
}

/// Pattern `p` names the enum in `x`.
pub open spec fn pattern_names(p: Pattern, x: (RefKind, Seq<char>)) -> bool {
    match p {
        Pattern::EnumVariant { enum_name, .. } => x == (RefKind::Enum, enum_name@),
        _ => false,
    }
}

/// The blocks directly in statement `s`: both branches of an `if`, a
/// loop's body, each arm's body.
pub open spec fn stmt_blocks(s: Stmt) -> Seq<Seq<Stmt>> {
    match s {
        Stmt::If { then_branch, else_branch, .. } => match else_branch {
            Some(b) => seq![then_branch@, b@],
            None => seq![then_branch@],
        },
        Stmt::While { body, .. } => seq![body@],
        Stmt::Match { arms, .. } => arms@.map_values(|a: MatchArm| a.body@),
        _ => Seq::empty(),
    }
}

proof fn lemma_arms_refs_each(arms: Seq<MatchArm>, i: int, x: (RefKind, Seq<char>))
    requires
        0 <= i < arms.len(),
        stmts_refs(arms[i].body@).contains(x) || pattern_refs(arms[i].pattern).contains(x),
    ensures
        arms_refs(arms).contains(x),
    decreases arms.len(),
{
    let init = arms.subrange(0, arms.len() - 1);
    let last = arms[arms.len() - 1];
    if i < arms.len() - 1 {
        assert(init[i] == arms[i]);
        lemma_arms_refs_each(init, i, x);
    }
    lemma_contains_concat(pattern_refs(last.pattern), stmts_refs(last.body@), x);
    lemma_contains_concat(arms_refs(init), pattern_refs(last.pattern), x);
    lemma_contains_concat(arms_refs(init) + pattern_refs(last.pattern), stmts_refs(last.body@), x);
}

/// Everything an expression or a nested statement directly in `s` refers
/// to, `s` refers to as well, and so does the enum a `match` arm's
/// pattern names: nothing in a branch, loop body or arm escapes the
/// visibility check.
pub proof fn lemma_refs_reach_stmt_parts(s: Stmt, x: (RefKind, Seq<char>))
    ensures
        (exists|i: int| 0 <= i < stmt_exprs(s).len() && expr_refs(#[trigger] stmt_exprs(s)[i]).contains(x))
            ==> stmt_refs(s).contains(x),
        (exists|i: int, j: int|
            0 <= i < stmt_blocks(s).len() && 0 <= j < stmt_blocks(s)[i].len() && stmt_refs(
                #[trigger] stmt_blocks(s)[i][j],
            ).contains(x)) ==> stmt_refs(s).contains(x),
        (s is Match && exists|i: int|
            0 <= i < s->Match_arms@.len() && #[trigger] pattern_names(s->Match_arms@[i].pattern, x)) ==> stmt_refs(
            s,
        ).contains(x),
{
    if exists|i: int| 0 <= i < stmt_exprs(s).len() && expr_refs(#[trigger] stmt_exprs(s)[i]).contains(x) {
        let i = choose|i: int| 0 <= i < stmt_exprs(s).len() && expr_refs(#[trigger] stmt_exprs(s)[i]).contains(x);
        match s {
            Stmt::IndexAssign { index, value, .. } => lemma_contains_concat(expr_refs(index), expr_refs(value), x),
            Stmt::If { condition, then_branch, else_branch } => {
                let rest = match else_branch {
                    Some(b) => stmts_refs(b@),
                    None => Seq::empty(),
                };
                lemma_contains_concat(expr_refs(condition), stmts_refs(then_branch@), x);
                lemma_contains_concat(expr_refs(condition) + stmts_refs(then_branch@), rest, x);
            },
            Stmt::While { condition, body } => lemma_contains_concat(expr_refs(condition), stmts_refs(body@), x),
            Stmt::Match { scrutinee, arms } => lemma_contains_concat(expr_refs(scrutinee), arms_refs(arms@), x),
            _ => {},
        }
    }
    if exists|i: int, j: int|
        0 <= i < stmt_blocks(s).len() && 0 <= j < stmt_blocks(s)[i].len() && stmt_refs(
            #[trigger] stmt_blocks(s)[i][j],
        ).contains(x) {
        let (i, j) = choose|i: int, j: int|
            0 <= i < stmt_blocks(s).len() && 0 <= j < stmt_blocks(s)[i].len() && stmt_refs(
                #[trigger] stmt_blocks(s)[i][j],
            ).contains(x);
        lemma_stmts_refs_each(stmt_blocks(s)[i], j, x);
        match s {
            Stmt::If { condition, then_branch, else_branch } => {
                let rest = match else_branch {
                    Some(b) => stmts_refs(b@),
                    None => Seq::empty(),
                };
                lemma_contains_concat(expr_refs(condition), stmts_refs(then_branch@), x);
                lemma_contains_concat(expr_refs(condition) + stmts_refs(then_branch@), rest, x);
            },
            Stmt::While { condition, body } => lemma_contains_concat(expr_refs(condition), stmts_refs(body@), x),
            Stmt::Match { scrutinee, arms } => {
                lemma_arms_refs_each(arms@, i, x);
                lemma_contains_concat(expr_refs(scrutinee), arms_refs(arms@), x);
            },
            _ => {},
        }
    }
    if s is Match && exists|i: int|
        0 <= i < s->Match_arms@.len() && #[trigger] pattern_names(s->Match_arms@[i].pattern, x) {
        match s {
            Stmt::Match { scrutinee, arms } => {
                let i = choose|i: int| 0 <= i < arms@.len() && #[trigger] pattern_names(arms@[i].pattern, x);
                assert(pattern_refs(arms@[i].pattern)[0] == x);
                lemma_arms_refs_each(arms@, i, x);
                lemma_contains_concat(expr_refs(scrutinee), arms_refs(arms@), x);
            },
            _ => {},
        }
    }
}

} // verus!
