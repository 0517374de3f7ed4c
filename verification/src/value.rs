//! Runtime values of the interpreter.
use vstd::prelude::*;
use crate::text::{concat, i64_to_string, int_text, string_of};

verus! {

/// A runtime value. The fields of a struct or enum value are kept in the
/// order their declaration lists them.
#[derive(Debug, PartialEq)]
pub enum Value {
    String(String),
    Int(i64),
    Bool(bool),
    /// The result of a function with no return statement, or a bare
    /// `return`. Not user-constructible from source syntax.
    Unit,
    Struct { name: String, fields: Vec<(String, Value)> },
    Array(Vec<Value>),
    Enum { enum_name: String, variant: String, fields: Vec<(String, Value)> },
}

/// `a` and `b` are the same value: same shape, same texts and numbers.
pub open spec fn same_value(a: Value, b: Value) -> bool
    decreases a,
{
    match (a, b) {
        (Value::String(x), Value::String(y)) => x@ == y@,
        (Value::Int(x), Value::Int(y)) => x == y,
        (Value::Bool(x), Value::Bool(y)) => x == y,
        (Value::Unit, Value::Unit) => true,
        (Value::Struct { name: n1, fields: f1 }, Value::Struct { name: n2, fields: f2 }) => n1@
            == n2@ && f1@.len() == f2@.len() && forall|i: int|
            0 <= i < f1@.len() ==> (#[trigger] f1@[i]).0@ == f2@[i].0@ && same_value(f1@[i].1, f2@[i].1),
        (Value::Array(x), Value::Array(y)) => x@.len() == y@.len() && forall|i: int|
            0 <= i < x@.len() ==> same_value(#[trigger] x@[i], y@[i]),
        (
            Value::Enum { enum_name: e1, variant: v1, fields: f1 },
            Value::Enum { enum_name: e2, variant: v2, fields: f2 },
        ) => e1@ == e2@ && v1@ == v2@ && f1@.len() == f2@.len() && forall|i: int|
            0 <= i < f1@.len() ==> (#[trigger] f1@[i]).0@ == f2@[i].0@ && same_value(f1@[i].1, f2@[i].1),
        _ => false,
    }
}

/// The short name of a value's type, used in error messages.
pub open spec fn spec_type_label(v: Value) -> Seq<char> {
    match v {
        Value::String(_) => "String"@,
        Value::Int(_) => "Int"@,
        Value::Bool(_) => "Bool"@,
        Value::Unit => "Unit"@,
        Value::Struct { name, .. } => name@,
        Value::Array(_) => "Array"@,
        Value::Enum { enum_name, .. } => enum_name@,
    }
}

/// How a value is rendered by `print`: strings as their text, integers in
/// decimal, booleans as `true`/`false`, Unit as nothing, a struct as
/// `Name { a: 1, b: 2 }` with fields sorted by name, an array as
/// `[1, 2]`, an enum value as `E::V` or `E::V(a: 1)` (fields sorted).
pub open spec fn display_spec(v: Value) -> Seq<char>
    decreases v, 1int,
{
    match v {
        Value::String(s) => s@,
        Value::Int(i) => int_text(i as int),
        Value::Bool(b) => if b {
            "true"@
        } else {
            "false"@
        },
        Value::Unit => Seq::empty(),
        Value::Struct { name, fields } => name@ + " { "@ + join_entries(sort_entries(render_entries(fields@)))
            + " }"@,
        Value::Array(items) => "["@ + join_items(render_items(items@)) + "]"@,
        Value::Enum { enum_name, variant, fields } => if fields@.len() == 0 {
            enum_name@ + "::"@ + variant@
        } else {
            enum_name@ + "::"@ + variant@ + "("@ + join_entries(sort_entries(render_entries(fields@)))
                + ")"@
        },
    }
}

/// Each field's name with its value rendered.
pub open spec fn render_entries(fs: Seq<(String, Value)>) -> Seq<(Seq<char>, Seq<char>)>
    decreases fs, 0int,
{
    if fs.len() == 0 {
        Seq::empty()
    } else {
        render_entries(fs.subrange(0, fs.len() - 1)).push(
            (fs[fs.len() - 1].0@, display_spec(fs[fs.len() - 1].1)),
        )
    }
}

/// Each item rendered.
pub open spec fn render_items(items: Seq<Value>) -> Seq<Seq<char>>
    decreases items, 0int,
{
    if items.len() == 0 {
        Seq::empty()
    } else {
        render_items(items.subrange(0, items.len() - 1)).push(display_spec(items[items.len() - 1]))
    }
}

/// `a` comes before `b` in lexicographic order of characters.
pub open spec fn text_less(a: Seq<char>, b: Seq<char>) -> bool
    decreases a.len(),
{
    if a.len() == 0 {
        b.len() > 0
    } else if b.len() == 0 {
        false
    } else if (a[0] as int) < (b[0] as int) {
        true
    } else if (a[0] as int) > (b[0] as int) {
        false
    } else {
        text_less(a.drop_first(), b.drop_first())
    }
}

/// `e` placed into sorted `s` after every entry whose name is not greater.
pub open spec fn insert_sorted(s: Seq<(Seq<char>, Seq<char>)>, e: (Seq<char>, Seq<char>)) -> Seq<
    (Seq<char>, Seq<char>),
>
    decreases s.len(),
{
    if s.len() == 0 {
        seq![e]
    } else if text_less(e.0, s.last().0) {
        insert_sorted(s.drop_last(), e).push(s.last())
    } else {
        s.push(e)
    }
}

/// The entries sorted by name.
pub open spec fn sort_entries(es: Seq<(Seq<char>, Seq<char>)>) -> Seq<(Seq<char>, Seq<char>)>
    decreases es.len(),
{
    if es.len() == 0 {
        Seq::empty()
    } else {
        insert_sorted(sort_entries(es.drop_last()), es.last())
    }
}

/// `a: x, b: y`
pub open spec fn join_entries(es: Seq<(Seq<char>, Seq<char>)>) -> Seq<char>
    decreases es.len(),
{
    if es.len() == 0 {
        Seq::empty()
    } else if es.len() == 1 {
        es[0].0 + ": "@ + es[0].1
    } else {
        join_entries(es.drop_last()) + ", "@ + es.last().0 + ": "@ + es.last().1
    }
}

/// `x, y`
pub open spec fn join_items(items: Seq<Seq<char>>) -> Seq<char>
    decreases items.len(),
{
    if items.len() == 0 {
        Seq::empty()
    } else if items.len() == 1 {
        items[0]
    } else {
        join_items(items.drop_last()) + ", "@ + items.last()
    }
}

pub open spec fn entries_view(v: Seq<(String, String)>) -> Seq<(Seq<char>, Seq<char>)> {
    v.map_values(|p: (String, String)| (p.0@, p.1@))
}

pub open spec fn strings_view(v: Seq<String>) -> Seq<Seq<char>> {
    v.map_values(|s: String| s@)
}

impl Value {
    /// How this value is rendered when passed to `print`.
    pub fn display(&self) -> (r: String)
        ensures
            r@ == display_spec(*self),
            r@ == display_view(self@),
        decreases self, 1int,
    {
        proof {
            lemma_display_view(*self);
        }
        match self {
            Value::String(s) => s.clone(),
            Value::Int(i) => i64_to_string(*i),
            Value::Bool(b) => if *b {
                string_of("true")
            } else {
                string_of("false")
            },
            Value::Unit => String::new(),
            Value::Struct { name, fields } => {
                proof {
                    assert(decreases_to!(*self => self->Struct_fields));
                }
                let rendered = render_fields(fields);
                let sorted = sort_fields(rendered);
                let body = join_fields(&sorted);
                let head = concat(name, " { ");
                let with_body = concat(&head, body.as_str());
                concat(&with_body, " }")
            },
            Value::Array(items) => {
                proof {
                    assert(decreases_to!(*self => self->Array_0));
                }
                let rendered = render_values(items);
                let body = join_strings(&rendered);
                let head = string_of("[");
                let with_body = concat(&head, body.as_str());
                concat(&with_body, "]")
            },
            Value::Enum { enum_name, variant, fields } => {
                let head = concat(enum_name, "::");
                let head = concat(&head, variant.as_str());
                if fields.len() == 0 {
                    head
                } else {
                    proof {
                        assert(decreases_to!(*self => self->Enum_fields));
                    }
                    let rendered = render_fields(fields);
                    let sorted = sort_fields(rendered);
                    let body = join_fields(&sorted);
                    let with_open = concat(&head, "(");
                    let with_body = concat(&with_open, body.as_str());
                    concat(&with_body, ")")
                }
            },
        }
    }

    /// A short name of this value's type, used in error messages.
    pub fn type_label(&self) -> (r: String)
        ensures
            r@ == spec_type_label(*self),
            r@ == type_label_view(self@),
    {
        match self {
            Value::String(_) => string_of("String"),
            Value::Int(_) => string_of("Int"),
            Value::Bool(_) => string_of("Bool"),
            Value::Unit => string_of("Unit"),
            Value::Struct { name, .. } => name.clone(),
            Value::Array(_) => string_of("Array"),
            Value::Enum { enum_name, .. } => enum_name.clone(),
        }
    }
}

/// A copy of a value.
pub fn copy_value(v: &Value) -> (r: Value)
    ensures
        same_value(*v, r),
        r@ == v@,
    decreases v,
{
    let r = copy_value_same(v);
    proof {
        lemma_same_value_view(*v, r);
    }
    r
}

fn copy_value_same(v: &Value) -> (r: Value)
    ensures
        same_value(*v, r),
    decreases v,
{
    match v {
        Value::String(s) => Value::String(s.clone()),
        Value::Int(i) => Value::Int(*i),
        Value::Bool(b) => Value::Bool(*b),
        Value::Unit => Value::Unit,
        Value::Struct { name, fields } => {
            proof {
                assert(decreases_to!(*v => v->Struct_fields));
            }
            Value::Struct { name: name.clone(), fields: copy_fields(fields) }
        },
        Value::Array(items) => {
            let mut out: Vec<Value> = Vec::new();
            let mut i: usize = 0;
            while i < items.len()
                invariant
                    i <= items.len(),
                    out@.len() == i,
                    forall|k: int| 0 <= k < i ==> same_value(#[trigger] items@[k], out@[k]),
                    *v == Value::Array(*items),
                decreases items.len() - i,
            {
                proof {
                    assert(decreases_to!(*v => v->Array_0));
                    assert(decreases_to!(*items => items@));
                    assert(decreases_to!(items@ => items@[i as int]));
                }
                out.push(copy_value_same(&items[i]));
                i = i + 1;
            }
            Value::Array(out)
        },
        Value::Enum { enum_name, variant, fields } => {
            proof {
                assert(decreases_to!(*v => v->Enum_fields));
            }
            Value::Enum { enum_name: enum_name.clone(), variant: variant.clone(), fields: copy_fields(fields) }
        },
    }
}

/// Copies of named field values.
pub fn copy_fields(fields: &Vec<(String, Value)>) -> (r: Vec<(String, Value)>)
    ensures
        r@.len() == fields@.len(),
        forall|i: int| 0 <= i < fields@.len() ==> (#[trigger] fields@[i]).0@ == r@[i].0@ && same_value(fields@[i].1, r@[i].1),
    decreases fields,
{
    let mut out: Vec<(String, Value)> = Vec::new();
    let mut i: usize = 0;
    while i < fields.len()
        invariant
            i <= fields.len(),
            out@.len() == i,
            forall|k: int| 0 <= k < i ==> (#[trigger] fields@[k]).0@ == out@[k].0@ && same_value(fields@[k].1, out@[k].1),
        decreases fields.len() - i,
    {
        proof {
            assert(decreases_to!(*fields => fields@));
            assert(decreases_to!(fields@ => fields@[i as int]));
            assert(decreases_to!(fields@[i as int] => fields@[i as int].1));
        }
        out.push((fields[i].0.clone(), copy_value_same(&fields[i].1)));
        i = i + 1;
    }
    out
}

/// Whether two values are the same value.
pub fn values_equal(a: &Value, b: &Value) -> (r: bool)
    ensures
        r == same_value(*a, *b),
        r == (a@ == b@),
{
    proof {
        lemma_same_value_view(*a, *b);
    }
    same_values(a, b)
}

fn same_values(a: &Value, b: &Value) -> (r: bool)
    ensures
        r == same_value(*a, *b),
    decreases a,
{
    match (a, b) {
        (Value::String(x), Value::String(y)) => *x == *y,
        (Value::Int(x), Value::Int(y)) => *x == *y,
        (Value::Bool(x), Value::Bool(y)) => *x == *y,
        (Value::Unit, Value::Unit) => true,
        (Value::Struct { name: n1, fields: f1 }, Value::Struct { name: n2, fields: f2 }) => {
            proof {
                assert(decreases_to!(*a => a->Struct_fields));
            }
            *n1 == *n2 && fields_equal(f1, f2)
        },
        (Value::Array(x), Value::Array(y)) => {
            if x.len() != y.len() {
                return false;
            }
            let mut i: usize = 0;
            while i < x.len()
                invariant
                    i <= x.len(),
                    x@.len() == y@.len(),
                    forall|k: int| 0 <= k < i ==> same_value(#[trigger] x@[k], y@[k]),
                    *a == Value::Array(*x),
                    *b == Value::Array(*y),
                decreases x.len() - i,
            {
                proof {
                    assert(decreases_to!(*a => a->Array_0));
                    assert(decreases_to!(*x => x@));
                    assert(decreases_to!(x@ => x@[i as int]));
                }
                if !same_values(&x[i], &y[i]) {
                    proof {
                        assert(!same_value(x@[i as int], y@[i as int]));
                    }
                    return false;
                }
                i = i + 1;
            }
            true
        },
        (
            Value::Enum { enum_name: e1, variant: v1, fields: f1 },
            Value::Enum { enum_name: e2, variant: v2, fields: f2 },
        ) => {
            proof {
                assert(decreases_to!(*a => a->Enum_fields));
            }
            *e1 == *e2 && *v1 == *v2 && fields_equal(f1, f2)
        },
        _ => false,
    }
}

/// Whether two field lists hold the same names and values, in order.
fn fields_equal(f1: &Vec<(String, Value)>, f2: &Vec<(String, Value)>) -> (r: bool)
    ensures
        r == (f1@.len() == f2@.len() && forall|i: int|
            0 <= i < f1@.len() ==> (#[trigger] f1@[i]).0@ == f2@[i].0@ && same_value(f1@[i].1, f2@[i].1)),
    decreases f1,
{
    if f1.len() != f2.len() {
        return false;
    }
    let mut i: usize = 0;
    while i < f1.len()
        invariant
            i <= f1.len(),
            f1@.len() == f2@.len(),
            forall|k: int| 0 <= k < i ==> (#[trigger] f1@[k]).0@ == f2@[k].0@ && same_value(f1@[k].1, f2@[k].1),
        decreases f1.len() - i,
    {
        proof {
            assert(decreases_to!(*f1 => f1@));
            assert(decreases_to!(f1@ => f1@[i as int]));
            assert(decreases_to!(f1@[i as int] => f1@[i as int].1));
        }
        if f1[i].0 != f2[i].0 {
            return false;
        }
        if !same_values(&f1[i].1, &f2[i].1) {
            return false;
        }
        i = i + 1;
    }
    true
}

fn render_fields(fields: &Vec<(String, Value)>) -> (r: Vec<(String, String)>)
    ensures
        entries_view(r@) == render_entries(fields@),
    decreases fields, 0int,
{
    let mut out: Vec<(String, String)> = Vec::new();
    let mut i: usize = 0;
    while i < fields.len()
        invariant
            i <= fields.len(),
            entries_view(out@) == render_entries(fields@.subrange(0, i as int)),
        decreases fields.len() - i,
    {
        proof {
            assert(decreases_to!(*fields => fields@));
            assert(decreases_to!(fields@ => fields@[i as int]));
            assert(decreases_to!(fields@[i as int] => fields@[i as int].1));
        }
        let shown = fields[i].1.display();
        let ghost before = out@;
        out.push((fields[i].0.clone(), shown));
        proof {
            let sub = fields@.subrange(0, i + 1);
            assert(sub.subrange(0, sub.len() - 1) =~= fields@.subrange(0, i as int));
            assert(entries_view(out@) =~= entries_view(before).push((fields@[i as int].0@, shown@)));
        }
        i = i + 1;
    }
    proof {
        assert(fields@.subrange(0, fields@.len() as int) =~= fields@);
    }
    out
}

fn render_values(items: &Vec<Value>) -> (r: Vec<String>)
    ensures
        strings_view(r@) == render_items(items@),
    decreases items, 0int,
{
    let mut out: Vec<String> = Vec::new();
    let mut i: usize = 0;
    while i < items.len()
        invariant
            i <= items.len(),
            strings_view(out@) == render_items(items@.subrange(0, i as int)),
        decreases items.len() - i,
    {
        proof {
            assert(decreases_to!(*items => items@));
            assert(decreases_to!(items@ => items@[i as int]));
        }
        let shown = items[i].display();
        let ghost before = out@;
        out.push(shown);
        proof {
            let sub = items@.subrange(0, i + 1);
            assert(sub.subrange(0, sub.len() - 1) =~= items@.subrange(0, i as int));
            assert(strings_view(out@) =~= strings_view(before).push(shown@));
        }
        i = i + 1;
    }
    proof {
        assert(items@.subrange(0, items@.len() as int) =~= items@);
    }
    out
}

/// Whether `a` sorts before `b`.
fn less_text(a: &String, b: &String) -> (r: bool)
    ensures
        r == text_less(a@, b@),
{
    let x = a.as_str();
    let y = b.as_str();
    let n = x.unicode_len();
    let m = y.unicode_len();
    let mut i: usize = 0;
    proof {
        assert(a@.subrange(0, n as int) =~= a@);
        assert(b@.subrange(0, m as int) =~= b@);
    }
    while i < n && i < m
        invariant
            n == x@.len(),
            m == y@.len(),
            i <= n,
            i <= m,
            x@ == a@,
            y@ == b@,
            text_less(a@, b@) == text_less(a@.subrange(i as int, n as int), b@.subrange(i as int, m as int)),
        decreases n - i,
    {
        let c = x.get_char(i);
        let d = y.get_char(i);
        let ghost sa = a@.subrange(i as int, n as int);
        let ghost sb = b@.subrange(i as int, m as int);
        proof {
            assert(sa[0] == c);
            assert(sb[0] == d);
        }
        if (c as u32) < (d as u32) {
            return true;
        }
        if (c as u32) > (d as u32) {
            return false;
        }
        proof {
            assert(sa.drop_first() =~= a@.subrange(i + 1, n as int));
            assert(sb.drop_first() =~= b@.subrange(i + 1, m as int));
        }
        i = i + 1;
    }
    i == n && i < m
}

/// `e` placed into the sorted `s`.
fn insert_field(s: Vec<(String, String)>, e: (String, String)) -> (r: Vec<(String, String)>)
    ensures
        entries_view(r@) == insert_sorted(entries_view(s@), (e.0@, e.1@)),
    decreases s@.len(),
{
    let mut s = s;
    if s.len() == 0 {
        let mut r = Vec::new();
        r.push(e);
        proof {
            assert(entries_view(r@) =~= seq![(e.0@, e.1@)]);
        }
        return r;
    }
    let ghost sv = entries_view(s@);
    let goes_before = less_text(&e.0, &s[s.len() - 1].0);
    if goes_before {
        let last = s.pop().unwrap();
        proof {
            assert(entries_view(s@) =~= sv.drop_last());
        }
        let mut r = insert_field(s, e);
        let ghost rv = entries_view(r@);
        r.push(last);
        proof {
            assert(entries_view(r@) =~= rv.push((last.0@, last.1@)));
        }
        r
    } else {
        let ghost before = s@;
        s.push(e);
        proof {
            assert(entries_view(s@) =~= entries_view(before).push((e.0@, e.1@)));
        }
        s
    }
}

/// The entries sorted by name.
fn sort_fields(es: Vec<(String, String)>) -> (r: Vec<(String, String)>)
    ensures
        entries_view(r@) == sort_entries(entries_view(es@)),
    decreases es@.len(),
{
    let mut es = es;
    if es.len() == 0 {
        proof {
            assert(entries_view(es@) =~= Seq::<(Seq<char>, Seq<char>)>::empty());
        }
        return es;
    }
    let ghost all = entries_view(es@);
    let last = es.pop().unwrap();
    proof {
        assert(entries_view(es@) =~= all.drop_last());
        assert(all.last() == (last.0@, last.1@));
    }
    let sorted = sort_fields(es);
    insert_field(sorted, last)
}

/// `a: x, b: y`
fn join_fields(es: &Vec<(String, String)>) -> (r: String)
    ensures
        r@ == join_entries(entries_view(es@)),
{
    let mut out = String::new();
    let mut i: usize = 0;
    while i < es.len()
        invariant
            i <= es.len(),
            out@ == join_entries(entries_view(es@).subrange(0, i as int)),
        decreases es.len() - i,
    {
        let ghost prefix = entries_view(es@).subrange(0, i as int);
        let ghost next = entries_view(es@).subrange(0, i + 1);
        proof {
            assert(next.drop_last() =~= prefix);
            assert(next.last() == (es@[i as int].0@, es@[i as int].1@));
        }
        if i > 0 {
            out = concat(&out, ", ");
        }
        out = concat(&out, es[i].0.as_str());
        out = concat(&out, ": ");
        out = concat(&out, es[i].1.as_str());
        proof {
            if i == 0 {
                assert(next[0] == next.last());
                assert(out@ =~= join_entries(next));
            } else {
                assert(out@ =~= join_entries(next));
            }
        }
        i = i + 1;
    }
    proof {
        assert(entries_view(es@).subrange(0, es@.len() as int) =~= entries_view(es@));
    }
    out
}

/// `x, y`
fn join_strings(items: &Vec<String>) -> (r: String)
    ensures
        r@ == join_items(strings_view(items@)),
{
    let mut out = String::new();
    let mut i: usize = 0;
    while i < items.len()
        invariant
            i <= items.len(),
            out@ == join_items(strings_view(items@).subrange(0, i as int)),
        decreases items.len() - i,
    {
        let ghost prefix = strings_view(items@).subrange(0, i as int);
        let ghost next = strings_view(items@).subrange(0, i + 1);
        proof {
            assert(next.drop_last() =~= prefix);
            assert(next.last() == items@[i as int]@);
        }
        if i > 0 {
            out = concat(&out, ", ");
        }
        out = concat(&out, items[i].as_str());
        proof {
            if i == 0 {
                assert(out@ =~= join_items(next));
            } else {
                assert(out@ =~= join_items(next));
            }
        }
        i = i + 1;
    }
    proof {
        assert(strings_view(items@).subrange(0, items@.len() as int) =~= strings_view(items@));
    }
    out
}

// ---- values as the semantics sees them ----

/// A value with its texts as character sequences and its lists as
/// sequences: two values are equal exactly when they are the same value.
pub enum SpecValue {
    Str(Seq<char>),
    Int(i64),
    Bool(bool),
    Unit,
    Struct(Seq<char>, Seq<(Seq<char>, SpecValue)>),
    Array(Seq<SpecValue>),
    Enum(Seq<char>, Seq<char>, Seq<(Seq<char>, SpecValue)>),
}

pub open spec fn value_view(v: Value) -> SpecValue
    decreases v, 1int,
{
    match v {
        Value::String(s) => SpecValue::Str(s@),
        Value::Int(i) => SpecValue::Int(i),
        Value::Bool(b) => SpecValue::Bool(b),
        Value::Unit => SpecValue::Unit,
        Value::Struct { name, fields } => SpecValue::Struct(name@, fields_view(fields@)),
        Value::Array(items) => SpecValue::Array(values_view(items@)),
        Value::Enum { enum_name, variant, fields } => SpecValue::Enum(
            enum_name@,
            variant@,
            fields_view(fields@),
        ),
    }
}

pub open spec fn fields_view(fs: Seq<(String, Value)>) -> Seq<(Seq<char>, SpecValue)>
    decreases fs, 0int,
{
    if fs.len() == 0 {
        Seq::empty()
    } else {
        fields_view(fs.subrange(0, fs.len() - 1)).push(
            (fs[fs.len() - 1].0@, value_view(fs[fs.len() - 1].1)),
        )
    }
}

pub open spec fn values_view(vs: Seq<Value>) -> Seq<SpecValue>
    decreases vs, 0int,
{
    if vs.len() == 0 {
        Seq::empty()
    } else {
        values_view(vs.subrange(0, vs.len() - 1)).push(value_view(vs[vs.len() - 1]))
    }
}

impl View for Value {
    type V = SpecValue;

    open spec fn view(&self) -> SpecValue {
        value_view(*self)
    }
}

pub proof fn lemma_fields_view(fs: Seq<(String, Value)>)
    ensures
        fields_view(fs).len() == fs.len(),
        forall|i: int| 0 <= i < fs.len() ==> #[trigger] fields_view(fs)[i] == (fs[i].0@, value_view(fs[i].1)),
    decreases fs.len(),
{
    if fs.len() > 0 {
        let pre = fs.subrange(0, fs.len() - 1);
        lemma_fields_view(pre);
        assert forall|i: int| 0 <= i < fs.len() implies #[trigger] fields_view(fs)[i] == (fs[i].0@, value_view(fs[i].1)) by {
            if i < fs.len() - 1 {
                assert(pre[i] == fs[i]);
            }
        }
    }
}

pub proof fn lemma_values_view(vs: Seq<Value>)
    ensures
        values_view(vs).len() == vs.len(),
        forall|i: int| 0 <= i < vs.len() ==> #[trigger] values_view(vs)[i] == value_view(vs[i]),
    decreases vs.len(),
{
    if vs.len() > 0 {
        let pre = vs.subrange(0, vs.len() - 1);
        lemma_values_view(pre);
        assert forall|i: int| 0 <= i < vs.len() implies #[trigger] values_view(vs)[i] == value_view(vs[i]) by {
            if i < vs.len() - 1 {
                assert(pre[i] == vs[i]);
            }
        }
    }
}

/// Two values are the same value exactly when their views are equal.
pub proof fn lemma_same_value_view(a: Value, b: Value)
    ensures
        same_value(a, b) <==> value_view(a) == value_view(b),
    decreases a,
{
    match (a, b) {
        (Value::Struct { name: n1, fields: f1 }, Value::Struct { name: n2, fields: f2 }) => {
            lemma_same_fields_view(a, f1, f2);
        },
        (Value::Array(x), Value::Array(y)) => {
            lemma_values_view(x@);
            lemma_values_view(y@);
            assert forall|i: int| 0 <= i < x@.len() && i < y@.len() implies (same_value(#[trigger] x@[i], y@[i])
                <==> value_view(x@[i]) == value_view(y@[i])) by {
                assert(decreases_to!(a => a->Array_0));
                assert(decreases_to!(x => x@));
                assert(decreases_to!(x@ => x@[i]));
                lemma_same_value_view(x@[i], y@[i]);
            }
            if same_value(a, b) {
                assert(values_view(x@) =~= values_view(y@));
            }
            if value_view(a) == value_view(b) {
                assert forall|i: int| 0 <= i < x@.len() implies same_value(#[trigger] x@[i], y@[i]) by {
                    assert(values_view(x@)[i] == values_view(y@)[i]);
                }
            }
        },
        (
            Value::Enum { enum_name: e1, variant: v1, fields: f1 },
            Value::Enum { enum_name: e2, variant: v2, fields: f2 },
        ) => {
            lemma_same_fields_view(a, f1, f2);
        },
        _ => {},
    }
}

proof fn lemma_same_fields_view(a: Value, f1: Vec<(String, Value)>, f2: Vec<(String, Value)>)
    requires
        (a matches Value::Struct { fields, .. } && fields == f1) || (a matches Value::Enum { fields, .. } && fields == f1),
    ensures
        (f1@.len() == f2@.len() && forall|i: int|
            0 <= i < f1@.len() ==> (#[trigger] f1@[i]).0@ == f2@[i].0@ && same_value(f1@[i].1, f2@[i].1))
            <==> fields_view(f1@) == fields_view(f2@),
    decreases a, 0int,
{
    lemma_fields_view(f1@);
    lemma_fields_view(f2@);
    assert forall|i: int| 0 <= i < f1@.len() && i < f2@.len() implies (same_value(#[trigger] f1@[i].1, f2@[i].1)
        <==> value_view(f1@[i].1) == value_view(f2@[i].1)) by {
        if a is Struct {
            assert(decreases_to!(a => a->Struct_fields));
        } else {
            assert(decreases_to!(a => a->Enum_fields));
        }
        assert(decreases_to!(f1 => f1@));
        assert(decreases_to!(f1@ => f1@[i]));
        assert(decreases_to!(f1@[i] => f1@[i].1));
        lemma_same_value_view(f1@[i].1, f2@[i].1);
    }
    if f1@.len() == f2@.len() && forall|i: int|
        0 <= i < f1@.len() ==> (#[trigger] f1@[i]).0@ == f2@[i].0@ && same_value(f1@[i].1, f2@[i].1) {
        assert(fields_view(f1@) =~= fields_view(f2@));
    }
    if fields_view(f1@) == fields_view(f2@) {
        assert forall|i: int| 0 <= i < f1@.len() implies (#[trigger] f1@[i]).0@ == f2@[i].0@ && same_value(
            f1@[i].1,
            f2@[i].1,
        ) by {
            assert(fields_view(f1@)[i] == fields_view(f2@)[i]);
        }
    }
}

/// How `print` renders a value (the same text as `display_spec`).
pub open spec fn display_view(v: SpecValue) -> Seq<char>
    decreases v, 1int,
{
    match v {
        SpecValue::Str(s) => s,
        SpecValue::Int(i) => int_text(i as int),
        SpecValue::Bool(b) => if b {
            "true"@
        } else {
            "false"@
        },
        SpecValue::Unit => Seq::empty(),
        SpecValue::Struct(name, fields) => name + " { "@ + join_entries(sort_entries(render_entries_view(fields)))
            + " }"@,
        SpecValue::Array(items) => "["@ + join_items(render_items_view(items)) + "]"@,
        SpecValue::Enum(enum_name, variant, fields) => if fields.len() == 0 {
            enum_name + "::"@ + variant
        } else {
            enum_name + "::"@ + variant + "("@ + join_entries(sort_entries(render_entries_view(fields)))
                + ")"@
        },
    }
}

pub open spec fn render_entries_view(fs: Seq<(Seq<char>, SpecValue)>) -> Seq<(Seq<char>, Seq<char>)>
    decreases fs, 0int,
{
    if fs.len() == 0 {
        Seq::empty()
    } else {
        render_entries_view(fs.subrange(0, fs.len() - 1)).push(
            (fs[fs.len() - 1].0, display_view(fs[fs.len() - 1].1)),
        )
    }
}

pub open spec fn render_items_view(items: Seq<SpecValue>) -> Seq<Seq<char>>
    decreases items, 0int,
{
    if items.len() == 0 {
        Seq::empty()
    } else {
        render_items_view(items.subrange(0, items.len() - 1)).push(display_view(items[items.len() - 1]))
    }
}

pub proof fn lemma_display_view(v: Value)
    ensures
        display_spec(v) == display_view(value_view(v)),
    decreases v, 1int,
{
    match v {
        Value::Struct { fields, .. } => {
            lemma_render_entries_view(fields@);
        },
        Value::Array(items) => {
            lemma_render_items_view(items@);
        },
        Value::Enum { fields, .. } => {
            lemma_render_entries_view(fields@);
            lemma_fields_view(fields@);
        },
        _ => {},
    }
}

proof fn lemma_render_entries_view(fs: Seq<(String, Value)>)
    ensures
        render_entries(fs) == render_entries_view(fields_view(fs)),
    decreases fs, 0int,
{
    if fs.len() > 0 {
        let pre = fs.subrange(0, fs.len() - 1);
        lemma_render_entries_view(pre);
        lemma_display_view(fs[fs.len() - 1].1);
        lemma_fields_view(pre);
        assert(fields_view(fs).subrange(0, fs.len() - 1) =~= fields_view(pre));
    }
}

proof fn lemma_render_items_view(vs: Seq<Value>)
    ensures
        render_items(vs) == render_items_view(values_view(vs)),
    decreases vs, 0int,
{
    if vs.len() > 0 {
        let pre = vs.subrange(0, vs.len() - 1);
        lemma_render_items_view(pre);
        lemma_display_view(vs[vs.len() - 1]);
        lemma_values_view(pre);
        assert(values_view(vs).subrange(0, vs.len() - 1) =~= values_view(pre));
    }
}

/// The short name of a value's type, used in error messages.
pub open spec fn type_label_view(v: SpecValue) -> Seq<char> {
    match v {
        SpecValue::Str(_) => "String"@,
        SpecValue::Int(_) => "Int"@,
        SpecValue::Bool(_) => "Bool"@,
        SpecValue::Unit => "Unit"@,
        SpecValue::Struct(name, _) => name,
        SpecValue::Array(_) => "Array"@,
        SpecValue::Enum(enum_name, _, _) => enum_name,
    }
}

} // verus!
