use vstd::prelude::*;
use crate::ast::{
    copy_identifiers, copy_program, decimal, same_program, nat_digits, render_params, render_program, write_integer,
    write_params, write_program, write_unsigned, BlockStatement, Identifier,
};
use crate::token::str_eq;

verus! {

/// The native functions every program can call by name.
#[derive(Debug, Clone, Copy, PartialEq, Eq, Structural)]
pub enum Builtin {
    Len,
    First,
    Last,
    Rest,
    Push,
}

/// The tag of a runtime value, as error messages name it.
#[derive(Debug, Clone, Copy, PartialEq, Eq, Structural)]
pub enum ObjectType {
    Integer,
    Boolean,
    Null,
    ReturnValue,
    Function,
    String,
    Builtin,
    Array,
    Hash,
}

pub open spec fn tag_text(t: ObjectType) -> Seq<char> {
    match t {
        ObjectType::Integer => "INTEGER"@,
        ObjectType::Boolean => "BOOLEAN"@,
        ObjectType::Null => "NULL"@,
        ObjectType::ReturnValue => "RETURN_VALUE"@,
        ObjectType::Function => "FUNCTION"@,
        ObjectType::String => "STRING"@,
        ObjectType::Builtin => "BUILTIN"@,
        ObjectType::Array => "ARRAY"@,
        ObjectType::Hash => "HASH"@,
    }
}

impl ObjectType {
    pub fn name(self) -> (r: &'static str)
        ensures
            r@ == tag_text(self),
    {
        match self {
            ObjectType::Integer => "INTEGER",
            ObjectType::Boolean => "BOOLEAN",
            ObjectType::Null => "NULL",
            ObjectType::ReturnValue => "RETURN_VALUE",
            ObjectType::Function => "FUNCTION",
            ObjectType::String => "STRING",
            ObjectType::Builtin => "BUILTIN",
            ObjectType::Array => "ARRAY",
            ObjectType::Hash => "HASH",
        }
    }
}

/// A runtime value. A function keeps its parameters, its body and the index
/// of the scope it was defined in (see `Environment`).
#[derive(Debug, PartialEq, Eq)]
pub enum Object {
    Integer(i64),
    Boolean(bool),
    Null,
    ReturnValue(Box<Object>),
    Function { parameters: Vec<Identifier>, body: BlockStatement, env: usize },
    String(String),
    Builtin(Builtin),
    Array(Vec<Object>),
    /// Key/value pairs; no two keys are the same (see `key_eq`).
    Hash(Vec<(Object, Object)>),
}

pub open spec fn spec_type(o: Object) -> ObjectType {
    match o {
        Object::Integer(_) => ObjectType::Integer,
        Object::Boolean(_) => ObjectType::Boolean,
        Object::Null => ObjectType::Null,
        Object::ReturnValue(_) => ObjectType::ReturnValue,
        Object::Function { .. } => ObjectType::Function,
        Object::String(_) => ObjectType::String,
        Object::Builtin(_) => ObjectType::Builtin,
        Object::Array(_) => ObjectType::Array,
        Object::Hash(_) => ObjectType::Hash,
    }
}

/// Only integers, booleans and strings can be hash keys.
pub open spec fn spec_hashable(o: Object) -> bool {
    o is Integer || o is Boolean || o is String
}

/// Equality of hash keys: same kind and same value.
pub open spec fn key_eq(a: Object, b: Object) -> bool {
    match (a, b) {
        (Object::Integer(x), Object::Integer(y)) => x == y,
        (Object::Boolean(x), Object::Boolean(y)) => x == y,
        (Object::String(x), Object::String(y)) => x@ == y@,
        _ => false,
    }
}

/// Two values hold the same data. Functions are the same when they have the
/// same captured scope, the same parameter names and the same body (see
/// `same_program`).
pub open spec fn same(a: Object, b: Object) -> bool
    decreases a,
{
    match (a, b) {
        (Object::Integer(x), Object::Integer(y)) => x == y,
        (Object::Boolean(x), Object::Boolean(y)) => x == y,
        (Object::Null, Object::Null) => true,
        (Object::ReturnValue(x), Object::ReturnValue(y)) => same(*x, *y),
        (
            Object::Function { parameters: p, env: e, .. },
            Object::Function { parameters: q, env: f, .. },
        ) => e == f && p.len() == q.len() && (forall|i: int|
            0 <= i < p.len() ==> (#[trigger] p[i]).0@ == q[i].0@) && same_program(b->body, a->body),
        (Object::String(x), Object::String(y)) => x@ == y@,
        (Object::Builtin(x), Object::Builtin(y)) => x == y,
        (Object::Array(x), Object::Array(y)) => x.len() == y.len() && forall|i: int|
            0 <= i < x.len() ==> same(#[trigger] x[i], y[i]),
        (Object::Hash(x), Object::Hash(y)) => x.len() == y.len() && forall|i: int|
            0 <= i < x.len() ==> same(#[trigger] x[i].0, y[i].0) && same(x[i].1, y[i].1),
        _ => false,
    }
}

pub open spec fn same_entry(a: (Object, Object), b: (Object, Object)) -> bool {
    same(a.0, b.0) && same(a.1, b.1)
}

/// The text of a value as the user sees it.
pub open spec fn render_object(o: &Object) -> Seq<char>
    decreases o, 0nat,
{
    match o {
        Object::Integer(i) => decimal(*i as int),
        Object::Boolean(b) => if *b {
            "true"@
        } else {
            "false"@
        },
        Object::Null => "null"@,
        Object::ReturnValue(x) => render_object(x),
        Object::Function { parameters, body, .. } => "fn("@ + render_params(
            parameters@,
            parameters.len() as int,
        ) + "){\n"@ + render_program(body) + "\n}"@,
        Object::String(s) => s@,
        Object::Builtin(_) => "builtin function"@,
        Object::Array(v) => "["@ + render_objects(v, v.len() as int) + "]"@,
        Object::Hash(v) => "{"@ + render_entries(v, v.len() as int) + "}"@,
    }
}

/// The first `n` values of `v`, separated by `, `.
pub open spec fn render_objects(v: &Vec<Object>, n: int) -> Seq<char>
    decreases v, n,
{
    if n <= 0 || n > v.len() {
        Seq::empty()
    } else if n == 1 {
        render_object(&v[0])
    } else {
        render_objects(v, n - 1) + ", "@ + render_object(&v[n - 1])
    }
}

/// The first `n` entries of `v`, each as `key: value`, separated by `, `.
pub open spec fn render_entries(v: &Vec<(Object, Object)>, n: int) -> Seq<char>
    decreases v, n,
{
    if n <= 0 || n > v.len() {
        Seq::empty()
    } else {
        let entry = render_object(&v[n - 1].0) + ": "@ + render_object(&v[n - 1].1);
        if n == 1 {
            entry
        } else {
            render_entries(v, n - 1) + ", "@ + entry
        }
    }
}

fn write_object(out: &mut String, o: &Object)
    ensures
        final(out)@ == old(out)@ + render_object(o),
    decreases o, 0nat,
{
    match o {
        Object::Integer(i) => {
            write_integer(out, *i);
        },
        Object::Boolean(b) => {
            if *b {
                out.append("true");
            } else {
                out.append("false");
            }
        },
        Object::Null => {
            out.append("null");
        },
        Object::ReturnValue(x) => {
            write_object(out, x);
        },
        Object::Function { parameters, body, .. } => {
            out.append("fn(");
            write_params(out, parameters);
            out.append("){\n");
            write_program(out, body);
            out.append("\n}");
        },
        Object::String(s) => {
            out.append(s.as_str());
        },
        Object::Builtin(_) => {
            out.append("builtin function");
        },
        Object::Array(v) => {
            out.append("[");
            write_objects(out, v);
            out.append("]");
        },
        Object::Hash(v) => {
            out.append("{");
            write_entries(out, v);
            out.append("}");
        },
    }
    assert(final(out)@ =~= old(out)@ + render_object(o));
}

fn write_objects(out: &mut String, v: &Vec<Object>)
    ensures
        final(out)@ == old(out)@ + render_objects(v, v.len() as int),
    decreases v, v.len() + 1,
{
    let mut i: usize = 0;
    while i < v.len()
        invariant
            i <= v.len(),
            out@ == old(out)@ + render_objects(v, i as int),
        decreases v.len() - i,
    {
        if i > 0 {
            out.append(", ");
        }
        assert(decreases_to!(v => v[i as int]));
        write_object(out, &v[i]);
        i = i + 1;
        assert(out@ =~= old(out)@ + render_objects(v, i as int));
    }
}

fn write_entries(out: &mut String, v: &Vec<(Object, Object)>)
    ensures
        final(out)@ == old(out)@ + render_entries(v, v.len() as int),
    decreases v, v.len() + 1,
{
    let mut i: usize = 0;
    while i < v.len()
        invariant
            i <= v.len(),
            out@ == old(out)@ + render_entries(v, i as int),
        decreases v.len() - i,
    {
        if i > 0 {
            out.append(", ");
        }
        assert(decreases_to!(v => v[i as int]));
        write_object(out, &v[i].0);
        out.append(": ");
        write_object(out, &v[i].1);
        i = i + 1;
        assert(out@ =~= old(out)@ + render_entries(v, i as int));
    }
}

impl Object {
    /// The text of the value, as the REPL prints it.
    pub fn to_string(&self) -> (r: String)
        ensures
            r@ == render_object(self),
    {
        let mut out = String::new();
        write_object(&mut out, self);
        out
    }

    pub fn object_type(&self) -> (r: ObjectType)
        ensures
            r == spec_type(*self),
    {
        match self {
            Object::Integer(_) => ObjectType::Integer,
            Object::Boolean(_) => ObjectType::Boolean,
            Object::Null => ObjectType::Null,
            Object::ReturnValue(_) => ObjectType::ReturnValue,
            Object::Function { .. } => ObjectType::Function,
            Object::String(_) => ObjectType::String,
            Object::Builtin(_) => ObjectType::Builtin,
            Object::Array(_) => ObjectType::Array,
            Object::Hash(_) => ObjectType::Hash,
        }
    }

    pub fn is_hashable(&self) -> (r: bool)
        ensures
            r == spec_hashable(*self),
    {
        matches!(self, Object::Integer(_) | Object::Boolean(_) | Object::String(_))
    }

    /// A copy of this value.
    pub fn copy(&self) -> (r: Object)
        ensures
            same(r, *self),
            spec_type(r) == spec_type(*self),
        decreases self, 0nat,
    {
        match self {
            Object::Integer(i) => Object::Integer(*i),
            Object::Boolean(b) => Object::Boolean(*b),
            Object::Null => Object::Null,
            Object::ReturnValue(x) => Object::ReturnValue(Box::new(x.copy())),
            Object::Function { parameters, body, env } => Object::Function {
                parameters: copy_identifiers(parameters),
                body: copy_program(body),
                env: *env,
            },
            Object::String(s) => Object::String(s.clone()),
            Object::Builtin(b) => Object::Builtin(*b),
            Object::Array(v) => {
                let items = copy_objects(v);
                let r = Object::Array(items);
                assert(forall|i: int| 0 <= i < items.len() ==> same(#[trigger] items[i], v[i]));
                r
            },
            Object::Hash(v) => {
                let entries = copy_entries(v);
                let r = Object::Hash(entries);
                assert forall|i: int| 0 <= i < entries.len() implies same(
                    #[trigger] entries[i].0,
                    v[i].0,
                ) && same(entries[i].1, v[i].1) by {
                    assert(same_entry(entries[i], v[i]));
                }
                r
            },
        }
    }
}

fn copy_objects(v: &Vec<Object>) -> (r: Vec<Object>)
    ensures
        r.len() == v.len(),
        forall|j: int| 0 <= j < v.len() ==> same(#[trigger] r[j], v[j]),
    decreases v, v.len() + 1,
{
    let mut out: Vec<Object> = Vec::new();
    let mut i: usize = 0;
    while i < v.len()
        invariant
            i <= v.len(),
            out.len() == i,
            forall|j: int| 0 <= j < i ==> same(#[trigger] out[j], v[j]),
        decreases v.len() - i,
    {
        assert(decreases_to!(v => v[i as int]));
        out.push(v[i].copy());
        i = i + 1;
    }
    out
}

fn copy_entries(v: &Vec<(Object, Object)>) -> (r: Vec<(Object, Object)>)
    ensures
        r.len() == v.len(),
        forall|j: int| 0 <= j < v.len() ==> same_entry(#[trigger] r[j], v[j]),
    decreases v, v.len() + 1,
{
    let mut out: Vec<(Object, Object)> = Vec::new();
    let mut i: usize = 0;
    while i < v.len()
        invariant
            i <= v.len(),
            out.len() == i,
            forall|j: int| 0 <= j < i ==> same_entry(#[trigger] out[j], v[j]),
        decreases v.len() - i,
    {
        assert(decreases_to!(v => v[i as int]));
        let k = v[i].0.copy();
        let x = v[i].1.copy();
        out.push((k, x));
        i = i + 1;
    }
    out
}

/// Why an evaluation failed.
#[derive(Debug, PartialEq, Eq)]
pub enum EvalError {
    IdentifierNotFound(String),
    TypeMismatch { left: ObjectType, operator: String, right: ObjectType },
    UnknownPrefixOperator { operator: String, right: ObjectType },
    UnknownInfixOperator { left: ObjectType, operator: String, right: ObjectType },
    NotAFunction(ObjectType),
    NotIndexable { left: ObjectType, index: ObjectType },
    /// Indexing a hash with a value that cannot be a key.
    UnhashableKey(ObjectType),
    /// A hash literal with a key that cannot be a key.
    InvalidHashKey(ObjectType),
    /// A function called with another number of arguments than it has
    /// parameters.
    ArityMismatch { expected: usize, got: usize },
    /// A built-in called with the wrong number of arguments.
    WrongArgumentCount { got: usize, want: usize },
    UnsupportedArgument { builtin: Builtin, got: ObjectType },
    DivisionByZero,
    IntegerOverflow,
    /// Function calls nested deeper than the evaluator allows.
    RecursionLimit,
    /// A function whose captured scope does not exist in this environment.
    UnknownScope(usize),
}

/// What the message of a call of built-in `b` with an argument it does not
/// take begins with.
pub open spec fn unsupported_text(b: Builtin) -> Seq<char> {
    match b {
        Builtin::Len => "argument to `len` not supported, got "@,
        Builtin::First => "argument to `first` must be ARRAY, got "@,
        Builtin::Last => "argument to `last` must be ARRAY, got "@,
        Builtin::Rest => "argument to `rest` must be ARRAY, got "@,
        Builtin::Push => "argument to `push` must be ARRAY, got "@,
    }
}

/// The message of an error, as the user sees it.
pub open spec fn error_text(e: EvalError) -> Seq<char> {
    match e {
        EvalError::IdentifierNotFound(name) => "identifier not found: "@ + name@,
        EvalError::TypeMismatch { left, operator, right } => "type mismatch: "@ + tag_text(left)
            + " "@ + operator@ + " "@ + tag_text(right),
        EvalError::UnknownPrefixOperator { operator, right } => "unknown operator: "@ + operator@
            + tag_text(right),
        EvalError::UnknownInfixOperator { left, operator, right } => "unknown operator: "@
            + tag_text(left) + " "@ + operator@ + " "@ + tag_text(right),
        EvalError::NotAFunction(t) => "not a function: "@ + tag_text(t),
        EvalError::NotIndexable { left, index } => "index operator not supported: "@ + tag_text(
            left,
        ) + "["@ + tag_text(index) + "]"@,
        EvalError::UnhashableKey(t) => "unusable as hash key: "@ + tag_text(t),
        EvalError::InvalidHashKey(t) => "Type of "@ + tag_text(t) + " cannot be used as a key"@,
        EvalError::ArityMismatch { expected, got } => "wrong number of arguments: expected "@
            + nat_digits(expected as nat) + ", got "@ + nat_digits(got as nat),
        EvalError::WrongArgumentCount { got, want } => "wrong number of arguments. got="@
            + nat_digits(got as nat) + ", want = "@ + nat_digits(want as nat),
        EvalError::UnsupportedArgument { builtin, got } => unsupported_text(builtin) + tag_text(
            got,
        ),
        EvalError::DivisionByZero => "division by zero"@,
        EvalError::IntegerOverflow => "integer overflow"@,
        EvalError::RecursionLimit => "maximum call depth exceeded"@,
        EvalError::UnknownScope(i) => "unknown scope: "@ + nat_digits(i as nat),
    }
}

impl EvalError {
    /// The message shown to the user.
    pub fn to_string(&self) -> (r: String)
        ensures
            r@ == error_text(*self),
    {
        let mut out = String::new();
        match self {
            EvalError::IdentifierNotFound(name) => {
                out.append("identifier not found: ");
                out.append(name.as_str());
            },
            EvalError::TypeMismatch { left, operator, right } => {
                out.append("type mismatch: ");
                out.append(left.name());
                out.append(" ");
                out.append(operator.as_str());
                out.append(" ");
                out.append(right.name());
            },
            EvalError::UnknownPrefixOperator { operator, right } => {
                out.append("unknown operator: ");
                out.append(operator.as_str());
                out.append(right.name());
            },
            EvalError::UnknownInfixOperator { left, operator, right } => {
                out.append("unknown operator: ");
                out.append(left.name());
                out.append(" ");
                out.append(operator.as_str());
                out.append(" ");
                out.append(right.name());
            },
            EvalError::NotAFunction(t) => {
                out.append("not a function: ");
                out.append(t.name());
            },
            EvalError::NotIndexable { left, index } => {
                out.append("index operator not supported: ");
                out.append(left.name());
                out.append("[");
                out.append(index.name());
                out.append("]");
            },
            EvalError::UnhashableKey(t) => {
                out.append("unusable as hash key: ");
                out.append(t.name());
            },
            EvalError::InvalidHashKey(t) => {
                out.append("Type of ");
                out.append(t.name());
                out.append(" cannot be used as a key");
            },
            EvalError::ArityMismatch { expected, got } => {
                out.append("wrong number of arguments: expected ");
                write_unsigned(&mut out, *expected as u64);
                out.append(", got ");
                write_unsigned(&mut out, *got as u64);
            },
            EvalError::WrongArgumentCount { got, want } => {
                out.append("wrong number of arguments. got=");
                write_unsigned(&mut out, *got as u64);
                out.append(", want = ");
                write_unsigned(&mut out, *want as u64);
            },
            EvalError::UnsupportedArgument { builtin, got } => {
                match builtin {
                    Builtin::Len => out.append("argument to `len` not supported, got "),
                    Builtin::First => out.append("argument to `first` must be ARRAY, got "),
                    Builtin::Last => out.append("argument to `last` must be ARRAY, got "),
                    Builtin::Rest => out.append("argument to `rest` must be ARRAY, got "),
                    Builtin::Push => out.append("argument to `push` must be ARRAY, got "),
                }
                out.append(got.name());
            },
            EvalError::DivisionByZero => {
                out.append("division by zero");
            },
            EvalError::IntegerOverflow => {
                out.append("integer overflow");
            },
            EvalError::RecursionLimit => {
                out.append("maximum call depth exceeded");
            },
            EvalError::UnknownScope(i) => {
                out.append("unknown scope: ");
                write_unsigned(&mut out, *i as u64);
            },
        }
        assert(out@ =~= error_text(*self));
        out
    }
}

/// One scope: its bindings, and the index of the scope around it.
pub struct Frame {
    pub store: Vec<(String, Object)>,
    pub outer: Option<usize>,
}

/// The index of the last binding of `name` among the first `n` bindings of
/// `s`, or -1 when there is none.
pub open spec fn find_binding(s: Seq<(String, Object)>, name: Seq<char>, n: int) -> int
    decreases n,
{
    if n <= 0 || n > s.len() {
        -1
    } else if s[n - 1].0@ == name {
        n - 1
    } else {
        find_binding(s, name, n - 1)
    }
}

proof fn lemma_find_binding_same_keys(
    s: Seq<(String, Object)>,
    t: Seq<(String, Object)>,
    name: Seq<char>,
    n: int,
)
    requires
        s.len() == t.len(),
        forall|k: int| 0 <= k < s.len() ==> (#[trigger] s[k]).0@ == t[k].0@,
    ensures
        find_binding(s, name, n) == find_binding(t, name, n),
    decreases n,
{
    if n > 0 && n <= s.len() {
        lemma_find_binding_same_keys(s, t, name, n - 1);
    }
}

proof fn lemma_find_binding_range(s: Seq<(String, Object)>, name: Seq<char>, n: int)
    requires
        0 <= n <= s.len(),
    ensures
        -1 <= find_binding(s, name, n) < n,
        find_binding(s, name, n) >= 0 ==> s[find_binding(s, name, n)].0@ == name,
    decreases n,
{
    if n > 0 {
        lemma_find_binding_range(s, name, n - 1);
    }
}

/// The bindings `s` after binding `name` to `val`: its binding is replaced
/// when it has one, else added at the end.
pub open spec fn set_store(s: Seq<(String, Object)>, name: String, val: Object) -> Seq<
    (String, Object),
> {
    let i = find_binding(s, name@, s.len() as int);
    if i >= 0 {
        s.update(i, (s[i].0, val))
    } else {
        s.push((name, val))
    }
}

/// `after` is `before` with `name` bound to `val` in scope `f` and nothing
/// else changed.
pub open spec fn sets_binding(
    before: Seq<Frame>,
    f: int,
    name: String,
    val: Object,
    after: Seq<Frame>,
) -> bool {
    &&& 0 <= f < before.len()
    &&& after.len() == before.len()
    &&& forall|k: int| 0 <= k < before.len() && k != f ==> #[trigger] after[k] == before[k]
    &&& after[f].outer == before[f].outer
    &&& after[f].store@ == set_store(before[f].store@, name, val)
}

/// The value `name` has in scope `k`: its own binding, else the one it has
/// in the scope around, outward until a scope binds it.
pub open spec fn resolve(frames: Seq<Frame>, k: int, name: Seq<char>) -> Option<Object>
    decreases k,
{
    if k < 0 || k >= frames.len() {
        None
    } else {
        let s = frames[k].store@;
        let i = find_binding(s, name, s.len() as int);
        if i >= 0 {
            Some(s[i].1)
        } else {
            match frames[k].outer {
                Some(j) => if j < k {
                    resolve(frames, j as int, name)
                } else {
                    None
                },
                None => None,
            }
        }
    }
}

/// All scopes of a session, addressed by index; scope 0 is the global one.
/// A closure holds the index of the scope it was made in, and every call
/// makes a new scope whose outer scope is that one: this is how functions
/// see the bindings of the place where they were defined.
pub struct Environment {
    frames: Vec<Frame>,
}

impl Environment {
    pub closed spec fn frames(&self) -> Seq<Frame> {
        self.frames@
    }

    pub open spec fn wf(&self) -> bool {
        self.frames().len() >= 1
    }

    /// `self` is `before` with scopes added, and perhaps bindings changed.
    pub open spec fn grows_from(&self, before: &Environment) -> bool {
        &&& self.wf()
        &&& self.frames().len() >= before.frames().len()
    }

    pub fn new() -> (r: Environment)
        ensures
            r.wf(),
            r.frames().len() == 1,
            r.frames()[0].store@.len() == 0,
            r.frames()[0].outer is None,
    {
        let mut frames: Vec<Frame> = Vec::new();
        frames.push(Frame { store: Vec::new(), outer: None });
        Environment { frames }
    }

    /// The number of scopes.
    pub fn scope_count(&self) -> (r: usize)
        ensures
            r == self.frames().len(),
    {
        self.frames.len()
    }

    /// Adds an empty scope inside scope `outer`; returns its index.
    pub fn new_enclosed(&mut self, outer: usize) -> (r: usize)
        requires
            old(self).wf(),
            outer < old(self).frames().len(),
        ensures
            final(self).wf(),
            r == old(self).frames().len(),
            final(self).frames().len() == r + 1,
            final(self).frames().subrange(0, r as int) == old(self).frames(),
            final(self).frames()[r as int].store@.len() == 0,
            final(self).frames()[r as int].outer == Some(outer),
    {
        let r = self.frames.len();
        self.frames.push(Frame { store: Vec::new(), outer: Some(outer) });
        assert(self.frames().subrange(0, r as int) =~= old(self).frames());
        r
    }

    /// The index of the binding of `name` in scope `frame`.
    fn binding_index(&self, frame: usize, name: &str) -> (r: Option<usize>)
        requires
            frame < self.frames().len(),
        ensures
            ({
                let s = self.frames()[frame as int].store@;
                let i = find_binding(s, name@, s.len() as int);
                match r {
                    Some(j) => j == i && j < s.len(),
                    None => i == -1,
                }
            }),
    {
        let store = &self.frames[frame].store;
        let mut i = store.len();
        while i > 0
            invariant
                i <= store.len(),
                store@ == self.frames()[frame as int].store@,
                find_binding(store@, name@, store.len() as int) == find_binding(
                    store@,
                    name@,
                    i as int,
                ),
            decreases i,
        {
            if str_eq(store[i - 1].0.as_str(), name) {
                return Some(i - 1);
            }
            i = i - 1;
        }
        None
    }

    /// A copy of the value `name` has in scope `frame` (see `resolve`).
    pub fn get_in(&self, frame: usize, name: &str) -> (r: Option<Object>)
        ensures
            match resolve(self.frames(), frame as int, name@) {
                Some(o) => r matches Some(c) && same(c, o),
                None => r is None,
            },
    {
        if frame >= self.frames.len() {
            return None;
        }
        let mut k = frame;
        loop
            invariant
                k < self.frames().len(),
                resolve(self.frames(), k as int, name@) == resolve(
                    self.frames(),
                    frame as int,
                    name@,
                ),
            decreases k,
        {
            match self.binding_index(k, name) {
                Some(i) => {
                    return Some(self.frames[k].store[i].1.copy());
                },
                None => {},
            }
            match self.frames[k].outer {
                Some(j) => {
                    if j < k {
                        k = j;
                    } else {
                        return None;
                    }
                },
                None => {
                    return None;
                },
            }
        }
    }

    /// A copy of the value `name` has in the global scope.
    pub fn get(&self, name: &str) -> (r: Option<Object>)
        ensures
            match resolve(self.frames(), 0, name@) {
                Some(o) => r matches Some(c) && same(c, o),
                None => r is None,
            },
    {
        self.get_in(0, name)
    }

    /// Binds `name` to `val` in scope `frame`, replacing the binding it had
    /// there; other scopes do not change.
    pub fn set_in(&mut self, frame: usize, name: String, val: Object)
        requires
            old(self).wf(),
            frame < old(self).frames().len(),
        ensures
            final(self).wf(),
            final(self).frames().len() == old(self).frames().len(),
            forall|k: int|
                0 <= k < old(self).frames().len() && k != frame ==> #[trigger] final(self).frames()[k]
                    == old(self).frames()[k],
            final(self).frames()[frame as int].outer == old(self).frames()[frame as int].outer,
            ({
                let s = old(self).frames()[frame as int].store@;
                let i = find_binding(s, name@, s.len() as int);
                let t = final(self).frames()[frame as int].store@;
                if i >= 0 {
                    t == s.update(i, (s[i].0, val))
                } else {
                    t == s.push((name, val))
                }
            }),
            resolve(final(self).frames(), frame as int, name@) == Some(val),
            sets_binding(old(self).frames(), frame as int, name, val, final(self).frames()),
    {
        let index = self.binding_index(frame, name.as_str());
        let mut f = self.frames.remove(frame);
        match index {
            Some(i) => {
                let (key, _) = f.store.remove(i);
                f.store.insert(i, (key, val));
            },
            None => {
                f.store.push((name, val));
            },
        }
        self.frames.insert(frame, f);
        proof {
            let s = old(self).frames()[frame as int].store@;
            let i = find_binding(s, name@, s.len() as int);
            lemma_find_binding_range(s, name@, s.len() as int);
            let t = self.frames()[frame as int].store@;
            if i >= 0 {
                assert(t =~= s.update(i, (s[i].0, val)));
                assert forall|k: int| 0 <= k < s.len() implies (#[trigger] s[k]).0@ == t[k].0@ by {
                    if k == i {
                        assert(t[k].0 == s[i].0);
                    }
                }
                lemma_find_binding_same_keys(s, t, name@, s.len() as int);
            } else {
                assert(t[s.len() as int].0@ == name@);
            }
        }
    }

    /// Binds `name` to `val` in the global scope.
    pub fn set(&mut self, name: String, val: Object)
        requires
            old(self).wf(),
        ensures
            final(self).wf(),
            final(self).frames().len() == old(self).frames().len(),
            sets_binding(old(self).frames(), 0, name, val, final(self).frames()),
            resolve(final(self).frames(), 0, name@) == Some(val),
    {
        self.set_in(0, name, val)
    }
}

} // verus!
