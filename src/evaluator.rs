use vstd::prelude::*;
use crate::ast::{copy_identifiers, copy_program, Expression, Identifier, Node, Program, Statement};
use crate::builtins::{apply_builtin, builtin_named, lookup_builtin};
use crate::ast::same_program;
use crate::object::render_object;
use crate::builtins::builtin_result;
use crate::object::{
    find_binding, key_eq, resolve, same, set_store, sets_binding, spec_hashable, spec_type,
    Environment, EvalError, Frame, Object,
};
use crate::lexer::Lexer;
use crate::parser::{program_of, reading_of, same_statements, wf_program, ParseError, Parser};
use crate::token::str_eq;

verus! {

/// How deeply function calls may nest before evaluation stops with
/// `RecursionLimit`.
pub const MAX_CALL_DEPTH: u64 = 200;

/// Only `false` and `Null` are falsy; every other value, `0` and `""`
/// included, is truthy.
pub open spec fn spec_truthy(o: Object) -> bool {
    match o {
        Object::Null => false,
        Object::Boolean(b) => b,
        _ => true,
    }
}

pub fn is_truthy(obj: &Object) -> (r: bool)
    ensures
        r == spec_truthy(*obj),
{
    match obj {
        Object::Null => false,
        Object::Boolean(b) => *b,
        _ => true,
    }
}

/// Truthiness: a value is falsy exactly when it is `false` or `Null`; `0`,
/// `""` and every other value are truthy, so `if` takes their branch.
pub proof fn lemma_only_false_and_null_are_falsy(o: Object)
    ensures
        !spec_truthy(o) <==> (o == Object::Boolean(false) || o == Object::Null),
        spec_truthy(Object::Integer(0)),
{
}

/// What applying prefix operator `op` to `right` gives.
pub open spec fn prefix_result(op: Seq<char>, right: Object, r: Result<Object, EvalError>) -> bool {
    if op == "!"@ {
        r == Ok::<Object, EvalError>(Object::Boolean(!spec_truthy(right)))
    } else if op == "-"@ && right is Integer {
        match (0i64).checked_sub(right->Integer_0) {
            Some(v) => r == Ok::<Object, EvalError>(Object::Integer(v)),
            None => r == Err::<Object, EvalError>(EvalError::IntegerOverflow),
        }
    } else {
        r matches Err(EvalError::UnknownPrefixOperator { operator, right: t }) && operator@ == op
            && t == spec_type(right)
    }
}

pub fn eval_prefix_expression(operator: &str, right: Object) -> (r: Result<Object, EvalError>)
    ensures
        prefix_result(operator@, right, r),
{
    if str_eq(operator, "!") {
        return Ok(Object::Boolean(!is_truthy(&right)));
    }
    if str_eq(operator, "-") {
        if let Object::Integer(i) = right {
            return match (0i64).checked_sub(i) {
                Some(v) => Ok(Object::Integer(v)),
                None => Err(EvalError::IntegerOverflow),
            };
        }
    }
    Err(
        EvalError::UnknownPrefixOperator {
            operator: String::from_str(operator),
            right: right.object_type(),
        },
    )
}

pub open spec fn unknown_infix(
    op: Seq<char>,
    left: Object,
    right: Object,
    r: Result<Object, EvalError>,
) -> bool {
    r matches Err(EvalError::UnknownInfixOperator { left: lt, operator, right: rt }) && lt
        == spec_type(left) && operator@ == op && rt == spec_type(right)
}

/// Integer arithmetic: an overflowing result is an error.
pub open spec fn arith(v: Option<i64>) -> Result<Object, EvalError> {
    match v {
        Some(x) => Ok(Object::Integer(x)),
        None => Err(EvalError::IntegerOverflow),
    }
}

/// What applying infix operator `op` to `left` and `right` gives. Operands
/// of different types are a type mismatch whatever the operator.
pub open spec fn infix_result(
    op: Seq<char>,
    left: Object,
    right: Object,
    r: Result<Object, EvalError>,
) -> bool {
    if spec_type(left) != spec_type(right) {
        r matches Err(EvalError::TypeMismatch { left: lt, operator, right: rt }) && lt
            == spec_type(left) && operator@ == op && rt == spec_type(right)
    } else {
        match (left, right) {
            (Object::Integer(a), Object::Integer(b)) => if op == "+"@ {
                r == arith(a.checked_add(b))
            } else if op == "-"@ {
                r == arith(a.checked_sub(b))
            } else if op == "*"@ {
                r == arith(a.checked_mul(b))
            } else if op == "/"@ {
                if b == 0 {
                    r == Err::<Object, EvalError>(EvalError::DivisionByZero)
                } else {
                    r == arith(a.checked_div(b))
                }
            } else if op == "<"@ {
                r == Ok::<Object, EvalError>(Object::Boolean(a < b))
            } else if op == ">"@ {
                r == Ok::<Object, EvalError>(Object::Boolean(a > b))
            } else if op == "=="@ {
                r == Ok::<Object, EvalError>(Object::Boolean(a == b))
            } else if op == "!="@ {
                r == Ok::<Object, EvalError>(Object::Boolean(a != b))
            } else {
                unknown_infix(op, left, right, r)
            },
            (Object::Boolean(a), Object::Boolean(b)) => if op == "=="@ {
                r == Ok::<Object, EvalError>(Object::Boolean(a == b))
            } else if op == "!="@ {
                r == Ok::<Object, EvalError>(Object::Boolean(a != b))
            } else {
                unknown_infix(op, left, right, r)
            },
            (Object::String(a), Object::String(b)) => if op == "+"@ {
                r matches Ok(Object::String(s)) && s@ == a@ + b@
            } else {
                unknown_infix(op, left, right, r)
            },
            _ => unknown_infix(op, left, right, r),
        }
    }
}

/// Operands of different types fail with a type mismatch that names both
/// types and the operator, whatever the operator is.
pub proof fn lemma_mismatched_types_fail(
    op: Seq<char>,
    left: Object,
    right: Object,
    r: Result<Object, EvalError>,
)
    requires
        spec_type(left) != spec_type(right),
        infix_result(op, left, right, r),
    ensures
        r matches Err(EvalError::TypeMismatch { left: lt, operator, right: rt }) && lt == spec_type(
            left,
        ) && operator@ == op && rt == spec_type(right),
{
}

fn unknown_infix_error(operator: &str, left: &Object, right: &Object) -> (r: Result<
    Object,
    EvalError,
>)
    ensures
        unknown_infix(operator@, *left, *right, r),
{
    Err(
        EvalError::UnknownInfixOperator {
            left: left.object_type(),
            operator: String::from_str(operator),
            right: right.object_type(),
        },
    )
}

pub fn eval_infix_expression(operator: &str, left: Object, right: Object) -> (r: Result<
    Object,
    EvalError,
>)
    ensures
        infix_result(operator@, left, right, r),
{
    let lt = left.object_type();
    let rt = right.object_type();
    if lt != rt {
        return Err(
            EvalError::TypeMismatch { left: lt, operator: String::from_str(operator), right: rt },
        );
    }
    match (&left, &right) {
        (Object::Integer(a), Object::Integer(b)) => {
            let (a, b) = (*a, *b);
            if str_eq(operator, "+") {
                checked(a.checked_add(b))
            } else if str_eq(operator, "-") {
                checked(a.checked_sub(b))
            } else if str_eq(operator, "*") {
                checked(a.checked_mul(b))
            } else if str_eq(operator, "/") {
                if b == 0 {
                    Err(EvalError::DivisionByZero)
                } else {
                    checked(a.checked_div(b))
                }
            } else if str_eq(operator, "<") {
                Ok(Object::Boolean(a < b))
            } else if str_eq(operator, ">") {
                Ok(Object::Boolean(a > b))
            } else if str_eq(operator, "==") {
                Ok(Object::Boolean(a == b))
            } else if str_eq(operator, "!=") {
                Ok(Object::Boolean(a != b))
            } else {
                unknown_infix_error(operator, &left, &right)
            }
        },
        (Object::Boolean(a), Object::Boolean(b)) => {
            if str_eq(operator, "==") {
                Ok(Object::Boolean(*a == *b))
            } else if str_eq(operator, "!=") {
                Ok(Object::Boolean(*a != *b))
            } else {
                unknown_infix_error(operator, &left, &right)
            }
        },
        (Object::String(a), Object::String(b)) => {
            if str_eq(operator, "+") {
                let mut s = a.clone();
                s.append(b.as_str());
                Ok(Object::String(s))
            } else {
                unknown_infix_error(operator, &left, &right)
            }
        },
        _ => unknown_infix_error(operator, &left, &right),
    }
}

fn checked(v: Option<i64>) -> (r: Result<Object, EvalError>)
    ensures
        r == arith(v),
{
    match v {
        Some(x) => Ok(Object::Integer(x)),
        None => Err(EvalError::IntegerOverflow),
    }
}

/// The index of the last pair among the first `n` of `s` whose key equals
/// `key`, or -1 when there is none.
pub open spec fn find_key(s: Seq<(Object, Object)>, key: Object, n: int) -> int
    decreases n,
{
    if n <= 0 || n > s.len() {
        -1
    } else if key_eq(s[n - 1].0, key) {
        n - 1
    } else {
        find_key(s, key, n - 1)
    }
}

proof fn lemma_find_key_range(s: Seq<(Object, Object)>, key: Object, n: int)
    requires
        0 <= n <= s.len(),
    ensures
        -1 <= find_key(s, key, n) < n,
    decreases n,
{
    if n > 0 {
        lemma_find_key_range(s, key, n - 1);
    }
}

fn keys_equal(a: &Object, b: &Object) -> (r: bool)
    ensures
        r == key_eq(*a, *b),
{
    match (a, b) {
        (Object::Integer(x), Object::Integer(y)) => *x == *y,
        (Object::Boolean(x), Object::Boolean(y)) => *x == *y,
        (Object::String(x), Object::String(y)) => str_eq(x.as_str(), y.as_str()),
        _ => false,
    }
}

fn find_key_index(pairs: &Vec<(Object, Object)>, key: &Object) -> (r: Option<usize>)
    ensures
        match r {
            Some(j) => j == find_key(pairs@, *key, pairs.len() as int) && j < pairs.len(),
            None => find_key(pairs@, *key, pairs.len() as int) == -1,
        },
{
    let mut i = pairs.len();
    while i > 0
        invariant
            i <= pairs.len(),
            find_key(pairs@, *key, pairs.len() as int) == find_key(pairs@, *key, i as int),
        decreases i,
    {
        if keys_equal(&pairs[i - 1].0, key) {
            return Some(i - 1);
        }
        i = i - 1;
    }
    None
}

/// What indexing `left` with `index` gives: an element of an array, the
/// value of a key in a hash, `Null` when there is none.
pub open spec fn index_result(left: Object, index: Object, r: Result<Object, EvalError>) -> bool {
    match (left, index) {
        (Object::Array(v), Object::Integer(i)) => if 0 <= i < v.len() {
            r == Ok::<Object, EvalError>(v[i as int])
        } else {
            r == Ok::<Object, EvalError>(Object::Null)
        },
        (Object::Hash(pairs), _) => if !spec_hashable(index) {
            r == Err::<Object, EvalError>(EvalError::UnhashableKey(spec_type(index)))
        } else {
            let j = find_key(pairs@, index, pairs.len() as int);
            if j >= 0 {
                r == Ok::<Object, EvalError>(pairs[j].1)
            } else {
                r == Ok::<Object, EvalError>(Object::Null)
            }
        },
        _ => r == Err::<Object, EvalError>(
            EvalError::NotIndexable { left: spec_type(left), index: spec_type(index) },
        ),
    }
}

/// Indexing a hash: a key it does not hold gives `Null`, not an error; a
/// key it holds gives its value; an index that cannot be a key (an array, a
/// hash, a function...) fails with `UnhashableKey`.
pub proof fn lemma_hash_index(
    pairs: Vec<(Object, Object)>,
    index: Object,
    r: Result<Object, EvalError>,
)
    requires
        index_result(Object::Hash(pairs), index, r),
    ensures
        !spec_hashable(index) ==> r == Err::<Object, EvalError>(
            EvalError::UnhashableKey(spec_type(index)),
        ),
        spec_hashable(index) && (forall|j: int|
            0 <= j < pairs.len() ==> !key_eq(#[trigger] pairs[j].0, index)) ==> r == Ok::<
            Object,
            EvalError,
        >(Object::Null),
        spec_hashable(index) && (exists|j: int|
            0 <= j < pairs.len() && key_eq(#[trigger] pairs[j].0, index)) ==> (r matches Ok(v)
            && exists|j: int|
            0 <= j < pairs.len() && key_eq(#[trigger] pairs[j].0, index) && v == pairs[j].1),
{
    lemma_find_key_range(pairs@, index, pairs.len() as int);
    lemma_find_key_spec(pairs@, index, pairs.len() as int);
}

proof fn lemma_find_key_spec(s: Seq<(Object, Object)>, key: Object, n: int)
    requires
        0 <= n <= s.len(),
    ensures
        find_key(s, key, n) >= 0 ==> key_eq(s[find_key(s, key, n)].0, key),
        find_key(s, key, n) == -1 ==> forall|j: int| 0 <= j < n ==> !key_eq(#[trigger] s[j].0, key),
    decreases n,
{
    if n > 0 {
        lemma_find_key_spec(s, key, n - 1);
        lemma_find_key_range(s, key, n - 1);
    }
}

pub fn eval_index_expression(left: Object, index: Object) -> (r: Result<Object, EvalError>)
    ensures
        index_result(left, index, r),
{
    let lt = left.object_type();
    let it = index.object_type();
    match left {
        Object::Array(v) => {
            match index {
                Object::Integer(i) => {
                    let mut v = v;
                    if i < 0 || i as u64 >= v.len() as u64 {
                        Ok(Object::Null)
                    } else {
                        Ok(v.remove(i as usize))
                    }
                },
                _ => Err(EvalError::NotIndexable { left: lt, index: it }),
            }
        },
        Object::Hash(pairs) => {
            if !index.is_hashable() {
                return Err(EvalError::UnhashableKey(it));
            }
            match find_key_index(&pairs, &index) {
                Some(j) => {
                    let mut pairs = pairs;
                    let (_, value) = pairs.remove(j);
                    Ok(value)
                },
                None => Ok(Object::Null),
            }
        },
        _ => Err(EvalError::NotIndexable { left: lt, index: it }),
    }
}

/// Names a value (or result) reached during an evaluation, with the scopes
/// as they stood; it holds of everything and serves only to let the solver
/// find the intermediate steps of the relations below.
pub open spec fn reached<T>(v: T, s: Seq<Frame>) -> bool {
    true
}

/// A result that ends a run of statements: an error, or a `return`.
pub open spec fn stops(r: Result<Object, EvalError>) -> bool {
    r is Err || (r matches Ok(o) && o is ReturnValue)
}

/// What a call gives back from its body: the value of a `return`, unwrapped.
pub open spec fn unwrap_return(r: Result<Object, EvalError>) -> Result<Object, EvalError> {
    match r {
        Ok(Object::ReturnValue(x)) => Ok(*x),
        _ => r,
    }
}

/// The entries `es` of a hash with `key` bound to `val`: an equal key has its
/// value replaced, else the entry is added at the end.
pub open spec fn hash_insert(es: Seq<(Object, Object)>, key: Object, val: Object) -> Seq<
    (Object, Object),
> {
    let j = find_key(es, key, es.len() as int);
    if j >= 0 {
        es.update(j, (key, val))
    } else {
        es.push((key, val))
    }
}

/// No two entries of `es` have equal keys.
pub open spec fn keys_unique(es: Seq<(Object, Object)>) -> bool {
    forall|i: int, j: int|
        0 <= i < j < es.len() ==> !key_eq(#[trigger] es[i].0, #[trigger] es[j].0)
}

/// The bindings of a new call scope: the parameters bound to the arguments
/// in order, as `let` would bind them.
pub open spec fn bind_params(params: Seq<Identifier>, args: Seq<Object>, n: int) -> Seq<
    (String, Object),
>
    decreases n,
{
    if n <= 0 || n > params.len() || n > args.len() {
        Seq::empty()
    } else {
        set_store(bind_params(params, args, n - 1), params[n - 1].0, args[n - 1])
    }
}

/// `bound` is `fb` with one scope added, inside scope `captured`, holding
/// the parameters bound to the arguments.
pub open spec fn binds_call(
    fb: Seq<Frame>,
    captured: int,
    params: Seq<Identifier>,
    args: Seq<Object>,
    bound: Seq<Frame>,
) -> bool {
    &&& bound.len() == fb.len() + 1
    &&& bound.subrange(0, fb.len() as int) == fb
    &&& bound[fb.len() as int].outer == Some(captured as usize)
    &&& bound[fb.len() as int].store@ == bind_params(params, args, params.len() as int)
}

/// Evaluating `e` in scope `f` of the scopes `fb`, with calls allowed to
/// nest `d` deep, gives `r` and leaves the scopes `fa`. Operands are
/// evaluated left to right, and the first error ends the evaluation.
pub open spec fn ev_expr(
    fb: Seq<Frame>,
    f: int,
    d: int,
    e: Expression,
    r: Result<Object, EvalError>,
    fa: Seq<Frame>,
) -> bool
    decreases d, e, 1int,
{
    match e {
        Expression::IntegerLiteral(i) => fa == fb && r == Ok::<Object, EvalError>(
            Object::Integer(i),
        ),
        Expression::Boolean(b) => fa == fb && r == Ok::<Object, EvalError>(Object::Boolean(b)),
        Expression::StringLiteral(s) => fa == fb && (r matches Ok(Object::String(t)) && t@ == s@),
        Expression::Ident(id) => fa == fb && match resolve(fb, f, id.0@) {
            Some(o) => r matches Ok(c) && same(c, o),
            None => match builtin_named(id.0@) {
                Some(b) => r == Ok::<Object, EvalError>(Object::Builtin(b)),
                None => r matches Err(EvalError::IdentifierNotFound(n)) && n@ == id.0@,
            },
        },
        Expression::FunctionLiteral { parameters, body } => fa == fb && (r matches Ok(
            Object::Function { parameters: p, body: b, env },
        ) && env == f && p.len() == parameters.len() && (forall|i: int|
            0 <= i < p.len() ==> (#[trigger] p[i]).0@ == parameters[i].0@) && same_program(body, b)),
        Expression::Prefix { operator, right, .. } => (r is Err && ev_expr(fb, f, d, *right, r, fa))
            || exists|v: Object|
            #![trigger reached(v, fa)]
            reached(v, fa) && ev_expr(fb, f, d, *right, Ok(v), fa) && prefix_result(
                operator@,
                v,
                r,
            ),
        Expression::Infix { operator, left, right, .. } => (r is Err && ev_expr(
            fb,
            f,
            d,
            *left,
            r,
            fa,
        )) || exists|a: Object, mid: Seq<Frame>|
            #![trigger reached(a, mid)]
            reached(a, mid) && ev_expr(fb, f, d, *left, Ok(a), mid) && ((r is Err && ev_expr(
                mid,
                f,
                d,
                *right,
                r,
                fa,
            )) || exists|b: Object|
                #![trigger reached(b, fa)]
                reached(b, fa) && ev_expr(mid, f, d, *right, Ok(b), fa) && infix_result(
                    operator@,
                    a,
                    b,
                    r,
                )),
        Expression::IndexExpr { left, index } => (r is Err && ev_expr(fb, f, d, *left, r, fa))
            || exists|a: Object, mid: Seq<Frame>|
            #![trigger reached(a, mid)]
            reached(a, mid) && ev_expr(fb, f, d, *left, Ok(a), mid) && ((r is Err && ev_expr(
                mid,
                f,
                d,
                *index,
                r,
                fa,
            )) || exists|b: Object|
                #![trigger reached(b, fa)]
                reached(b, fa) && ev_expr(mid, f, d, *index, Ok(b), fa) && index_result(a, b, r)),
        Expression::If { condition, consequence, alternative } => (r is Err && ev_expr(
            fb,
            f,
            d,
            *condition,
            r,
            fa,
        )) || exists|c: Object, mid: Seq<Frame>|
            #![trigger reached(c, mid)]
            reached(c, mid) && ev_expr(fb, f, d, *condition, Ok(c), mid) && if spec_truthy(c) {
                ev_block(mid, f, d, consequence, r, fa)
            } else {
                match alternative {
                    Some(alt) => ev_block(mid, f, d, alt, r, fa),
                    None => r == Ok::<Object, EvalError>(Object::Null) && fa == mid,
                }
            },
        Expression::ArrayLiteral(elements) => exists|lr: Result<Seq<Object>, EvalError>|
            #![trigger reached(lr, fa)]
            reached(lr, fa) && ev_list(fb, f, d, elements, elements.len() as int, lr, fa)
                && match lr {
                Ok(vs) => r matches Ok(Object::Array(w)) && w@ == vs,
                Err(err) => r == Err::<Object, EvalError>(err),
            },
        Expression::HashLiteral(pairs) => exists|hr: Result<Seq<(Object, Object)>, EvalError>|
            #![trigger reached(hr, fa)]
            reached(hr, fa) && ev_entries(fb, f, d, pairs, pairs.len() as int, hr, fa)
                && match hr {
                Ok(es) => r matches Ok(Object::Hash(w)) && w@ == es,
                Err(err) => r == Err::<Object, EvalError>(err),
            },
        Expression::Call { function, arguments } => (r is Err && ev_expr(
            fb,
            f,
            d,
            *function,
            r,
            fa,
        )) || exists|fv: Object, mid: Seq<Frame>|
            #![trigger reached(fv, mid)]
            reached(fv, mid) && ev_expr(fb, f, d, *function, Ok(fv), mid) && exists|
                lr: Result<Seq<Object>, EvalError>,
                mid2: Seq<Frame>,
            |
                #![trigger reached(lr, mid2)]
                reached(lr, mid2) && ev_list(mid, f, d, arguments, arguments.len() as int, lr, mid2)
                    && match lr {
                    Err(err) => r == Err::<Object, EvalError>(err) && fa == mid2,
                    Ok(vs) => apply_rel(mid2, fv, vs, d, e, r, fa),
                },
    }
}

/// Evaluating the first `n` expressions of `v` in order gives their values,
/// or the first error.
pub open spec fn ev_list(
    fb: Seq<Frame>,
    f: int,
    d: int,
    v: Vec<Expression>,
    n: int,
    r: Result<Seq<Object>, EvalError>,
    fa: Seq<Frame>,
) -> bool
    decreases d, v, n,
{
    if n <= 0 || n > v.len() {
        n == 0 && r == Ok::<Seq<Object>, EvalError>(Seq::empty()) && fa == fb
    } else {
        exists|pr: Result<Seq<Object>, EvalError>, mid: Seq<Frame>|
            #![trigger reached(pr, mid)]
            reached(pr, mid) && ev_list(fb, f, d, v, n - 1, pr, mid) && match pr {
                Err(err) => r == Err::<Seq<Object>, EvalError>(err) && fa == mid,
                Ok(vs) => (r matches Err(err) && ev_expr(
                    mid,
                    f,
                    d,
                    v[n - 1],
                    Err::<Object, EvalError>(err),
                    fa,
                )) || exists|x: Object|
                    #![trigger reached(x, fa)]
                    reached(x, fa) && ev_expr(mid, f, d, v[n - 1], Ok(x), fa) && r == Ok::<
                        Seq<Object>,
                        EvalError,
                    >(vs.push(x)),
            }
    }
}

/// Evaluating the first `n` entries of a hash literal, key then value, in
/// order: every key must be hashable, and a later key equal to an earlier
/// one replaces its value.
pub open spec fn ev_entries(
    fb: Seq<Frame>,
    f: int,
    d: int,
    pairs: Vec<(Expression, Expression)>,
    n: int,
    r: Result<Seq<(Object, Object)>, EvalError>,
    fa: Seq<Frame>,
) -> bool
    decreases d, pairs, n,
{
    if n <= 0 || n > pairs.len() {
        n == 0 && r == Ok::<Seq<(Object, Object)>, EvalError>(Seq::empty()) && fa == fb
    } else {
        exists|pr: Result<Seq<(Object, Object)>, EvalError>, mid: Seq<Frame>|
            #![trigger reached(pr, mid)]
            reached(pr, mid) && ev_entries(fb, f, d, pairs, n - 1, pr, mid) && match pr {
                Err(err) => r == Err::<Seq<(Object, Object)>, EvalError>(err) && fa == mid,
                Ok(es) => (r matches Err(err) && ev_expr(
                    mid,
                    f,
                    d,
                    pairs[n - 1].0,
                    Err::<Object, EvalError>(err),
                    fa,
                )) || exists|k: Object, mid2: Seq<Frame>|
                    #![trigger reached(k, mid2)]
                    reached(k, mid2) && ev_expr(mid, f, d, pairs[n - 1].0, Ok(k), mid2) && ((
                    r matches Err(err) && ev_expr(
                        mid2,
                        f,
                        d,
                        pairs[n - 1].1,
                        Err::<Object, EvalError>(err),
                        fa,
                    )) || exists|x: Object|
                        #![trigger reached(x, fa)]
                        reached(x, fa) && ev_expr(mid2, f, d, pairs[n - 1].1, Ok(x), fa)
                            && if spec_hashable(k) {
                            r == Ok::<Seq<(Object, Object)>, EvalError>(hash_insert(es, k, x))
                        } else {
                            r == Err::<Seq<(Object, Object)>, EvalError>(
                                EvalError::InvalidHashKey(spec_type(k)),
                            )
                        }),
            }
    }
}

/// Running the statements of block `p` in scope `f` (see `ev_stmts`).
pub open spec fn ev_block(
    fb: Seq<Frame>,
    f: int,
    d: int,
    p: Program,
    r: Result<Object, EvalError>,
    fa: Seq<Frame>,
) -> bool
    decreases d, p, p.0.len() + 1,
{
    ev_stmts(fb, f, d, p, p.0.len() as int, r, fa)
}

/// Running the first `n` statements of `p` in order, in the same scope: an
/// error or a `return` (still wrapped) ends the run; otherwise the result is
/// the value of the last statement run, `Null` for none.
pub open spec fn ev_stmts(
    fb: Seq<Frame>,
    f: int,
    d: int,
    p: Program,
    n: int,
    r: Result<Object, EvalError>,
    fa: Seq<Frame>,
) -> bool
    decreases d, p, n,
{
    if n <= 0 || n > p.0.len() {
        n == 0 && r == Ok::<Object, EvalError>(Object::Null) && fa == fb
    } else {
        exists|pr: Result<Object, EvalError>, mid: Seq<Frame>|
            #![trigger reached(pr, mid)]
            reached(pr, mid) && ev_stmts(fb, f, d, p, n - 1, pr, mid) && if stops(pr) {
                r == pr && fa == mid
            } else {
                ev_stmt(mid, f, d, p.0[n - 1], r, fa)
            }
    }
}

/// Running one statement in scope `f`: `let` binds the value there and gives
/// `Null`; `return` gives the value wrapped in `ReturnValue`; an expression
/// statement gives its value.
pub open spec fn ev_stmt(
    fb: Seq<Frame>,
    f: int,
    d: int,
    st: Statement,
    r: Result<Object, EvalError>,
    fa: Seq<Frame>,
) -> bool
    decreases d, st, 0int,
{
    match st {
        Statement::Let { name, value, .. } => (r is Err && ev_expr(fb, f, d, value, r, fa))
            || exists|v: Object, mid: Seq<Frame>|
            #![trigger reached(v, mid)]
            reached(v, mid) && ev_expr(fb, f, d, value, Ok(v), mid) && r == Ok::<
                Object,
                EvalError,
            >(Object::Null) && sets_binding(mid, f, name, v, fa),
        Statement::Return { value, .. } => (r is Err && ev_expr(fb, f, d, value, r, fa))
            || exists|v: Object|
            #![trigger reached(v, fa)]
            reached(v, fa) && ev_expr(fb, f, d, value, Ok(v), fa) && (r matches Ok(
                Object::ReturnValue(b),
            ) && *b == v),
        Statement::Expr(e) => ev_expr(fb, f, d, e, r, fa),
    }
}

/// Calling `fv` on `args` with the scopes `fb`: a built-in gives what it
/// computes; a function checks its arity, its captured scope and the depth
/// left, then runs its body in a new scope inside the captured one with the
/// parameters bound, and gives the body's value with a `return` unwrapped.
pub open spec fn apply_rel(
    fb: Seq<Frame>,
    fv: Object,
    args: Seq<Object>,
    d: int,
    call: Expression,
    r: Result<Object, EvalError>,
    fa: Seq<Frame>,
) -> bool
    decreases d, call, 0int,
{
    match fv {
        Object::Builtin(b) => fa == fb && builtin_result(b, args, r),
        Object::Function { parameters, body, env: captured } => if parameters.len() != args.len() {
            fa == fb && r == Err::<Object, EvalError>(
                EvalError::ArityMismatch { expected: parameters.len(), got: args.len() as usize },
            )
        } else if captured >= fb.len() {
            fa == fb && r == Err::<Object, EvalError>(EvalError::UnknownScope(captured))
        } else if d <= 0 {
            fa == fb && r == Err::<Object, EvalError>(EvalError::RecursionLimit)
        } else {
            exists|bound: Seq<Frame>, br: Result<Object, EvalError>|
                #![trigger reached(br, bound)]
                reached(br, bound) && binds_call(fb, captured as int, parameters@, args, bound)
                    && ev_block(bound, fb.len() as int, d - 1, body, br, fa) && r == unwrap_return(
                    br,
                )
        },
        _ => fa == fb && r == Err::<Object, EvalError>(EvalError::NotAFunction(spec_type(fv))),
    }
}

/// A list result with its values as a sequence.
pub open spec fn seq_result(r: Result<Vec<Object>, EvalError>) -> Result<Seq<Object>, EvalError> {
    match r {
        Ok(v) => Ok(v@),
        Err(e) => Err(e),
    }
}

/// The entries of a hash result, as a sequence.
pub open spec fn entries_result(r: Result<Object, EvalError>) -> Result<
    Seq<(Object, Object)>,
    EvalError,
> {
    match r {
        Ok(Object::Hash(w)) => Ok(w@),
        Ok(_) => Ok(Seq::empty()),
        Err(e) => Err(e),
    }
}

proof fn lemma_list_error_stays(
    fb: Seq<Frame>,
    f: int,
    d: int,
    v: Vec<Expression>,
    k: int,
    n: int,
    err: EvalError,
    fa: Seq<Frame>,
)
    requires
        0 <= k <= n <= v.len(),
        ev_list(fb, f, d, v, k, Err(err), fa),
    ensures
        ev_list(fb, f, d, v, n, Err(err), fa),
    decreases n - k,
{
    if k < n {
        assert(reached(Err::<Seq<Object>, EvalError>(err), fa));
        assert(ev_list(fb, f, d, v, k + 1, Err(err), fa));
        lemma_list_error_stays(fb, f, d, v, k + 1, n, err, fa);
    }
}

proof fn lemma_entries_error_stays(
    fb: Seq<Frame>,
    f: int,
    d: int,
    v: Vec<(Expression, Expression)>,
    k: int,
    n: int,
    err: EvalError,
    fa: Seq<Frame>,
)
    requires
        0 <= k <= n <= v.len(),
        ev_entries(fb, f, d, v, k, Err(err), fa),
    ensures
        ev_entries(fb, f, d, v, n, Err(err), fa),
    decreases n - k,
{
    if k < n {
        assert(reached(Err::<Seq<(Object, Object)>, EvalError>(err), fa));
        assert(ev_entries(fb, f, d, v, k + 1, Err(err), fa));
        lemma_entries_error_stays(fb, f, d, v, k + 1, n, err, fa);
    }
}

proof fn lemma_stop_stays(
    fb: Seq<Frame>,
    f: int,
    d: int,
    p: Program,
    k: int,
    n: int,
    r: Result<Object, EvalError>,
    fa: Seq<Frame>,
)
    requires
        0 <= k <= n <= p.0.len(),
        stops(r),
        ev_stmts(fb, f, d, p, k, r, fa),
    ensures
        ev_stmts(fb, f, d, p, n, r, fa),
    decreases n - k,
{
    if k < n {
        assert(reached(r, fa));
        assert(ev_stmts(fb, f, d, p, k + 1, r, fa));
        lemma_stop_stays(fb, f, d, p, k + 1, n, r, fa);
    }
}

/// What one evaluation of source text gives: the diagnostics of the parse,
/// and the text of the resulting value or the error that stopped evaluation.
pub struct EvalOutcome {
    pub diagnostics: Vec<ParseError>,
    pub result: Result<String, EvalError>,
}

/// Lexes, parses and evaluates `source` in the global scope of `env`, so that
/// its bindings stay there for the next call. The statements that parsed are
/// evaluated even when others did not.
pub fn evaluate_program(source: &str, env: &mut Environment) -> (r: EvalOutcome)
    requires
        old(env).wf(),
    ensures
        final(env).grows_from(old(env)),
        exists|p: Program, v: Result<Object, EvalError>|
            #![trigger ev_block(old(env).frames(), 0, MAX_CALL_DEPTH as int, p, v, final(env).frames())]
            program_of(source@, p) && ((exists|t: Seq<Statement>| wf_program(source@, t))
                ==> same_statements(p.stmts(), reading_of(source@))) && ev_block(
                old(env).frames(),
                0,
                MAX_CALL_DEPTH as int,
                p,
                v,
                final(env).frames(),
            ) && match v {
                Ok(o) => r.result matches Ok(text) && text@ == render_object(&o),
                Err(e) => r.result == Err::<String, EvalError>(e),
            },
        (exists|t: Seq<Statement>| wf_program(source@, t)) ==> r.diagnostics@.len() == 0,
{
    let lexer = Lexer::new(source);
    let mut parser = Parser::new(lexer);
    let (program, diagnostics) = parser.parse_program();
    let ghost p = program;
    let ghost fb = env.frames();
    let evaluated = eval(Node::Program(program), env);
    proof {
        assert(ev_block(fb, 0, MAX_CALL_DEPTH as int, p, evaluated, env.frames()));
    }
    let result = match evaluated {
        Ok(value) => Ok(value.to_string()),
        Err(e) => Err(e),
    };
    EvalOutcome { diagnostics, result }
}

/// Evaluates a whole tree in `env`, with its global scope as the current
/// one.
pub fn eval(node: Node, env: &mut Environment) -> (r: Result<Object, EvalError>)
    requires
        old(env).wf(),
    ensures
        final(env).grows_from(old(env)),
        match node {
            Node::Program(p) => ev_block(
                old(env).frames(),
                0,
                MAX_CALL_DEPTH as int,
                p,
                r,
                final(env).frames(),
            ),
            Node::Statement(st) => ev_stmt(
                old(env).frames(),
                0,
                MAX_CALL_DEPTH as int,
                st,
                r,
                final(env).frames(),
            ),
            Node::Expression(e) => ev_expr(
                old(env).frames(),
                0,
                MAX_CALL_DEPTH as int,
                e,
                r,
                final(env).frames(),
            ),
        },
{
    match node {
        Node::Program(program) => eval_program(&program, env, 0, MAX_CALL_DEPTH),
        Node::Statement(stmt) => eval_statement(&stmt, env, 0, MAX_CALL_DEPTH),
        Node::Expression(expr) => eval_expression(&expr, env, 0, MAX_CALL_DEPTH),
    }
}

/// Runs the statements in order in scope `frame`. A `return` stops the run:
/// its value comes back still wrapped in `ReturnValue`, for the caller to
/// unwrap. Otherwise the result is the value of the last statement (`Null`
/// for none).
pub fn eval_program(program: &Program, env: &mut Environment, frame: usize, depth: u64) -> (r:
    Result<Object, EvalError>)
    requires
        old(env).wf(),
        frame < old(env).frames().len(),
    ensures
        final(env).grows_from(old(env)),
        program.stmts().len() == 0 ==> r == Ok::<Object, EvalError>(Object::Null),
        ev_block(old(env).frames(), frame as int, depth as int, *program, r, final(env).frames()),
    decreases depth, program, 0nat,
{
    let ghost fb = env.frames();
    let ghost n = program.0.len() as int;
    let mut result = Object::Null;
    let mut i: usize = 0;
    while i < program.0.len()
        invariant
            env.grows_from(old(env)),
            fb == old(env).frames(),
            n == program.0.len(),
            frame < env.frames().len(),
            i <= program.0.len(),
            program.stmts().len() == 0 ==> result == Object::Null,
            ev_stmts(fb, frame as int, depth as int, *program, i as int, Ok(result), env.frames()),
            !stops(Ok::<Object, EvalError>(result)),
        decreases program.0.len() - i,
    {
        assert(decreases_to!(program.0 => program.0[i as int]));
        proof {
            assert(reached(Ok::<Object, EvalError>(result), env.frames()));
        }
        let step = eval_statement(&program.0[i], env, frame, depth);
        proof {
            assert(ev_stmts(fb, frame as int, depth as int, *program, i + 1, step, env.frames()));
        }
        match step {
            Err(e) => {
                proof {
                    lemma_stop_stays(fb, frame as int, depth as int, *program, i + 1, n, step, env.frames());
                }
                return Err(e);
            },
            Ok(v) => {
                result = v;
            },
        }
        if let Object::ReturnValue(_) = result {
            proof {
                lemma_stop_stays(fb, frame as int, depth as int, *program, i + 1, n, step, env.frames());
            }
            return Ok(result);
        }
        i = i + 1;
    }
    Ok(result)
}

/// `let` binds in scope `frame` and gives `Null`; `return` wraps its value
/// in `ReturnValue`; an expression statement gives its value.
pub fn eval_statement(statement: &Statement, env: &mut Environment, frame: usize, depth: u64) -> (r:
    Result<Object, EvalError>)
    requires
        old(env).wf(),
        frame < old(env).frames().len(),
    ensures
        final(env).grows_from(old(env)),
        ev_stmt(old(env).frames(), frame as int, depth as int, *statement, r, final(env).frames()),
    decreases depth, statement, 0nat,
{
    match statement {
        Statement::Let { name, value, .. } => {
            let val = eval_expression(value, env, frame, depth)?;
            proof {
                assert(reached(val, env.frames()));
            }
            env.set_in(frame, name.clone(), val);
            Ok(Object::Null)
        },
        Statement::Return { value, .. } => {
            let val = eval_expression(value, env, frame, depth)?;
            proof {
                assert(reached(val, env.frames()));
            }
            Ok(Object::ReturnValue(Box::new(val)))
        },
        Statement::Expr(expr) => eval_expression(expr, env, frame, depth),
    }
}

/// Evaluates `expression` in scope `frame`. Calls of user functions may nest
/// `depth` deep.
pub fn eval_expression(expression: &Expression, env: &mut Environment, frame: usize, depth: u64) -> (r:
    Result<Object, EvalError>)
    requires
        old(env).wf(),
        frame < old(env).frames().len(),
    ensures
        final(env).grows_from(old(env)),
        ev_expr(old(env).frames(), frame as int, depth as int, *expression, r, final(env).frames()),
    decreases depth, expression, 1nat,
{
    match expression {
        Expression::IntegerLiteral(i) => Ok(Object::Integer(*i)),
        Expression::Boolean(b) => Ok(Object::Boolean(*b)),
        Expression::StringLiteral(s) => Ok(Object::String(s.clone())),
        Expression::Ident(identifier) => {
            let name = identifier.value();
            match env.get_in(frame, name) {
                Some(val) => Ok(val),
                None => match lookup_builtin(name) {
                    Some(b) => Ok(Object::Builtin(b)),
                    None => Err(EvalError::IdentifierNotFound(String::from_str(name))),
                },
            }
        },
        Expression::Prefix { operator, right, .. } => {
            let right = eval_expression(right, env, frame, depth)?;
            proof {
                assert(reached(right, env.frames()));
            }
            eval_prefix_expression(operator.as_str(), right)
        },
        Expression::Infix { operator, left, right, .. } => {
            let left = eval_expression(left, env, frame, depth)?;
            proof {
                assert(reached(left, env.frames()));
            }
            let right = eval_expression(right, env, frame, depth)?;
            proof {
                assert(reached(right, env.frames()));
            }
            eval_infix_expression(operator.as_str(), left, right)
        },
        Expression::If { condition, consequence, alternative } => {
            let condition = eval_expression(condition, env, frame, depth)?;
            proof {
                assert(reached(condition, env.frames()));
            }
            if is_truthy(&condition) {
                eval_program(consequence, env, frame, depth)
            } else {
                match alternative {
                    Some(alt) => eval_program(alt, env, frame, depth),
                    None => Ok(Object::Null),
                }
            }
        },
        Expression::FunctionLiteral { parameters, body } => Ok(
            Object::Function {
                parameters: copy_identifiers(parameters),
                body: copy_program(body),
                env: frame,
            },
        ),
        Expression::Call { function, arguments } => {
            let func = eval_expression(function, env, frame, depth)?;
            proof {
                assert(reached(func, env.frames()));
            }
            let args = eval_expressions(arguments, env, frame, depth);
            proof {
                assert(reached(seq_result(args), env.frames()));
            }
            let args = args?;
            apply_function(func, args, env, depth, Ghost(*expression))
        },
        Expression::ArrayLiteral(elements) => {
            let elements = eval_expressions(elements, env, frame, depth);
            proof {
                assert(reached(seq_result(elements), env.frames()));
            }
            let elements = elements?;
            Ok(Object::Array(elements))
        },
        Expression::IndexExpr { left, index } => {
            let left = eval_expression(left, env, frame, depth)?;
            proof {
                assert(reached(left, env.frames()));
            }
            let index = eval_expression(index, env, frame, depth)?;
            proof {
                assert(reached(index, env.frames()));
            }
            eval_index_expression(left, index)
        },
        Expression::HashLiteral(pairs) => {
            let h = eval_hash_literal(pairs, env, frame, depth);
            proof {
                assert(reached(entries_result(h), env.frames()));
            }
            h
        },
    }
}

/// Evaluates each expression in order; the first error stops the run.
fn eval_expressions(
    expressions: &Vec<Expression>,
    env: &mut Environment,
    frame: usize,
    depth: u64,
) -> (r: Result<Vec<Object>, EvalError>)
    requires
        old(env).wf(),
        frame < old(env).frames().len(),
    ensures
        final(env).grows_from(old(env)),
        r matches Ok(v) ==> v.len() == expressions.len(),
        ev_list(
            old(env).frames(),
            frame as int,
            depth as int,
            *expressions,
            expressions.len() as int,
            seq_result(r),
            final(env).frames(),
        ),
    decreases depth, expressions, 0nat,
{
    let mut result: Vec<Object> = Vec::new();
    let mut i: usize = 0;
    while i < expressions.len()
        invariant
            env.grows_from(old(env)),
            frame < env.frames().len(),
            i <= expressions.len(),
            result.len() == i,
            ev_list(
                old(env).frames(),
                frame as int,
                depth as int,
                *expressions,
                i as int,
                Ok(result@),
                env.frames(),
            ),
        decreases expressions.len() - i,
    {
        assert(decreases_to!(expressions => expressions[i as int]));
        proof {
            assert(reached(Ok::<Seq<Object>, EvalError>(result@), env.frames()));
        }
        let evaluated = match eval_expression(&expressions[i], env, frame, depth) {
            Ok(x) => x,
            Err(e) => {
                proof {
                    assert(ev_list(
                        old(env).frames(),
                        frame as int,
                        depth as int,
                        *expressions,
                        i + 1,
                        Err(e),
                        env.frames(),
                    ));
                    lemma_list_error_stays(
                        old(env).frames(),
                        frame as int,
                        depth as int,
                        *expressions,
                        i + 1,
                        expressions.len() as int,
                        e,
                        env.frames(),
                    );
                }
                return Err(e);
            },
        };
        proof {
            assert(reached(evaluated, env.frames()));
        }
        let ghost before = result;
        result.push(evaluated);
        assert(forall|j: int| 0 <= j < i ==> result[j] == before[j]);
        i = i + 1;
    }
    Ok(result)
}

/// Evaluates each key, then its value, in order. Every key must be hashable;
/// a later key equal to an earlier one replaces its value.
fn eval_hash_literal(
    pairs: &Vec<(Expression, Expression)>,
    env: &mut Environment,
    frame: usize,
    depth: u64,
) -> (r: Result<Object, EvalError>)
    requires
        old(env).wf(),
        frame < old(env).frames().len(),
    ensures
        final(env).grows_from(old(env)),
        r matches Ok(o) ==> o is Hash,
        r matches Ok(Object::Hash(w)) ==> keys_unique(w@),
        ev_entries(
            old(env).frames(),
            frame as int,
            depth as int,
            *pairs,
            pairs.len() as int,
            entries_result(r),
            final(env).frames(),
        ),
    decreases depth, pairs, 0nat,
{
    let ghost fb = env.frames();
    let ghost n = pairs.len() as int;
    let mut entries: Vec<(Object, Object)> = Vec::new();
    let mut i: usize = 0;
    while i < pairs.len()
        invariant
            env.grows_from(old(env)),
            fb == old(env).frames(),
            n == pairs.len(),
            frame < env.frames().len(),
            i <= pairs.len(),
            keys_unique(entries@),
            ev_entries(fb, frame as int, depth as int, *pairs, i as int, Ok(entries@), env.frames()),
        decreases pairs.len() - i,
    {
        assert(decreases_to!(pairs => pairs[i as int]));
        proof {
            assert(reached(Ok::<Seq<(Object, Object)>, EvalError>(entries@), env.frames()));
        }
        let key = match eval_expression(&pairs[i].0, env, frame, depth) {
            Ok(k) => k,
            Err(e) => {
                proof {
                    assert(ev_entries(fb, frame as int, depth as int, *pairs, i + 1, Err(e), env.frames()));
                    lemma_entries_error_stays(fb, frame as int, depth as int, *pairs, i + 1, n, e, env.frames());
                }
                return Err(e);
            },
        };
        proof {
            assert(reached(key, env.frames()));
        }
        let value = match eval_expression(&pairs[i].1, env, frame, depth) {
            Ok(x) => x,
            Err(e) => {
                proof {
                    assert(ev_entries(fb, frame as int, depth as int, *pairs, i + 1, Err(e), env.frames()));
                    lemma_entries_error_stays(fb, frame as int, depth as int, *pairs, i + 1, n, e, env.frames());
                }
                return Err(e);
            },
        };
        proof {
            assert(reached(value, env.frames()));
        }
        if !key.is_hashable() {
            let e = EvalError::InvalidHashKey(key.object_type());
            proof {
                assert(ev_entries(fb, frame as int, depth as int, *pairs, i + 1, Err(e), env.frames()));
                lemma_entries_error_stays(fb, frame as int, depth as int, *pairs, i + 1, n, e, env.frames());
            }
            return Err(e);
        }
        let ghost es = entries@;
        proof {
            lemma_find_key_range(es, key, es.len() as int);
            lemma_find_key_spec(es, key, es.len() as int);
        }
        match find_key_index(&entries, &key) {
            Some(j) => {
                entries.remove(j);
                entries.insert(j, (key, value));
                proof {
                    assert(entries@ =~= es.update(j as int, (key, value)));
                    assert forall|a: int, b: int| 0 <= a < b < entries@.len() implies !key_eq(
                        #[trigger] entries@[a].0,
                        #[trigger] entries@[b].0,
                    ) by {
                        if a == j {
                            assert(!key_eq(es[a].0, es[b].0));
                        } else if b == j {
                            assert(!key_eq(es[a].0, es[b].0));
                        }
                    }
                }
            },
            None => {
                entries.push((key, value));
                proof {
                    assert(entries@ =~= es.push((key, value)));
                }
            },
        }
        proof {
            assert(entries@ == hash_insert(es, key, value));
            assert(ev_entries(fb, frame as int, depth as int, *pairs, i + 1, Ok(entries@), env.frames()));
        }
        i = i + 1;
    }
    Ok(Object::Hash(entries))
}

/// Calls `func` on `args`. A function runs in a new scope inside the one it
/// was defined in, with its parameters bound to the arguments; a `return`
/// inside it ends there, and its value is unwrapped.
fn apply_function(
    func: Object,
    args: Vec<Object>,
    env: &mut Environment,
    depth: u64,
    Ghost(call): Ghost<Expression>,
) -> (r: Result<Object, EvalError>)
    requires
        old(env).wf(),
    ensures
        final(env).grows_from(old(env)),
        func is Builtin ==> builtin_result_of(func, args@, r),
        !(func is Builtin || func is Function) ==> r == Err::<Object, EvalError>(
            EvalError::NotAFunction(spec_type(func)),
        ),
        (func matches Object::Function { parameters, .. } && parameters.len() != args.len()) ==> r
            == Err::<Object, EvalError>(
            EvalError::ArityMismatch { expected: func->parameters.len(), got: args.len() },
        ),
        (func matches Object::Function { parameters, env: captured, .. } && parameters.len()
            == args.len() && captured >= old(env).frames().len()) ==> r == Err::<Object, EvalError>(
            EvalError::UnknownScope(func->env),
        ),
        (func matches Object::Function { parameters, env: captured, .. } && parameters.len()
            == args.len() && captured < old(env).frames().len() && depth == 0) ==> r == Err::<
            Object,
            EvalError,
        >(EvalError::RecursionLimit),
        apply_rel(old(env).frames(), func, args@, depth as int, call, r, final(env).frames()),
    decreases depth, call, 0nat,
{
    match func {
        Object::Function { parameters, body, env: captured } => {
            if parameters.len() != args.len() {
                return Err(EvalError::ArityMismatch { expected: parameters.len(), got: args.len() });
            }
            if captured >= env.scope_count() {
                return Err(EvalError::UnknownScope(captured));
            }
            if depth == 0 {
                return Err(EvalError::RecursionLimit);
            }
            let ghost fb = env.frames();
            let ghost all_args = args@;
            let frame = env.new_enclosed(captured);
            let mut args = args;
            let mut i: usize = 0;
            while i < parameters.len()
                invariant
                    env.grows_from(old(env)),
                    fb == old(env).frames(),
                    frame == fb.len(),
                    captured < fb.len(),
                    all_args.len() == parameters.len(),
                    env.frames().len() == fb.len() + 1,
                    env.frames().subrange(0, fb.len() as int) == fb,
                    env.frames()[frame as int].outer == Some(captured),
                    env.frames()[frame as int].store@ == bind_params(
                        parameters@,
                        all_args,
                        i as int,
                    ),
                    i <= parameters.len(),
                    args@ == all_args.subrange(i as int, all_args.len() as int),
                decreases parameters.len() - i,
            {
                let arg = args.remove(0);
                assert(arg == all_args[i as int]);
                let ghost before = env.frames();
                let name = parameters[i].0.clone();
                env.set_in(frame, name, arg);
                proof {
                    assert(env.frames().subrange(0, fb.len() as int) =~= before.subrange(
                        0,
                        fb.len() as int,
                    ));
                    assert(args@ =~= all_args.subrange(i + 1, all_args.len() as int));
                }
                i = i + 1;
            }
            proof {
                assert(binds_call(fb, captured as int, parameters@, all_args, env.frames()));
            }
            let ghost bound = env.frames();
            let evaluated = eval_program(&body, env, frame, depth - 1);
            proof {
                assert(reached(evaluated, bound));
            }
            let evaluated = evaluated?;
            match evaluated {
                Object::ReturnValue(value) => Ok(*value),
                other => Ok(other),
            }
        },
        Object::Builtin(b) => apply_builtin(b, args),
        other => Err(EvalError::NotAFunction(other.object_type())),
    }
}

pub open spec fn builtin_result_of(func: Object, args: Seq<Object>, r: Result<Object, EvalError>) -> bool {
    match func {
        Object::Builtin(b) => crate::builtins::builtin_result(b, args, r),
        _ => false,
    }
}

} // verus!
