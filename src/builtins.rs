use vstd::prelude::*;
use crate::object::{spec_type, Builtin, EvalError, Object};
use crate::token::str_eq;

verus! {

/// The built-in function called `name`, if there is one.
pub open spec fn builtin_named(name: Seq<char>) -> Option<Builtin> {
    if name == "len"@ {
        Some(Builtin::Len)
    } else if name == "first"@ {
        Some(Builtin::First)
    } else if name == "last"@ {
        Some(Builtin::Last)
    } else if name == "rest"@ {
        Some(Builtin::Rest)
    } else if name == "push"@ {
        Some(Builtin::Push)
    } else {
        None
    }
}

pub fn lookup_builtin(name: &str) -> (r: Option<Builtin>)
    ensures
        r == builtin_named(name@),
{
    if str_eq(name, "len") {
        Some(Builtin::Len)
    } else if str_eq(name, "first") {
        Some(Builtin::First)
    } else if str_eq(name, "last") {
        Some(Builtin::Last)
    } else if str_eq(name, "rest") {
        Some(Builtin::Rest)
    } else if str_eq(name, "push") {
        Some(Builtin::Push)
    } else {
        None
    }
}

/// What calling built-in `b` on `args` gives.
pub open spec fn builtin_result(b: Builtin, args: Seq<Object>, r: Result<Object, EvalError>) -> bool {
    let want: usize = if b == Builtin::Push {
        2
    } else {
        1
    };
    if args.len() != want {
        r == Err::<Object, EvalError>(EvalError::WrongArgumentCount { got: args.len() as usize, want })
    } else {
        match (b, args[0]) {
            (Builtin::Len, Object::String(s)) => r == Ok::<Object, EvalError>(
                Object::Integer(s@.len() as i64),
            ) || (s@.len() > i64::MAX && r == Err::<Object, EvalError>(EvalError::IntegerOverflow)),
            (Builtin::Len, Object::Array(v)) => r == Ok::<Object, EvalError>(
                Object::Integer(v.len() as i64),
            ) || (v.len() > i64::MAX && r == Err::<Object, EvalError>(EvalError::IntegerOverflow)),
            (Builtin::First, Object::Array(v)) => if v.len() > 0 {
                r == Ok::<Object, EvalError>(v[0])
            } else {
                r == Ok::<Object, EvalError>(Object::Null)
            },
            (Builtin::Last, Object::Array(v)) => if v.len() > 0 {
                r == Ok::<Object, EvalError>(v[v.len() - 1])
            } else {
                r == Ok::<Object, EvalError>(Object::Null)
            },
            (Builtin::Rest, Object::Array(v)) => if v.len() > 0 {
                r matches Ok(Object::Array(w)) && w@ == v@.subrange(1, v.len() as int)
            } else {
                r == Ok::<Object, EvalError>(Object::Null)
            },
            (Builtin::Push, Object::Array(v)) => r matches Ok(Object::Array(w)) && w@ == v@.push(
                args[1],
            ),
            _ => r == Err::<Object, EvalError>(
                EvalError::UnsupportedArgument { builtin: b, got: spec_type(args[0]) },
            ),
        }
    }
}

/// `push` is persistent: it gives a new array, the elements of the one it
/// was given followed by the new element, and the array it was given is
/// handed over by value, so no binding that holds the original can see a
/// change.
pub proof fn lemma_push_appends(v: Vec<Object>, item: Object, r: Result<Object, EvalError>)
    requires
        builtin_result(Builtin::Push, seq![Object::Array(v), item], r),
    ensures
        r matches Ok(Object::Array(w)) && w.len() == v.len() + 1 && w@.subrange(0, v.len() as int)
            == v@ && w@[v.len() as int] == item,
{
    if let Ok(Object::Array(w)) = r {
        assert(w@.subrange(0, v.len() as int) =~= v@);
    }
}

/// Calls built-in `b`. The arguments are handed over: `push` and `rest`
/// build a new array and leave the one they were given as it was.
pub fn apply_builtin(b: Builtin, args: Vec<Object>) -> (r: Result<Object, EvalError>)
    ensures
        builtin_result(b, args@, r),
{
    match b {
        Builtin::Len => len(args),
        Builtin::First => first(args),
        Builtin::Last => last(args),
        Builtin::Rest => rest(args),
        Builtin::Push => push(args),
    }
}

/// The number of characters of a string, or of elements of an array.
fn len(args: Vec<Object>) -> (r: Result<Object, EvalError>)
    ensures
        builtin_result(Builtin::Len, args@, r),
{
    if args.len() != 1 {
        return Err(EvalError::WrongArgumentCount { got: args.len(), want: 1 });
    }
    let mut args = args;
    let arg = args.pop().unwrap();
    let n = match &arg {
        Object::String(s) => s.as_str().unicode_len(),
        Object::Array(v) => v.len(),
        _ => {
            return Err(EvalError::UnsupportedArgument { builtin: Builtin::Len, got: arg.object_type() });
        },
    };
    if n as u64 > 0x7fff_ffff_ffff_ffff {
        return Err(EvalError::IntegerOverflow);
    }
    Ok(Object::Integer(n as i64))
}

/// The first element of an array; `Null` when it is empty.
fn first(args: Vec<Object>) -> (r: Result<Object, EvalError>)
    ensures
        builtin_result(Builtin::First, args@, r),
{
    if args.len() != 1 {
        return Err(EvalError::WrongArgumentCount { got: args.len(), want: 1 });
    }
    let mut args = args;
    let arg = args.pop().unwrap();
    match arg {
        Object::Array(v) => {
            let mut v = v;
            if v.len() > 0 {
                Ok(v.remove(0))
            } else {
                Ok(Object::Null)
            }
        },
        other => Err(EvalError::UnsupportedArgument { builtin: Builtin::First, got: other.object_type() }),
    }
}

/// The last element of an array; `Null` when it is empty.
fn last(args: Vec<Object>) -> (r: Result<Object, EvalError>)
    ensures
        builtin_result(Builtin::Last, args@, r),
{
    if args.len() != 1 {
        return Err(EvalError::WrongArgumentCount { got: args.len(), want: 1 });
    }
    let mut args = args;
    let arg = args.pop().unwrap();
    match arg {
        Object::Array(v) => {
            let mut v = v;
            match v.pop() {
                Some(x) => Ok(x),
                None => Ok(Object::Null),
            }
        },
        other => Err(EvalError::UnsupportedArgument { builtin: Builtin::Last, got: other.object_type() }),
    }
}

/// A new array of all elements but the first; `Null` when it is empty.
fn rest(args: Vec<Object>) -> (r: Result<Object, EvalError>)
    ensures
        builtin_result(Builtin::Rest, args@, r),
{
    if args.len() != 1 {
        return Err(EvalError::WrongArgumentCount { got: args.len(), want: 1 });
    }
    let mut args = args;
    let arg = args.pop().unwrap();
    match arg {
        Object::Array(v) => {
            let mut v = v;
            if v.len() > 0 {
                v.remove(0);
                Ok(Object::Array(v))
            } else {
                Ok(Object::Null)
            }
        },
        other => Err(EvalError::UnsupportedArgument { builtin: Builtin::Rest, got: other.object_type() }),
    }
}

/// A new array: the elements of the first argument, then the second.
fn push(args: Vec<Object>) -> (r: Result<Object, EvalError>)
    ensures
        builtin_result(Builtin::Push, args@, r),
{
    if args.len() != 2 {
        return Err(EvalError::WrongArgumentCount { got: args.len(), want: 2 });
    }
    let mut args = args;
    let item = args.pop().unwrap();
    let arg = args.pop().unwrap();
    match arg {
        Object::Array(v) => {
            let mut v = v;
            v.push(item);
            Ok(Object::Array(v))
        },
        other => Err(EvalError::UnsupportedArgument { builtin: Builtin::Push, got: other.object_type() }),
    }
}

} // verus!
