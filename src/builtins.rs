use vstd::prelude::*;
use crate::object::{ObjectWrapper, SpecValue, kind_name, outcome_view, values_view};
use crate::text::{nat_decimal, push_text, usize_to_decimal};

verus! {

/// A native function: one the language provides rather than the program defines.
#[derive(Debug, PartialEq, Eq, Structural, Clone, Copy)]
pub enum Builtin {
    /// The length of a string, in bytes.
    Len,
    /// The first element of an array.
    First,
    /// The last element of an array.
    Last,
    /// An array without its last element.
    Rest,
}

/// The native function that a name stands for, if any.
pub open spec fn builtin_named(name: Seq<char>) -> Option<Builtin> {
    if name == "len"@ {
        Some(Builtin::Len)
    } else if name == "first"@ {
        Some(Builtin::First)
    } else if name == "last"@ {
        Some(Builtin::Last)
    } else if name == "rest"@ {
        Some(Builtin::Rest)
    } else {
        None
    }
}

pub open spec fn builtin_text(b: Builtin) -> Seq<char> {
    match b {
        Builtin::Len => "len"@,
        Builtin::First => "first"@,
        Builtin::Last => "last"@,
        Builtin::Rest => "rest"@,
    }
}

/// What calling a native function on `args` gives: each takes one argument, and
/// `len` measures a string. The language has no arrays, so `first`, `last` and
/// `rest` report the argument's type.
pub open spec fn builtin_result(b: Builtin, args: Seq<SpecValue>) -> Result<SpecValue, Seq<char>> {
    if args.len() != 1 {
        Err("Wrong number of arguments, expect 1 got "@ + nat_decimal(args.len()))
    } else {
        match b {
            Builtin::Len => match args[0] {
                SpecValue::Str(s) => Ok(SpecValue::Int((vstd::utf8::encode_utf8(s).len() as usize) as i64)),
                _ => Err("Argument to `len` not supported, got "@ + kind_name(args[0])),
            },
            _ => Err("Argument to '"@ + builtin_text(b) + "' must be ARRAY, got "@ + kind_name(
                args[0],
            )),
        }
    }
}

/// The table of native functions.
pub struct Builtins {}

impl Builtins {
    /// The table.
    pub fn instance_ref() -> (r: Builtins) {
        Builtins {  }
    }

    /// Whether `ident` names a native function.
    pub fn contains(&self, ident: &str) -> (r: bool)
        ensures
            r == builtin_named(ident@) is Some,
    {
        self.get(ident).is_some()
    }

    /// The native function that `ident` names, if any.
    pub fn get(&self, ident: &str) -> (r: Option<Builtin>)
        ensures
            r == builtin_named(ident@),
    {
        proof {
            reveal_strlit("len");
            reveal_strlit("first");
            reveal_strlit("last");
            reveal_strlit("rest");
        }
        let s = ident.to_owned();
        let len = "len".to_owned();
        let first = "first".to_owned();
        let last = "last".to_owned();
        let rest = "rest".to_owned();
        if s == len {
            Some(Builtin::Len)
        } else if s == first {
            Some(Builtin::First)
        } else if s == last {
            Some(Builtin::Last)
        } else if s == rest {
            Some(Builtin::Rest)
        } else {
            None
        }
    }
}

impl Builtin {
    fn name(&self) -> (r: &'static str)
        ensures
            r@ == builtin_text(*self),
    {
        match self {
            Builtin::Len => "len",
            Builtin::First => "first",
            Builtin::Last => "last",
            Builtin::Rest => "rest",
        }
    }

    /// Calls the native function on `args`.
    pub fn call(&self, args: &Vec<ObjectWrapper>) -> (r: Result<ObjectWrapper, String>)
        ensures
            outcome_view(r) == builtin_result(*self, values_view(args@)),
    {
        let ghost vals = values_view(args@);
        if args.len() != 1 {
            let mut m = String::new();
            push_text(&mut m, "Wrong number of arguments, expect 1 got ");
            let n = usize_to_decimal(args.len());
            push_text(&mut m, n.as_str());
            assert(m@ =~= "Wrong number of arguments, expect 1 got "@ + nat_decimal(vals.len()));
            return Err(m);
        }
        assert(vals[0] == args@[0]@);
        match self {
            Builtin::Len => match &args[0] {
                ObjectWrapper::String(s) => Ok(ObjectWrapper::Integer(s.as_str().len() as i64)),
                other => {
                    let mut m = String::new();
                    push_text(&mut m, "Argument to `len` not supported, got ");
                    push_text(&mut m, other.type_str());
                    assert(m@ =~= "Argument to `len` not supported, got "@ + kind_name(vals[0]));
                    Err(m)
                },
            },
            _ => {
                let mut m = String::new();
                push_text(&mut m, "Argument to '");
                push_text(&mut m, self.name());
                push_text(&mut m, "' must be ARRAY, got ");
                push_text(&mut m, args[0].type_str());
                assert(m@ =~= "Argument to '"@ + builtin_text(*self) + "' must be ARRAY, got "@
                    + kind_name(vals[0]));
                Err(m)
            },
        }
    }
}

} // verus!
