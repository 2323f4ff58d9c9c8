use vstd::prelude::*;
use crate::ast::{Ident, SpecStmt, Statement, bool_text, copy_idents, copy_stmts, idents_view, stmts_view};
use crate::text::{decimal, int_to_decimal, push_text};

verus! {

/// A runtime value.
///
/// A function value carries its parameters, its body and the index of the scope it
/// was defined in (its closure); see `Environment`.
#[derive(Debug, PartialEq)]
pub enum ObjectWrapper {
    Null,
    Integer(i64),
    Boolean(bool),
    String(String),
    ReturnValue(Box<ObjectWrapper>),
    ErrorObject(String),
    FunctionObject(Vec<Ident>, Vec<Statement>, usize),
}

/// The mathematical model of a runtime value.
pub enum SpecValue {
    Null,
    Int(i64),
    Bool(bool),
    Str(Seq<char>),
    Return(Box<SpecValue>),
    Error(Seq<char>),
    Function(Seq<Seq<char>>, Seq<SpecStmt>, nat),
}

pub open spec fn value_view(v: ObjectWrapper) -> SpecValue
    decreases v,
{
    match v {
        ObjectWrapper::Null => SpecValue::Null,
        ObjectWrapper::Integer(i) => SpecValue::Int(i),
        ObjectWrapper::Boolean(b) => SpecValue::Bool(b),
        ObjectWrapper::String(s) => SpecValue::Str(s@),
        ObjectWrapper::ReturnValue(b) => SpecValue::Return(Box::new(value_view(*b))),
        ObjectWrapper::ErrorObject(s) => SpecValue::Error(s@),
        ObjectWrapper::FunctionObject(p, b, sc) => SpecValue::Function(
            idents_view(p@),
            stmts_view(b@),
            sc as nat,
        ),
    }
}

impl View for ObjectWrapper {
    type V = SpecValue;

    open spec fn view(&self) -> SpecValue {
        value_view(*self)
    }
}

/// The models of a sequence of values.
pub open spec fn values_view(v: Seq<ObjectWrapper>) -> Seq<SpecValue> {
    v.map_values(|x: ObjectWrapper| x@)
}

/// The outcome of an operation: a value, or an error message.
pub open spec fn outcome_view(r: Result<ObjectWrapper, String>) -> Result<SpecValue, Seq<char>> {
    match r {
        Ok(v) => Ok(v@),
        Err(m) => Err(m@),
    }
}

/// The name of a value's runtime type.
pub open spec fn kind_name(v: SpecValue) -> Seq<char> {
    match v {
        SpecValue::Null => "NULL"@,
        SpecValue::Int(_) => "int"@,
        SpecValue::Bool(_) => "bool"@,
        SpecValue::Str(_) => "string"@,
        SpecValue::Return(_) => "return_value"@,
        SpecValue::Error(_) => "error"@,
        SpecValue::Function(_, _, _) => "function"@,
    }
}

/// How a value is described for display.
pub open spec fn description(v: SpecValue) -> Seq<char>
    decreases v,
{
    match v {
        SpecValue::Null => "Null Object"@,
        SpecValue::Int(i) => "Integer: "@ + decimal(i as int),
        SpecValue::Bool(b) => "Boolean: "@ + bool_text(b),
        SpecValue::Str(s) => "String: "@ + s,
        SpecValue::Return(inner) => "Return Object: "@ + description(*inner),
        SpecValue::Error(m) => "Error: "@ + m,
        SpecValue::Function(_, _, _) => "FunctionObject"@,
    }
}

pub open spec fn fits_i64(v: int) -> bool {
    i64::MIN <= v <= i64::MAX
}

pub open spec fn overflow_message() -> Seq<char> {
    "integer overflow"@
}

/// The error for operands of different runtime types.
pub open spec fn mismatch_message(a: SpecValue, b: SpecValue) -> Seq<char> {
    "Cannot compare between different types:"@ + kind_name(a) + " and "@ + kind_name(b)
}

/// The error for an operator that does not apply to two operands of one type.
pub open spec fn unsupported_message(op: Seq<char>, a: SpecValue, b: SpecValue) -> Seq<char> {
    "'"@ + op + "' is not supported between "@ + kind_name(a) + " and "@ + kind_name(b)
}

/// `+`: integer addition, and string concatenation with a string, integer or boolean
/// written after the string.
pub open spec fn spec_add(a: SpecValue, b: SpecValue) -> Result<SpecValue, Seq<char>> {
    match (a, b) {
        (SpecValue::Int(x), SpecValue::Int(y)) => if fits_i64(x + y) {
            Ok(SpecValue::Int((x + y) as i64))
        } else {
            Err(overflow_message())
        },
        (SpecValue::Int(_), _) => Err("int cannot '+' with type "@ + kind_name(b) + "."@),
        (SpecValue::Str(s), SpecValue::Str(t)) => Ok(SpecValue::Str(s + t)),
        (SpecValue::Str(s), SpecValue::Int(i)) => Ok(SpecValue::Str(s + decimal(i as int))),
        (SpecValue::Str(s), SpecValue::Bool(x)) => Ok(SpecValue::Str(s + bool_text(x))),
        (SpecValue::Str(_), _) => Err("string cannot '+' with type "@ + kind_name(b) + "."@),
        _ => Err("type "@ + kind_name(a) + " does not support '+' operation."@),
    }
}

/// `==`: operands must have the same runtime type; integers, booleans and strings
/// compare by value, two nulls are equal, anything else is unequal.
pub open spec fn spec_eq(a: SpecValue, b: SpecValue) -> Result<SpecValue, Seq<char>> {
    if kind_name(a) != kind_name(b) {
        Err(mismatch_message(a, b))
    } else {
        match (a, b) {
            (SpecValue::Int(x), SpecValue::Int(y)) => Ok(SpecValue::Bool(x == y)),
            (SpecValue::Bool(x), SpecValue::Bool(y)) => Ok(SpecValue::Bool(x == y)),
            (SpecValue::Str(x), SpecValue::Str(y)) => Ok(SpecValue::Bool(x == y)),
            (SpecValue::Null, SpecValue::Null) => Ok(SpecValue::Bool(true)),
            _ => Ok(SpecValue::Bool(false)),
        }
    }
}

/// `!=`: the negation of `==`, with the same type requirement.
pub open spec fn spec_not_eq(a: SpecValue, b: SpecValue) -> Result<SpecValue, Seq<char>> {
    match spec_eq(a, b) {
        Ok(SpecValue::Bool(x)) => Ok(SpecValue::Bool(!x)),
        other => other,
    }
}

/// `*`: multiplication of two integers.
pub open spec fn spec_multi(a: SpecValue, b: SpecValue) -> Result<SpecValue, Seq<char>> {
    if kind_name(a) != kind_name(b) {
        Err(mismatch_message(a, b))
    } else {
        match (a, b) {
            (SpecValue::Int(x), SpecValue::Int(y)) => if fits_i64(x * y) {
                Ok(SpecValue::Int((x * y) as i64))
            } else {
                Err(overflow_message())
            },
            _ => Err(unsupported_message("*"@, a, b)),
        }
    }
}

/// Integer division rounding toward zero.
pub open spec fn trunc_div(x: int, y: int) -> int {
    let q = abs(x) / abs(y);
    if (x < 0) != (y < 0) {
        -q
    } else {
        q
    }
}

pub open spec fn abs(x: int) -> int {
    if x < 0 {
        -x
    } else {
        x
    }
}

/// `/`: division of two integers, rounding toward zero.
pub open spec fn spec_divide(a: SpecValue, b: SpecValue) -> Result<SpecValue, Seq<char>> {
    if kind_name(a) != kind_name(b) {
        Err(mismatch_message(a, b))
    } else {
        match (a, b) {
            (SpecValue::Int(x), SpecValue::Int(y)) => if y == 0 {
                Err("division by zero"@)
            } else if fits_i64(trunc_div(x as int, y as int)) {
                Ok(SpecValue::Int(trunc_div(x as int, y as int) as i64))
            } else {
                Err(overflow_message())
            },
            _ => Err(unsupported_message("/"@, a, b)),
        }
    }
}

/// `>`: ordering of two integers.
pub open spec fn spec_greater(a: SpecValue, b: SpecValue) -> Result<SpecValue, Seq<char>> {
    if kind_name(a) != kind_name(b) {
        Err(mismatch_message(a, b))
    } else {
        match (a, b) {
            (SpecValue::Int(x), SpecValue::Int(y)) => Ok(SpecValue::Bool(x > y)),
            _ => Err(unsupported_message(">"@, a, b)),
        }
    }
}

/// `<`: ordering of two integers.
pub open spec fn spec_less(a: SpecValue, b: SpecValue) -> Result<SpecValue, Seq<char>> {
    if kind_name(a) != kind_name(b) {
        Err(mismatch_message(a, b))
    } else {
        match (a, b) {
            (SpecValue::Int(x), SpecValue::Int(y)) => Ok(SpecValue::Bool(x < y)),
            _ => Err(unsupported_message("<"@, a, b)),
        }
    }
}

fn mismatch(a: &ObjectWrapper, b: &ObjectWrapper) -> (r: String)
    ensures
        r@ == mismatch_message(a@, b@),
{
    let mut m = String::new();
    push_text(&mut m, "Cannot compare between different types:");
    push_text(&mut m, a.type_str());
    push_text(&mut m, " and ");
    push_text(&mut m, b.type_str());
    assert(m@ =~= mismatch_message(a@, b@));
    m
}

fn unsupported(op: &str, a: &ObjectWrapper, b: &ObjectWrapper) -> (r: String)
    ensures
        r@ == unsupported_message(op@, a@, b@),
{
    let mut m = String::new();
    push_text(&mut m, "'");
    push_text(&mut m, op);
    push_text(&mut m, "' is not supported between ");
    push_text(&mut m, a.type_str());
    push_text(&mut m, " and ");
    push_text(&mut m, b.type_str());
    assert(m@ =~= unsupported_message(op@, a@, b@));
    m
}

fn overflow() -> (r: String)
    ensures
        r@ == overflow_message(),
{
    "integer overflow".to_owned()
}

/// Whether two values have the same runtime type.
fn same_type(a: &ObjectWrapper, b: &ObjectWrapper) -> (r: bool)
    ensures
        r == (kind_name(a@) == kind_name(b@)),
{
    proof {
        reveal_strlit("NULL");
        reveal_strlit("int");
        reveal_strlit("bool");
        reveal_strlit("string");
        reveal_strlit("return_value");
        reveal_strlit("error");
        reveal_strlit("function");
    }
    match (a, b) {
        (ObjectWrapper::Null, ObjectWrapper::Null) => true,
        (ObjectWrapper::Integer(_), ObjectWrapper::Integer(_)) => true,
        (ObjectWrapper::Boolean(_), ObjectWrapper::Boolean(_)) => true,
        (ObjectWrapper::String(_), ObjectWrapper::String(_)) => true,
        (ObjectWrapper::ReturnValue(_), ObjectWrapper::ReturnValue(_)) => true,
        (ObjectWrapper::ErrorObject(_), ObjectWrapper::ErrorObject(_)) => true,
        (ObjectWrapper::FunctionObject(_, _, _), ObjectWrapper::FunctionObject(_, _, _)) => true,
        _ => {
            assert(kind_name(a@).len() != kind_name(b@).len() || kind_name(a@)[0] != kind_name(
                b@,
            )[0] || kind_name(a@)[1] != kind_name(b@)[1]);
            false
        },
    }
}

fn string_eq(a: &String, b: &String) -> (r: bool)
    ensures
        r == (a@ == b@),
{
    *a == *b
}

impl ObjectWrapper {
    pub fn type_str(&self) -> (r: &'static str)
        ensures
            r@ == kind_name(self@),
    {
        match self {
            ObjectWrapper::Null => "NULL",
            ObjectWrapper::Integer(_) => "int",
            ObjectWrapper::Boolean(_) => "bool",
            ObjectWrapper::String(_) => "string",
            ObjectWrapper::ReturnValue(_) => "return_value",
            ObjectWrapper::ErrorObject(_) => "error",
            ObjectWrapper::FunctionObject(_, _, _) => "function",
        }
    }

    /// A description of the value for display.
    pub fn describe(&self) -> (r: String)
        ensures
            r@ == description(self@),
        decreases self,
    {
        let mut out = String::new();
        match self {
            ObjectWrapper::Null => push_text(&mut out, "Null Object"),
            ObjectWrapper::Integer(i) => {
                push_text(&mut out, "Integer: ");
                let d = int_to_decimal(*i);
                push_text(&mut out, d.as_str());
            },
            ObjectWrapper::Boolean(b) => {
                push_text(&mut out, "Boolean: ");
                proof {
                    reveal_strlit("true");
                    reveal_strlit("false");
                    assert("true"@ =~= bool_text(true));
                    assert("false"@ =~= bool_text(false));
                }
                if *b {
                    push_text(&mut out, "true");
                } else {
                    push_text(&mut out, "false");
                }
            },
            ObjectWrapper::String(s) => {
                push_text(&mut out, "String: ");
                push_text(&mut out, s.as_str());
            },
            ObjectWrapper::ReturnValue(v) => {
                push_text(&mut out, "Return Object: ");
                let inner = v.describe();
                push_text(&mut out, inner.as_str());
            },
            ObjectWrapper::ErrorObject(m) => {
                push_text(&mut out, "Error: ");
                push_text(&mut out, m.as_str());
            },
            ObjectWrapper::FunctionObject(_, _, _) => push_text(&mut out, "FunctionObject"),
        }
        assert(out@ =~= description(self@));
        out
    }

    /// A copy of the value.
    pub fn duplicate(&self) -> (r: ObjectWrapper)
        ensures
            r@ == self@,
        decreases self,
    {
        match self {
            ObjectWrapper::Null => ObjectWrapper::Null,
            ObjectWrapper::Integer(i) => ObjectWrapper::Integer(*i),
            ObjectWrapper::Boolean(b) => ObjectWrapper::Boolean(*b),
            ObjectWrapper::String(s) => ObjectWrapper::String(s.clone()),
            ObjectWrapper::ReturnValue(v) => ObjectWrapper::ReturnValue(Box::new(v.duplicate())),
            ObjectWrapper::ErrorObject(s) => ObjectWrapper::ErrorObject(s.clone()),
            ObjectWrapper::FunctionObject(p, b, sc) => ObjectWrapper::FunctionObject(
                copy_idents(p),
                copy_stmts(b),
                *sc,
            ),
        }
    }

    pub fn add(&self, other: &Self) -> (r: Result<Self, String>)
        ensures
            outcome_view(r) == spec_add(self@, other@),
    {
        match self {
            ObjectWrapper::Integer(x) => match other {
                ObjectWrapper::Integer(y) => match x.checked_add(*y) {
                    Some(v) => Ok(ObjectWrapper::Integer(v)),
                    None => Err(overflow()),
                },
                _ => {
                    let mut m = String::new();
                    push_text(&mut m, "int cannot '+' with type ");
                    push_text(&mut m, other.type_str());
                    push_text(&mut m, ".");
                    assert(m@ =~= "int cannot '+' with type "@ + kind_name(other@) + "."@);
                    Err(m)
                },
            },
            ObjectWrapper::String(s) => {
                let mut out = s.clone();
                match other {
                    ObjectWrapper::String(t) => {
                        push_text(&mut out, t.as_str());
                        Ok(ObjectWrapper::String(out))
                    },
                    ObjectWrapper::Integer(i) => {
                        let d = int_to_decimal(*i);
                        push_text(&mut out, d.as_str());
                        Ok(ObjectWrapper::String(out))
                    },
                    ObjectWrapper::Boolean(b) => {
                        proof {
                            reveal_strlit("true");
                            reveal_strlit("false");
                            assert("true"@ =~= bool_text(true));
                            assert("false"@ =~= bool_text(false));
                        }
                        if *b {
                            push_text(&mut out, "true");
                        } else {
                            push_text(&mut out, "false");
                        }
                        Ok(ObjectWrapper::String(out))
                    },
                    _ => {
                        let mut m = String::new();
                        push_text(&mut m, "string cannot '+' with type ");
                        push_text(&mut m, other.type_str());
                        push_text(&mut m, ".");
                        assert(m@ =~= "string cannot '+' with type "@ + kind_name(other@) + "."@);
                        Err(m)
                    },
                }
            },
            _ => {
                let mut m = String::new();
                push_text(&mut m, "type ");
                push_text(&mut m, self.type_str());
                push_text(&mut m, " does not support '+' operation.");
                assert(m@ =~= "type "@ + kind_name(self@) + " does not support '+' operation."@);
                Err(m)
            },
        }
    }

    pub fn eq(&self, other: &Self) -> (r: Result<Self, String>)
        ensures
            outcome_view(r) == spec_eq(self@, other@),
    {
        if !same_type(self, other) {
            return Err(mismatch(self, other));
        }
        match (self, other) {
            (ObjectWrapper::Integer(x), ObjectWrapper::Integer(y)) => Ok(
                ObjectWrapper::Boolean(*x == *y),
            ),
            (ObjectWrapper::Boolean(x), ObjectWrapper::Boolean(y)) => Ok(
                ObjectWrapper::Boolean(*x == *y),
            ),
            (ObjectWrapper::String(x), ObjectWrapper::String(y)) => Ok(
                ObjectWrapper::Boolean(string_eq(x, y)),
            ),
            (ObjectWrapper::Null, ObjectWrapper::Null) => Ok(ObjectWrapper::Boolean(true)),
            _ => Ok(ObjectWrapper::Boolean(false)),
        }
    }

    pub fn not_eq(&self, other: &Self) -> (r: Result<Self, String>)
        ensures
            outcome_view(r) == spec_not_eq(self@, other@),
    {
        match self.eq(other) {
            Ok(ObjectWrapper::Boolean(x)) => Ok(ObjectWrapper::Boolean(!x)),
            other => other,
        }
    }

    pub fn multi(&self, other: &Self) -> (r: Result<Self, String>)
        ensures
            outcome_view(r) == spec_multi(self@, other@),
    {
        if !same_type(self, other) {
            return Err(mismatch(self, other));
        }
        match (self, other) {
            (ObjectWrapper::Integer(x), ObjectWrapper::Integer(y)) => match x.checked_mul(*y) {
                Some(v) => Ok(ObjectWrapper::Integer(v)),
                None => Err(overflow()),
            },
            _ => Err(unsupported("*", self, other)),
        }
    }

    pub fn divide(&self, other: &Self) -> (r: Result<Self, String>)
        ensures
            outcome_view(r) == spec_divide(self@, other@),
    {
        if !same_type(self, other) {
            return Err(mismatch(self, other));
        }
        match (self, other) {
            (ObjectWrapper::Integer(x), ObjectWrapper::Integer(y)) => {
                if *y == 0 {
                    return Err("division by zero".to_owned());
                }
                let ax: u64 = if *x < 0 {
                    (-(*x as i128)) as u64
                } else {
                    *x as u64
                };
                let ay: u64 = if *y < 0 {
                    (-(*y as i128)) as u64
                } else {
                    *y as u64
                };
                let q: u64 = ax / ay;
                let v: i128 = if (*x < 0) != (*y < 0) {
                    -(q as i128)
                } else {
                    q as i128
                };
                assert(v == trunc_div(*x as int, *y as int));
                if v < i64::MIN as i128 || v > i64::MAX as i128 {
                    Err(overflow())
                } else {
                    Ok(ObjectWrapper::Integer(v as i64))
                }
            },
            _ => Err(unsupported("/", self, other)),
        }
    }

    pub fn great_than(&self, other: &Self) -> (r: Result<Self, String>)
        ensures
            outcome_view(r) == spec_greater(self@, other@),
    {
        if !same_type(self, other) {
            return Err(mismatch(self, other));
        }
        match (self, other) {
            (ObjectWrapper::Integer(x), ObjectWrapper::Integer(y)) => Ok(
                ObjectWrapper::Boolean(*x > *y),
            ),
            _ => Err(unsupported(">", self, other)),
        }
    }

    pub fn less_than(&self, other: &Self) -> (r: Result<Self, String>)
        ensures
            outcome_view(r) == spec_less(self@, other@),
    {
        if !same_type(self, other) {
            return Err(mismatch(self, other));
        }
        match (self, other) {
            (ObjectWrapper::Integer(x), ObjectWrapper::Integer(y)) => Ok(
                ObjectWrapper::Boolean(*x < *y),
            ),
            _ => Err(unsupported("<", self, other)),
        }
    }
}

} // verus!
