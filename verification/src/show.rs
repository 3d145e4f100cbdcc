//! How values are written: as text for `print` and `to-string`, and in the
//! debugging form that error messages use.

use vstd::prelude::*;
use crate::memory::{Primitive, PrimModel, Value, ValueModel};
use crate::text::{int_model, int_to_string};
use crate::util::{debug_quoted, debug_str};

verus! {

/// The text of a primitive: a string itself, an integer in decimal, and a
/// bracketed word for the rest.
pub open spec fn prim_text(p: PrimModel) -> Seq<char> {
    match p {
        PrimModel::Nil => "[nil]"@,
        PrimModel::True => "[true]"@,
        PrimModel::Str(s) => s,
        PrimModel::Int(i) => int_model(i as int),
        PrimModel::Builtin(_) => "[builtin]"@,
    }
}

/// The text of a value: a primitive's text, or a bracketed word for its kind.
pub open spec fn value_text(v: ValueModel) -> Seq<char> {
    match v {
        ValueModel::Primitive(p) => prim_text(p),
        ValueModel::Quote => "[quote]"@,
        ValueModel::Array => "[array]"@,
        ValueModel::Dict => "[dict]"@,
        ValueModel::Fun => "[fn]"@,
    }
}

/// The debugging form of a primitive.
pub open spec fn prim_debug(p: PrimModel) -> Seq<char> {
    match p {
        PrimModel::Nil => "Nil"@,
        PrimModel::True => "True"@,
        PrimModel::Str(s) => "String("@ + debug_quoted(s) + ")"@,
        PrimModel::Int(i) => "Int("@ + int_model(i as int) + ")"@,
        PrimModel::Builtin(b) => "Builtin("@ + b.name_model() + ")"@,
    }
}

/// The debugging form of a value.
pub open spec fn value_debug(v: ValueModel) -> Seq<char> {
    match v {
        ValueModel::Primitive(p) => "Primitive("@ + prim_debug(p) + ")"@,
        ValueModel::Quote => "Quote"@,
        ValueModel::Array => "Array"@,
        ValueModel::Dict => "Dict"@,
        ValueModel::Fun => "Fun"@,
    }
}

fn concat3(a: &str, b: String, c: &str) -> (r: String)
    ensures
        r@ == a@ + b@ + c@,
{
    let mut r = a.to_owned();
    r.append(b.as_str());
    r.append(c);
    r
}

impl Primitive {
    /// The text of the primitive.
    pub fn to_text(&self) -> (r: String)
        ensures
            r@ == prim_text(self.model()),
    {
        match self {
            Primitive::Nil => "[nil]".to_owned(),
            Primitive::True => "[true]".to_owned(),
            Primitive::String(s) => s.clone(),
            Primitive::Int(i) => int_to_string(*i),
            Primitive::Builtin(_) => "[builtin]".to_owned(),
        }
    }

    /// The debugging form of the primitive.
    pub fn debug_text(&self) -> (r: String)
        ensures
            r@ == prim_debug(self.model()),
    {
        match self {
            Primitive::Nil => "Nil".to_owned(),
            Primitive::True => "True".to_owned(),
            Primitive::String(s) => concat3("String(", debug_str(s), ")"),
            Primitive::Int(i) => concat3("Int(", int_to_string(*i), ")"),
            Primitive::Builtin(b) => concat3("Builtin(", b.name().to_owned(), ")"),
        }
    }
}

impl Value {
    /// The text of the value, as `print` writes it.
    pub fn to_text(&self) -> (r: String)
        ensures
            r@ == value_text(self.model()),
    {
        match self {
            Value::Primitive(p) => p.to_text(),
            Value::Quote => "[quote]".to_owned(),
            Value::Array => "[array]".to_owned(),
            Value::Dict => "[dict]".to_owned(),
            Value::Fun => "[fn]".to_owned(),
        }
    }

    /// The debugging form of the value, as error messages show it.
    pub fn debug_text(&self) -> (r: String)
        ensures
            r@ == value_debug(self.model()),
    {
        match self {
            Value::Primitive(p) => concat3("Primitive(", p.debug_text(), ")"),
            Value::Quote => "Quote".to_owned(),
            Value::Array => "Array".to_owned(),
            Value::Dict => "Dict".to_owned(),
            Value::Fun => "Fun".to_owned(),
        }
    }
}

} // verus!
