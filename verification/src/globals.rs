//! The standard library: the builtin functions and the initial global scope.

use vstd::prelude::*;
use crate::eval::{BuiltinReturn, Error, IoRequest, IoReply, return_handles};
use crate::memory::{Memory, MemHandle, MemoryModel, Primitive, PrimModel, Value, ValueModel, Obj, handles_ok, handles_kept, fresh, value_obj, obj_value, lemma_kept_except_of_kept, lemma_kept_except_trans, lemma_kept_except_of_changed, dict_lookup};
use crate::text::{int_model, int_to_string, usize_to_string, parse_i64, parse_i64_model, seq_order, str_order, utf8_len, utf8_length};
use crate::show::{value_text, prim_text};
use crate::scratch::{
    scratch_ok, lemma_scratch_start, lemma_scratch_live, lemma_scratch_old, s_copy, s_make, s_array_get, s_dict_get,
    s_quote_get, s_array_of, s_dict_new, s_quote_new, s_clone, s_dict_set, s_dict_del, s_array_set, s_array_push,
    s_finish, result_handles,
};
use crate::reader::{ReaderPosition, position_unknown, position_unknown_exec};

verus! {

/// The builtin functions, one for each name the standard library binds.
#[derive(Debug, Clone, Copy, PartialEq, Eq, Structural)]
pub enum Builtin {
    Assign,
    Print,
    Flush,
    Plus,
    Minus,
    Times,
    Divide,
    BitAnd,
    BitOr,
    BitXor,
    Modulo,
    Complement,
    Negate,
    LogicOr,
    LogicAnd,
    LogicXor,
    LogicNot,
    Equal,
    NotEqual,
    Less,
    Greater,
    LessEq,
    GreaterEq,
    IsInt,
    IsString,
    IsBuiltin,
    IsQuote,
    IsArray,
    IsDict,
    IsFn,
    IsBool,
    IsCallable,
    ToBool,
    ToInt,
    ToText,
    MakeArray,
    MakeDict,
    MakeQuote,
    Unquote,
    Length,
    GetItem,
    PushItem,
    HasItem,
    DeleteItem,
    Truncate,
    Keys,
    Duplicate,
    Inset,
    Outset,
    FileAllowed,
    FileExists,
    FileIn,
    FileOut,
    ReadLine,
    ReadAll,
    MakeFn,
    SetFn,
    DoCall,
    Apply,
    IfElse,
    GetPosition,
    GetPositionSource,
    MakeArrayAt,
    FnUnpack,
    Discard,
    Identity,
    FailWith,
}


impl Builtin {
    /// The name the standard library binds this builtin to.
    pub open spec fn name_model(self) -> Seq<char> {
        match self {
        Builtin::Assign => "set"@,
        Builtin::Print => "print"@,
        Builtin::Flush => "flush"@,
        Builtin::Plus => "+"@,
        Builtin::Minus => "-"@,
        Builtin::Times => "*"@,
        Builtin::Divide => "/"@,
        Builtin::BitAnd => "&"@,
        Builtin::BitOr => "|"@,
        Builtin::BitXor => "^"@,
        Builtin::Modulo => "%"@,
        Builtin::Complement => "~"@,
        Builtin::Negate => "neg"@,
        Builtin::LogicOr => "||"@,
        Builtin::LogicAnd => "&&"@,
        Builtin::LogicXor => "^^"@,
        Builtin::LogicNot => "!"@,
        Builtin::Equal => "="@,
        Builtin::NotEqual => "!="@,
        Builtin::Less => "<"@,
        Builtin::Greater => ">"@,
        Builtin::LessEq => "<="@,
        Builtin::GreaterEq => ">="@,
        Builtin::IsInt => "is-int"@,
        Builtin::IsString => "is-string"@,
        Builtin::IsBuiltin => "is-builtin"@,
        Builtin::IsQuote => "is-quote"@,
        Builtin::IsArray => "is-array"@,
        Builtin::IsDict => "is-dict"@,
        Builtin::IsFn => "is-fn"@,
        Builtin::IsBool => "is-bool"@,
        Builtin::IsCallable => "is-callable"@,
        Builtin::ToBool => "to-bool"@,
        Builtin::ToInt => "to-int"@,
        Builtin::ToText => "to-string"@,
        Builtin::MakeArray => "make-array"@,
        Builtin::MakeDict => "make-dict"@,
        Builtin::MakeQuote => "make-quote"@,
        Builtin::Unquote => "unquote"@,
        Builtin::Length => "len"@,
        Builtin::GetItem => "get"@,
        Builtin::PushItem => "push"@,
        Builtin::HasItem => "has"@,
        Builtin::DeleteItem => "del"@,
        Builtin::Truncate => "truncate"@,
        Builtin::Keys => "keys"@,
        Builtin::Duplicate => "clone"@,
        Builtin::Inset => "inset"@,
        Builtin::Outset => "outset"@,
        Builtin::FileAllowed => "file-allowed"@,
        Builtin::FileExists => "file-exists"@,
        Builtin::FileIn => "file-in"@,
        Builtin::FileOut => "file-out"@,
        Builtin::ReadLine => "read-line"@,
        Builtin::ReadAll => "read-all"@,
        Builtin::MakeFn => "fn"@,
        Builtin::SetFn => "set-fn"@,
        Builtin::DoCall => "do"@,
        Builtin::Apply => "apply"@,
        Builtin::IfElse => "if"@,
        Builtin::GetPosition => "get-position"@,
        Builtin::GetPositionSource => "get-position-source"@,
        Builtin::MakeArrayAt => "make-array-at"@,
        Builtin::FnUnpack => "fn-unpack"@,
        Builtin::Discard => "discard"@,
        Builtin::Identity => "return"@,
        Builtin::FailWith => "fail"@,
        }
    }

    /// The name the standard library binds this builtin to.
    pub fn name(&self) -> (r: &'static str)
        ensures
            r@ == self.name_model(),
    {
        match self {
            Builtin::Assign => "set",
            Builtin::Print => "print",
            Builtin::Flush => "flush",
            Builtin::Plus => "+",
            Builtin::Minus => "-",
            Builtin::Times => "*",
            Builtin::Divide => "/",
            Builtin::BitAnd => "&",
            Builtin::BitOr => "|",
            Builtin::BitXor => "^",
            Builtin::Modulo => "%",
            Builtin::Complement => "~",
            Builtin::Negate => "neg",
            Builtin::LogicOr => "||",
            Builtin::LogicAnd => "&&",
            Builtin::LogicXor => "^^",
            Builtin::LogicNot => "!",
            Builtin::Equal => "=",
            Builtin::NotEqual => "!=",
            Builtin::Less => "<",
            Builtin::Greater => ">",
            Builtin::LessEq => "<=",
            Builtin::GreaterEq => ">=",
            Builtin::IsInt => "is-int",
            Builtin::IsString => "is-string",
            Builtin::IsBuiltin => "is-builtin",
            Builtin::IsQuote => "is-quote",
            Builtin::IsArray => "is-array",
            Builtin::IsDict => "is-dict",
            Builtin::IsFn => "is-fn",
            Builtin::IsBool => "is-bool",
            Builtin::IsCallable => "is-callable",
            Builtin::ToBool => "to-bool",
            Builtin::ToInt => "to-int",
            Builtin::ToText => "to-string",
            Builtin::MakeArray => "make-array",
            Builtin::MakeDict => "make-dict",
            Builtin::MakeQuote => "make-quote",
            Builtin::Unquote => "unquote",
            Builtin::Length => "len",
            Builtin::GetItem => "get",
            Builtin::PushItem => "push",
            Builtin::HasItem => "has",
            Builtin::DeleteItem => "del",
            Builtin::Truncate => "truncate",
            Builtin::Keys => "keys",
            Builtin::Duplicate => "clone",
            Builtin::Inset => "inset",
            Builtin::Outset => "outset",
            Builtin::FileAllowed => "file-allowed",
            Builtin::FileExists => "file-exists",
            Builtin::FileIn => "file-in",
            Builtin::FileOut => "file-out",
            Builtin::ReadLine => "read-line",
            Builtin::ReadAll => "read-all",
            Builtin::MakeFn => "fn",
            Builtin::SetFn => "set-fn",
            Builtin::DoCall => "do",
            Builtin::Apply => "apply",
            Builtin::IfElse => "if",
            Builtin::GetPosition => "get-position",
            Builtin::GetPositionSource => "get-position-source",
            Builtin::MakeArrayAt => "make-array-at",
            Builtin::FnUnpack => "fn-unpack",
            Builtin::Discard => "discard",
            Builtin::Identity => "return",
            Builtin::FailWith => "fail",
        }
    }
}

/// The builtins the standard library binds up to `if`, in order.
pub open spec fn builtins_through_if() -> Seq<Builtin> {
    seq![Builtin::Assign, Builtin::Print, Builtin::Flush, Builtin::Plus, Builtin::Minus, Builtin::Times, Builtin::Divide, Builtin::BitAnd, Builtin::BitOr, Builtin::BitXor, Builtin::Modulo, Builtin::Complement, Builtin::Negate, Builtin::LogicOr, Builtin::LogicAnd, Builtin::LogicXor, Builtin::LogicNot, Builtin::Equal, Builtin::NotEqual, Builtin::Less, Builtin::Greater, Builtin::LessEq, Builtin::GreaterEq, Builtin::IsInt, Builtin::IsString, Builtin::IsBuiltin, Builtin::IsQuote, Builtin::IsArray, Builtin::IsDict, Builtin::IsFn, Builtin::IsBool, Builtin::IsCallable, Builtin::ToBool, Builtin::ToInt, Builtin::ToText, Builtin::MakeArray, Builtin::MakeDict, Builtin::MakeQuote, Builtin::Unquote, Builtin::Length, Builtin::GetItem, Builtin::PushItem, Builtin::HasItem, Builtin::DeleteItem, Builtin::Truncate, Builtin::Keys, Builtin::Duplicate, Builtin::Inset, Builtin::Outset, Builtin::FileAllowed, Builtin::FileExists, Builtin::FileIn, Builtin::FileOut, Builtin::ReadLine, Builtin::ReadAll, Builtin::MakeFn, Builtin::SetFn, Builtin::DoCall, Builtin::Apply, Builtin::IfElse]
}

/// The builtins the standard library binds after `else`, in order.
pub open spec fn builtins_after_else() -> Seq<Builtin> {
    seq![Builtin::GetPosition, Builtin::GetPositionSource, Builtin::MakeArrayAt, Builtin::FnUnpack, Builtin::Discard, Builtin::Identity, Builtin::FailWith]
}

/// The builtins the standard library binds up to `if`, in order.
fn through_if() -> (r: Vec<Builtin>)
    ensures
        r@ == builtins_through_if(),
{
    vec![Builtin::Assign, Builtin::Print, Builtin::Flush, Builtin::Plus, Builtin::Minus, Builtin::Times, Builtin::Divide, Builtin::BitAnd, Builtin::BitOr, Builtin::BitXor, Builtin::Modulo, Builtin::Complement, Builtin::Negate, Builtin::LogicOr, Builtin::LogicAnd, Builtin::LogicXor, Builtin::LogicNot, Builtin::Equal, Builtin::NotEqual, Builtin::Less, Builtin::Greater, Builtin::LessEq, Builtin::GreaterEq, Builtin::IsInt, Builtin::IsString, Builtin::IsBuiltin, Builtin::IsQuote, Builtin::IsArray, Builtin::IsDict, Builtin::IsFn, Builtin::IsBool, Builtin::IsCallable, Builtin::ToBool, Builtin::ToInt, Builtin::ToText, Builtin::MakeArray, Builtin::MakeDict, Builtin::MakeQuote, Builtin::Unquote, Builtin::Length, Builtin::GetItem, Builtin::PushItem, Builtin::HasItem, Builtin::DeleteItem, Builtin::Truncate, Builtin::Keys, Builtin::Duplicate, Builtin::Inset, Builtin::Outset, Builtin::FileAllowed, Builtin::FileExists, Builtin::FileIn, Builtin::FileOut, Builtin::ReadLine, Builtin::ReadAll, Builtin::MakeFn, Builtin::SetFn, Builtin::DoCall, Builtin::Apply, Builtin::IfElse]
}

/// The builtins the standard library binds after `else`, in order.
fn after_else() -> (r: Vec<Builtin>)
    ensures
        r@ == builtins_after_else(),
{
    vec![Builtin::GetPosition, Builtin::GetPositionSource, Builtin::MakeArrayAt, Builtin::FnUnpack, Builtin::Discard, Builtin::Identity, Builtin::FailWith]
}


/// What calling a builtin came to: its result, or a request for the
/// outside world whose reply `finish_io` turns into the result.
pub enum Outcome {
    Done(Result<BuiltinReturn, Error>),
    Io(IoRequest),
}

/// The request that a builtin waiting for the outside world makes.
pub open spec fn request_of(b: Builtin, req: IoRequest) -> bool {
    match b {
        Builtin::Print => req is Print,
        Builtin::Flush => req is Flush,
        Builtin::FileExists => req is FileExists,
        Builtin::FileIn => req is FileIn,
        Builtin::FileOut => req is FileOut,
        Builtin::ReadLine => req is ReadLine,
        Builtin::ReadAll => req is ReadAll,
        _ => false,
    }
}

/// A request that reaches the file system.
pub open spec fn touches_files(req: IoRequest) -> bool {
    req is FileExists || req is FileIn || req is FileOut
}

/// The handles of a successful result are usable, and new since `m0`.
pub open spec fn returns_fresh(m0: MemoryModel, m1: MemoryModel, g: MemHandle, r: Result<BuiltinReturn, Error>) -> bool {
    r matches Ok(ret) ==> handles_ok(m1, g, return_handles(ret))
        && forall|i: int| 0 <= i < return_handles(ret).len() ==> fresh(m0, #[trigger] return_handles(ret)[i])
}

/// No object changed: each object of `m0` that `m1` still holds, it holds
/// as it was. With every handle kept, every value seen through a handle is
/// as it was.
pub open spec fn objects_kept(m0: MemoryModel, m1: MemoryModel) -> bool {
    forall|o: nat| #[trigger] m1.objs.contains_key(o) && m0.objs.contains_key(o) ==> m1.objs[o] == m0.objs[o]
}

/// Keeping objects goes on across a step that keeps every object it had
/// (objects made since `m0` may have changed).
pub proof fn lemma_objects_kept_then(m0: MemoryModel, m1: MemoryModel, m2: MemoryModel)
    requires
        m0.ok(),
        objects_kept(m0, m1),
        m1.next >= m0.next,
        m1.kept_in(m2),
    ensures
        objects_kept(m0, m2),
        m2.next >= m0.next,
{
}

/// Changing an object made since `m0` keeps the objects of `m0`.
pub proof fn lemma_objects_kept_changed(m0: MemoryModel, m1: MemoryModel, m2: MemoryModel, o: nat, obj: Obj)
    requires
        objects_kept(m0, m1),
        m1.next >= m0.next,
        m1.changed(m2, o, obj),
        !m0.objs.contains_key(o),
    ensures
        objects_kept(m0, m2),
        m2.next >= m0.next,
{
}

/// What every builtin keeps: a consistent heap, the globals, every handle.
pub open spec fn builtin_keeps(m0: &Memory, m1: &Memory) -> bool {
    &&& m1.wf()
    &&& m1.globals_handle() == m0.globals_handle()
    &&& handles_kept(m0@, m1@)
}


/// The values the handles name.
pub open spec fn vals(m: MemoryModel, args: Seq<MemHandle>) -> Seq<ValueModel> {
    Seq::new(args.len(), |i: int| m.value(args[i]))
}

/// The builtin handed back a new primitive `p`.
pub open spec fn gives_prim(m: MemoryModel, r: Result<BuiltinReturn, Error>, p: PrimModel) -> bool {
    r matches Ok(BuiltinReturn::Value(h)) && m.value(h) == ValueModel::Primitive(p)
}

/// `true` for true, `nil` for false.
pub open spec fn bool_prim(b: bool) -> PrimModel {
    if b { PrimModel::True } else { PrimModel::Nil }
}

/// Every value but nil counts as true.
pub open spec fn truthy(v: ValueModel) -> bool {
    !(v == ValueModel::Primitive(PrimModel::Nil))
}

pub fn err(text: &str) -> (e: Error)
    ensures
        e.message@ == text@,
{
    Error { message: text.to_owned() }
}

/// An error whose message ends with the debugging form of a value.
pub fn err_value(text: &str, v: &Value) -> (e: Error)
    ensures
        e.message@ == text@ + crate::show::value_debug(v.model()),
{
    let mut m = text.to_owned();
    m.append(v.debug_text().as_str());
    Error { message: m }
}

/// An error about argument `idx`, ending with the debugging form of a value.
pub fn err_arg(a: &str, idx: usize, b: &str, v: &Value) -> (e: Error)
    ensures
        e.message@ == a@ + crate::text::decimal_model(idx as nat) + b@ + crate::show::value_debug(v.model()),
{
    let mut m = a.to_owned();
    m.append(usize_to_string(idx).as_str());
    m.append(b);
    m.append(v.debug_text().as_str());
    Error { message: m }
}

proof fn lemma_one_fresh(m0: &Memory, m1: &Memory, h: MemHandle)
    requires
        m0.wf(),
        builtin_keeps(m0, m1),
        m1@.live(h),
        fresh(m0@, h),
    ensures
        handles_ok(m1@, m0.globals_handle(), seq![h]),
        forall|i: int| 0 <= i < seq![h].len() ==> fresh(m0@, #[trigger] seq![h][i]),
{
    m0.lemma_globals();
}

/// A new object for the value.
pub fn make(memory: &mut Memory, v: Value) -> (r: Result<MemHandle, Error>)
    requires
        old(memory).wf(),
    ensures
        builtin_keeps(old(memory), final(memory)),
        r matches Ok(h) ==> final(memory)@.live(h) && fresh(old(memory)@, h)
            && value_obj(final(memory)@, final(memory)@.obj(h), v.model())
            && !old(memory)@.objs.contains_key(final(memory)@.obj(h)),
        r matches Err(e) ==> out_of_memory(e) && final(memory).full(),
        old(memory)@.kept_in(final(memory)@),
{
    let ghost vm = v.model();
    match memory.value_new(v) {
        Ok(h) => {
            proof {
                crate::memory::lemma_kept_handles(old(memory)@, memory@);
            }
            Ok(h)
        },
        Err(_) => {
            proof {
                crate::memory::lemma_kept_handles(old(memory)@, memory@);
            }
            Err(crate::eval::memory_full_error())
        },
    }
}

/// Hands back a new object for the value.
pub fn give(memory: &mut Memory, v: Value) -> (r: Result<BuiltinReturn, Error>)
    requires
        old(memory).wf(),
    ensures
        builtin_keeps(old(memory), final(memory)),
        returns_fresh(old(memory)@, final(memory)@, old(memory).globals_handle(), r),
        r is Ok ==> (r matches Ok(BuiltinReturn::Value(h)) && value_obj(final(memory)@, final(memory)@.obj(h), v.model())),
        r matches Err(e) ==> out_of_memory(e) && final(memory).full(),
        objects_kept(old(memory)@, final(memory)@),
{
    let ghost vm = v.model();
    let h = make(memory, v)?;
    proof {
        lemma_one_fresh(old(memory), memory, h);
        assert(return_handles(BuiltinReturn::Value(h)) == seq![h]);
    }
    Ok(BuiltinReturn::Value(h))
}

/// What `give_bool` gives, and does to the heap.
pub open spec fn give_bool_post(mem0: Memory, mem1: Memory, b: bool, r: Result<BuiltinReturn, Error>) -> bool {
    &&& builtin_keeps(&mem0, &mem1)
    &&& objects_kept(mem0@, mem1@)
    &&& returns_fresh(mem0@, mem1@, mem0.globals_handle(), r)
    &&& (r is Ok ==> gives_prim(mem1@, r, bool_prim(b)))
    &&& (r matches Err(e) ==> out_of_memory(e) && mem1.full())
}

/// Hands back `true` or `nil`.
pub fn give_bool(memory: &mut Memory, b: bool) -> (r: Result<BuiltinReturn, Error>)
    requires
        old(memory).wf(),
    ensures
        give_bool_post(*old(memory), *final(memory), b, r),
{
    give(memory, Value::Primitive(if b { Primitive::True } else { Primitive::Nil }))
}

/// Hands back a new handle to what `h` names.
pub fn give_same(memory: &mut Memory, h: MemHandle) -> (r: Result<BuiltinReturn, Error>)
    requires
        old(memory).wf(),
        old(memory)@.live(h),
    ensures
        builtin_keeps(old(memory), final(memory)),
        returns_fresh(old(memory)@, final(memory)@, old(memory).globals_handle(), r),
        r matches Ok(BuiltinReturn::Value(c)) && final(memory)@.obj(c) == old(memory)@.obj(h)
            && final(memory)@.cell(c) == old(memory)@.cell(h),
        objects_kept(old(memory)@, final(memory)@),
{
    let c = memory.handle_copy(h);
    proof {
        crate::memory::lemma_kept_handles(old(memory)@, memory@);
        lemma_one_fresh(old(memory), memory, c);
        assert(return_handles(BuiltinReturn::Value(c)) == seq![c]);
    }
    Ok(BuiltinReturn::Value(c))
}

/// A found value is handed back; nothing found is nothing handed back.
pub fn option_to_value(o: Option<MemHandle>) -> (r: BuiltinReturn)
    ensures
        r == (match o {
            Some(h) => BuiltinReturn::Value(h),
            None => BuiltinReturn::Empty,
        }),
{
    match o {
        Some(h) => BuiltinReturn::Value(h),
        None => BuiltinReturn::Empty,
    }
}

/// Nothing handed back; nothing changed.
pub fn give_nothing(memory: &Memory) -> (r: Result<BuiltinReturn, Error>)
    requires
        memory.wf(),
    ensures
        builtin_keeps(memory, memory),
        returns_fresh(memory@, memory@, memory.globals_handle(), r),
        r == Ok::<BuiltinReturn, Error>(BuiltinReturn::Empty),
{
    proof {
        memory.lemma_ok();
        crate::eval::lemma_handles_kept_refl(memory@);
        assert(return_handles(BuiltinReturn::Empty) =~= Seq::<MemHandle>::empty());
    }
    Ok(BuiltinReturn::Empty)
}

/// The integer operations that fold over their arguments.
#[derive(Clone, Copy, PartialEq, Eq, Structural)]
pub enum IntOp {
    Add,
    Sub,
    Mul,
    Div,
    And,
    Or,
    Xor,
}

/// One step of an integer fold: wrapping sums, differences and products,
/// division that fails on zero or overflow, and the bitwise operations.
pub open spec fn int_op(op: IntOp, a: i64, b: i64) -> Option<i64> {
    match op {
        IntOp::Add => Some(a.wrapping_add(b)),
        IntOp::Sub => Some(a.wrapping_sub(b)),
        IntOp::Mul => Some(a.wrapping_mul(b)),
        IntOp::Div => a.checked_div(b),
        IntOp::And => Some(a & b),
        IntOp::Or => Some(a | b),
        IntOp::Xor => Some(a ^ b),
    }
}

/// The arithmetic steps are those of the integers wherever the result fits
/// in 64 bits (and wrap around otherwise, so that a difference undoes a sum);
/// division fails exactly on zero and on the one quotient that does not fit.
pub proof fn law_integer_steps(a: i64, b: i64)
    ensures
        i64::MIN <= a + b <= i64::MAX ==> int_op(IntOp::Add, a, b) == Some((a + b) as i64),
        i64::MIN <= a - b <= i64::MAX ==> int_op(IntOp::Sub, a, b) == Some((a - b) as i64),
        i64::MIN <= a * b <= i64::MAX ==> int_op(IntOp::Mul, a, b) == Some((a * b) as i64),
        int_op(IntOp::Sub, int_op(IntOp::Add, a, b).unwrap(), b) == Some(a),
        int_op(IntOp::Div, a, b) is None <==> (b == 0 || (a == i64::MIN && b == -1)),
{
    let p: int = a * b;
    if i64::MIN <= p <= i64::MAX {
        assert(vstd::wrapping::i64_specs::signed_crop(p) == p);
    }
    let x: int = a as int;
    let d: int = b as int;
    if d != 0 {
        let n: int = if x < 0 { -x } else { x };
        let e: int = if d < 0 { -d } else { d };
        assert(0 <= n <= 0x8000_0000_0000_0000);
        assert(0 <= n / e <= n) by (nonlinear_arith)
            requires
                n >= 0,
                e >= 1,
        ;
        if e >= 2 {
            assert(n / e <= 0x4000_0000_0000_0000) by (nonlinear_arith)
                requires
                    0 <= n <= 0x8000_0000_0000_0000,
                    e >= 2,
            ;
        } else {
            assert(e == 1);
            assert(n / 1 == n);
        }
        assert(x * -1 == n || x == n);
        assert(d * -1 == e || d == e);
    }
}

/// The bitwise steps: `&` keeps the bits both integers have, `|` those
/// either has, `^` those exactly one has; so `&` and `^` share no bit and
/// together make `|`.
pub proof fn law_bitwise_steps(a: i64, b: i64)
    ensures
        int_op(IntOp::And, a, b) matches Some(n) && n & a == n && n & b == n,
        int_op(IntOp::Or, a, b) matches Some(o) && o & a == a && o & b == b,
        int_op(IntOp::And, a, b).unwrap() & int_op(IntOp::Xor, a, b).unwrap() == 0,
        int_op(IntOp::And, a, b).unwrap() | int_op(IntOp::Xor, a, b).unwrap() == int_op(IntOp::Or, a, b).unwrap(),
{
    let n: i64 = a & b;
    let o: i64 = a | b;
    let x: i64 = a ^ b;
    assert(n & a == n && n & b == n && o & a == a && o & b == b && n & x == 0 && n | x == o) by (bit_vector)
        requires
            n == a & b,
            o == a | b,
            x == a ^ b,
    ;
}

fn apply_int_op(op: IntOp, a: i64, b: i64) -> (r: Option<i64>)
    ensures
        r == int_op(op, a, b),
{
    match op {
        IntOp::Add => Some(a.wrapping_add(b)),
        IntOp::Sub => Some(a.wrapping_sub(b)),
        IntOp::Mul => Some(a.wrapping_mul(b)),
        IntOp::Div => a.checked_div(b),
        IntOp::And => Some(a & b),
        IntOp::Or => Some(a | b),
        IntOp::Xor => Some(a ^ b),
    }
}

/// The fold of the first `k` values, all integers, by the operation.
pub open spec fn int_fold(vs: Seq<ValueModel>, k: nat, op: IntOp) -> Option<i64>
    decreases k,
{
    if k == 0 || k > vs.len() {
        None
    } else if k == 1 {
        match vs[0] {
            ValueModel::Primitive(PrimModel::Int(i)) => Some(i),
            _ => None,
        }
    } else {
        match (int_fold(vs, (k - 1) as nat, op), vs[k - 1]) {
            (Some(a), ValueModel::Primitive(PrimModel::Int(b))) => int_op(op, a, b),
            _ => None,
        }
    }
}

/// The text of the first `k` values: a string, then strings and integers.
pub open spec fn text_fold(vs: Seq<ValueModel>, k: nat) -> Option<Seq<char>>
    decreases k,
{
    if k == 0 || k > vs.len() {
        None
    } else if k == 1 {
        match vs[0] {
            ValueModel::Primitive(PrimModel::Str(s)) => Some(s),
            _ => None,
        }
    } else {
        match (text_fold(vs, (k - 1) as nat), vs[k - 1]) {
            (Some(a), ValueModel::Primitive(PrimModel::Str(b))) => Some(a + b),
            (Some(a), ValueModel::Primitive(PrimModel::Int(b))) => Some(a + int_model(b as int)),
            _ => None,
        }
    }
}

/// `+` on a string first joins text.
pub open spec fn arith_text(op: IntOp, vs: Seq<ValueModel>) -> bool {
    op == IntOp::Add && vs.len() > 0 && vs[0] is Primitive && vs[0]->Primitive_0 is Str
}

pub open spec fn arith_text_ok(vs: Seq<ValueModel>) -> bool {
    vs.len() >= 2 && text_fold(vs, vs.len()) is Some
}

pub open spec fn arith_int_ok(vs: Seq<ValueModel>, op: IntOp) -> bool {
    vs.len() >= 2 && int_fold(vs, vs.len(), op) is Some
}

/// The heap is full even after a collection.
pub open spec fn out_of_memory(e: Error) -> bool {
    e.message@ == "Memory 100% full even after GC. Bailing"@
}

/// Succeeds where `ok` holds, unless the heap `m` it leaves is full after a
/// collection (then it fails for want of memory); fails where `ok` does not hold.
pub open spec fn computes(m: &Memory, r: Result<BuiltinReturn, Error>, ok: bool) -> bool {
    &&& !ok ==> r is Err
    &&& ok ==> r is Ok || (r matches Err(e) && out_of_memory(e) && m.full())
}

/// The name the standard library binds the operation to.
pub open spec fn op_text(op: IntOp) -> Seq<char> {
    match op {
        IntOp::Add => "+"@,
        IntOp::Sub => "-"@,
        IntOp::Mul => "*"@,
        IntOp::Div => "/"@,
        IntOp::And => "&"@,
        IntOp::Or => "|"@,
        IntOp::Xor => "^"@,
    }
}

/// The name the standard library binds the operation to.
fn op_name(op: IntOp) -> (r: &'static str)
    ensures
        r@ == op_text(op),
{
    match op {
        IntOp::Add => "+",
        IntOp::Sub => "-",
        IntOp::Mul => "*",
        IntOp::Div => "/",
        IntOp::And => "&",
        IntOp::Or => "|",
        IntOp::Xor => "^",
    }
}

/// What `b_arith` gives, and does to the heap.
pub open spec fn arith_post(mem0: Memory, mem1: Memory, op: IntOp, args: Seq<MemHandle>, r: Result<BuiltinReturn, Error>) -> bool {
    &&& builtin_keeps(&mem0, &mem1)
    &&& objects_kept(mem0@, mem1@)
    &&& returns_fresh(mem0@, mem1@, mem0.globals_handle(), r)
    &&& (arith_text(op, vals(mem0@, args)) ==> computes(&mem1, r, arith_text_ok(vals(mem0@, args)))
            && (r is Ok ==> gives_prim(mem1@, r, PrimModel::Str(text_fold(vals(mem0@, args), args.len() as nat).unwrap()))))
    &&& (!arith_text(op, vals(mem0@, args)) ==> computes(&mem1, r, arith_int_ok(vals(mem0@, args), op))
            && (r is Ok ==> gives_prim(mem1@, r, PrimModel::Int(int_fold(vals(mem0@, args), args.len() as nat, op).unwrap()))))
}

/// `+`, `-`, `*`, `/`, `&`, `|`, `^`: fold the integer arguments, in
/// order; `+` also joins a string with strings and integers.
pub fn b_arith(memory: &mut Memory, op: IntOp, args: &[MemHandle]) -> (r: Result<BuiltinReturn, Error>)
    requires
        old(memory).wf(),
        forall|i: int| 0 <= i < args@.len() ==> old(memory)@.live(#[trigger] args@[i]),
    ensures
        arith_post(*old(memory), *final(memory), op, args@, r),
{
    let ghost vs = vals(old(memory)@, args@);
    let name = op_name(op);
    proof {
        old(memory).lemma_ok();
        crate::eval::lemma_handles_kept_refl(old(memory)@);
    }
    if args.len() < 2 {
        let mut m = "Too few args to `".to_owned();
        m.append(name);
        m.append("`");
        return Err(Error { message: m });
    }
    let v0 = memory.value(args[0]);
    proof {
        assert(vs[0] == v0.model());
        assert(vs.len() == args@.len());
    }
    match v0 {
        Value::Primitive(Primitive::String(s0)) => {
            if op == IntOp::Add {
                let mut acc = s0;
                let mut idx: usize = 1;
                while idx < args.len()
                    invariant
                        1 <= idx <= args@.len(),
                        *memory == *old(memory),
                        old(memory).wf(),
                        handles_kept(old(memory)@, old(memory)@),
                        vs == vals(old(memory)@, args@),
                        forall|i: int| 0 <= i < args@.len() ==> old(memory)@.live(#[trigger] args@[i]),
                        text_fold(vs, idx as nat) == Some(acc@),
                        arith_text(op, vs),
                    decreases args@.len() - idx,
                {
                    let vi = memory.value(args[idx]);
                    proof {
                        assert(vs[idx as int] == vi.model());
                        assert(text_fold(vs, (idx + 1) as nat) == match (text_fold(vs, idx as nat), vs[idx as int]) {
                            (Some(a), ValueModel::Primitive(PrimModel::Str(b))) => Some(a + b),
                            (Some(a), ValueModel::Primitive(PrimModel::Int(b))) => Some(a + int_model(b as int)),
                            _ => None,
                        });
                    }
                    match vi {
                        Value::Primitive(Primitive::String(s2)) => {
                            acc.append(s2.as_str());
                        },
                        Value::Primitive(Primitive::Int(i2)) => {
                            acc.append(int_to_string(i2).as_str());
                        },
                        v => {
                            proof {
                                assert(text_fold(vs, (idx + 1) as nat) is None);
                                lemma_text_fold_stuck(vs, (idx + 1) as nat, vs.len());
                            }
                            return Err(err_arg("Argument ", idx, " to `+` is not a string or number: ", &v));
                        },
                    }
                    idx = idx + 1;
                }
                proof {
                    assert(idx == args@.len());
                    assert(text_fold(vs, vs.len()) == Some(acc@));
                    assert(op == IntOp::Add);
                    assert(vs[0] matches ValueModel::Primitive(PrimModel::Str(_)));
                }
                return give(memory, Value::Primitive(Primitive::String(acc)));
            }
            let v = memory.value(args[0]);
            let mut m = "First argument to `".to_owned();
            m.append(name);
            m.append("` unrecognized: ");
            m.append(v.debug_text().as_str());
            proof {
                lemma_int_fold_stuck(vs, 1, vs.len(), op);
            }
            Err(Error { message: m })
        },
        Value::Primitive(Primitive::Int(i0)) => {
            let mut acc = i0;
            let mut idx: usize = 1;
            while idx < args.len()
                invariant
                    1 <= idx <= args@.len(),
                    *memory == *old(memory),
                    old(memory).wf(),
                    handles_kept(old(memory)@, old(memory)@),
                    vs == vals(old(memory)@, args@),
                    forall|i: int| 0 <= i < args@.len() ==> old(memory)@.live(#[trigger] args@[i]),
                    int_fold(vs, idx as nat, op) == Some(acc),
                    !arith_text(op, vs),
                decreases args@.len() - idx,
            {
                let vi = memory.value(args[idx]);
                proof {
                    assert(vs[idx as int] == vi.model());
                    assert(int_fold(vs, (idx + 1) as nat, op) == match (int_fold(vs, idx as nat, op), vs[idx as int]) {
                        (Some(a), ValueModel::Primitive(PrimModel::Int(b))) => int_op(op, a, b),
                        _ => None,
                    });
                }
                match vi {
                    Value::Primitive(Primitive::Int(i2)) => {
                        match apply_int_op(op, acc, i2) {
                            Some(x) => acc = x,
                            None => {
                                proof {
                                    lemma_int_fold_stuck(vs, (idx + 1) as nat, vs.len(), op);
                                }
                                if i2 == 0 {
                                    return Err(err("Division by zero in `/`"));
                                } else {
                                    return Err(err("Overflow in `/`"));
                                }
                            },
                        }
                    },
                    v => {
                        proof {
                            lemma_int_fold_stuck(vs, (idx + 1) as nat, vs.len(), op);
                        }
                        let mut m = "Argument ".to_owned();
                        m.append(usize_to_string(idx).as_str());
                        m.append(" to ");
                        m.append(name);
                        m.append(" is not a number: ");
                        m.append(v.debug_text().as_str());
                        return Err(Error { message: m });
                    },
                }
                idx = idx + 1;
            }
            give(memory, Value::Primitive(Primitive::Int(acc)))
        },
        v => {
            proof {
                lemma_int_fold_stuck(vs, 1, vs.len(), op);
            }
            let mut m = "First argument to `".to_owned();
            m.append(name);
            m.append("` unrecognized: ");
            m.append(v.debug_text().as_str());
            Err(Error { message: m })
        },
    }
}

/// A fold that failed stays failed.
pub proof fn lemma_int_fold_stuck(vs: Seq<ValueModel>, k: nat, n: nat, op: IntOp)
    requires
        int_fold(vs, k, op) is None,
        1 <= k <= n,
    ensures
        int_fold(vs, n, op) is None,
    decreases n - k,
{
    if k < n {
        lemma_int_fold_stuck(vs, k + 1, n, op);
    }
}

/// A fold that failed stays failed.
pub proof fn lemma_text_fold_stuck(vs: Seq<ValueModel>, k: nat, n: nat)
    requires
        text_fold(vs, k) is None,
        1 <= k <= n,
    ensures
        text_fold(vs, n) is None,
    decreases n - k,
{
    if k < n {
        lemma_text_fold_stuck(vs, k + 1, n);
    }
}


/// What `b_modulo` gives, and does to the heap.
pub open spec fn modulo_post(mem0: Memory, mem1: Memory, args: Seq<MemHandle>, r: Result<BuiltinReturn, Error>) -> bool {
    &&& builtin_keeps(&mem0, &mem1)
    &&& objects_kept(mem0@, mem1@)
    &&& returns_fresh(mem0@, mem1@, mem0.globals_handle(), r)
    &&& (({
            let vs = vals(mem0@, args);
            let ok = vs.len() == 2 && vs[0] is Primitive && vs[0]->Primitive_0 is Int && vs[1] is Primitive
                && vs[1]->Primitive_0 is Int && vs[0]->Primitive_0->Int_0.checked_rem(vs[1]->Primitive_0->Int_0) is Some;
            &&& computes(&mem1, r, ok)
            &&& r is Ok ==> gives_prim(mem1@, r, PrimModel::Int(
                vs[0]->Primitive_0->Int_0.checked_rem(vs[1]->Primitive_0->Int_0).unwrap()))
        }))
}

/// `%`: the remainder of two integers.
pub fn b_modulo(memory: &mut Memory, args: &[MemHandle]) -> (r: Result<BuiltinReturn, Error>)
    requires
        old(memory).wf(),
        forall|i: int| 0 <= i < args@.len() ==> old(memory)@.live(#[trigger] args@[i]),
    ensures
        modulo_post(*old(memory), *final(memory), args@, r),
{
    proof {
        old(memory).lemma_ok();
        crate::eval::lemma_handles_kept_refl(old(memory)@);
    }
    if args.len() != 2 {
        return Err(err("`%` expects exactly 2 arguments"));
    }
    let a = memory.value(args[0]);
    let b = memory.value(args[1]);
    match (a, b) {
        (Value::Primitive(Primitive::Int(x)), Value::Primitive(Primitive::Int(y))) => {
            match x.checked_rem(y) {
                Some(q) => give(memory, Value::Primitive(Primitive::Int(q))),
                None => {
                    if y == 0 {
                        Err(err("Division by zero in `%`"))
                    } else {
                        Err(err("Overflow in `%`"))
                    }
                },
            }
        },
        (a, b) => {
            let mut m = "First argument to `%` unrecognized: (".to_owned();
            m.append(a.debug_text().as_str());
            m.append(", ");
            m.append(b.debug_text().as_str());
            m.append(")");
            Err(Error { message: m })
        },
    }
}

/// What `b_unary` gives, and does to the heap.
pub open spec fn unary_post(mem0: Memory, mem1: Memory, negate: bool, args: Seq<MemHandle>, r: Result<BuiltinReturn, Error>) -> bool {
    &&& builtin_keeps(&mem0, &mem1)
    &&& objects_kept(mem0@, mem1@)
    &&& returns_fresh(mem0@, mem1@, mem0.globals_handle(), r)
    &&& (({
            let vs = vals(mem0@, args);
            let ok = vs.len() == 1 && vs[0] is Primitive && vs[0]->Primitive_0 is Int;
            let i = vs[0]->Primitive_0->Int_0;
            &&& computes(&mem1, r, ok)
            &&& r is Ok ==> gives_prim(mem1@, r, PrimModel::Int(if negate { 0i64.wrapping_sub(i) } else { !i }))
        }))
}

/// `~` and `neg`: the bitwise complement, or the (wrapping) negation, of an
/// integer.
pub fn b_unary(memory: &mut Memory, negate: bool, args: &[MemHandle]) -> (r: Result<BuiltinReturn, Error>)
    requires
        old(memory).wf(),
        forall|i: int| 0 <= i < args@.len() ==> old(memory)@.live(#[trigger] args@[i]),
    ensures
        unary_post(*old(memory), *final(memory), negate, args@, r),
{
    proof {
        old(memory).lemma_ok();
        crate::eval::lemma_handles_kept_refl(old(memory)@);
    }
    if args.len() != 1 {
        return Err(err("`neg` expects exactly 1 argument"));
    }
    match memory.value(args[0]) {
        Value::Primitive(Primitive::Int(i)) => {
            let x = if negate { 0i64.wrapping_sub(i) } else { !i };
            give(memory, Value::Primitive(Primitive::Int(x)))
        },
        v => {
            if negate {
                Err(err_value("Argument to numeric `neg` unrecognized: ", &v))
            } else {
                Err(err_value("Argument to integer `~` unrecognized: ", &v))
            }
        },
    }
}

/// The logical operations that fold over their arguments.
#[derive(Clone, Copy, PartialEq, Eq, Structural)]
pub enum LogicOp {
    Or,
    And,
    Xor,
}

pub open spec fn logic_op(op: LogicOp, a: bool, b: bool) -> bool {
    match op {
        LogicOp::Or => a || b,
        LogicOp::And => a && b,
        LogicOp::Xor => a != b,
    }
}

/// The fold of whether the first `k` values are true.
pub open spec fn logic_fold(vs: Seq<ValueModel>, k: nat, op: LogicOp) -> bool
    decreases k,
{
    if k <= 1 {
        truthy(vs[0])
    } else {
        logic_op(op, logic_fold(vs, (k - 1) as nat, op), truthy(vs[k - 1]))
    }
}

fn is_truthy(v: &Value) -> (r: bool)
    ensures
        r == truthy(v.model()),
{
    match v {
        Value::Primitive(Primitive::Nil) => false,
        _ => true,
    }
}

/// What `b_logic` gives, and does to the heap.
pub open spec fn logic_post(mem0: Memory, mem1: Memory, op: LogicOp, args: Seq<MemHandle>, r: Result<BuiltinReturn, Error>) -> bool {
    &&& builtin_keeps(&mem0, &mem1)
    &&& objects_kept(mem0@, mem1@)
    &&& returns_fresh(mem0@, mem1@, mem0.globals_handle(), r)
    &&& computes(&mem1, r, args.len() >= 2)
    &&& (r is Ok ==> gives_prim(mem1@, r, bool_prim(logic_fold(vals(mem0@, args), args.len() as nat, op))))
}

/// `||`, `&&`, `^^`: whether the arguments, nil as false and all else as
/// true, are true taken together.
pub fn b_logic(memory: &mut Memory, op: LogicOp, args: &[MemHandle]) -> (r: Result<BuiltinReturn, Error>)
    requires
        old(memory).wf(),
        forall|i: int| 0 <= i < args@.len() ==> old(memory)@.live(#[trigger] args@[i]),
    ensures
        logic_post(*old(memory), *final(memory), op, args@, r),
{
    let ghost vs = vals(old(memory)@, args@);
    proof {
        old(memory).lemma_ok();
        crate::eval::lemma_handles_kept_refl(old(memory)@);
    }
    if args.len() < 2 {
        let mut m = "Too few args to `".to_owned();
        m.append(match op {
            LogicOp::Or => "||",
            LogicOp::And => "&&",
            LogicOp::Xor => "^^",
        });
        m.append("`");
        return Err(Error { message: m });
    }
    let v0 = memory.value(args[0]);
    let mut b = is_truthy(&v0);
    let mut idx: usize = 1;
    while idx < args.len()
        invariant
            1 <= idx <= args@.len(),
            *memory == *old(memory),
            old(memory).wf(),
            vs == vals(old(memory)@, args@),
            forall|i: int| 0 <= i < args@.len() ==> old(memory)@.live(#[trigger] args@[i]),
            b == logic_fold(vs, idx as nat, op),
        decreases args@.len() - idx,
    {
        let v = memory.value(args[idx]);
        let t = is_truthy(&v);
        b = match op {
            LogicOp::Or => b || t,
            LogicOp::And => b && t,
            LogicOp::Xor => b != t,
        };
        idx = idx + 1;
    }
    give_bool(memory, b)
}

/// What `b_not` gives, and does to the heap.
pub open spec fn not_post(mem0: Memory, mem1: Memory, args: Seq<MemHandle>, r: Result<BuiltinReturn, Error>) -> bool {
    &&& builtin_keeps(&mem0, &mem1)
    &&& objects_kept(mem0@, mem1@)
    &&& returns_fresh(mem0@, mem1@, mem0.globals_handle(), r)
    &&& computes(&mem1, r, args.len() == 1)
    &&& (r is Ok ==> gives_prim(mem1@, r, bool_prim(!truthy(vals(mem0@, args)[0]))))
}

/// `!`: whether the argument is nil.
pub fn b_not(memory: &mut Memory, args: &[MemHandle]) -> (r: Result<BuiltinReturn, Error>)
    requires
        old(memory).wf(),
        forall|i: int| 0 <= i < args@.len() ==> old(memory)@.live(#[trigger] args@[i]),
    ensures
        not_post(*old(memory), *final(memory), args@, r),
{
    proof {
        old(memory).lemma_ok();
        crate::eval::lemma_handles_kept_refl(old(memory)@);
    }
    if args.len() != 1 {
        return Err(err("`!` expects exactly 1 argument"));
    }
    let v = memory.value(args[0]);
    give_bool(memory, !is_truthy(&v))
}

/// Whether argument `k` is the primitive `p`.
pub open spec fn is_prim(v: ValueModel, p: PrimModel) -> bool {
    v == ValueModel::Primitive(p)
}

/// What `b_equal` gives, and does to the heap.
pub open spec fn equal_post(mem0: Memory, mem1: Memory, invert: bool, args: Seq<MemHandle>, r: Result<BuiltinReturn, Error>) -> bool {
    &&& builtin_keeps(&mem0, &mem1)
    &&& objects_kept(mem0@, mem1@)
    &&& returns_fresh(mem0@, mem1@, mem0.globals_handle(), r)
    &&& (({
            let vs = vals(mem0@, args);
            &&& computes(&mem1, r, !(invert && vs.len() > 2) && vs.len() >= 2 && vs[0] is Primitive)
            &&& r is Ok ==> gives_prim(mem1@, r, bool_prim(
                forall|k: int| 1 <= k < vs.len() ==> (#[trigger] vs[k] == vs[0]) != invert))
        }))
}

/// On two arguments, `=` gives true exactly when they are the same
/// primitive, and `!=` exactly when they are not: one is the negation of the
/// other, and `=` of a primitive with itself is true.
pub proof fn law_equal_two_values(mem0: Memory, mem1: Memory, invert: bool, args: Seq<MemHandle>, r: Result<BuiltinReturn, Error>)
    requires
        equal_post(mem0, mem1, invert, args, r),
        args.len() == 2,
        r is Ok,
    ensures
        mem0@.value(args[0]) is Primitive,
        gives_prim(mem1@, r, bool_prim(if invert {
            mem0@.value(args[1]) != mem0@.value(args[0])
        } else {
            mem0@.value(args[1]) == mem0@.value(args[0])
        })),
        !invert && mem0@.value(args[1]) == mem0@.value(args[0]) ==> gives_prim(mem1@, r, PrimModel::True),
{
    let vs = vals(mem0@, args);
    assert(vs[0] == mem0@.value(args[0]));
    assert(vs[1] == mem0@.value(args[1]));
    let all = forall|k: int| 1 <= k < vs.len() ==> (#[trigger] vs[k] == vs[0]) != invert;
    assert(all == ((vs[1] == vs[0]) != invert));
}

/// `=` and `!=`: whether every later argument is (for `!=`: is not) the
/// primitive the first one is.
pub fn b_equal(memory: &mut Memory, invert: bool, args: &[MemHandle]) -> (r: Result<BuiltinReturn, Error>)
    requires
        old(memory).wf(),
        forall|i: int| 0 <= i < args@.len() ==> old(memory)@.live(#[trigger] args@[i]),
    ensures
        equal_post(*old(memory), *final(memory), invert, args@, r),
{
    let ghost vs = vals(old(memory)@, args@);
    proof {
        old(memory).lemma_ok();
        crate::eval::lemma_handles_kept_refl(old(memory)@);
    }
    let name = if invert { "!=" } else { "=" };
    if invert && args.len() > 2 {
        let mut m = "Too many args to `".to_owned();
        m.append(name);
        m.append("`");
        return Err(Error { message: m });
    }
    if args.len() < 2 {
        let mut m = "Too few args to `".to_owned();
        m.append(name);
        m.append("`");
        return Err(Error { message: m });
    }
    let v0 = memory.value(args[0]);
    proof {
        assert(vs[0] == v0.model());
    }
    match v0 {
        Value::Primitive(p) => {
            let mut idx: usize = 1;
            while idx < args.len()
                invariant
                    1 <= idx <= args@.len(),
                    *memory == *old(memory),
                    old(memory).wf(),
                    handles_kept(old(memory)@, old(memory)@),
                    vs == vals(old(memory)@, args@),
                    vs[0] == ValueModel::Primitive(p.model()),
                    forall|i: int| 0 <= i < args@.len() ==> old(memory)@.live(#[trigger] args@[i]),
                    forall|k: int| 1 <= k < idx ==> (#[trigger] vs[k] == vs[0]) != invert,
                    !(invert && vs.len() > 2) && vs.len() >= 2,
                decreases args@.len() - idx,
            {
                let vi = memory.value(args[idx]);
                proof {
                    assert(vs[idx as int] == vi.model());
                }
                let same = match vi {
                    Value::Primitive(p2) => p.same(&p2),
                    _ => false,
                };
                if same == invert {
                    let r = give_bool(memory, false);
                    proof {
                        assert((vs[idx as int] == vs[0]) == invert);
                    }
                    return r;
                }
                idx = idx + 1;
            }
            give_bool(memory, true)
        },
        v => {
            let mut m = "First argument to `".to_owned();
            m.append(name);
            m.append("` unrecognized: ");
            m.append(v.debug_text().as_str());
            Err(Error { message: m })
        },
    }
}

/// The comparisons.
#[derive(Clone, Copy, PartialEq, Eq, Structural)]
pub enum Compare {
    Less,
    Greater,
    LessEq,
    GreaterEq,
}

/// The comparison holds of an order (-1, 0 or 1).
pub open spec fn compare_holds(c: Compare, o: int) -> bool {
    match c {
        Compare::Less => o < 0,
        Compare::Greater => o > 0,
        Compare::LessEq => o <= 0,
        Compare::GreaterEq => o >= 0,
    }
}

pub open spec fn int_order(a: i64, b: i64) -> int {
    if a < b { -1 } else if a == b { 0 } else { 1 }
}

/// The order of two integers, or two strings by code point; none for other values.
pub open spec fn value_order(a: ValueModel, b: ValueModel) -> Option<int> {
    match (a, b) {
        (ValueModel::Primitive(PrimModel::Int(x)), ValueModel::Primitive(PrimModel::Int(y))) => Some(int_order(x, y)),
        (ValueModel::Primitive(PrimModel::Str(x)), ValueModel::Primitive(PrimModel::Str(y))) => Some(seq_order(x, y)),
        _ => None,
    }
}

/// What `b_compare` gives, and does to the heap.
pub open spec fn compare_post(mem0: Memory, mem1: Memory, c: Compare, args: Seq<MemHandle>, r: Result<BuiltinReturn, Error>) -> bool {
    &&& builtin_keeps(&mem0, &mem1)
    &&& objects_kept(mem0@, mem1@)
    &&& returns_fresh(mem0@, mem1@, mem0.globals_handle(), r)
    &&& (({
            let vs = vals(mem0@, args);
            &&& computes(&mem1, r, vs.len() == 2 && value_order(vs[0], vs[1]) is Some)
            &&& r is Ok ==> gives_prim(mem1@, r, bool_prim(compare_holds(c, value_order(vs[0], vs[1]).unwrap())))
        }))
}

/// `<`, `>`, `<=`, `>=`: compares two integers, or two strings.
pub fn b_compare(memory: &mut Memory, c: Compare, args: &[MemHandle]) -> (r: Result<BuiltinReturn, Error>)
    requires
        old(memory).wf(),
        forall|i: int| 0 <= i < args@.len() ==> old(memory)@.live(#[trigger] args@[i]),
    ensures
        compare_post(*old(memory), *final(memory), c, args@, r),
{
    proof {
        old(memory).lemma_ok();
        crate::eval::lemma_handles_kept_refl(old(memory)@);
    }
    let name = match c {
        Compare::Less => "<",
        Compare::Greater => ">",
        Compare::LessEq => "<=",
        Compare::GreaterEq => ">=",
    };
    if args.len() != 2 {
        let mut m = "Expected exactly 2 args to `".to_owned();
        m.append(name);
        m.append("`");
        return Err(Error { message: m });
    }
    let a = memory.value(args[0]);
    let b = memory.value(args[1]);
    let o: i8 = match (&a, &b) {
        (Value::Primitive(Primitive::Int(x)), Value::Primitive(Primitive::Int(y))) => {
            if *x < *y { -1 } else if *x == *y { 0 } else { 1 }
        },
        (Value::Primitive(Primitive::String(x)), Value::Primitive(Primitive::String(y))) => str_order(x, y),
        _ => {
            let mut m = "Unrecognized arguments to `".to_owned();
            m.append(name);
            m.append("`: ");
            m.append(a.debug_text().as_str());
            m.append(" vs ");
            m.append(b.debug_text().as_str());
            return Err(Error { message: m });
        },
    };
    let holds = match c {
        Compare::Less => o < 0,
        Compare::Greater => o > 0,
        Compare::LessEq => o <= 0,
        Compare::GreaterEq => o >= 0,
    };
    give_bool(memory, holds)
}

/// `^` is exclusive or: a bit of the result is set where exactly one of the
/// two integers has it set, so no bit that both have survives, and together
/// with those the result has every bit that either has; an integer with
/// itself gives 0.
pub proof fn law_xor_is_exclusive(a: i64, b: i64)
    ensures
        int_op(IntOp::Xor, a, b) matches Some(x) && x & (a & b) == 0 && x | (a & b) == a | b,
        int_op(IntOp::Xor, a, a) == Some(0i64),
{
    let x: i64 = a ^ b;
    assert(x & (a & b) == 0 && x | (a & b) == a | b) by (bit_vector)
        requires
            x == a ^ b,
    ;
    assert(a ^ a == 0) by (bit_vector);
}

/// `^` on two integers gives, when it succeeds, their exclusive or.
pub proof fn law_xor_of_two_integers(mem0: Memory, mem1: Memory, args: Seq<MemHandle>, r: Result<BuiltinReturn, Error>, a: i64, b: i64)
    requires
        arith_post(mem0, mem1, IntOp::Xor, args, r),
        args.len() == 2,
        mem0@.value(args[0]) == ValueModel::Primitive(PrimModel::Int(a)),
        mem0@.value(args[1]) == ValueModel::Primitive(PrimModel::Int(b)),
        r is Ok,
    ensures
        exists|x: i64| #![auto] gives_prim(mem1@, r, PrimModel::Int(x)) && x & (a & b) == 0 && x | (a & b) == a | b,
{
    let vs = vals(mem0@, args);
    assert(vs[0] == ValueModel::Primitive(PrimModel::Int(a)));
    assert(vs[1] == ValueModel::Primitive(PrimModel::Int(b)));
    assert(int_fold(vs, 1, IntOp::Xor) == Some(a));
    assert(int_fold(vs, 2, IntOp::Xor) == int_op(IntOp::Xor, a, b));
    law_xor_is_exclusive(a, b);
    let x = int_op(IntOp::Xor, a, b).unwrap();
    assert(gives_prim(mem1@, r, PrimModel::Int(x)));
}

/// A comparison of two integers gives, when it succeeds, true exactly when
/// the integers stand in that order: `<` when the first is less, `>` when
/// greater, `<=` when not greater, `>=` when not less (so `>=` of an integer
/// with itself is true, and `>=` is the negation of `<`).
pub proof fn law_compare_integers(mem0: Memory, mem1: Memory, c: Compare, args: Seq<MemHandle>, r: Result<BuiltinReturn, Error>, a: i64, b: i64)
    requires
        compare_post(mem0, mem1, c, args, r),
        args.len() == 2,
        mem0@.value(args[0]) == ValueModel::Primitive(PrimModel::Int(a)),
        mem0@.value(args[1]) == ValueModel::Primitive(PrimModel::Int(b)),
        r is Ok,
    ensures
        gives_prim(mem1@, r, bool_prim(match c {
            Compare::Less => a < b,
            Compare::Greater => a > b,
            Compare::LessEq => a <= b,
            Compare::GreaterEq => a >= b,
        })),
        c == Compare::GreaterEq ==> gives_prim(mem1@, r, bool_prim(!(a < b))),
        c == Compare::GreaterEq && a == b ==> gives_prim(mem1@, r, PrimModel::True),
{
    let vs = vals(mem0@, args);
    assert(vs[0] == ValueModel::Primitive(PrimModel::Int(a)));
    assert(vs[1] == ValueModel::Primitive(PrimModel::Int(b)));
}

/// The type tests.
#[derive(Clone, Copy, PartialEq, Eq, Structural)]
pub enum Kind {
    Int,
    Text,
    Builtin,
    Quote,
    Array,
    Dict,
    Fun,
    Bool,
    Callable,
}

/// The value is of the kind.
pub open spec fn of_kind(k: Kind, v: ValueModel) -> bool {
    match k {
        Kind::Int => v is Primitive && v->Primitive_0 is Int,
        Kind::Text => v is Primitive && v->Primitive_0 is Str,
        Kind::Builtin => v is Primitive && v->Primitive_0 is Builtin,
        Kind::Quote => v is Quote,
        Kind::Array => v is Array,
        Kind::Dict => v is Dict,
        Kind::Fun => v is Fun,
        Kind::Bool => v == ValueModel::Primitive(PrimModel::Nil) || v == ValueModel::Primitive(PrimModel::True),
        Kind::Callable => v is Array || v is Fun || (v is Primitive && v->Primitive_0 is Builtin),
    }
}

/// What `b_is` gives, and does to the heap.
pub open spec fn is_post(mem0: Memory, mem1: Memory, k: Kind, args: Seq<MemHandle>, r: Result<BuiltinReturn, Error>) -> bool {
    &&& builtin_keeps(&mem0, &mem1)
    &&& objects_kept(mem0@, mem1@)
    &&& returns_fresh(mem0@, mem1@, mem0.globals_handle(), r)
    &&& computes(&mem1, r, args.len() == 1)
    &&& (r is Ok ==> gives_prim(mem1@, r, bool_prim(of_kind(k, vals(mem0@, args)[0]))))
}

/// `is-int`, `is-string` and the other type tests.
pub fn b_is(memory: &mut Memory, k: Kind, args: &[MemHandle]) -> (r: Result<BuiltinReturn, Error>)
    requires
        old(memory).wf(),
        forall|i: int| 0 <= i < args@.len() ==> old(memory)@.live(#[trigger] args@[i]),
    ensures
        is_post(*old(memory), *final(memory), k, args@, r),
{
    proof {
        old(memory).lemma_ok();
        crate::eval::lemma_handles_kept_refl(old(memory)@);
    }
    if args.len() != 1 {
        let name = match k {
            Kind::Int => "is-int",
            Kind::Text => "is-string",
            Kind::Builtin => "is-builtin",
            Kind::Quote => "is-quote",
            Kind::Array => "is-array",
            Kind::Dict => "is-dict",
            Kind::Fun => "is-fn",
            Kind::Bool => "is-bool",
            Kind::Callable => "is-callable",
        };
        let mut m = "Expected exactly one argument to `".to_owned();
        m.append(name);
        m.append("`");
        return Err(Error { message: m });
    }
    let v = memory.value(args[0]);
    let b = match k {
        Kind::Int => match v { Value::Primitive(Primitive::Int(_)) => true, _ => false },
        Kind::Text => match v { Value::Primitive(Primitive::String(_)) => true, _ => false },
        Kind::Builtin => match v { Value::Primitive(Primitive::Builtin(_)) => true, _ => false },
        Kind::Quote => match v { Value::Quote => true, _ => false },
        Kind::Array => match v { Value::Array => true, _ => false },
        Kind::Dict => match v { Value::Dict => true, _ => false },
        Kind::Fun => match v { Value::Fun => true, _ => false },
        Kind::Bool => match v {
            Value::Primitive(Primitive::Nil) | Value::Primitive(Primitive::True) => true,
            _ => false,
        },
        Kind::Callable => match v {
            Value::Array | Value::Fun | Value::Primitive(Primitive::Builtin(_)) => true,
            _ => false,
        },
    };
    give_bool(memory, b)
}

/// What `b_to_bool` gives, and does to the heap.
pub open spec fn to_bool_post(mem0: Memory, mem1: Memory, args: Seq<MemHandle>, r: Result<BuiltinReturn, Error>) -> bool {
    &&& builtin_keeps(&mem0, &mem1)
    &&& objects_kept(mem0@, mem1@)
    &&& returns_fresh(mem0@, mem1@, mem0.globals_handle(), r)
    &&& computes(&mem1, r, args.len() == 1)
    &&& (r is Ok ==> gives_prim(mem1@, r, bool_prim(truthy(vals(mem0@, args)[0]))))
}

/// `to-bool`: nil and true stay themselves; anything else is true.
pub fn b_to_bool(memory: &mut Memory, args: &[MemHandle]) -> (r: Result<BuiltinReturn, Error>)
    requires
        old(memory).wf(),
        forall|i: int| 0 <= i < args@.len() ==> old(memory)@.live(#[trigger] args@[i]),
    ensures
        to_bool_post(*old(memory), *final(memory), args@, r),
{
    proof {
        old(memory).lemma_ok();
        crate::eval::lemma_handles_kept_refl(old(memory)@);
    }
    if args.len() != 1 {
        return Err(err("Expected exactly one argument to `to-bool`"));
    }
    match memory.value(args[0]) {
        Value::Primitive(Primitive::Nil) | Value::Primitive(Primitive::True) => {
            let r = give_same(memory, args[0]);
            proof {
                old(memory).lemma_live_cell(args@[0]);
            }
            r
        },
        _ => give(memory, Value::Primitive(Primitive::True)),
    }
}

/// What `b_to_int` gives, and does to the heap.
pub open spec fn to_int_post(mem0: Memory, mem1: Memory, args: Seq<MemHandle>, r: Result<BuiltinReturn, Error>) -> bool {
    &&& builtin_keeps(&mem0, &mem1)
    &&& objects_kept(mem0@, mem1@)
    &&& returns_fresh(mem0@, mem1@, mem0.globals_handle(), r)
    &&& (({
            let vs = vals(mem0@, args);
            let v = vs[0];
            &&& computes(&mem1, r, vs.len() == 1 && v is Primitive && !(v->Primitive_0 is Builtin))
            &&& r is Ok ==> match v {
                ValueModel::Primitive(PrimModel::Nil) => gives_prim(mem1@, r, PrimModel::Int(0)),
                ValueModel::Primitive(PrimModel::True) => gives_prim(mem1@, r, PrimModel::Int(1)),
                ValueModel::Primitive(PrimModel::Int(i)) => gives_prim(mem1@, r, PrimModel::Int(i)),
                ValueModel::Primitive(PrimModel::Str(s)) => match parse_i64_model(s) {
                    Some(i) => gives_prim(mem1@, r, PrimModel::Int(i)),
                    None => r == Ok::<BuiltinReturn, Error>(BuiltinReturn::Empty),
                },
                _ => false,
            }
        }))
}

/// `to-int`: nil is 0, true is 1, an integer is itself, a string is the
/// integer it spells (nothing where it spells none).
pub fn b_to_int(memory: &mut Memory, args: &[MemHandle]) -> (r: Result<BuiltinReturn, Error>)
    requires
        old(memory).wf(),
        forall|i: int| 0 <= i < args@.len() ==> old(memory)@.live(#[trigger] args@[i]),
    ensures
        to_int_post(*old(memory), *final(memory), args@, r),
{
    proof {
        old(memory).lemma_ok();
        crate::eval::lemma_handles_kept_refl(old(memory)@);
    }
    if args.len() != 1 {
        return Err(err("Expected exactly one argument to `to-int`"));
    }
    match memory.value(args[0]) {
        Value::Primitive(Primitive::Nil) => give(memory, Value::Primitive(Primitive::Int(0))),
        Value::Primitive(Primitive::True) => give(memory, Value::Primitive(Primitive::Int(1))),
        Value::Primitive(Primitive::Int(_)) => {
            let r = give_same(memory, args[0]);
            proof {
                old(memory).lemma_live_cell(args@[0]);
            }
            r
        },
        Value::Primitive(Primitive::String(s)) => match parse_i64(&s) {
            Some(i) => give(memory, Value::Primitive(Primitive::Int(i))),
            None => give_nothing(memory),
        },
        v => Err(err_value("First argument to `to-int` unrecognized: ", &v)),
    }
}

/// What `b_to_string` gives, and does to the heap.
pub open spec fn to_string_post(mem0: Memory, mem1: Memory, args: Seq<MemHandle>, r: Result<BuiltinReturn, Error>) -> bool {
    &&& builtin_keeps(&mem0, &mem1)
    &&& objects_kept(mem0@, mem1@)
    &&& returns_fresh(mem0@, mem1@, mem0.globals_handle(), r)
    &&& computes(&mem1, r, args.len() == 1)
    &&& (r is Ok ==> gives_prim(mem1@, r, PrimModel::Str(value_text(vals(mem0@, args)[0]))))
}

/// `to-string`: a string stays itself; anything else becomes its text.
pub fn b_to_string(memory: &mut Memory, args: &[MemHandle]) -> (r: Result<BuiltinReturn, Error>)
    requires
        old(memory).wf(),
        forall|i: int| 0 <= i < args@.len() ==> old(memory)@.live(#[trigger] args@[i]),
    ensures
        to_string_post(*old(memory), *final(memory), args@, r),
{
    proof {
        old(memory).lemma_ok();
        crate::eval::lemma_handles_kept_refl(old(memory)@);
    }
    if args.len() != 1 {
        return Err(err("Expected exactly one argument to `to-int`"));
    }
    match memory.value(args[0]) {
        Value::Primitive(Primitive::String(_)) => {
            let r = give_same(memory, args[0]);
            proof {
                old(memory).lemma_live_cell(args@[0]);
            }
            r
        },
        v => give(memory, Value::Primitive(Primitive::String(v.to_text()))),
    }
}

/// What `b_identity` gives, and does to the heap.
pub open spec fn identity_post(mem0: Memory, mem1: Memory, args: Seq<MemHandle>, r: Result<BuiltinReturn, Error>) -> bool {
    &&& builtin_keeps(&mem0, &mem1)
    &&& objects_kept(mem0@, mem1@)
    &&& returns_fresh(mem0@, mem1@, mem0.globals_handle(), r)
    &&& (r is Ok <==> args.len() == 1)
    &&& (r matches Ok(BuiltinReturn::Value(h)) ==> mem1@.obj(h) == mem0@.obj(args[0]))
}

/// `return`: its one argument.
pub fn b_identity(memory: &mut Memory, args: &[MemHandle]) -> (r: Result<BuiltinReturn, Error>)
    requires
        old(memory).wf(),
        forall|i: int| 0 <= i < args@.len() ==> old(memory)@.live(#[trigger] args@[i]),
    ensures
        identity_post(*old(memory), *final(memory), args@, r),
{
    proof {
        old(memory).lemma_ok();
        crate::eval::lemma_handles_kept_refl(old(memory)@);
    }
    if args.len() != 1 {
        return Err(err("`return` expects exactly 1 argument"));
    }
    give_same(memory, args[0])
}

/// The texts of the values, one after another.
pub open spec fn texts(vs: Seq<ValueModel>) -> Seq<char>
    decreases vs.len(),
{
    if vs.len() == 0 {
        Seq::empty()
    } else {
        texts(vs.drop_last()) + value_text(vs.last())
    }
}

/// The texts of the values the handles name, one after another.
pub fn join_texts(memory: &Memory, args: &[MemHandle]) -> (r: String)
    requires
        memory.wf(),
        forall|i: int| 0 <= i < args@.len() ==> memory@.live(#[trigger] args@[i]),
    ensures
        r@ == texts(vals(memory@, args@)),
{
    let ghost vs = vals(memory@, args@);
    let mut out = String::new();
    let mut i: usize = 0;
    while i < args.len()
        invariant
            i <= args@.len(),
            memory.wf(),
            vs == vals(memory@, args@),
            forall|k: int| 0 <= k < args@.len() ==> memory@.live(#[trigger] args@[k]),
            out@ == texts(vs.take(i as int)),
        decreases args@.len() - i,
    {
        let v = memory.value(args[i]);
        out.append(v.to_text().as_str());
        proof {
            assert(vs.take(i + 1).drop_last() =~= vs.take(i as int));
            assert(vs.take(i + 1).last() == v.model());
        }
        i = i + 1;
    }
    proof {
        assert(vs.take(args@.len() as int) =~= vs);
    }
    out
}

/// What `b_fail` gives, and does to the heap.
pub open spec fn fail_post(mem0: Memory, args: Seq<MemHandle>, r: Result<BuiltinReturn, Error>) -> bool {
    &&& r matches Err(e) && e.message@ == texts(vals(mem0@, args))
}

/// `fail`: stops with the texts of the arguments as the message.
pub fn b_fail(memory: &Memory, args: &[MemHandle]) -> (r: Result<BuiltinReturn, Error>)
    requires
        memory.wf(),
        forall|i: int| 0 <= i < args@.len() ==> memory@.live(#[trigger] args@[i]),
    ensures
        fail_post(*memory, args@, r),
{
    Err(Error { message: join_texts(memory, args) })
}

/// The objects the handles name.
pub open spec fn objs_of(m: MemoryModel, hs: Seq<MemHandle>) -> Seq<nat> {
    Seq::new(hs.len(), |i: int| m.obj(hs[i]))
}

/// The builtin handed back a new handle to an object equal to `obj`.
pub open spec fn gives_obj(m: MemoryModel, r: Result<BuiltinReturn, Error>, obj: Obj) -> bool {
    r matches Ok(BuiltinReturn::Value(h)) && m.cell(h) == obj
}

/// What `b_make_array` gives, and does to the heap.
pub open spec fn make_array_post(mem0: Memory, mem1: Memory, args: Seq<MemHandle>, r: Result<BuiltinReturn, Error>) -> bool {
    &&& builtin_keeps(&mem0, &mem1)
    &&& objects_kept(mem0@, mem1@)
    &&& returns_fresh(mem0@, mem1@, mem0.globals_handle(), r)
    &&& computes(&mem1, r, true)
    &&& (r is Ok ==> gives_obj(mem1@, r, Obj::Array(objs_of(mem0@, args), position_unknown())))
}

/// `make-array`: a new array of the arguments.
pub fn b_make_array(memory: &mut Memory, args: &[MemHandle]) -> (r: Result<BuiltinReturn, Error>)
    requires
        old(memory).wf(),
        forall|i: int| 0 <= i < args@.len() ==> old(memory)@.live(#[trigger] args@[i]),
    ensures
        make_array_post(*old(memory), *final(memory), args@, r),
{
    let ghost m0 = memory@;
    proof {
        lemma_scratch_start(memory);
    }
    let tmp: Vec<MemHandle> = Vec::new();
    let res = match s_array_of(memory, position_unknown_exec(), args, Ghost(m0), Ghost(tmp@)) {
        Ok(h) => Ok(BuiltinReturn::Value(h)),
        Err(e) => Err(e),
    };
    let ghost m1 = memory@;
    proof {
        assert(tmp@ + result_handles(res) =~= (match res { Ok(BuiltinReturn::Value(h)) => tmp@.push(h), _ => tmp@ }));
        assert(objs_of(m0, args@) =~= Seq::new(args@.len(), |i: int| m0.obj(args@[i])));
    }
    let r = s_finish(memory, &tmp, res, Ghost(m0));
    proof {
        match r {
            Ok(BuiltinReturn::Value(h)) => {
                assert(result_handles(r)[0] == h);
            },
            _ => {},
        }
    }
    r
}

/// The entries of a dictionary made from key and value pairs of the
/// arguments, the first `k` pairs bound in order.
pub open spec fn pairs_dict(m: MemoryModel, args: Seq<MemHandle>, k: nat) -> Seq<(PrimModel, nat)>
    decreases k,
{
    if k == 0 {
        Seq::empty()
    } else {
        crate::memory::dict_insert(pairs_dict(m, args, (k - 1) as nat),
            m.value(args[2 * (k - 1)])->Primitive_0, m.obj(args[2 * (k - 1) + 1]))
    }
}

/// The keys of the first `k` pairs are primitives.
pub open spec fn pair_keys_ok(m: MemoryModel, args: Seq<MemHandle>, k: nat) -> bool {
    forall|i: int| 0 <= i < k ==> #[trigger] m.value(args[2 * i]) is Primitive
}

/// What `b_make_dict` gives, and does to the heap.
pub open spec fn make_dict_post(mem0: Memory, mem1: Memory, args: Seq<MemHandle>, r: Result<BuiltinReturn, Error>) -> bool {
    &&& builtin_keeps(&mem0, &mem1)
    &&& objects_kept(mem0@, mem1@)
    &&& returns_fresh(mem0@, mem1@, mem0.globals_handle(), r)
    &&& computes(&mem1, r, args.len() % 2 == 0 && pair_keys_ok(mem0@, args, args.len() / 2))
    &&& (r is Ok ==> gives_obj(mem1@, r, Obj::Dict(pairs_dict(mem0@, args, args.len() / 2))))
}

/// `make-dict`: a new dictionary binding each key argument to the value
/// argument after it.
pub fn b_make_dict(memory: &mut Memory, args: &[MemHandle]) -> (r: Result<BuiltinReturn, Error>)
    requires
        old(memory).wf(),
        forall|i: int| 0 <= i < args@.len() ==> old(memory)@.live(#[trigger] args@[i]),
    ensures
        make_dict_post(*old(memory), *final(memory), args@, r),
{
    let ghost m0 = memory@;
    let ghost g = memory.globals_handle();
    proof {
        lemma_scratch_start(memory);
        memory.lemma_globals();
    }
    let mut tmp: Vec<MemHandle> = Vec::new();
    if args.len() % 2 != 0 {
        return s_finish(memory, &tmp, Err(err("Non-even number of args to `make-dict`")), Ghost(m0));
    }
    let d = match s_dict_new(memory, Ghost(m0), Ghost(tmp@)) {
        Ok(d) => d,
        Err(e) => return s_finish(memory, &tmp, Err(e), Ghost(m0)),
    };
    tmp.push(d);
    proof {
        old(memory).lemma_ok();
        lemma_objects_kept_then(m0, m0, memory@);
        assert forall|i: int| 0 <= i < args@.len() implies #[trigger] memory@.value(args@[i]) == m0.value(args@[i])
            && memory@.obj(args@[i]) == m0.obj(args@[i]) && m0.objs.contains_key(m0.obj(args@[i])) by {
            lemma_scratch_old(m0, memory@, g, tmp@, args@[i]);
            old(memory).lemma_live_cell(args@[i]);
            crate::memory::lemma_kept_live(m0, memory@, args@[i]);
        }
    }
    let mut k: usize = 0;
    while k < args.len() / 2
        invariant
            memory.wf(),
            memory.globals_handle() == g,
            scratch_ok(m0, memory@, g, tmp@),
            tmp@.len() == 1 && tmp@[0] == d,
            args@.len() % 2 == 0,
            k <= args@.len() / 2,
            forall|i: int| 0 <= i < args@.len() ==> m0.live(#[trigger] args@[i]),
            m0 == old(memory)@,
            g == old(memory).globals_handle(),
            memory@.cell(d) == Obj::Dict(pairs_dict(m0, args@, k as nat)),
            objects_kept(m0, memory@),
            memory@.next >= m0.next,
            m0.ok(),
            pair_keys_ok(m0, args@, k as nat),
            forall|i: int| 0 <= i < args@.len() ==> #[trigger] memory@.value(args@[i]) == m0.value(args@[i]),
            forall|i: int| 0 <= i < args@.len() ==> memory@.obj(#[trigger] args@[i]) == m0.obj(args@[i]),
            forall|i: int| 0 <= i < args@.len() ==> m0.objs.contains_key(#[trigger] m0.obj(args@[i])),
            !m0.objs.contains_key(memory@.obj(d)),
        decreases args@.len() / 2 - k,
    {
        let ghost m1 = memory@;
        let idx = 2 * k;
        assert(forall|i: int| 0 <= i < args@.len() ==> #[trigger] m1.value(args@[i]) == m0.value(args@[i]));
        proof {
            lemma_scratch_old(m0, m1, g, tmp@, args@[idx as int]);
            lemma_scratch_old(m0, m1, g, tmp@, args@[idx + 1]);
            lemma_scratch_live(m0, m1, g, tmp@, 0);
        }
        match memory.value(args[idx]) {
            Value::Primitive(p) => {
                proof {
                    assert(m1.value(args@[idx as int]) == m0.value(args@[idx as int]));
                }
                s_dict_set(memory, d, p, args[idx + 1], Ghost(m0), Ghost(tmp@));
                proof {
                    lemma_objects_kept_changed(m0, m1, memory@, m1.obj(d),
                        Obj::Dict(crate::memory::dict_insert(m1.cell(d)->Dict_0, p.model(), m1.obj(args@[idx + 1]))));
                    assert(pairs_dict(m0, args@, (k + 1) as nat) == crate::memory::dict_insert(pairs_dict(m0, args@, k as nat),
                        m0.value(args@[2 * k])->Primitive_0, m0.obj(args@[2 * k + 1])));
                    assert forall|i: int| 0 <= i < args@.len() implies #[trigger] memory@.value(args@[i]) == m0.value(args@[i]) by {
                        assert(m1.obj(args@[i]) == m0.obj(args@[i]));
                        assert(m0.objs.contains_key(m0.obj(args@[i])));
                        assert(m1.obj(args@[i]) != m1.obj(d));
                        assert(memory@.handles == m1.handles);
                        assert(memory@.objs[m1.obj(args@[i])] == m1.objs[m1.obj(args@[i])]);
                        assert(memory@.value(args@[i]) == m1.value(args@[i]));
                        assert(m1.value(args@[i]) == m0.value(args@[i]));
                    }
                    assert forall|i: int| 0 <= i < k + 1 implies #[trigger] m0.value(args@[2 * i]) is Primitive by {
                        if i < k {
                            assert(pair_keys_ok(m0, args@, k as nat));
                        }
                    }
                }
            },
            v => {
                proof {
                    assert(!pair_keys_ok(m0, args@, args@.len() / 2)) by {
                        assert(m0.value(args@[2 * k]) == v.model());
                    }
                }
                let mut m = "Argument ".to_owned();
                m.append(usize_to_string(idx).as_str());
                m.append(" (key #");
                m.append(usize_to_string(k).as_str());
                m.append(") to `make-dict` is not a primitive: ");
                m.append(v.debug_text().as_str());
                return s_finish(memory, &tmp, Err(Error { message: m }), Ghost(m0));
            },
        }
        k = k + 1;
    }
    proof {
        lemma_scratch_live(m0, memory@, g, tmp@, 0);
    }
    let c = s_copy(memory, d, Ghost(m0), Ghost(tmp@));
    let res = Ok(BuiltinReturn::Value(c));
    proof {
        assert(tmp@ + result_handles(res) =~= tmp@.push(c));
    }
    let r = s_finish(memory, &tmp, res, Ghost(m0));
    proof {
        assert(result_handles(r)[0] == c);
    }
    r
}

/// Nothing handed back, after the heap changed.
proof fn lemma_nothing_fresh(m0: MemoryModel, m1: MemoryModel, g: MemHandle)
    ensures
        returns_fresh(m0, m1, g, Ok(BuiltinReturn::Empty)),
{
    assert(return_handles(BuiltinReturn::Empty) =~= Seq::<MemHandle>::empty());
}

/// What `b_make_quote` gives, and does to the heap.
pub open spec fn make_quote_post(mem0: Memory, mem1: Memory, args: Seq<MemHandle>, r: Result<BuiltinReturn, Error>) -> bool {
    &&& builtin_keeps(&mem0, &mem1)
    &&& objects_kept(mem0@, mem1@)
    &&& returns_fresh(mem0@, mem1@, mem0.globals_handle(), r)
    &&& computes(&mem1, r, args.len() == 1)
    &&& (r is Ok ==> gives_obj(mem1@, r, Obj::Quote(mem0@.obj(args[0]))))
}

/// `make-quote`: a new quote of the argument.
pub fn b_make_quote(memory: &mut Memory, args: &[MemHandle]) -> (r: Result<BuiltinReturn, Error>)
    requires
        old(memory).wf(),
        forall|i: int| 0 <= i < args@.len() ==> old(memory)@.live(#[trigger] args@[i]),
    ensures
        make_quote_post(*old(memory), *final(memory), args@, r),
{
    let ghost m0 = memory@;
    proof {
        lemma_scratch_start(memory);
    }
    let tmp: Vec<MemHandle> = Vec::new();
    if args.len() != 1 {
        return s_finish(memory, &tmp, Err(err("Expected exactly one argument to `make-quote`")), Ghost(m0));
    }
    let res = match s_quote_new(memory, args[0], Ghost(m0), Ghost(tmp@)) {
        Ok(q) => Ok(BuiltinReturn::Value(q)),
        Err(e) => Err(e),
    };
    proof {
        assert(tmp@ + result_handles(res) =~= (match res { Ok(BuiltinReturn::Value(h)) => tmp@.push(h), _ => tmp@ }));
    }
    let ghost m_pre = memory@;
    let r = s_finish(memory, &tmp, res, Ghost(m0));
    proof {
        match r {
            Ok(BuiltinReturn::Value(h)) => {
                assert(result_handles(r)[0] == h);
                assert(memory@.obj(h) == m_pre.obj(h));
            },
            _ => {},
        }
    }
    r
}

/// What `b_unquote` gives, and does to the heap.
pub open spec fn unquote_post(mem0: Memory, mem1: Memory, args: Seq<MemHandle>, r: Result<BuiltinReturn, Error>) -> bool {
    &&& builtin_keeps(&mem0, &mem1)
    &&& objects_kept(mem0@, mem1@)
    &&& returns_fresh(mem0@, mem1@, mem0.globals_handle(), r)
    &&& (r is Ok <==> args.len() == 1 && mem0@.cell(args[0]) is Quote)
    &&& (r is Ok ==> (r matches Ok(BuiltinReturn::Value(h)) && mem1@.obj(h) == mem0@.cell(args[0])->Quote_0))
}

/// Quoting a value with `make-quote` and unquoting the quote with `unquote`
/// gives back the object that was quoted.
pub proof fn law_unquote_make_quote(m0: Memory, m1: Memory, m2: Memory, args: Seq<MemHandle>,
    r1: Result<BuiltinReturn, Error>, q: MemHandle, r2: Result<BuiltinReturn, Error>)
    requires
        make_quote_post(m0, m1, args, r1),
        r1 == Ok::<BuiltinReturn, Error>(BuiltinReturn::Value(q)),
        unquote_post(m1, m2, seq![q], r2),
    ensures
        r2 matches Ok(BuiltinReturn::Value(h)) && m2@.obj(h) == m0@.obj(args[0]),
{
}

/// `unquote`: what the quote quotes.
pub fn b_unquote(memory: &mut Memory, args: &[MemHandle]) -> (r: Result<BuiltinReturn, Error>)
    requires
        old(memory).wf(),
        forall|i: int| 0 <= i < args@.len() ==> old(memory)@.live(#[trigger] args@[i]),
    ensures
        unquote_post(*old(memory), *final(memory), args@, r),
{
    let ghost m0 = memory@;
    proof {
        lemma_scratch_start(memory);
    }
    let tmp: Vec<MemHandle> = Vec::new();
    if args.len() != 1 {
        return s_finish(memory, &tmp, Err(err("Expected exactly one argument to `quote`")), Ghost(m0));
    }
    match memory.value(args[0]) {
        Value::Quote => {
            let q = s_quote_get(memory, args[0], Ghost(m0), Ghost(tmp@));
            let res = Ok(BuiltinReturn::Value(q));
            proof {
                assert(tmp@ + result_handles(res) =~= tmp@.push(q));
            }
            let r = s_finish(memory, &tmp, res, Ghost(m0));
            proof {
                assert(result_handles(r)[0] == q);
            }
            r
        },
        v => s_finish(memory, &tmp, Err(err_value("First argument to `unquote` unrecognized: ", &v)), Ghost(m0)),
    }
}

/// The length `len` gives: a string's in UTF-8 bytes, an array's number of
/// elements, a dictionary's number of keys.
pub open spec fn length_of(m: MemoryModel, h: MemHandle) -> Option<int> {
    match m.cell(h) {
        Obj::Prim(PrimModel::Str(s)) => Some(utf8_len(s) as int),
        Obj::Array(v, _) => Some(v.len() as int),
        Obj::Dict(d) => Some(d.len() as int),
        _ => None,
    }
}

fn to_i64(n: usize) -> (r: Result<i64, Error>)
    ensures
        r matches Ok(i) ==> i as int == n as int,
        r is Err ==> n > i64::MAX,
{
    if n as u64 <= 9223372036854775807u64 {
        Ok(n as i64)
    } else {
        Err(err("Length out of range"))
    }
}

/// What `b_len` gives, and does to the heap.
pub open spec fn len_post(mem0: Memory, mem1: Memory, args: Seq<MemHandle>, r: Result<BuiltinReturn, Error>) -> bool {
    &&& builtin_keeps(&mem0, &mem1)
    &&& objects_kept(mem0@, mem1@)
    &&& returns_fresh(mem0@, mem1@, mem0.globals_handle(), r)
    &&& computes(&mem1, r, args.len() == 1 && length_of(mem0@, args[0]) is Some && length_of(mem0@, args[0]).unwrap() <= i64::MAX
            && length_of(mem0@, args[0]).unwrap() <= usize::MAX)
    &&& (r is Ok ==> gives_prim(mem1@, r, PrimModel::Int(length_of(mem0@, args[0]).unwrap() as i64)))
}

/// `len`: the length of a string, an array or a dictionary.
pub fn b_len(memory: &mut Memory, args: &[MemHandle]) -> (r: Result<BuiltinReturn, Error>)
    requires
        old(memory).wf(),
        forall|i: int| 0 <= i < args@.len() ==> old(memory)@.live(#[trigger] args@[i]),
    ensures
        len_post(*old(memory), *final(memory), args@, r),
{
    proof {
        old(memory).lemma_ok();
        crate::eval::lemma_handles_kept_refl(old(memory)@);
    }
    if args.len() != 1 {
        return Err(err("Expected exactly one argument to `len`"));
    }
    let n = match memory.value(args[0]) {
        Value::Primitive(Primitive::String(s)) => match utf8_length(&s) {
            Some(n) => n,
            None => return Err(err("Length out of range")),
        },
        Value::Array => memory.array_len(args[0]),
        Value::Dict => memory.dict_len(args[0]),
        v => return Err(err_value("First argument to `len` unrecognized: ", &v)),
    };
    let i = to_i64(n)?;
    give(memory, Value::Primitive(Primitive::Int(i)))
}

/// What `get` and `has` look up: a string's char or an array's element by
/// a non-negative index, a dictionary's binding by a primitive key.
pub open spec fn lookup_ok(m: MemoryModel, c: ValueModel, k: ValueModel) -> bool {
    match (c, k) {
        (ValueModel::Primitive(PrimModel::Str(_)), ValueModel::Primitive(PrimModel::Int(_))) => true,
        (ValueModel::Array, ValueModel::Primitive(PrimModel::Int(_))) => true,
        (ValueModel::Dict, ValueModel::Primitive(_)) => true,
        _ => false,
    }
}

/// What `b_get` gives, and does to the heap.
pub open spec fn get_post(mem0: Memory, mem1: Memory, args: Seq<MemHandle>, r: Result<BuiltinReturn, Error>) -> bool {
    &&& builtin_keeps(&mem0, &mem1)
    &&& objects_kept(mem0@, mem1@)
    &&& returns_fresh(mem0@, mem1@, mem0.globals_handle(), r)
    &&& (({
            let m = mem0@;
            let c = m.value(args[0]);
            let k = m.value(args[1]);
            &&& computes(&mem1, r, args.len() >= 2 && lookup_ok(m, c, k))
            &&& r is Ok ==> match (c, k) {
                (ValueModel::Primitive(PrimModel::Str(s)), ValueModel::Primitive(PrimModel::Int(i))) =>
                    if 0 <= i < s.len() { gives_prim(mem1@, r, PrimModel::Str(seq![s[i as int]])) }
                    else { r == Ok::<BuiltinReturn, Error>(BuiltinReturn::Empty) },
                (ValueModel::Array, ValueModel::Primitive(PrimModel::Int(i))) =>
                    if 0 <= i < m.cell(args[0])->Array_0.len() {
                        r matches Ok(BuiltinReturn::Value(h)) && mem1@.obj(h) == m.cell(args[0])->Array_0[i as int]
                    } else { r == Ok::<BuiltinReturn, Error>(BuiltinReturn::Empty) },
                (ValueModel::Dict, ValueModel::Primitive(p)) =>
                    match crate::memory::dict_lookup(m.cell(args[0])->Dict_0, p) {
                        Some(o) => r matches Ok(BuiltinReturn::Value(h)) && mem1@.obj(h) == o,
                        None => r == Ok::<BuiltinReturn, Error>(BuiltinReturn::Empty),
                    },
                _ => false,
            }
        }))
}

/// `get`: a string's char (as a string), an array's element, or a
/// dictionary's binding; nothing where there is none.
pub fn b_get(memory: &mut Memory, args: &[MemHandle]) -> (r: Result<BuiltinReturn, Error>)
    requires
        old(memory).wf(),
        forall|i: int| 0 <= i < args@.len() ==> old(memory)@.live(#[trigger] args@[i]),
    ensures
        get_post(*old(memory), *final(memory), args@, r),
{
    let ghost m0 = memory@;
    proof {
        lemma_scratch_start(memory);
    }
    let tmp: Vec<MemHandle> = Vec::new();
    if args.len() < 2 {
        return s_finish(memory, &tmp, Err(err("Too few args to `get`")), Ghost(m0));
    }
    let c = memory.value(args[0]);
    let k = memory.value(args[1]);
    match (c, k) {
        (Value::Primitive(Primitive::String(s)), Value::Primitive(Primitive::Int(i))) => {
            if i < 0 {
                proof {
                    assert(tmp@ + result_handles(Ok(BuiltinReturn::Empty)) =~= tmp@);
                }
                return s_finish(memory, &tmp, Ok(BuiltinReturn::Empty), Ghost(m0));
            }
            let n = s.as_str().unicode_len();
            if (i as u64) < (n as u64) {
                let ch = s.as_str().get_char(i as usize);
                let mut t = String::new();
                crate::text::push_char(&mut t, ch);
                proof {
                    assert(t@ =~= seq![s@[i as int]]);
                }
                let res = match s_make(memory, Value::Primitive(Primitive::String(t)), Ghost(m0), Ghost(tmp@)) {
                    Ok(h) => Ok(BuiltinReturn::Value(h)),
                    Err(e) => Err(e),
                };
                proof {
                    assert(tmp@ + result_handles(res) =~= (match res { Ok(BuiltinReturn::Value(h)) => tmp@.push(h), _ => tmp@ }));
                }
                let ghost m1 = memory@;
                let r = s_finish(memory, &tmp, res, Ghost(m0));
                proof {
                    match r {
                        Ok(BuiltinReturn::Value(h)) => assert(result_handles(r)[0] == h),
                        _ => {},
                    }
                }
                r
            } else {
                let r = s_finish(memory, &tmp, Ok(BuiltinReturn::Empty), Ghost(m0));
                proof {
                    assert(tmp@ + result_handles(Ok(BuiltinReturn::Empty)) =~= tmp@);
                }
                r
            }
        },
        (Value::Array, Value::Primitive(Primitive::Int(i))) => {
            if i < 0 {
                proof {
                    assert(tmp@ + result_handles(Ok(BuiltinReturn::Empty)) =~= tmp@);
                }
                return s_finish(memory, &tmp, Ok(BuiltinReturn::Empty), Ghost(m0));
            }
            let n = memory.array_len(args[0]);
            if (i as u64) < (n as u64) {
                let res = Ok(option_to_value(s_array_get(memory, args[0], i as usize, Ghost(m0), Ghost(tmp@))));
                proof {
                    assert(tmp@ + result_handles(res) =~= (match res { Ok(BuiltinReturn::Value(h)) => tmp@.push(h), _ => tmp@ }));
                }
                let r = s_finish(memory, &tmp, res, Ghost(m0));
                proof {
                    match r {
                        Ok(BuiltinReturn::Value(h)) => assert(result_handles(r)[0] == h),
                        _ => {},
                    }
                }
                r
            } else {
                proof {
                    assert(tmp@ + result_handles(Ok(BuiltinReturn::Empty)) =~= tmp@);
                }
                s_finish(memory, &tmp, Ok(BuiltinReturn::Empty), Ghost(m0))
            }
        },
        (Value::Dict, Value::Primitive(p)) => {
            let res = Ok(option_to_value(s_dict_get(memory, args[0], &p, Ghost(m0), Ghost(tmp@))));
            proof {
                assert(tmp@ + result_handles(res) =~= (match res { Ok(BuiltinReturn::Value(h)) => tmp@.push(h), _ => tmp@ }));
            }
            let r = s_finish(memory, &tmp, res, Ghost(m0));
            proof {
                match r {
                    Ok(BuiltinReturn::Value(h)) => assert(result_handles(r)[0] == h),
                    _ => {},
                }
            }
            r
        },
        (Value::Primitive(Primitive::String(_)), v) => s_finish(memory, &tmp,
            Err(err_value("Running `get` on string, expected integer index, got: ", &v)), Ghost(m0)),
        (Value::Array, v) => s_finish(memory, &tmp,
            Err(err_value("Running `get` on array, expected integer index, got: ", &v)), Ghost(m0)),
        (Value::Dict, v) => s_finish(memory, &tmp,
            Err(err_value("Running `get` on dict, expected primitive index, got: ", &v)), Ghost(m0)),
        (v, _) => s_finish(memory, &tmp, Err(err_value("First argument to `get` unrecognized: ", &v)), Ghost(m0)),
    }
}

/// What `b_has` gives, and does to the heap.
pub open spec fn has_post(mem0: Memory, mem1: Memory, args: Seq<MemHandle>, r: Result<BuiltinReturn, Error>) -> bool {
    &&& builtin_keeps(&mem0, &mem1)
    &&& objects_kept(mem0@, mem1@)
    &&& returns_fresh(mem0@, mem1@, mem0.globals_handle(), r)
    &&& (({
            let m = mem0@;
            let c = m.value(args[0]);
            let k = m.value(args[1]);
            &&& computes(&mem1, r, args.len() == 2 && lookup_ok(m, c, k))
            &&& r is Ok ==> match (c, k) {
                (ValueModel::Primitive(PrimModel::Str(s)), ValueModel::Primitive(PrimModel::Int(i))) =>
                    gives_prim(mem1@, r, bool_prim(0 <= i < s.len())),
                (ValueModel::Array, ValueModel::Primitive(PrimModel::Int(i))) =>
                    gives_prim(mem1@, r, bool_prim(0 <= i < m.cell(args[0])->Array_0.len())),
                (ValueModel::Dict, ValueModel::Primitive(p)) =>
                    gives_prim(mem1@, r, bool_prim(crate::memory::has_key(m.cell(args[0])->Dict_0, p))),
                _ => false,
            }
        }))
}

/// `has`: whether `get` finds something: a string a char at the index, an
/// array an element, a dictionary the key.
pub fn b_has(memory: &mut Memory, args: &[MemHandle]) -> (r: Result<BuiltinReturn, Error>)
    requires
        old(memory).wf(),
        forall|i: int| 0 <= i < args@.len() ==> old(memory)@.live(#[trigger] args@[i]),
    ensures
        has_post(*old(memory), *final(memory), args@, r),
{
    proof {
        old(memory).lemma_ok();
        crate::eval::lemma_handles_kept_refl(old(memory)@);
    }
    if args.len() != 2 {
        return Err(err("`has` expects exactly 2 arguments"));
    }
    let c = memory.value(args[0]);
    let k = memory.value(args[1]);
    let b = match (c, k) {
        (Value::Primitive(Primitive::String(s)), Value::Primitive(Primitive::Int(i))) => {
            i >= 0 && (i as u64) < (s.as_str().unicode_len() as u64)
        },
        (Value::Array, Value::Primitive(Primitive::Int(i))) => {
            i >= 0 && (i as u64) < (memory.array_len(args[0]) as u64)
        },
        (Value::Dict, Value::Primitive(p)) => memory.dict_has(args[0], &p),
        (Value::Primitive(Primitive::String(_)), v) =>
            return Err(err_value("Running `get` on string, expected integer index, got: ", &v)),
        (Value::Array, v) => return Err(err_value("Running `get` on array, expected integer index, got: ", &v)),
        (Value::Dict, v) => return Err(err_value("Running `get` on dict, expected primitive index, got: ", &v)),
        (v, _) => return Err(err_value("First argument to `get` unrecognized: ", &v)),
    };
    give_bool(memory, b)
}

/// The array `push` appends to: the first argument where it is an array,
/// else the array the globals bind it to where it is a name.
pub open spec fn push_target(m: MemoryModel, g: MemHandle, a0: MemHandle) -> Option<nat> {
    match m.cell(a0) {
        Obj::Array(_, _) => Some(m.obj(a0)),
        Obj::Prim(PrimModel::Str(name)) => match dict_lookup(m.cell(g)->Dict_0, PrimModel::Str(name)) {
            Some(o) => if m.objs[o] is Array { Some(o) } else { None },
            None => None,
        },
        _ => None,
    }
}

/// Appends what `args[1..]` name to the array `target`.
fn push_from(memory: &mut Memory, target: MemHandle, args: &[MemHandle])
    requires
        old(memory).wf(),
        old(memory)@.live(target),
        old(memory)@.cell(target) is Array,
        args@.len() >= 1,
        forall|i: int| 0 <= i < args@.len() ==> old(memory)@.live(#[trigger] args@[i]),
    ensures
        final(memory).wf(),
        final(memory).globals_handle() == old(memory).globals_handle(),
        old(memory)@.changed(final(memory)@, old(memory)@.obj(target), Obj::Array(old(memory).elems(target)
            + objs_of(old(memory)@, args@.subrange(1, args@.len() as int)), old(memory).pos(target))),
{
    proof {
        old(memory).lemma_ok();
    }
    let ghost m0 = memory@;
    let ghost a = m0.obj(target);
    let ghost e0 = old(memory).elems(target);
    let ghost p0 = old(memory).pos(target);
    proof {
        assert(objs_of(m0, args@.subrange(1, 1)) =~= Seq::<nat>::empty());
        assert(e0 + Seq::<nat>::empty() =~= e0);
        old(memory).lemma_live_cell(target);
        assert(m0.objs.insert(a, Obj::Array(e0, p0)) =~= m0.objs);
    }
    let mut idx: usize = 1;
    while idx < args.len()
        invariant
            1 <= idx <= args@.len(),
            memory.wf(),
            memory.globals_handle() == old(memory).globals_handle(),
            m0 == old(memory)@,
            m0.ok(),
            memory@.handles == m0.handles,
            memory@.next == m0.next,
            m0.live(target),
            forall|i: int| 0 <= i < args@.len() ==> m0.live(#[trigger] args@[i]),
            memory@.objs == m0.objs.insert(a, Obj::Array(e0 + objs_of(m0, args@.subrange(1, idx as int)), p0)),
            a == m0.obj(target),
        decreases args@.len() - idx,
    {
        let ghost m1 = memory@;
        let ghost prev = e0 + objs_of(m0, args@.subrange(1, idx as int));
        proof {
            assert(m1.live(args@[idx as int]));
            assert(m1.live(target));
            assert(m1.cell(target) == Obj::Array(prev, p0));
        }
        memory.array_push(target, args[idx]);
        proof {
            assert(objs_of(m0, args@.subrange(1, idx + 1)) =~= objs_of(m0, args@.subrange(1, idx as int)).push(m0.obj(args@[idx as int])));
            assert(prev.push(m1.obj(args@[idx as int])) =~= e0 + objs_of(m0, args@.subrange(1, idx + 1)));
            assert(memory@.objs =~= m0.objs.insert(a, Obj::Array(e0 + objs_of(m0, args@.subrange(1, idx + 1)), p0)));
        }
        idx = idx + 1;
    }
}

/// What `b_push` gives, and does to the heap.
pub open spec fn push_post(mem0: Memory, mem1: Memory, args: Seq<MemHandle>, r: Result<BuiltinReturn, Error>) -> bool {
    &&& builtin_keeps(&mem0, &mem1)
    &&& (r is Err ==> objects_kept(mem0@, mem1@))
    &&& returns_fresh(mem0@, mem1@, mem0.globals_handle(), r)
    &&& (r is Ok <==> args.len() >= 2 && push_target(mem0@, mem0.globals_handle(), args[0]) is Some)
    &&& (r is Ok ==> ({
            let m = mem0@;
            let o = push_target(m, mem0.globals_handle(), args[0]).unwrap();
            &&& r == Ok::<BuiltinReturn, Error>(BuiltinReturn::Empty)
            &&& m.kept_except(mem1@, o)
            &&& mem1@.objs.contains_key(o)
            &&& mem1@.objs[o] == Obj::Array(m.objs[o]->Array_0
                + objs_of(m, args.subrange(1, args.len() as int)), m.objs[o]->Array_1)
        }))
}

/// `push`: appends the later arguments to the array, given itself or by the
/// name the globals bind it to.
pub fn b_push(memory: &mut Memory, args: &[MemHandle]) -> (r: Result<BuiltinReturn, Error>)
    requires
        old(memory).wf(),
        forall|i: int| 0 <= i < args@.len() ==> old(memory)@.live(#[trigger] args@[i]),
    ensures
        push_post(*old(memory), *final(memory), args@, r),
{
    proof {
        old(memory).lemma_ok();
        old(memory).lemma_globals();
        crate::eval::lemma_handles_kept_refl(old(memory)@);
    }
    if args.len() < 2 {
        return Err(err("Too few args to `push`"));
    }
    let ghost m0 = memory@;
    let ghost g = memory.globals_handle();
    match memory.value(args[0]) {
        Value::Array => {
            push_from(memory, args[0], args);
            proof {
                lemma_nothing_fresh(m0, memory@, g);
                crate::memory::lemma_kept_except_of_changed(m0, memory@, m0.obj(args@[0]), memory@.objs[m0.obj(args@[0])]);
                assert forall|i: int| 0 <= i < m0.handles.len() && #[trigger] m0.handles[i] is Some
                    implies memory@.handles[i] == m0.handles[i] && memory@.objs.contains_key(m0.handles[i].unwrap()) by {
                }
            }
            Ok(BuiltinReturn::Empty)
        },
        Value::Primitive(Primitive::String(name)) => {
            proof {
                lemma_scratch_start(memory);
            }
            let mut tmp: Vec<MemHandle> = Vec::new();
            let gl = memory.globals();
            let key = Primitive::String(name);
            let h = match s_dict_get(memory, gl, &key, Ghost(m0), Ghost(tmp@)) {
                Some(h) => h,
                None => return s_finish(memory, &tmp, Err(err("First argument to `push` names no variable")), Ghost(m0)),
            };
            tmp.push(h);
            let ghost m1 = memory@;
            proof {
                lemma_scratch_live(m0, memory@, g, tmp@, tmp@.len() - 1);
            }
            match memory.value(h) {
                Value::Array => {},
                v => return s_finish(memory, &tmp, Err(err_value("First argument to `push` names no array: ", &v)), Ghost(m0)),
            }
            proof {
                assert forall|i: int| 0 <= i < args@.len() implies memory@.live(#[trigger] args@[i]) by {
                    lemma_scratch_old(m0, memory@, g, tmp@, args@[i]);
                }
                assert forall|i: int| 0 <= i < args@.len() implies memory@.obj(#[trigger] args@[i]) == m0.obj(args@[i]) by {
                    lemma_scratch_old(m0, memory@, g, tmp@, args@[i]);
                }
                assert(objs_of(memory@, args@.subrange(1, args@.len() as int)) =~= objs_of(m0, args@.subrange(1, args@.len() as int)));
            }
            push_from(memory, h, args);
            let ghost m2 = memory@;
            proof {
                let o = m1.obj(h);
                memory.lemma_ok();
                crate::memory::lemma_changed_handles(m1, m2, o, m2.objs[o]);
                assert(scratch_ok(m0, m2, g, tmp@)) by {
                    crate::memory::lemma_handles_ok_kept(m1, m2, g, tmp@);
                    crate::memory::lemma_handles_kept_trans(m0, m1, m2);
                }
                assert(tmp@ + result_handles(Ok(BuiltinReturn::Empty)) =~= tmp@);
            }
            let r = s_finish(memory, &tmp, Ok(BuiltinReturn::Empty), Ghost(m0));
            proof {
                let o = m1.obj(h);
                lemma_nothing_fresh(m0, memory@, g);
                assert(m0.objs[o] == m1.objs[o]);
                assert(m0.kept_except(memory@, o)) by {
                    assert forall|p: nat| #[trigger] memory@.objs.contains_key(p) && m0.objs.contains_key(p) && p != o
                        implies memory@.objs[p] == m0.objs[p] by {
                    }
                    assert forall|i: int| 0 <= i < m0.handles.len() && #[trigger] m0.handles[i] is Some
                        implies memory@.handles[i] == m0.handles[i] && memory@.objs.contains_key(m0.handles[i].unwrap()) by {
                    }
                    assert forall|p: nat| #[trigger] memory@.objs.contains_key(p) implies m0.objs.contains_key(p) || p >= m0.next by {
                        if p != o {
                            assert(m1.objs.contains_key(p));
                        }
                    }
                }
            }
            r
        },
        v => Err(err_value("First argument to `push` unrecognized: ", &v)),
    }
}

/// What `b_del` gives, and does to the heap.
pub open spec fn del_post(mem0: Memory, mem1: Memory, args: Seq<MemHandle>, r: Result<BuiltinReturn, Error>) -> bool {
    &&& builtin_keeps(&mem0, &mem1)
    &&& (r is Err ==> objects_kept(mem0@, mem1@))
    &&& returns_fresh(mem0@, mem1@, mem0.globals_handle(), r)
    &&& (r is Ok <==> args.len() == 2 && mem0@.cell(args[0]) is Dict && mem0@.value(args[1]) is Primitive)
    &&& (r is Ok ==> r == Ok::<BuiltinReturn, Error>(BuiltinReturn::Empty) && mem0@.changed(mem1@,
            mem0@.obj(args[0]), Obj::Dict(crate::memory::dict_remove(mem0.entries(args[0]),
                mem0@.value(args[1])->Primitive_0))))
}

/// `del`: unbinds the key in the dictionary.
pub fn b_del(memory: &mut Memory, args: &[MemHandle]) -> (r: Result<BuiltinReturn, Error>)
    requires
        old(memory).wf(),
        forall|i: int| 0 <= i < args@.len() ==> old(memory)@.live(#[trigger] args@[i]),
    ensures
        del_post(*old(memory), *final(memory), args@, r),
{
    proof {
        old(memory).lemma_ok();
        crate::eval::lemma_handles_kept_refl(old(memory)@);
    }
    if args.len() != 2 {
        return Err(err("`trunc` expects exactly one argument"));
    }
    match memory.value(args[0]) {
        Value::Dict => match memory.value(args[1]) {
            Value::Primitive(p) => {
                let ghost m0 = memory@;
                let ghost pm = p.model();
                memory.dict_del(args[0], &p);
                proof {
                    crate::memory::lemma_changed_handles(m0, memory@, m0.obj(args@[0]),
                        Obj::Dict(crate::memory::dict_remove(old(memory).entries(args@[0]), pm)));
                    lemma_nothing_fresh(m0, memory@, memory.globals_handle());
                }
                Ok(BuiltinReturn::Empty)
            },
            v => Err(err_value("Running `del` on dict, expected primitive index, got: ", &v)),
        },
        v => Err(err_value("First argument to `get` unrecognized: ", &v)),
    }
}

/// What `b_truncate` gives, and does to the heap.
pub open spec fn truncate_post(mem0: Memory, mem1: Memory, args: Seq<MemHandle>, r: Result<BuiltinReturn, Error>) -> bool {
    &&& builtin_keeps(&mem0, &mem1)
    &&& (r is Err ==> objects_kept(mem0@, mem1@))
    &&& returns_fresh(mem0@, mem1@, mem0.globals_handle(), r)
    &&& (({
            let m = mem0@;
            let k = m.value(args[1]);
            &&& r is Ok <==> args.len() == 2 && m.cell(args[0]) is Array && k is Primitive && k->Primitive_0 is Int
                && k->Primitive_0->Int_0 >= 0
            &&& r is Ok ==> r == Ok::<BuiltinReturn, Error>(BuiltinReturn::Empty) && m.changed(mem1@, m.obj(args[0]),
                Obj::Array(if k->Primitive_0->Int_0 < mem0.elems(args[0]).len() {
                    mem0.elems(args[0]).take(k->Primitive_0->Int_0 as int)
                } else {
                    mem0.elems(args[0])
                }, mem0.pos(args[0])))
        }))
}

/// `truncate`: cuts the array down to the length, where it is longer.
pub fn b_truncate(memory: &mut Memory, args: &[MemHandle]) -> (r: Result<BuiltinReturn, Error>)
    requires
        old(memory).wf(),
        forall|i: int| 0 <= i < args@.len() ==> old(memory)@.live(#[trigger] args@[i]),
    ensures
        truncate_post(*old(memory), *final(memory), args@, r),
{
    proof {
        old(memory).lemma_ok();
        crate::eval::lemma_handles_kept_refl(old(memory)@);
    }
    if args.len() != 2 {
        return Err(err("`del` expects exactly 2 arguments"));
    }
    match memory.value(args[0]) {
        Value::Array => match memory.value(args[1]) {
            Value::Primitive(Primitive::Int(i)) => {
                if i < 0 {
                    let mut m = "Negative index to `truncate`: ".to_owned();
                    m.append(int_to_string(i).as_str());
                    return Err(Error { message: m });
                }
                let n = memory.array_len(args[0]);
                let len: usize = if (i as u64) < (n as u64) { i as usize } else { n };
                let ghost m0 = memory@;
                memory.array_truncate(args[0], len);
                proof {
                    crate::memory::lemma_changed_handles(m0, memory@, m0.obj(args@[0]), memory@.objs[m0.obj(args@[0])]);
                    lemma_nothing_fresh(m0, memory@, memory.globals_handle());
                }
                Ok(BuiltinReturn::Empty)
            },
            v => Err(err_value("Running `del` on dict, expected primitive index, got: ", &v)),
        },
        v => Err(err_value("First argument to `get` unrecognized: ", &v)),
    }
}

/// What `b_clone` gives, and does to the heap.
pub open spec fn clone_post(mem0: Memory, mem1: Memory, args: Seq<MemHandle>, r: Result<BuiltinReturn, Error>) -> bool {
    &&& builtin_keeps(&mem0, &mem1)
    &&& objects_kept(mem0@, mem1@)
    &&& returns_fresh(mem0@, mem1@, mem0.globals_handle(), r)
    &&& computes(&mem1, r, args.len() == 1)
    &&& (r matches Ok(BuiltinReturn::Value(h)) ==> mem1@.cell(h) == mem0@.cell(args[0]))
    &&& (r matches Ok(BuiltinReturn::Value(h)) ==> (is_container(mem0@.cell(args[0])) ==> !mem0@.objs.contains_key(mem1@.obj(h))))
    &&& (r is Ok ==> r->Ok_0 is Value)
}

/// A quote, an array or a dictionary: an object that `clone` copies.
pub open spec fn is_container(o: Obj) -> bool {
    o is Quote || o is Array || o is Dict
}

/// `clone` of a quote, an array or a dictionary gives a new object, one the
/// heap did not hold before, equal to it; so a later change to either one is
/// not seen through the other.
pub proof fn law_clone_is_a_new_copy(mem0: Memory, mem1: Memory, args: Seq<MemHandle>, r: Result<BuiltinReturn, Error>) -> (h: MemHandle)
    requires
        clone_post(mem0, mem1, args, r),
        args.len() == 1,
        mem0@.live(args[0]),
        is_container(mem0@.cell(args[0])),
        r is Ok,
    ensures
        r == Ok::<BuiltinReturn, Error>(BuiltinReturn::Value(h)),
        mem1@.obj(h) != mem1@.obj(args[0]),
        !mem0@.objs.contains_key(mem1@.obj(h)),
        mem1@.cell(h) == mem1@.cell(args[0]),
        forall|m2: MemoryModel, x: Obj| #[trigger] mem1@.changed(m2, mem1@.obj(h), x)
            ==> m2.cell(args[0]) == mem1@.cell(args[0]),
        forall|m2: MemoryModel, x: Obj| #[trigger] mem1@.changed(m2, mem1@.obj(args[0]), x)
            ==> m2.cell(h) == mem1@.cell(h),
{
    let h = r->Ok_0->Value_0;
    let i = args[0].idx as int;
    assert(mem0@.handles[i] is Some);
    assert(mem1@.handles[i] == mem0@.handles[i]);
    assert(mem1@.obj(args[0]) == mem0@.obj(args[0]));
    assert(mem1@.objs.contains_key(mem0@.obj(args[0])));
    assert(mem1@.cell(args[0]) == mem0@.cell(args[0]));
    h
}

/// `clone`: a new copy of a quote, an array or a dictionary; a primitive or
/// a function is itself.
pub fn b_clone(memory: &mut Memory, args: &[MemHandle]) -> (r: Result<BuiltinReturn, Error>)
    requires
        old(memory).wf(),
        forall|i: int| 0 <= i < args@.len() ==> old(memory)@.live(#[trigger] args@[i]),
    ensures
        clone_post(*old(memory), *final(memory), args@, r),
{
    let ghost m0 = memory@;
    proof {
        lemma_scratch_start(memory);
    }
    let tmp: Vec<MemHandle> = Vec::new();
    if args.len() != 1 {
        return s_finish(memory, &tmp, Err(err("`clone` expects exactly 1 argument")), Ghost(m0));
    }
    let res = match memory.value(args[0]) {
        Value::Primitive(_) | Value::Fun => {
            let c = s_copy(memory, args[0], Ghost(m0), Ghost(tmp@));
            Ok(BuiltinReturn::Value(c))
        },
        _ => match s_clone(memory, args[0], Ghost(m0), Ghost(tmp@)) {
            Ok(c) => Ok(BuiltinReturn::Value(c)),
            Err(e) => Err(e),
        },
    };
    proof {
        assert(tmp@ + result_handles(res) =~= (match res { Ok(BuiltinReturn::Value(h)) => tmp@.push(h), _ => tmp@ }));
    }
    let r = s_finish(memory, &tmp, res, Ghost(m0));
    proof {
        match r {
            Ok(BuiltinReturn::Value(h)) => assert(result_handles(r)[0] == h),
            _ => {},
        }
    }
    r
}


/// What `b_set` gives, and does to the heap.
pub open spec fn set_post(mem0: Memory, mem1: Memory, args: Seq<MemHandle>, r: Result<BuiltinReturn, Error>) -> bool {
    &&& builtin_keeps(&mem0, &mem1)
    &&& (r is Err ==> objects_kept(mem0@, mem1@))
    &&& returns_fresh(mem0@, mem1@, mem0.globals_handle(), r)
    &&& (r is Ok ==> r == Ok::<BuiltinReturn, Error>(BuiltinReturn::Empty))
    &&& (({
            let m = mem0@;
            let t = m.value(args[0]);
            let g = mem0.globals_handle();
            &&& args.len() == 2 && t is Primitive && t->Primitive_0 is Str ==> r is Ok && m.changed(mem1@,
                m.obj(g), Obj::Dict(crate::memory::dict_insert(mem0.entries(g), t->Primitive_0, m.obj(args[1]))))
            &&& args.len() == 2 && t is Quote ==> r is Ok && m.changed(mem1@, m.obj(args[0]),
                Obj::Quote(m.obj(args[1])))
            &&& args.len() == 3 && t is Array && m.value(args[1]) is Primitive && m.value(args[1])->Primitive_0 is Int
                && 0 <= m.value(args[1])->Primitive_0->Int_0 < mem0.elems(args[0]).len()
                ==> r is Ok && m.changed(mem1@, m.obj(args[0]), Obj::Array(mem0.elems(args[0]).update(
                    m.value(args[1])->Primitive_0->Int_0 as int, m.obj(args[2])), mem0.pos(args[0])))
            &&& args.len() == 3 && t is Dict && m.value(args[1]) is Primitive ==> r is Ok && m.changed(mem1@,
                m.obj(args[0]), Obj::Dict(crate::memory::dict_insert(mem0.entries(args[0]),
                    m.value(args[1])->Primitive_0, m.obj(args[2]))))
            &&& r is Ok ==> (args.len() == 2 && t is Primitive && t->Primitive_0 is Str) || (args.len() == 2 && t is Quote)
                || (args.len() == 3 && t is Array && m.value(args[1]) is Primitive && m.value(args[1])->Primitive_0 is Int
                && 0 <= m.value(args[1])->Primitive_0->Int_0 < mem0.elems(args[0]).len())
                || (args.len() == 3 && t is Dict && m.value(args[1]) is Primitive)
        }))
}

/// `set`: binds a name (a string) in the globals, fills a quote, replaces an
/// array's element, or binds a dictionary's key.
pub fn b_set(memory: &mut Memory, args: &[MemHandle]) -> (r: Result<BuiltinReturn, Error>)
    requires
        old(memory).wf(),
        forall|i: int| 0 <= i < args@.len() ==> old(memory)@.live(#[trigger] args@[i]),
    ensures
        set_post(*old(memory), *final(memory), args@, r),
{
    proof {
        old(memory).lemma_ok();
        crate::eval::lemma_handles_kept_refl(old(memory)@);
        old(memory).lemma_globals();
        lemma_nothing_fresh(old(memory)@, old(memory)@, old(memory).globals_handle());
    }
    let ghost m0 = memory@;
    if args.len() < 2 {
        return Err(err("Too few args to `set`"));
    }
    match memory.value(args[0]) {
        Value::Primitive(Primitive::String(name)) => {
            if args.len() == 2 {
                let g = memory.globals();
                let ghost k = Primitive::String(name).model();
                memory.dict_set(g, Primitive::String(name), args[1]);
                proof {
                    crate::memory::lemma_changed_handles(m0, memory@, m0.obj(g),
                        Obj::Dict(crate::memory::dict_insert(old(memory).entries(g), k, m0.obj(args@[1]))));
                    lemma_nothing_fresh(m0, memory@, g);
                }
                Ok(BuiltinReturn::Empty)
            } else {
                Err(err("Too many args to `set`"))
            }
        },
        Value::Quote => {
            if args.len() == 2 {
                memory.quote_set(args[0], args[1]);
                proof {
                    crate::memory::lemma_changed_handles(m0, memory@, m0.obj(args@[0]), Obj::Quote(m0.obj(args@[1])));
                    lemma_nothing_fresh(m0, memory@, memory.globals_handle());
                }
                Ok(BuiltinReturn::Empty)
            } else {
                Err(err("Too many args to `set`"))
            }
        },
        Value::Array => {
            if args.len() == 3 {
                match memory.value(args[1]) {
                    Value::Primitive(Primitive::Int(i)) => {
                        let n = memory.array_len(args[0]);
                        if i < 0 || (i as u64) >= (n as u64) {
                            let mut m = "Index ".to_owned();
                            m.append(int_to_string(i).as_str());
                            m.append(" out of range for array `set`");
                            return Err(Error { message: m });
                        }
                        memory.array_set(args[0], i as usize, args[2]);
                        proof {
                            crate::memory::lemma_changed_handles(m0, memory@, m0.obj(args@[0]), memory@.objs[m0.obj(args@[0])]);
                            lemma_nothing_fresh(m0, memory@, memory.globals_handle());
                        }
                        Ok(BuiltinReturn::Empty)
                    },
                    _ => Err(err("Index in array `set` not an integer")),
                }
            } else {
                Err(err("`set` on array expects exactly 3 arguments"))
            }
        },
        Value::Dict => {
            if args.len() == 3 {
                match memory.value(args[1]) {
                    Value::Primitive(p) => {
                        let ghost k = p.model();
                        memory.dict_set(args[0], p, args[2]);
                        proof {
                            crate::memory::lemma_changed_handles(m0, memory@, m0.obj(args@[0]),
                                Obj::Dict(crate::memory::dict_insert(old(memory).entries(args@[0]), k, m0.obj(args@[2]))));
                            lemma_nothing_fresh(m0, memory@, memory.globals_handle());
                        }
                        Ok(BuiltinReturn::Empty)
                    },
                    _ => Err(err("Index in dict `set` not a primitive")),
                }
            } else {
                Err(err("`set` on dict expects exactly 3 arguments"))
            }
        },
        v => Err(err_value("First argument to `set` unrecognized: ", &v)),
    }
}

/// What `b_keys` gives, and does to the heap.
pub open spec fn keys_post(mem0: Memory, mem1: Memory, args: Seq<MemHandle>, r: Result<BuiltinReturn, Error>) -> bool {
    &&& builtin_keeps(&mem0, &mem1)
    &&& objects_kept(mem0@, mem1@)
    &&& returns_fresh(mem0@, mem1@, mem0.globals_handle(), r)
    &&& computes(&mem1, r, args.len() == 0 || (args.len() == 1 && mem0@.cell(args[0]) is Dict))
    &&& (r matches Ok(BuiltinReturn::Value(h)) ==> ({
            let d = if args.len() == 0 { mem0.entries(mem0.globals_handle()) } else { mem0.entries(args[0]) };
            &&& mem1@.cell(h) is Array
            &&& mem1@.cell(h)->Array_0.len() == d.len()
            &&& forall|i: int| 0 <= i < d.len() ==> mem1@.objs[#[trigger] mem1@.cell(h)->Array_0[i]]
                == Obj::Prim(d[i].0)
        }))
    &&& (r is Ok ==> r->Ok_0 is Value)
}

/// `keys`: a new array of new objects for the keys of the dictionary (of
/// the globals, with no argument), in order.
pub fn b_keys(memory: &mut Memory, args: &[MemHandle]) -> (r: Result<BuiltinReturn, Error>)
    requires
        old(memory).wf(),
        forall|i: int| 0 <= i < args@.len() ==> old(memory)@.live(#[trigger] args@[i]),
    ensures
        keys_post(*old(memory), *final(memory), args@, r),
{
    let ghost m0 = memory@;
    let ghost g = memory.globals_handle();
    proof {
        lemma_scratch_start(memory);
        memory.lemma_globals();
    }
    let mut tmp: Vec<MemHandle> = Vec::new();
    if args.len() > 1 {
        return s_finish(memory, &tmp, Err(err("Too many args to `del`")), Ghost(m0));
    }
    let dict = if args.len() == 1 {
        match memory.value(args[0]) {
            Value::Dict => args[0],
            v => return s_finish(memory, &tmp, Err(err_value("First argument to `keys` unrecognized: ", &v)), Ghost(m0)),
        }
    } else {
        memory.globals()
    };
    let ghost d = old(memory).entries(dict);
    proof {
        old(memory).lemma_ok();
    }
    let keys = memory.dict_keys(dict);
    let mut hs: Vec<MemHandle> = Vec::new();
    let mut i: usize = 0;
    while i < keys.len()
        invariant
            memory.wf(),
            memory.globals_handle() == g,
            m0 == old(memory)@,
            g == old(memory).globals_handle(),
            scratch_ok(m0, memory@, g, tmp@ + hs@),
            tmp@.len() == 0,
            i <= keys@.len(),
            keys@.len() == d.len(),
            forall|k: int| 0 <= k < keys@.len() ==> #[trigger] keys@[k].model() == d[k].0,
            hs@.len() == i,
            forall|k: int| 0 <= k < i ==> memory@.cell(#[trigger] hs@[k]) == Obj::Prim(d[k].0),
            m0.ok(),
            objects_kept(m0, memory@),
            memory@.next >= m0.next,
        decreases keys@.len() - i,
    {
        let ghost m1 = memory@;
        let ghost t1 = tmp@ + hs@;
        let h = match s_make(memory, Value::Primitive(keys[i].duplicate()), Ghost(m0), Ghost(tmp@ + hs@)) {
            Ok(h) => h,
            Err(e) => {
                proof {
                    assert(tmp@ + hs@ =~= hs@);
                }
                let r = s_finish(memory, &hs, Err(e), Ghost(m0));
                proof {
                    assert(hs@ + result_handles(r) =~= hs@);
                }
                return r;
            },
        };
        proof {
            assert forall|k: int| 0 <= k < i implies memory@.cell(#[trigger] hs@[k]) == Obj::Prim(d[k].0) by {
                assert(t1[k] == hs@[k]);
                lemma_scratch_live(m0, m1, g, t1, k);
                crate::memory::lemma_kept_live(m1, memory@, hs@[k]);
            }
            assert((tmp@ + hs@).push(h) =~= tmp@ + hs@.push(h));
        }
        hs.push(h);
        i = i + 1;
    }
    proof {
        assert forall|k: int| 0 <= k < hs@.len() implies memory@.live(#[trigger] hs@[k]) by {
            assert((tmp@ + hs@)[k] == hs@[k]);
            lemma_scratch_live(m0, memory@, g, tmp@ + hs@, k);
        }
    }
    let ghost m2 = memory@;
    let res = match s_array_of(memory, position_unknown_exec(), hs.as_slice(), Ghost(m0), Ghost(tmp@ + hs@)) {
        Ok(a) => Ok(BuiltinReturn::Value(a)),
        Err(e) => Err(e),
    };
    proof {
        assert(tmp@ + hs@ =~= hs@);
        assert(hs@ + result_handles(res) =~= (match res { Ok(BuiltinReturn::Value(h)) => (tmp@ + hs@).push(h), _ => tmp@ + hs@ }));
    }
    let ghost m3 = memory@;
    let r = s_finish(memory, &hs, res, Ghost(m0));
    proof {
        match r {
            Ok(BuiltinReturn::Value(a)) => {
                assert(result_handles(r)[0] == a);
                assert(memory@.cell(a) == m3.cell(a));
                let es = m3.cell(a)->Array_0;
                assert forall|k: int| 0 <= k < d.len() implies memory@.objs[#[trigger] memory@.cell(a)->Array_0[k]] == Obj::Prim(d[k].0) by {
                    assert(es[k] == m2.obj(hs@[k]));
                    assert(m2.cell(hs@[k]) == Obj::Prim(d[k].0));
                    lemma_scratch_live(m0, m2, g, tmp@ + hs@, k);
                    assert((tmp@ + hs@)[k] == hs@[k]);
                    crate::memory::lemma_kept_live(m2, m3, hs@[k]);
                    assert(m3.objs[m2.obj(hs@[k])] == m2.objs[m2.obj(hs@[k])]);
                }
            },
            _ => {},
        }
    }
    r
}

/// What `b_apply` gives, and does to the heap.
pub open spec fn apply_post(mem0: Memory, mem1: Memory, args: Seq<MemHandle>, r: Result<BuiltinReturn, Error>) -> bool {
    &&& builtin_keeps(&mem0, &mem1)
    &&& objects_kept(mem0@, mem1@)
    &&& returns_fresh(mem0@, mem1@, mem0.globals_handle(), r)
    &&& (r is Ok <==> args.len() == 2 && mem0@.cell(args[1]) is Array)
    &&& (r matches Ok(BuiltinReturn::Push(hs)) ==> objs_of(mem1@, hs@)
            == seq![mem0@.obj(args[0])] + mem0.elems(args[1]))
    &&& (r is Ok ==> r->Ok_0 is Push)
}

/// `apply`: executes the function with the elements of the array as its
/// arguments.
pub fn b_apply(memory: &mut Memory, args: &[MemHandle]) -> (r: Result<BuiltinReturn, Error>)
    requires
        old(memory).wf(),
        forall|i: int| 0 <= i < args@.len() ==> old(memory)@.live(#[trigger] args@[i]),
    ensures
        apply_post(*old(memory), *final(memory), args@, r),
{
    let ghost m0 = memory@;
    let ghost g = memory.globals_handle();
    proof {
        lemma_scratch_start(memory);
    }
    let tmp: Vec<MemHandle> = Vec::new();
    if args.len() != 2 {
        return s_finish(memory, &tmp, Err(err("`apply` expects exactly 2 arguments")), Ghost(m0));
    }
    match memory.value(args[1]) {
        Value::Array => {},
        v => return s_finish(memory, &tmp, Err(err_value("Second argument to `apply` unrecognized: ", &v)), Ghost(m0)),
    }
    let ghost es = old(memory).elems(args@[1]);
    proof {
        old(memory).lemma_ok();
    }
    let n = memory.array_len(args[1]);
    let f = s_copy(memory, args[0], Ghost(m0), Ghost(tmp@));
    let mut hs: Vec<MemHandle> = Vec::new();
    hs.push(f);
    proof {
        assert(tmp@.push(f) =~= tmp@ + hs@);
    }
    let mut i: usize = 0;
    while i < n
        invariant
            memory.wf(),
            memory.globals_handle() == g,
            m0 == old(memory)@,
            g == old(memory).globals_handle(),
            args@.len() == 2,
            scratch_ok(m0, memory@, g, tmp@ + hs@),
            tmp@.len() == 0,
            n == es.len(),
            i <= n,
            hs@.len() == i + 1,
            memory@.live(args@[1]) && memory@.cell(args@[1]) == m0.cell(args@[1]),
            m0.cell(args@[1]) is Array,
            es == m0.cell(args@[1])->Array_0,
            objs_of(memory@, hs@) == seq![m0.obj(args@[0])] + es.take(i as int),
            m0.ok(),
            objects_kept(m0, memory@),
            memory@.next >= m0.next,
        decreases n - i,
    {
        let ghost m1 = memory@;
        let e = match s_array_get(memory, args[1], i, Ghost(m0), Ghost(tmp@ + hs@)) {
            Some(e) => e,
            None => {
                proof {
                    assert(false);
                }
                return s_finish(memory, &hs, Err(crate::eval::internal_error()), Ghost(m0));
            },
        };
        proof {
            assert((tmp@ + hs@).push(e) =~= tmp@ + hs@.push(e));
            assert forall|k: int| 0 <= k < hs@.len() implies memory@.obj(#[trigger] hs@[k]) == m1.obj(hs@[k]) by {
                assert((tmp@ + hs@)[k] == hs@[k]);
                lemma_scratch_live(m0, m1, g, tmp@ + hs@, k);
            }
            assert(objs_of(memory@, hs@.push(e)) =~= objs_of(m1, hs@).push(es[i as int]));
            assert(es.take(i + 1) =~= es.take(i as int).push(es[i as int]));
            assert(memory@.cell(args@[1]) == m1.cell(args@[1]));
        }
        hs.push(e);
        i = i + 1;
    }
    proof {
        assert(es.take(n as int) =~= es);
        assert(tmp@ + hs@ =~= hs@);
    }
    let ghost m2 = memory@;
    let res = Ok(BuiltinReturn::Push(hs));
    let empty: Vec<MemHandle> = Vec::new();
    proof {
        assert(empty@ + result_handles(res) =~= tmp@ + hs@);
    }
    let r = s_finish(memory, &empty, res, Ghost(m0));
    proof {
        match r {
            Ok(BuiltinReturn::Push(ref v)) => {
                assert forall|k: int| 0 <= k < v@.len() implies memory@.obj(#[trigger] v@[k]) == m2.obj(v@[k]) by {
                    assert(result_handles(r)[k] == v@[k]);
                }
                assert(objs_of(memory@, v@) =~= objs_of(m2, v@));
            },
            _ => {},
        }
    }
    r
}

/// What `b_if` gives, and does to the heap.
pub open spec fn if_post(mem0: Memory, mem1: Memory, args: Seq<MemHandle>, r: Result<BuiltinReturn, Error>) -> bool {
    &&& builtin_keeps(&mem0, &mem1)
    &&& objects_kept(mem0@, mem1@)
    &&& returns_fresh(mem0@, mem1@, mem0.globals_handle(), r)
    &&& (({
            let m = mem0@;
            let n = args.len();
            let cond = truthy(m.value(args[0]));
            let pick: int = if cond { 1 } else if n > 3 { 3 } else if n > 2 { 2 } else { -1 };
            &&& r is Ok <==> 2 <= n <= 4 && (cond || n <= 3 || m.value(args[2]) == ValueModel::Primitive(PrimModel::Nil))
            &&& r is Ok && pick < 0 ==> r == Ok::<BuiltinReturn, Error>(BuiltinReturn::Empty)
            &&& r is Ok && pick >= 0 ==> (r matches Ok(BuiltinReturn::Push(hs)) && hs@.len() == 1
                && mem1@.obj(hs@[0]) == m.obj(args[pick]))
        }))
}

/// `if`: executes the second argument where the first is true; otherwise
/// the third (or, after an `else`, the fourth), if any.
pub fn b_if(memory: &mut Memory, args: &[MemHandle]) -> (r: Result<BuiltinReturn, Error>)
    requires
        old(memory).wf(),
        forall|i: int| 0 <= i < args@.len() ==> old(memory)@.live(#[trigger] args@[i]),
    ensures
        if_post(*old(memory), *final(memory), args@, r),
{
    let ghost m0 = memory@;
    proof {
        lemma_scratch_start(memory);
    }
    let tmp: Vec<MemHandle> = Vec::new();
    let n = args.len();
    if n < 2 {
        return s_finish(memory, &tmp, Err(err("Not enough arguments to `if`")), Ghost(m0));
    }
    if n > 4 {
        return s_finish(memory, &tmp, Err(err("Too many arguments to `if`")), Ghost(m0));
    }
    let v0 = memory.value(args[0]);
    let cond = is_truthy(&v0);
    let pick: usize = if cond {
        1
    } else if n > 3 {
        match memory.value(args[2]) {
            Value::Primitive(Primitive::Nil) => 3,
            v => return s_finish(memory, &tmp, Err(err_value("Expected `else` as third argument to `if`, got: ", &v)), Ghost(m0)),
        }
    } else if n > 2 {
        2
    } else {
        let r = s_finish(memory, &tmp, Ok(BuiltinReturn::Empty), Ghost(m0));
        proof {
            assert(tmp@ + result_handles(Ok(BuiltinReturn::Empty)) =~= tmp@);
        }
        return r;
    };
    let c = s_copy(memory, args[pick], Ghost(m0), Ghost(tmp@));
    let mut hs: Vec<MemHandle> = Vec::new();
    hs.push(c);
    let ghost m1 = memory@;
    let res = Ok(BuiltinReturn::Push(hs));
    proof {
        assert(tmp@ + result_handles(res) =~= tmp@.push(c));
    }
    let r = s_finish(memory, &tmp, res, Ghost(m0));
    proof {
        assert(result_handles(r)[0] == c);
    }
    r
}

/// What `b_get_position` gives, and does to the heap.
pub open spec fn get_position_post(mem0: Memory, mem1: Memory, args: Seq<MemHandle>, r: Result<BuiltinReturn, Error>) -> bool {
    &&& builtin_keeps(&mem0, &mem1)
    &&& objects_kept(mem0@, mem1@)
    &&& returns_fresh(mem0@, mem1@, mem0.globals_handle(), r)
    &&& computes(&mem1, r, args.len() == 1 && mem0@.cell(args[0]) is Array)
    &&& (r matches Ok(BuiltinReturn::Value(h)) ==> ({
            let p = mem0.pos(args[0]);
            let es = mem1@.cell(h)->Array_0;
            &&& mem1@.cell(h) is Array
            &&& es.len() == 3
            &&& mem1@.objs[es[0]] == Obj::Prim(PrimModel::Int(p.source as i64))
            &&& mem1@.objs[es[1]] == Obj::Prim(PrimModel::Int(p.line as i64))
            &&& mem1@.objs[es[2]] == Obj::Prim(PrimModel::Int(p.column as i64))
        }))
    &&& (r is Ok ==> r->Ok_0 is Value)
}

/// `get-position`: a new array of the source, line and column where the
/// array was read.
pub fn b_get_position(memory: &mut Memory, args: &[MemHandle]) -> (r: Result<BuiltinReturn, Error>)
    requires
        old(memory).wf(),
        forall|i: int| 0 <= i < args@.len() ==> old(memory)@.live(#[trigger] args@[i]),
    ensures
        get_position_post(*old(memory), *final(memory), args@, r),
{
    let ghost m0 = memory@;
    let ghost g = memory.globals_handle();
    proof {
        lemma_scratch_start(memory);
        memory.lemma_globals();
    }
    let mut tmp: Vec<MemHandle> = Vec::new();
    if args.len() != 1 {
        return s_finish(memory, &tmp, Err(err("`get-position` expects exactly one argument")), Ghost(m0));
    }
    match memory.value(args[0]) {
        Value::Array => {},
        v => return s_finish(memory, &tmp, Err(err_value("`get-position` expects array, got: ", &v)), Ghost(m0)),
    }
    let p = memory.array_get_position(args[0]);
    proof {
        old(memory).lemma_ok();
    }
    let parts = [p.source as i64, p.line as i64, p.column as i64];
    let mut i: usize = 0;
    while i < 3
        invariant
            memory.wf(),
            memory.globals_handle() == g,
            m0 == old(memory)@,
            g == old(memory).globals_handle(),
            scratch_ok(m0, memory@, g, tmp@),
            i <= 3,
            tmp@.len() == i,
            parts@ == seq![p.source as i64, p.line as i64, p.column as i64],
            forall|k: int| 0 <= k < i ==> memory@.cell(#[trigger] tmp@[k]) == Obj::Prim(PrimModel::Int(parts@[k])),
            m0.ok(),
            objects_kept(m0, memory@),
            memory@.next >= m0.next,
        decreases 3 - i,
    {
        let ghost m1 = memory@;
        let h = match s_make(memory, Value::Primitive(Primitive::Int(parts[i])), Ghost(m0), Ghost(tmp@)) {
            Ok(h) => h,
            Err(e) => return s_finish(memory, &tmp, Err(e), Ghost(m0)),
        };
        proof {
            assert forall|k: int| 0 <= k < i implies memory@.cell(#[trigger] tmp@[k]) == Obj::Prim(PrimModel::Int(parts@[k])) by {
                lemma_scratch_live(m0, m1, g, tmp@, k);
                crate::memory::lemma_kept_live(m1, memory@, tmp@[k]);
            }
        }
        tmp.push(h);
        i = i + 1;
    }
    proof {
        assert forall|k: int| 0 <= k < tmp@.len() implies memory@.live(#[trigger] tmp@[k]) by {
            lemma_scratch_live(m0, memory@, g, tmp@, k);
        }
    }
    let ghost m2 = memory@;
    let res = match s_array_of(memory, position_unknown_exec(), tmp.as_slice(), Ghost(m0), Ghost(tmp@)) {
        Ok(a) => Ok(BuiltinReturn::Value(a)),
        Err(e) => Err(e),
    };
    proof {
        assert(tmp@ + result_handles(res) =~= (match res { Ok(BuiltinReturn::Value(h)) => tmp@.push(h), _ => tmp@ }));
    }
    let ghost m3 = memory@;
    let r = s_finish(memory, &tmp, res, Ghost(m0));
    proof {
        match r {
            Ok(BuiltinReturn::Value(a)) => {
                assert(result_handles(r)[0] == a);
                assert forall|k: int| 0 <= k < 3 implies memory@.objs[#[trigger] memory@.cell(a)->Array_0[k]] == Obj::Prim(PrimModel::Int(parts@[k])) by {
                    lemma_scratch_live(m0, m2, g, tmp@, k);
                    crate::memory::lemma_kept_live(m2, m3, tmp@[k]);
                    assert(m3.objs[m2.obj(tmp@[k])] == m2.objs[m2.obj(tmp@[k])]);
                }
            },
            _ => {},
        }
    }
    r
}

/// What `b_get_position_source` gives, and does to the heap.
pub open spec fn get_position_source_post(mem0: Memory, mem1: Memory, tags: Seq<String>, args: Seq<MemHandle>, r: Result<BuiltinReturn, Error>) -> bool {
    &&& builtin_keeps(&mem0, &mem1)
    &&& objects_kept(mem0@, mem1@)
    &&& returns_fresh(mem0@, mem1@, mem0.globals_handle(), r)
    &&& (({
            let v = mem0@.value(args[0]);
            &&& computes(&mem1, r, args.len() == 1 && v is Primitive && v->Primitive_0 is Int)
            &&& r is Ok ==> (if 0 <= v->Primitive_0->Int_0 < tags.len() {
                gives_prim(mem1@, r, PrimModel::Str(tags[v->Primitive_0->Int_0 as int]@))
            } else {
                gives_prim(mem1@, r, PrimModel::Nil)
            })
        }))
}

/// `get-position-source`: the name of the source with the index, nil for
/// none.
pub fn b_get_position_source(memory: &mut Memory, tags: &Vec<String>, args: &[MemHandle]) -> (r: Result<BuiltinReturn, Error>)
    requires
        old(memory).wf(),
        forall|i: int| 0 <= i < args@.len() ==> old(memory)@.live(#[trigger] args@[i]),
    ensures
        get_position_source_post(*old(memory), *final(memory), tags@, args@, r),
{
    proof {
        old(memory).lemma_ok();
        crate::eval::lemma_handles_kept_refl(old(memory)@);
    }
    if args.len() != 1 {
        return Err(err("`get-position-source` expects exactly one argument"));
    }
    match memory.value(args[0]) {
        Value::Primitive(Primitive::Int(i)) => {
            if i >= 0 && (i as u64) < (tags.len() as u64) {
                give(memory, Value::Primitive(Primitive::String(tags[i as usize].clone())))
            } else {
                give(memory, Value::Primitive(Primitive::Nil))
            }
        },
        v => Err(err_value("`get-position-source` expects integer, got: ", &v)),
    }
}

/// The values of the objects `es`.
pub open spec fn elem_values(m: MemoryModel, es: Seq<nat>) -> Seq<ValueModel> {
    Seq::new(es.len(), |i: int| obj_value(m.objs[es[i]]))
}

/// Every value is a string.
pub open spec fn all_strings(vs: Seq<ValueModel>) -> bool {
    forall|i: int| 0 <= i < vs.len() ==> (#[trigger] vs[i]) is Primitive && vs[i]->Primitive_0 is Str
}

/// The dictionary `d` with the name `names[i]` bound to the object `os[i]`,
/// for each `i < n` in turn.
pub open spec fn bind_each(d: Seq<(PrimModel, nat)>, names: Seq<ValueModel>, os: Seq<nat>, n: nat) -> Seq<(PrimModel, nat)>
    decreases n,
{
    if n == 0 {
        d
    } else {
        crate::memory::dict_insert(bind_each(d, names, os, (n - 1) as nat), names[n - 1]->Primitive_0, os[n - 1])
    }
}

/// What `inset` binds the names to: the object at the same index of `vs`,
/// and past its end a nil of `m`.
pub open spec fn inset_objs(m: MemoryModel, vs: Seq<nat>, os: Seq<nat>) -> bool {
    forall|i: int| 0 <= i < os.len() ==> if i < vs.len() {
        #[trigger] os[i] == vs[i]
    } else {
        m.objs.contains_key(os[i]) && m.objs[os[i]] == Obj::Prim(PrimModel::Nil)
    }
}

/// `bind_each` reads only the first `n` objects.
proof fn lemma_bind_each_prefix(d: Seq<(PrimModel, nat)>, names: Seq<ValueModel>, os: Seq<nat>, os2: Seq<nat>, n: nat)
    requires
        n <= os.len(),
        n <= os2.len(),
        forall|i: int| 0 <= i < n ==> os[i] == os2[i],
    ensures
        bind_each(d, names, os, n) == bind_each(d, names, os2, n),
    decreases n,
{
    if n > 0 {
        lemma_bind_each_prefix(d, names, os, os2, (n - 1) as nat);
    }
}

/// The nils made for the objects `os[i]` where `nil_at(i)` are held by the
/// temporaries `t[ks[i]]`.
spec fn nils_held(m: MemoryModel, t: Seq<MemHandle>, ks: Seq<int>, os: Seq<nat>, nil_at: spec_fn(int) -> bool) -> bool {
    &&& ks.len() == os.len()
    &&& forall|i: int| 0 <= i < os.len() && nil_at(i) ==> 0 <= #[trigger] ks[i] < t.len() && m.live(t[ks[i]])
        && m.obj(t[ks[i]]) == os[i] && m.objs[os[i]] == Obj::Prim(PrimModel::Nil)
}

/// The held nils survive a step that keeps everything but an object that
/// is no primitive.
proof fn lemma_nils_kept(m1: MemoryModel, m2: MemoryModel, t: Seq<MemHandle>, t2: Seq<MemHandle>, ks: Seq<int>, os: Seq<nat>,
    nil_at: spec_fn(int) -> bool, x: nat)
    requires
        nils_held(m1, t, ks, os, nil_at),
        m1.kept_except(m2, x),
        m1.objs.contains_key(x),
        !(m1.objs[x] is Prim),
        t.len() <= t2.len(),
        forall|k: int| 0 <= k < t.len() ==> t2[k] == t[k],
    ensures
        nils_held(m2, t2, ks, os, nil_at),
{
    assert forall|i: int| 0 <= i < os.len() && nil_at(i) implies 0 <= #[trigger] ks[i] < t2.len() && m2.live(t2[ks[i]])
        && m2.obj(t2[ks[i]]) == os[i] && m2.objs[os[i]] == Obj::Prim(PrimModel::Nil) by {
        let h = t[ks[i]];
        assert(t2[ks[i]] == h);
        assert(m1.handles[h.idx as int] is Some);
    }
}

/// An object of `m0` that both heaps hold, other than `x`, has the same value.
proof fn lemma_same_value(m0: MemoryModel, m: MemoryModel, x: nat, o: nat)
    requires
        m0.kept_except(m, x),
        m0.objs.contains_key(o),
        m.objs.contains_key(o),
        o != x,
    ensures
        m.objs[o] == m0.objs[o],
{
}

/// What `b_inset` gives, and does to the heap.
pub open spec fn inset_post(mem0: Memory, mem1: Memory, args: Seq<MemHandle>, r: Result<BuiltinReturn, Error>) -> bool {
    &&& builtin_keeps(&mem0, &mem1)
    &&& returns_fresh(mem0@, mem1@, mem0.globals_handle(), r)
    &&& (({
            let m = mem0@;
            let g = mem0.globals_handle();
            let arrays = args.len() == 2 && m.cell(args[0]) is Array && m.cell(args[1]) is Array;
            let names = elem_values(m, m.cell(args[1])->Array_0);
            &&& computes(&mem1, r, arrays && all_strings(names))
            &&& r is Ok ==> r == Ok::<BuiltinReturn, Error>(BuiltinReturn::Empty)
                && m.kept_except(mem1@, m.obj(g))
                && exists|os: Seq<nat>| #[trigger] inset_objs(mem1@, m.cell(args[0])->Array_0, os)
                    && os.len() == names.len()
                    && mem1@.cell(g) == Obj::Dict(bind_each(mem0.entries(g), names, os, os.len()))
        }))
}

/// `inset`: for each name (a string) in the second array, binds it in the
/// globals to the first array's element at the same index (nil where it
/// has none).
pub fn b_inset(memory: &mut Memory, args: &[MemHandle]) -> (r: Result<BuiltinReturn, Error>)
    requires
        old(memory).wf(),
        forall|i: int| 0 <= i < args@.len() ==> old(memory)@.live(#[trigger] args@[i]),
    ensures
        inset_post(*old(memory), *final(memory), args@, r),
{
    let ghost m0 = memory@;
    let ghost g = memory.globals_handle();
    proof {
        lemma_scratch_start(memory);
        memory.lemma_globals();
        memory.lemma_ok();
        memory.lemma_closed();
    }
    let mut tmp: Vec<MemHandle> = Vec::new();
    if args.len() != 2 {
        return s_finish(memory, &tmp, Err(err("Unrecognized arguments to `inset`")), Ghost(m0));
    }
    match (memory.value(args[0]), memory.value(args[1])) {
        (Value::Array, Value::Array) => {},
        _ => return s_finish(memory, &tmp, Err(err("Unrecognized arguments to `inset`")), Ghost(m0)),
    }
    let ghost og = m0.obj(g);
    let ghost vs0 = m0.cell(args@[0])->Array_0;
    let ghost es1 = m0.cell(args@[1])->Array_0;
    let ghost names = elem_values(m0, es1);
    let ghost d0 = m0.cell(g)->Dict_0;
    let ghost nil_at = |i: int| i >= vs0.len();
    let gl = memory.globals();
    let n = memory.array_len(args[1]);
    let mut idx: usize = 0;
    let ghost mut os: Seq<nat> = Seq::empty();
    let ghost mut ks: Seq<int> = Seq::empty();
    proof {
        lemma_kept_except_of_kept(m0, m0, og);
    }
    while idx < n
        invariant
            memory.wf(),
            memory.globals_handle() == g,
            gl == g,
            m0 == old(memory)@,
            m0.ok(),
            m0.closed(),
            g == old(memory).globals_handle(),
            og == m0.obj(g),
            m0.live(g),
            m0.cell(g) is Dict,
            d0 == m0.cell(g)->Dict_0,
            args@.len() == 2,
            forall|i: int| 0 <= i < args@.len() ==> m0.live(#[trigger] args@[i]),
            m0.cell(args@[0]) is Array,
            m0.cell(args@[1]) is Array,
            vs0 == m0.cell(args@[0])->Array_0,
            es1 == m0.cell(args@[1])->Array_0,
            names == elem_values(m0, es1),
            nil_at == (|i: int| i >= vs0.len()),
            n == es1.len(),
            idx <= n,
            scratch_ok(m0, memory@, g, tmp@),
            m0.kept_except(memory@, og),
            os.len() == idx,
            forall|i: int| 0 <= i < idx ==> (#[trigger] names[i]) is Primitive && names[i]->Primitive_0 is Str,
            forall|i: int| 0 <= i < idx && i < vs0.len() ==> #[trigger] os[i] == vs0[i],
            nils_held(memory@, tmp@, ks, os, nil_at),
            memory@.cell(g) == Obj::Dict(bind_each(d0, names, os, idx as nat)),
        decreases n - idx,
    {
        let ghost m1 = memory@;
        let ghost t1 = tmp@;
        proof {
            lemma_scratch_old(m0, memory@, g, tmp@, args@[1]);
            lemma_scratch_old(m0, memory@, g, tmp@, args@[0]);
            memory.lemma_globals();
            memory.lemma_ok();
            lemma_same_value(m0, memory@, og, m0.obj(args@[1]));
            lemma_same_value(m0, memory@, og, m0.obj(args@[0]));
        }
        match memory.value(args[1]) {
            Value::Array => {},
            _ => return s_finish(memory, &tmp, Err(crate::eval::internal_error()), Ghost(m0)),
        }
        let name = match s_array_get(memory, args[1], idx, Ghost(m0), Ghost(tmp@)) {
            Some(h) => h,
            None => return s_finish(memory, &tmp, Err(crate::eval::internal_error()), Ghost(m0)),
        };
        tmp.push(name);
        let ghost m2 = memory@;
        proof {
            lemma_scratch_live(m0, memory@, g, tmp@, tmp@.len() - 1);
            lemma_kept_except_of_kept(m1, m2, og);
            lemma_kept_except_trans(m0, m1, m2, og);
            lemma_nils_kept(m1, m2, t1, tmp@, ks, os, nil_at, og);
            assert(m0.objs.contains_key(es1[idx as int]));
            if es1[idx as int] != og {
                lemma_same_value(m0, m2, og, es1[idx as int]);
            }
            assert(names[idx as int] == obj_value(m0.objs[es1[idx as int]]));
        }
        let key = match memory.value(name) {
            Value::Primitive(Primitive::String(s)) => Primitive::String(s),
            _ => {
                let mut m = "Argument 1 element ".to_owned();
                m.append(usize_to_string(idx).as_str());
                m.append(" to `inset` not recognized (wanted string)");
                return s_finish(memory, &tmp, Err(Error { message: m }), Ghost(m0));
            },
        };
        proof {
            lemma_scratch_old(m0, memory@, g, tmp@, args@[0]);
            assert(key.model() == names[idx as int]->Primitive_0);
        }
        match memory.value(args[0]) {
            Value::Array => {},
            _ => return s_finish(memory, &tmp, Err(crate::eval::internal_error()), Ghost(m0)),
        }
        let ghost t2 = tmp@;
        let v = match s_array_get(memory, args[0], idx, Ghost(m0), Ghost(tmp@)) {
            Some(h) => h,
            None => match s_make(memory, Value::Primitive(Primitive::Nil), Ghost(m0), Ghost(tmp@)) {
                Ok(h) => h,
                Err(e) => return s_finish(memory, &tmp, Err(e), Ghost(m0)),
            },
        };
        tmp.push(v);
        let ghost m3 = memory@;
        let ghost o = m3.obj(v);
        proof {
            lemma_scratch_live(m0, memory@, g, tmp@, tmp@.len() - 1);
            lemma_kept_except_of_kept(m2, m3, og);
            lemma_kept_except_trans(m0, m2, m3, og);
            lemma_nils_kept(m2, m3, t2, tmp@, ks, os, nil_at, og);
            memory.lemma_globals();
            memory.lemma_ok();
            lemma_scratch_old(m0, m3, g, tmp@, g);
        }
        s_dict_set(memory, gl, key, v, Ghost(m0), Ghost(tmp@));
        proof {
            let m4 = memory@;
            let os2 = os.push(o);
            lemma_kept_except_of_changed(m3, m4, og, m4.objs[og]);
            lemma_kept_except_trans(m0, m3, m4, og);
            let ks2 = ks.push(tmp@.len() - 1);
            assert(nils_held(m3, tmp@, ks2, os2, nil_at)) by {
                assert forall|i: int| vs0.len() <= i < os2.len() implies 0 <= #[trigger] ks2[i] < tmp@.len() && m3.live(tmp@[ks2[i]])
                    && m3.obj(tmp@[ks2[i]]) == os2[i] && m3.objs[os2[i]] == Obj::Prim(PrimModel::Nil) by {
                    if i < os.len() {
                        assert(ks2[i] == ks[i]);
                        assert(os2[i] == os[i]);
                    } else {
                        assert(idx >= vs0.len());
                        assert(value_obj(m3, o, ValueModel::Primitive(PrimModel::Nil)));
                    }
                }
            }
            lemma_nils_kept(m3, m4, tmp@, tmp@, ks2, os2, nil_at, og);
            lemma_bind_each_prefix(d0, names, os, os2, idx as nat);
            os = os2;
            ks = ks2;
            assert(m4.cell(g) == Obj::Dict(bind_each(d0, names, os, (idx + 1) as nat)));
        }
        idx = idx + 1;
    }
    let ghost m5 = memory@;
    proof {
        assert(tmp@ + result_handles(Ok(BuiltinReturn::Empty)) =~= tmp@);
    }
    let r = s_finish(memory, &tmp, Ok(BuiltinReturn::Empty), Ghost(m0));
    proof {
        assert(all_strings(names));
        assert(inset_objs(memory@, vs0, os)) by {
            assert forall|i: int| 0 <= i < os.len() implies if i < vs0.len() {
                #[trigger] os[i] == vs0[i]
            } else {
                memory@.objs.contains_key(os[i]) && memory@.objs[os[i]] == Obj::Prim(PrimModel::Nil)
            } by {
                if i >= vs0.len() {
                    assert(m5.live(tmp@[ks[i]]));
                }
            }
        }
        lemma_scratch_old(m0, memory@, g, Seq::empty(), g);
    }
    r
}

/// `vs` with its first elements replaced by `os`, and grown to hold all of
/// them.
pub open spec fn overlay(vs: Seq<nat>, os: Seq<nat>) -> Seq<nat> {
    Seq::new(if os.len() > vs.len() { os.len() } else { vs.len() }, |i: int| if i < os.len() { os[i] } else { vs[i] })
}

/// What `outset` reads for each name: its binding in `d`, and where it has
/// none a nil of `m`.
pub open spec fn outset_objs(m: MemoryModel, d: Seq<(PrimModel, nat)>, names: Seq<ValueModel>, os: Seq<nat>) -> bool {
    forall|i: int| 0 <= i < os.len() ==> if crate::memory::dict_lookup(d, names[i]->Primitive_0) is Some {
        #[trigger] os[i] == crate::memory::dict_lookup(d, names[i]->Primitive_0).unwrap()
    } else {
        m.objs.contains_key(os[i]) && m.objs[os[i]] == Obj::Prim(PrimModel::Nil)
    }
}

/// What `b_outset` gives, and does to the heap.
pub open spec fn outset_post(mem0: Memory, mem1: Memory, args: Seq<MemHandle>, r: Result<BuiltinReturn, Error>) -> bool {
    &&& builtin_keeps(&mem0, &mem1)
    &&& returns_fresh(mem0@, mem1@, mem0.globals_handle(), r)
    &&& (({
            let m = mem0@;
            let g = mem0.globals_handle();
            let arrays = args.len() == 2 && m.cell(args[0]) is Array && m.cell(args[1]) is Array;
            let names = elem_values(m, m.cell(args[1])->Array_0);
            &&& computes(&mem1, r, arrays && all_strings(names))
            &&& r is Ok ==> r == Ok::<BuiltinReturn, Error>(BuiltinReturn::Empty)
                && m.kept_except(mem1@, m.obj(args[0]))
                && exists|os: Seq<nat>| #[trigger] outset_objs(mem1@, mem0.entries(g), names, os)
                    && os.len() == names.len()
                    && mem1@.cell(args[0]) == Obj::Array(overlay(mem0.elems(args[0]), os), mem0.pos(args[0]))
        }))
}

/// `outset`: for each name (a string) in the second array, puts what the
/// globals bind it to (nil for nothing) at the same index of the first
/// array, appending past its end.
pub fn b_outset(memory: &mut Memory, args: &[MemHandle]) -> (r: Result<BuiltinReturn, Error>)
    requires
        old(memory).wf(),
        forall|i: int| 0 <= i < args@.len() ==> old(memory)@.live(#[trigger] args@[i]),
    ensures
        outset_post(*old(memory), *final(memory), args@, r),
{
    let ghost m0 = memory@;
    let ghost g = memory.globals_handle();
    proof {
        lemma_scratch_start(memory);
        memory.lemma_globals();
        memory.lemma_ok();
        memory.lemma_closed();
    }
    let mut tmp: Vec<MemHandle> = Vec::new();
    if args.len() != 2 {
        return s_finish(memory, &tmp, Err(err("Unrecognized arguments to `inset`")), Ghost(m0));
    }
    match (memory.value(args[0]), memory.value(args[1])) {
        (Value::Array, Value::Array) => {},
        _ => return s_finish(memory, &tmp, Err(err("Unrecognized arguments to `inset`")), Ghost(m0)),
    }
    let ghost og = m0.obj(g);
    let ghost o0 = m0.obj(args@[0]);
    let ghost o1 = m0.obj(args@[1]);
    let ghost vs0 = m0.cell(args@[0])->Array_0;
    let ghost pos0 = m0.cell(args@[0])->Array_1;
    let ghost es1 = m0.cell(args@[1])->Array_0;
    let ghost names = elem_values(m0, es1);
    let ghost d0 = m0.cell(g)->Dict_0;
    let ghost nil_at = |i: int| dict_lookup(d0, names[i]->Primitive_0) is None;
    let gl = memory.globals();
    let len0 = memory.array_len(args[0]);
    let n = memory.array_len(args[1]);
    let mut idx: usize = 0;
    let ghost mut os: Seq<nat> = Seq::empty();
    let ghost mut ks: Seq<int> = Seq::empty();
    proof {
        lemma_kept_except_of_kept(m0, m0, o0);
        assert(overlay(vs0, os) =~= vs0);
    }
    while idx < n
        invariant
            memory.wf(),
            memory.globals_handle() == g,
            gl == g,
            m0 == old(memory)@,
            m0.ok(),
            m0.closed(),
            g == old(memory).globals_handle(),
            og == m0.obj(g),
            o0 == m0.obj(args@[0]),
            o1 == m0.obj(args@[1]),
            m0.live(g),
            m0.cell(g) is Dict,
            d0 == m0.cell(g)->Dict_0,
            args@.len() == 2,
            forall|i: int| 0 <= i < args@.len() ==> m0.live(#[trigger] args@[i]),
            m0.cell(args@[0]) == Obj::Array(vs0, pos0),
            m0.cell(args@[1]) is Array,
            len0 == vs0.len(),
            es1 == m0.cell(args@[1])->Array_0,
            names == elem_values(m0, es1),
            nil_at == (|i: int| dict_lookup(d0, names[i]->Primitive_0) is None),
            n == es1.len(),
            idx <= n,
            scratch_ok(m0, memory@, g, tmp@),
            m0.kept_except(memory@, o0),
            os.len() == idx,
            forall|i: int| 0 <= i < idx ==> (#[trigger] names[i]) is Primitive && names[i]->Primitive_0 is Str,
            forall|i: int| 0 <= i < idx && dict_lookup(d0, names[i]->Primitive_0) is Some
                ==> #[trigger] os[i] == dict_lookup(d0, names[i]->Primitive_0).unwrap(),
            nils_held(memory@, tmp@, ks, os, nil_at),
            memory@.cell(args@[0]) == Obj::Array(overlay(vs0, os), pos0),
        decreases n - idx,
    {
        let ghost m1 = memory@;
        let ghost t1 = tmp@;
        proof {
            lemma_scratch_old(m0, memory@, g, tmp@, args@[1]);
            lemma_scratch_old(m0, memory@, g, tmp@, args@[0]);
            lemma_scratch_old(m0, memory@, g, tmp@, g);
            memory.lemma_ok();
            if o1 != o0 {
                lemma_same_value(m0, memory@, o0, o1);
            } else {
                assert(n == len0);
                assert(overlay(vs0, os)[idx as int] == vs0[idx as int]);
            }
        }
        match memory.value(args[1]) {
            Value::Array => {},
            _ => return s_finish(memory, &tmp, Err(crate::eval::internal_error()), Ghost(m0)),
        }
        let name = match s_array_get(memory, args[1], idx, Ghost(m0), Ghost(tmp@)) {
            Some(h) => h,
            None => return s_finish(memory, &tmp, Err(crate::eval::internal_error()), Ghost(m0)),
        };
        tmp.push(name);
        let ghost m2 = memory@;
        proof {
            lemma_scratch_live(m0, memory@, g, tmp@, tmp@.len() - 1);
            lemma_kept_except_of_kept(m1, m2, o0);
            lemma_kept_except_trans(m0, m1, m2, o0);
            lemma_nils_kept(m1, m2, t1, tmp@, ks, os, nil_at, o0);
            assert(m2.obj(name) == es1[idx as int]);
            assert(m0.objs.contains_key(es1[idx as int]));
            if es1[idx as int] != o0 {
                lemma_same_value(m0, m2, o0, es1[idx as int]);
            }
            assert(names[idx as int] == obj_value(m0.objs[es1[idx as int]]));
        }
        let key = match memory.value(name) {
            Value::Primitive(Primitive::String(s)) => Primitive::String(s),
            _ => {
                let mut m = "Argument 1 element ".to_owned();
                m.append(usize_to_string(idx).as_str());
                m.append(" to `inset` not recognized (wanted string)");
                return s_finish(memory, &tmp, Err(Error { message: m }), Ghost(m0));
            },
        };
        proof {
            assert(key.model() == names[idx as int]->Primitive_0);
            lemma_scratch_old(m0, memory@, g, tmp@, g);
            memory.lemma_globals();
            memory.lemma_ok();
            lemma_same_value(m0, memory@, o0, og);
        }
        let ghost t2 = tmp@;
        let v = match s_dict_get(memory, gl, &key, Ghost(m0), Ghost(tmp@)) {
            Some(h) => h,
            None => match s_make(memory, Value::Primitive(Primitive::Nil), Ghost(m0), Ghost(tmp@)) {
                Ok(h) => h,
                Err(e) => return s_finish(memory, &tmp, Err(e), Ghost(m0)),
            },
        };
        tmp.push(v);
        let ghost m3 = memory@;
        let ghost o = m3.obj(v);
        proof {
            lemma_scratch_live(m0, memory@, g, tmp@, tmp@.len() - 1);
            lemma_kept_except_of_kept(m2, m3, o0);
            lemma_kept_except_trans(m0, m2, m3, o0);
            lemma_nils_kept(m2, m3, t2, tmp@, ks, os, nil_at, o0);
            lemma_scratch_old(m0, memory@, g, tmp@, args@[0]);
            memory.lemma_ok();
        }
        match memory.value(args[0]) {
            Value::Array => {},
            _ => return s_finish(memory, &tmp, Err(crate::eval::internal_error()), Ghost(m0)),
        }
        if idx < len0 && idx < memory.array_len(args[0]) {
            s_array_set(memory, args[0], idx, v, Ghost(m0), Ghost(tmp@));
        } else {
            s_array_push(memory, args[0], v, Ghost(m0), Ghost(tmp@));
        }
        proof {
            let m4 = memory@;
            let os2 = os.push(o);
            lemma_kept_except_of_changed(m3, m4, o0, m4.objs[o0]);
            lemma_kept_except_trans(m0, m3, m4, o0);
            let ks2 = ks.push(tmp@.len() - 1);
            assert(nils_held(m3, tmp@, ks2, os2, nil_at)) by {
                assert forall|i: int| 0 <= i < os2.len() && nil_at(i) implies 0 <= #[trigger] ks2[i] < tmp@.len() && m3.live(tmp@[ks2[i]])
                    && m3.obj(tmp@[ks2[i]]) == os2[i] && m3.objs[os2[i]] == Obj::Prim(PrimModel::Nil) by {
                    if i < os.len() {
                        assert(ks2[i] == ks[i]);
                        assert(os2[i] == os[i]);
                    } else {
                        assert(value_obj(m3, o, ValueModel::Primitive(PrimModel::Nil)));
                    }
                }
            }
            lemma_nils_kept(m3, m4, tmp@, tmp@, ks2, os2, nil_at, o0);
            assert(overlay(vs0, os2) =~= if idx < len0 { overlay(vs0, os).update(idx as int, o) } else { overlay(vs0, os).push(o) });
            os = os2;
            ks = ks2;
        }
        idx = idx + 1;
    }
    let ghost m5 = memory@;
    proof {
        assert(tmp@ + result_handles(Ok(BuiltinReturn::Empty)) =~= tmp@);
    }
    let r = s_finish(memory, &tmp, Ok(BuiltinReturn::Empty), Ghost(m0));
    proof {
        assert(all_strings(names));
        assert(outset_objs(memory@, d0, names, os)) by {
            assert forall|i: int| 0 <= i < os.len() implies if dict_lookup(d0, names[i]->Primitive_0) is Some {
                #[trigger] os[i] == dict_lookup(d0, names[i]->Primitive_0).unwrap()
            } else {
                memory@.objs.contains_key(os[i]) && memory@.objs[os[i]] == Obj::Prim(PrimModel::Nil)
            } by {
                if dict_lookup(d0, names[i]->Primitive_0) is None {
                    assert(nil_at(i));
                    assert(m5.live(tmp@[ks[i]]));
                }
            }
        }
        lemma_scratch_old(m0, memory@, g, Seq::empty(), args@[0]);
        assert(memory@.cell(args@[0]) == Obj::Array(overlay(vs0, os), pos0));
        assert(m0.kept_except(memory@, o0));
        assert(os.len() == names.len());
        assert(outset_objs(memory@, old(memory).entries(g), names, os));
        assert(memory@.cell(args@[0]) == Obj::Array(overlay(old(memory).elems(args@[0]), os), old(memory).pos(args@[0])));
        assert(builtin_keeps(old(memory), memory));
        assert(returns_fresh(old(memory)@, memory@, old(memory).globals_handle(), r));
    }
    r
}

/// The number of the element at `i` of the array `h`, taken as a `u32` as
/// `as` takes it.
fn int_at(memory: &mut Memory, h: MemHandle, i: usize, Ghost(m0): Ghost<MemoryModel>, tmp: &mut Vec<MemHandle>) -> (r: Result<u32, Error>)
    requires
        old(memory).wf(),
        scratch_ok(m0, old(memory)@, old(memory).globals_handle(), old(tmp)@),
        old(memory)@.live(h),
        old(memory)@.cell(h) is Array,
        i < old(memory).elems(h).len(),
    ensures
        final(memory).wf(),
        final(memory).globals_handle() == old(memory).globals_handle(),
        scratch_ok(m0, final(memory)@, old(memory).globals_handle(), final(tmp)@),
        final(memory)@.objs == old(memory)@.objs,
        ({
            let v = obj_value(old(memory)@.objs[old(memory).elems(h)[i as int]]);
            &&& r is Ok <==> v is Primitive && v->Primitive_0 is Int
            &&& r matches Ok(x) ==> x == v->Primitive_0->Int_0 as u32
        }),
{
    let e = match s_array_get(memory, h, i, Ghost(m0), Ghost(tmp@)) {
        Some(e) => e,
        None => return Err(crate::eval::internal_error()),
    };
    tmp.push(e);
    proof {
        lemma_scratch_live(m0, memory@, memory.globals_handle(), tmp@, tmp@.len() - 1);
    }
    match memory.value(e) {
        Value::Primitive(Primitive::Int(x)) => Ok(x as u32),
        v => {
            let mut m = "`make-array-at` argument 0: Array contains unexpected item ".to_owned();
            m.append(v.to_text().as_str());
            Err(Error { message: m })
        },
    }
}

/// Every value is an integer.
pub open spec fn all_ints(vs: Seq<ValueModel>) -> bool {
    forall|i: int| 0 <= i < vs.len() ==> (#[trigger] vs[i]) is Primitive && vs[i]->Primitive_0 is Int
}

/// The integer value `v`, taken as a `u32` as `as` takes it.
pub open spec fn int_u32(v: ValueModel) -> u32 {
    v->Primitive_0->Int_0 as u32
}

/// The position `make-array-at` gives: that of the array, where it is
/// empty; else its source, line and (where there is one) column.
pub open spec fn at_position(p: ReaderPosition, ns: Seq<ValueModel>) -> ReaderPosition {
    if ns.len() == 0 {
        p
    } else {
        ReaderPosition { source: int_u32(ns[0]), line: int_u32(ns[1]), column: if ns.len() == 3 { int_u32(ns[2]) } else { 0 } }
    }
}

/// What `b_make_array_at` gives, and does to the heap.
pub open spec fn make_array_at_post(mem0: Memory, mem1: Memory, args: Seq<MemHandle>, r: Result<BuiltinReturn, Error>) -> bool {
    &&& builtin_keeps(&mem0, &mem1)
    &&& objects_kept(mem0@, mem1@)
    &&& returns_fresh(mem0@, mem1@, mem0.globals_handle(), r)
    &&& (({
            let m = mem0@;
            let ns = elem_values(m, m.cell(args[0])->Array_0);
            &&& computes(&mem1, r, args.len() >= 1 && m.cell(args[0]) is Array
                && (ns.len() == 0 || ((ns.len() == 2 || ns.len() == 3) && all_ints(ns))))
            &&& r is Ok ==> gives_obj(mem1@, r, Obj::Array(objs_of(m, args.skip(1)),
                at_position(m.cell(args[0])->Array_1, ns)))
        }))
}

/// `make-array-at`: a new array of the later arguments, at the position
/// the first names: that of an empty array, or a source and line (and
/// column) in a list of two (or three) integers.
pub fn b_make_array_at(memory: &mut Memory, args: &[MemHandle]) -> (r: Result<BuiltinReturn, Error>)
    requires
        old(memory).wf(),
        forall|i: int| 0 <= i < args@.len() ==> old(memory)@.live(#[trigger] args@[i]),
    ensures
        make_array_at_post(*old(memory), *final(memory), args@, r),
{
    let ghost m0 = memory@;
    let ghost g = memory.globals_handle();
    proof {
        lemma_scratch_start(memory);
        memory.lemma_globals();
    }
    let mut tmp: Vec<MemHandle> = Vec::new();
    if args.len() < 1 {
        return s_finish(memory, &tmp, Err(err("`make-array-at` expects at least one argument")), Ghost(m0));
    }
    match memory.value(args[0]) {
        Value::Array => {},
        v => return s_finish(memory, &tmp, Err(err_value("`make-array-at` expects array for first argument, got: ", &v)), Ghost(m0)),
    }
    let n = memory.array_len(args[0]);
    let ghost ns = elem_values(m0, m0.cell(args@[0])->Array_0);
    let pos = if n == 0 {
        memory.array_get_position(args[0])
    } else if n == 2 || n == 3 {
        let source = match int_at(memory, args[0], 0, Ghost(m0), &mut tmp) {
            Ok(x) => x,
            Err(e) => {
                proof {
                    assert(!(ns[0] is Primitive && ns[0]->Primitive_0 is Int));
                }
                return s_finish(memory, &tmp, Err(e), Ghost(m0));
            },
        };
        proof {
            lemma_scratch_old(m0, memory@, g, tmp@, args@[0]);
        }
        let line = match int_at(memory, args[0], 1, Ghost(m0), &mut tmp) {
            Ok(x) => x,
            Err(e) => {
                proof {
                    assert(!(ns[1] is Primitive && ns[1]->Primitive_0 is Int));
                }
                return s_finish(memory, &tmp, Err(e), Ghost(m0));
            },
        };
        proof {
            lemma_scratch_old(m0, memory@, g, tmp@, args@[0]);
        }
        let column = if n == 3 {
            match int_at(memory, args[0], 2, Ghost(m0), &mut tmp) {
                Ok(x) => x,
                Err(e) => {
                    proof {
                        assert(!(ns[2] is Primitive && ns[2]->Primitive_0 is Int));
                    }
                    return s_finish(memory, &tmp, Err(e), Ghost(m0));
                },
            }
        } else {
            0
        };
        proof {
            assert(all_ints(ns));
        }
        ReaderPosition { source, line, column }
    } else {
        let mut m = "`make-array-at` argument 0: Array has unexpected size ".to_owned();
        m.append(usize_to_string(n).as_str());
        return s_finish(memory, &tmp, Err(Error { message: m }), Ghost(m0));
    };
    let mut rest: Vec<MemHandle> = Vec::new();
    let mut i: usize = 1;
    while i < args.len()
        invariant
            1 <= i <= args@.len(),
            rest@ == args@.subrange(1, i as int),
        decreases args@.len() - i,
    {
        rest.push(args[i]);
        i = i + 1;
        assert(rest@ =~= args@.subrange(1, i as int));
    }
    let ghost m1 = memory@;
    proof {
        assert(rest@ =~= args@.skip(1));
        assert forall|k: int| 0 <= k < rest@.len() implies memory@.live(#[trigger] rest@[k]) && memory@.obj(rest@[k]) == m0.obj(rest@[k]) by {
            assert(rest@[k] == args@[k + 1]);
            lemma_scratch_old(m0, memory@, g, tmp@, args@[k + 1]);
        }
    }
    let res = match s_array_of(memory, pos, rest.as_slice(), Ghost(m0), Ghost(tmp@)) {
        Ok(a) => Ok(BuiltinReturn::Value(a)),
        Err(e) => Err(e),
    };
    proof {
        assert(tmp@ + result_handles(res) =~= (match res { Ok(BuiltinReturn::Value(h)) => tmp@.push(h), _ => tmp@ }));
    }
    let r = s_finish(memory, &tmp, res, Ghost(m0));
    proof {
        match r {
            Ok(BuiltinReturn::Value(a)) => {
                assert(result_handles(r)[0] == a);
                assert(memory@.cell(a)->Array_0 =~= objs_of(m0, args@.skip(1)));
            },
            _ => {},
        }
    }
    r
}

/// What `b_fn_unpack` gives, and does to the heap.
pub open spec fn fn_unpack_post(mem0: Memory, mem1: Memory, args: Seq<MemHandle>, r: Result<BuiltinReturn, Error>) -> bool {
    &&& builtin_keeps(&mem0, &mem1)
    &&& objects_kept(mem0@, mem1@)
    &&& returns_fresh(mem0@, mem1@, mem0.globals_handle(), r)
    &&& computes(&mem1, r, args.len() == 1 && mem0@.cell(args[0]) is Fun)
    &&& (r matches Ok(BuiltinReturn::Value(h)) ==> ({
            let f = mem0@.cell(args[0]);
            let es = mem1@.cell(h)->Array_0;
            &&& mem1@.cell(h) is Array
            &&& es.len() == 4
            &&& es[1] == f->Fun_1 && es[2] == f->Fun_2 && es[3] == f->Fun_3
            &&& mem1@.objs[es[0]] == match f->Fun_0 {
                Some(n) => Obj::Prim(PrimModel::Str(n)),
                None => Obj::Prim(PrimModel::Nil),
            }
        }))
    &&& (r is Ok ==> r->Ok_0 is Value)
}

/// `fn-unpack`: a new array of a function's name (nil for none),
/// arguments, locals and body.
pub fn b_fn_unpack(memory: &mut Memory, args: &[MemHandle]) -> (r: Result<BuiltinReturn, Error>)
    requires
        old(memory).wf(),
        forall|i: int| 0 <= i < args@.len() ==> old(memory)@.live(#[trigger] args@[i]),
    ensures
        fn_unpack_post(*old(memory), *final(memory), args@, r),
{
    let ghost m0 = memory@;
    let ghost g = memory.globals_handle();
    proof {
        lemma_scratch_start(memory);
        memory.lemma_globals();
    }
    let mut tmp: Vec<MemHandle> = Vec::new();
    if args.len() != 1 {
        return s_finish(memory, &tmp, Err(err("`get-position` expects exactly one argument")), Ghost(m0));
    }
    match memory.value(args[0]) {
        Value::Fun => {},
        v => return s_finish(memory, &tmp, Err(err_value("`get-position` expects fn, got: ", &v)), Ghost(m0)),
    }
    let ghost f = m0.cell(args@[0]);
    let fu = crate::scratch::s_fun_unpack(memory, args[0], Ghost(m0), Ghost(tmp@));
    tmp.push(fu.args);
    tmp.push(fu.locals);
    tmp.push(fu.body);
    let ghost m1 = memory@;
    let name = match fu.name {
        Some(s) => s_make(memory, Value::Primitive(Primitive::String(s)), Ghost(m0), Ghost(tmp@)),
        None => s_make(memory, Value::Primitive(Primitive::Nil), Ghost(m0), Ghost(tmp@)),
    };
    let name = match name {
        Ok(h) => h,
        Err(e) => return s_finish(memory, &tmp, Err(e), Ghost(m0)),
    };
    tmp.push(name);
    let ghost m2 = memory@;
    let parts = vec![name, fu.args, fu.locals, fu.body];
    proof {
        let k = tmp@.len();
        assert(tmp@[k - 1] == name && tmp@[k - 2] == fu.body && tmp@[k - 3] == fu.locals && tmp@[k - 4] == fu.args);
        lemma_scratch_live(m0, m2, g, tmp@, k - 1);
        lemma_scratch_live(m0, m2, g, tmp@, k - 2);
        lemma_scratch_live(m0, m2, g, tmp@, k - 3);
        lemma_scratch_live(m0, m2, g, tmp@, k - 4);
        crate::memory::lemma_kept_live(m1, m2, fu.args);
        crate::memory::lemma_kept_live(m1, m2, fu.locals);
        crate::memory::lemma_kept_live(m1, m2, fu.body);
        assert(parts@ == seq![name, fu.args, fu.locals, fu.body]);
    }
    let res = match s_array_of(memory, position_unknown_exec(), parts.as_slice(), Ghost(m0), Ghost(tmp@)) {
        Ok(a) => Ok(BuiltinReturn::Value(a)),
        Err(e) => Err(e),
    };
    let ghost m3 = memory@;
    proof {
        assert(tmp@ + result_handles(res) =~= (match res { Ok(BuiltinReturn::Value(h)) => tmp@.push(h), _ => tmp@ }));
    }
    let r = s_finish(memory, &tmp, res, Ghost(m0));
    proof {
        old(memory).lemma_ok();
        lemma_objects_kept_then(m0, m0, m1);
        lemma_objects_kept_then(m0, m1, m2);
        lemma_objects_kept_then(m0, m2, m3);
        match r {
            Ok(BuiltinReturn::Value(a)) => {
                assert(result_handles(r)[0] == a);
                let es = memory@.cell(a)->Array_0;
                assert(es[0] == m2.obj(name));
                crate::memory::lemma_kept_live(m2, m3, name);
                assert(m3.objs[m2.obj(name)] == m2.objs[m2.obj(name)]);
            },
            _ => {},
        }
    }
    r
}


/// What `b_print` gives, and does to the heap.
pub open spec fn print_post(mem0: Memory, args: Seq<MemHandle>, r: Outcome) -> bool {
    &&& (r matches Outcome::Io(IoRequest::Print(ts)) && ts@.len() == args.len()
            && forall|i: int| 0 <= i < args.len() ==> #[trigger] ts@[i]@ == value_text(mem0@.value(args[i])))
}

/// `print`: asks for the texts of the arguments to be written.
pub fn b_print(memory: &Memory, args: &[MemHandle]) -> (r: Outcome)
    requires
        memory.wf(),
        forall|i: int| 0 <= i < args@.len() ==> memory@.live(#[trigger] args@[i]),
    ensures
        print_post(*memory, args@, r),
{
    let mut ts: Vec<String> = Vec::new();
    let mut i: usize = 0;
    while i < args.len()
        invariant
            memory.wf(),
            forall|k: int| 0 <= k < args@.len() ==> memory@.live(#[trigger] args@[k]),
            i <= args@.len(),
            ts@.len() == i,
            forall|k: int| 0 <= k < i ==> #[trigger] ts@[k]@ == value_text(memory@.value(args@[k])),
        decreases args@.len() - i,
    {
        let v = memory.value(args[i]);
        ts.push(v.to_text());
        i = i + 1;
    }
    Outcome::Io(IoRequest::Print(ts))
}

/// The path a file builtin is given: a string, or nil where `nil_ok`.
/// Refused where the file system is disabled.
pub fn path_of(memory: &Memory, file_allow: bool, name: &str, h: MemHandle, nil_ok: bool) -> (r: Result<Option<String>, Error>)
    requires
        memory.wf(),
        memory@.live(h),
    ensures
        !file_allow ==> r is Err,
        file_allow ==> match memory@.value(h) {
            ValueModel::Primitive(PrimModel::Str(s)) => r matches Ok(Some(p)) && p@ == s,
            ValueModel::Primitive(PrimModel::Nil) => if nil_ok { r == Ok::<Option<String>, Error>(None) } else { r is Err },
            _ => r is Err,
        },
{
    if !file_allow {
        let mut m = "Called `".to_owned();
        m.append(name);
        m.append("` but fs is disabled");
        return Err(Error { message: m });
    }
    match memory.value(h) {
        Value::Primitive(Primitive::Nil) => {
            if nil_ok {
                Ok(None)
            } else {
                let mut m = "Argument nil to `".to_owned();
                m.append(name);
                m.append("` unrecognized");
                Err(Error { message: m })
            }
        },
        Value::Primitive(Primitive::String(s)) => Ok(Some(s)),
        v => {
            let mut m = "First argument to `".to_owned();
            m.append(name);
            m.append("` unrecognized: ");
            m.append(v.debug_text().as_str());
            Err(Error { message: m })
        },
    }
}

/// What `b_io` gives, and does to the heap.
pub open spec fn io_post(mem0: Memory, file_allow: bool, b: Builtin, args: Seq<MemHandle>, r: Outcome) -> bool {
    &&& (r matches Outcome::Done(res) ==> res is Err)
    &&& (r matches Outcome::Io(req) ==> request_of(b, req))
    &&& (b == Builtin::Flush ==> (r is Io <==> args.len() == 0) && (r is Io ==> r->Io_0 is Flush))
    &&& (b == Builtin::ReadLine ==> (r is Io <==> args.len() == 0) && (r is Io ==> r->Io_0 is ReadLine))
    &&& (b == Builtin::ReadAll ==> (r is Io <==> args.len() == 0) && (r is Io ==> r->Io_0 is ReadAll))
    &&& (b == Builtin::FileExists ==> (r is Io <==> args.len() == 1 && file_allow
            && mem0@.value(args[0]) is Primitive && mem0@.value(args[0])->Primitive_0 is Str)
            && (r matches Outcome::Io(IoRequest::FileExists(p)) ==> p@ == mem0@.value(args[0])->Primitive_0->Str_0))
    &&& (b == Builtin::FileIn ==> (r is Io <==> args.len() == 1 && file_allow
            && (mem0@.value(args[0]) == ValueModel::Primitive(PrimModel::Nil)
                || (mem0@.value(args[0]) is Primitive && mem0@.value(args[0])->Primitive_0 is Str)))
            && (r matches Outcome::Io(IoRequest::FileIn(path)) ==> path_model(path) == path_value(mem0@.value(args[0]))))
    &&& (b == Builtin::FileOut ==> (r is Io <==> 1 <= args.len() <= 3 && file_allow
            && (mem0@.value(args[0]) == ValueModel::Primitive(PrimModel::Nil)
                || (mem0@.value(args[0]) is Primitive && mem0@.value(args[0])->Primitive_0 is Str)))
            && (r matches Outcome::Io(IoRequest::FileOut { path, create, truncate }) ==>
                path_model(path) == path_value(mem0@.value(args[0]))
                && create == (args.len() > 1 && truthy(mem0@.value(args[1])))
                && truncate == (args.len() > 2 && truthy(mem0@.value(args[2])))))
}

/// The file builtins and the input builtins: each checks its arguments and
/// asks the outside world.
pub fn b_io(memory: &Memory, file_allow: bool, b: Builtin, args: &[MemHandle]) -> (r: Outcome)
    requires
        memory.wf(),
        forall|i: int| 0 <= i < args@.len() ==> memory@.live(#[trigger] args@[i]),
    ensures
        io_post(*memory, file_allow, b, args@, r),
{
    match b {
        Builtin::Flush => {
            if args.len() > 0 {
                return Outcome::Done(Err(err("`flush` expects no arguments")));
            }
            Outcome::Io(IoRequest::Flush)
        },
        Builtin::ReadLine => {
            if args.len() > 0 {
                return Outcome::Done(Err(err("`file-line` expects no arguments")));
            }
            Outcome::Io(IoRequest::ReadLine)
        },
        Builtin::ReadAll => {
            if args.len() > 0 {
                return Outcome::Done(Err(err("`read-all` expects no arguments")));
            }
            Outcome::Io(IoRequest::ReadAll)
        },
        Builtin::FileExists => {
            if args.len() != 1 {
                return Outcome::Done(Err(err("`file-exists` expects exactly 1 argument")));
            }
            match path_of(memory, file_allow, "file-exists", args[0], false) {
                Ok(Some(p)) => Outcome::Io(IoRequest::FileExists(p)),
                Ok(None) => Outcome::Done(Err(crate::eval::internal_error())),
                Err(e) => Outcome::Done(Err(e)),
            }
        },
        Builtin::FileIn => {
            if args.len() < 1 {
                return Outcome::Done(Err(err("Too few args to `file-in`")));
            }
            if args.len() > 1 {
                return Outcome::Done(Err(err("Too many args to `file-in`")));
            }
            match path_of(memory, file_allow, "file-in", args[0], true) {
                Ok(p) => Outcome::Io(IoRequest::FileIn(p)),
                Err(e) => Outcome::Done(Err(e)),
            }
        },
        Builtin::FileOut => {
            if args.len() < 1 {
                return Outcome::Done(Err(err("Too few args to `file-out`")));
            }
            if args.len() > 3 {
                return Outcome::Done(Err(err("Too many args to `file-out`")));
            }
            match path_of(memory, file_allow, "file-out", args[0], true) {
                Ok(path) => {
                    let create = args.len() > 1 && is_truthy(&memory.value(args[1]));
                    let truncate = args.len() > 2 && is_truthy(&memory.value(args[2]));
                    Outcome::Io(IoRequest::FileOut { path, create, truncate })
                },
                Err(e) => Outcome::Done(Err(e)),
            }
        },
        _ => Outcome::Done(Err(crate::eval::internal_error())),
    }
}

/// The text of a path, or none.
pub open spec fn path_model(p: Option<String>) -> Option<Seq<char>> {
    match p {
        Some(s) => Some(s@),
        None => None,
    }
}

/// The path a value names: a string names itself, nil names none.
pub open spec fn path_value(v: ValueModel) -> Option<Seq<char>> {
    match v {
        ValueModel::Primitive(PrimModel::Str(s)) => Some(s),
        _ => None,
    }
}

/// The message for a failure of the outside world.
pub fn fs_error(name: &str, e: &String) -> (r: Error)
    ensures
        r.message@ == "Filesystem failure running `"@ + name@ + "`: "@ + e@,
{
    let mut m = "Filesystem failure running `".to_owned();
    m.append(name);
    m.append("`: ");
    m.append(e.as_str());
    Error { message: m }
}

/// A temporary of an earlier list of temporaries is still usable.
proof fn lemma_in_tmp(m0: MemoryModel, m: MemoryModel, g: MemHandle, t0: Seq<MemHandle>, t: Seq<MemHandle>, h: MemHandle)
    requires
        scratch_ok(m0, m, g, t),
        crate::eval::prefix(t0, t),
        t0.contains(h),
    ensures
        m.live(h),
{
    crate::eval::lemma_prefix_contains(t0, t, h);
    let k = choose|k: int| 0 <= k < t.len() && t[k] == h;
    lemma_scratch_live(m0, m, g, t, k);
}

/// Pushes the handle onto the temporaries; the earlier ones stay first.
fn keep(tmp: &mut Vec<MemHandle>, h: MemHandle)
    ensures
        final(tmp)@ == old(tmp)@.push(h),
        crate::eval::prefix(old(tmp)@, final(tmp)@),
        final(tmp)@.contains(h),
{
    tmp.push(h);
    proof {
        crate::eval::lemma_prefix_push(old(tmp)@, h);
    }
}

/// What a value given as an initial value stands for: what a quote quotes,
/// what the globals `g` bind a name to, anything else itself; none for a
/// call or a name the globals do not bind.
pub open spec fn initial_model(m: MemoryModel, g: MemHandle, o: nat) -> Option<nat> {
    match m.objs[o] {
        Obj::Quote(q) => Some(q),
        Obj::Array(_, _) => None,
        Obj::Prim(PrimModel::Str(s)) => crate::memory::dict_lookup(m.cell(g)->Dict_0, PrimModel::Str(s)),
        _ => Some(o),
    }
}

/// The locals `d` with item `it` of a locals list bound: a name to itself,
/// a pair of a name and a value to the value's initial value; none for
/// anything else.
pub open spec fn local_item_model(m: MemoryModel, g: MemHandle, d: Seq<(PrimModel, nat)>, it: nat) -> Option<Seq<(PrimModel, nat)>> {
    match m.objs[it] {
        Obj::Prim(PrimModel::Str(s)) => Some(crate::memory::dict_insert(d, PrimModel::Str(s), it)),
        Obj::Array(v, _) => {
            if v.len() == 2 && m.objs[v[0]] is Prim && m.objs[v[0]]->Prim_0 is Str {
                match initial_model(m, g, v[1]) {
                    Some(x) => Some(crate::memory::dict_insert(d, m.objs[v[0]]->Prim_0, x)),
                    None => None,
                }
            } else {
                None
            }
        },
        _ => None,
    }
}

/// The locals made from the items of a locals list, in order; none where
/// an item is not a name or such a pair.
pub open spec fn locals_model(m: MemoryModel, g: MemHandle, items: Seq<nat>) -> Option<Seq<(PrimModel, nat)>>
    decreases items.len(),
{
    if items.len() == 0 {
        Some(Seq::empty())
    } else {
        match locals_model(m, g, items.drop_last()) {
            Some(d) => local_item_model(m, g, d, items.last()),
            None => None,
        }
    }
}

proof fn lemma_locals_none(m: MemoryModel, g: MemHandle, items: Seq<nat>, k: int)
    requires
        0 <= k <= items.len(),
        locals_model(m, g, items.take(k)) is None,
    ensures
        locals_model(m, g, items) is None,
    decreases items.len() - k,
{
    if k < items.len() {
        assert(items.take(k + 1).drop_last() =~= items.take(k));
        lemma_locals_none(m, g, items, k + 1);
    } else {
        assert(items.take(k) =~= items);
    }
}

/// What an item of a locals list makes stays so while the heap keeps it.
proof fn lemma_local_item_kept(m1: MemoryModel, m2: MemoryModel, g: MemHandle, d: Seq<(PrimModel, nat)>, it: nat)
    requires
        m1.kept_in(m2),
        m1.closed(),
        m2.closed(),
        m1.objs.contains_key(it),
        m2.objs.contains_key(it),
        m1.live(g),
    ensures
        local_item_model(m1, g, d, it) == local_item_model(m2, g, d, it),
{
    crate::memory::lemma_kept_live(m1, m2, g);
    assert(m2.objs[it] == m1.objs[it]);
    match m1.objs[it] {
        Obj::Array(v, _) => {
            if v.len() == 2 {
                assert(m1.objs[it]->Array_0[0] == v[0] && m1.objs[it]->Array_0[1] == v[1]);
                assert(m1.objs.contains_key(v[0]) && m1.objs.contains_key(v[1]));
                assert(m2.objs.contains_key(v[0]) && m2.objs.contains_key(v[1]));
                assert(m2.objs[v[0]] == m1.objs[v[0]]);
                assert(m2.objs[v[1]] == m1.objs[v[1]]);
                assert(m2.cell(g) == m1.cell(g));
            }
        },
        _ => {},
    }
}

/// The value given for an argument or a local: what a quote quotes, what
/// the globals bind a name to, anything else itself; never a call.
fn filter_initial(memory: &mut Memory, h: MemHandle, Ghost(m0): Ghost<MemoryModel>, tmp: &mut Vec<MemHandle>) -> (r: Result<MemHandle, Error>)
    requires
        old(memory).wf(),
        scratch_ok(m0, old(memory)@, old(memory).globals_handle(), old(tmp)@),
        old(memory)@.live(h),
    ensures
        final(memory).wf(),
        final(memory).globals_handle() == old(memory).globals_handle(),
        crate::eval::prefix(old(tmp)@, final(tmp)@),
        scratch_ok(m0, final(memory)@, old(memory).globals_handle(), match r { Ok(x) => final(tmp)@.push(x), Err(_) => final(tmp)@ }),
        old(memory)@.kept_in(final(memory)@),
        final(memory)@.objs == old(memory)@.objs,
        r matches Ok(x) ==> initial_model(old(memory)@, old(memory).globals_handle(), old(memory)@.obj(h)) == Some(final(memory)@.obj(x)),
        r is Err ==> initial_model(old(memory)@, old(memory).globals_handle(), old(memory)@.obj(h)) is None,
{
    proof {
        crate::eval::lemma_prefix_push(old(tmp)@, h);
        assert(crate::eval::prefix(old(tmp)@, old(tmp)@)) by {
            assert(old(tmp)@.subrange(0, old(tmp)@.len() as int) =~= old(tmp)@);
        }
        old(memory).lemma_ok();
        assert(old(memory)@.kept_in(old(memory)@));
    }
    match memory.value(h) {
        Value::Quote => Ok(s_quote_get(memory, h, Ghost(m0), Ghost(tmp@))),
        Value::Array => Err(err("Nested calls currently not supported for initial values")),
        Value::Primitive(Primitive::String(name)) => {
            let g = memory.globals();
            proof {
                memory.lemma_globals();
            }
            let key = Primitive::String(name);
            match s_dict_get(memory, g, &key, Ghost(m0), Ghost(tmp@)) {
                Some(v) => Ok(v),
                None => {
                    let mut m = "Unrecognized variable in initials list: ".to_owned();
                    m.append(key.to_text().as_str());
                    Err(Error { message: m })
                },
            }
        },
        _ => Ok(s_copy(memory, h, Ghost(m0), Ghost(tmp@))),
    }
}

fn starts_with_amp(s: &String) -> (r: bool)
    ensures
        r == (s@.len() > 0 && s@[0] == '&'),
{
    s.as_str().unicode_len() > 0 && s.as_str().get_char(0) == '&'
}

fn without_first(s: &String) -> (r: String)
    requires
        s@.len() > 0,
    ensures
        r@ == s@.drop_first(),
{
    let n = s.as_str().unicode_len();
    let mut r = String::new();
    let mut i: usize = 1;
    while i < n
        invariant
            n == s@.len(),
            1 <= i <= n,
            r@ == s@.subrange(1, i as int),
        decreases n - i,
    {
        crate::text::push_char(&mut r, s.as_str().get_char(i));
        i = i + 1;
        assert(r@ =~= s@.subrange(1, i as int));
    }
    assert(r@ =~= s@.drop_first());
    r
}

fn item_error(name: &str, idx: usize, what: &str, v: &Value) -> (e: Error)
    ensures
        e.message@ == "`"@ + name@ + what@ + crate::text::decimal_model(idx as nat) + " unrecognized: "@
            + crate::show::value_debug(v.model()),
{
    let mut m = "`".to_owned();
    m.append(name);
    m.append(what);
    m.append(usize_to_string(idx).as_str());
    m.append(" unrecognized: ");
    m.append(v.debug_text().as_str());
    Error { message: m }
}

/// A name for the rest of the arguments starts with `&`.
pub open spec fn is_rest_name(s: Seq<char>) -> bool {
    s.len() > 0 && s[0] == '&'
}

/// The variable the rest of the arguments goes to: what follows the `&`, or
/// `args` where nothing does.
pub open spec fn rest_name(s: Seq<char>) -> Seq<char> {
    if s.len() == 1 { "args"@ } else { s.drop_first() }
}

/// Whether item `it` of an arguments list can make an argument: a name (a
/// rest name only as the last item), or a pair of a name that is no rest
/// name and a value whose initial value there is.
pub open spec fn arg_item_ok(m: MemoryModel, g: MemHandle, it: nat, is_final: bool) -> bool {
    match m.objs[it] {
        Obj::Prim(PrimModel::Str(s)) => !is_rest_name(s) || is_final,
        Obj::Array(v, _) => v.len() == 2 && m.objs[v[0]] is Prim && m.objs[v[0]]->Prim_0 is Str
            && !is_rest_name(m.objs[v[0]]->Prim_0->Str_0) && initial_model(m, g, v[1]) is Some,
        _ => false,
    }
}

/// A name made into an argument: a new pair of the name and a new nil.
pub open spec fn name_case(m: MemoryModel, it: nat) -> bool {
    m.objs[it] is Prim && m.objs[it]->Prim_0 is Str && !is_rest_name(m.objs[it]->Prim_0->Str_0)
}

/// `e`, in the heap `m1`, is the argument made from item `it` of an
/// arguments list in the heap `m`: a pair of the name and nil for a name; the
/// variable for the rest of the arguments for a last `&` name; a pair of the
/// name and the initial value for a pair.
pub open spec fn arg_made(m: MemoryModel, g: MemHandle, it: nat, m1: MemoryModel, e: nat) -> bool {
    &&& m1.objs.contains_key(e)
    &&& match m.objs[it] {
        Obj::Prim(PrimModel::Str(s)) => if is_rest_name(s) {
            m1.objs[e] == Obj::Prim(PrimModel::Str(rest_name(s)))
        } else {
            &&& m1.objs[e] is Array
            &&& m1.objs[e]->Array_0.len() == 2
            &&& m1.objs[e]->Array_0[0] == it
            &&& m1.objs.contains_key(m1.objs[e]->Array_0[1])
            &&& m1.objs[m1.objs[e]->Array_0[1]] == Obj::Prim(PrimModel::Nil)
            &&& m1.objs[e]->Array_1 == position_unknown()
        },
        Obj::Array(v, _) => v.len() == 2
            && m1.objs[e] == Obj::Array(seq![v[0], initial_model(m, g, v[1]).unwrap()], position_unknown()),
        _ => false,
    }
}

/// A default written as a quote, a string literal among them, stands for
/// what it quotes: a parameter made from a pair of a name and a quote, when
/// the call gives no argument for it, is bound to the quoted object (for a
/// string literal, the string), never to the quote.
pub proof fn law_quoted_default_is_what_it_quotes(m: MemoryModel, g: MemHandle, it: nat, m1: MemoryModel, e: nat, i: int, args: Seq<nat>, b: (PrimModel, nat))
    requires
        m.objs[it] is Array,
        m.objs[it]->Array_0.len() == 2,
        m.objs[m.objs[it]->Array_0[1]] is Quote,
        arg_made(m, g, it, m1, e),
        args.len() <= i,
        crate::eval::param_binding(m1.objs, e, i, args, b),
    ensures
        b.1 == m.objs[m.objs[it]->Array_0[1]]->Quote_0,
        m.objs[m.objs[m.objs[it]->Array_0[1]]->Quote_0] matches Obj::Prim(PrimModel::Str(s))
            ==> obj_value(m.objs[b.1]) == ValueModel::Primitive(PrimModel::Str(s)),
{
}

/// What an arguments list item makes stays so while the heap keeps it.
proof fn lemma_arg_kept(m1: MemoryModel, m2: MemoryModel, g: MemHandle, it: nat, fin: bool, m: MemoryModel, e: nat)
    requires
        m1.kept_in(m2),
        m1.closed(),
        m2.closed(),
        m1.objs.contains_key(it),
        m2.objs.contains_key(it),
        m1.live(g),
    ensures
        arg_item_ok(m1, g, it, fin) == arg_item_ok(m2, g, it, fin),
        arg_made(m1, g, it, m, e) == arg_made(m2, g, it, m, e),
        name_case(m1, it) == name_case(m2, it),
{
    crate::memory::lemma_kept_live(m1, m2, g);
    assert(m2.objs[it] == m1.objs[it]);
    match m1.objs[it] {
        Obj::Array(v, _) => {
            if v.len() == 2 {
                assert(m1.objs[it]->Array_0[0] == v[0] && m1.objs[it]->Array_0[1] == v[1]);
                assert(m2.objs[v[0]] == m1.objs[v[0]]);
                assert(m2.objs[v[1]] == m1.objs[v[1]]);
                assert(m2.cell(g) == m1.cell(g));
            }
        },
        _ => {},
    }
}

/// An argument made stays so while its objects are kept.
proof fn lemma_arg_made_kept(m: MemoryModel, g: MemHandle, it: nat, m1: MemoryModel, m2: MemoryModel, e: nat, o: nat)
    requires
        arg_made(m, g, it, m1, e),
        m1.kept_except(m2, o),
        e != o,
        m2.objs.contains_key(e),
        m2.closed(),
        name_case(m, it) ==> m1.objs[e]->Array_0[1] != o,
    ensures
        arg_made(m, g, it, m2, e),
{
    assert(m2.objs[e] == m1.objs[e]);
    if name_case(m, it) {
        let n = m1.objs[e]->Array_0[1];
        assert(m2.objs[e]->Array_0[1] == n);
        assert(m2.objs.contains_key(n));
        assert(m2.objs[n] == m1.objs[n]);
    }
}

/// Adds item `idx` of the argument list `a` to the arguments `filtered`.
#[verifier::rlimit(90)]
fn add_arg_item(memory: &mut Memory, name: &str, a: MemHandle, idx: usize, is_final: bool, filtered: MemHandle,
    Ghost(m0): Ghost<MemoryModel>, tmp: &mut Vec<MemHandle>) -> (r: Result<(), Error>)
    requires
        old(memory).wf(),
        scratch_ok(m0, old(memory)@, old(memory).globals_handle(), old(tmp)@),
        m0.live(a),
        old(tmp)@.contains(filtered),
        old(memory)@.cell(a) is Array,
        idx < old(memory).elems(a).len(),
        old(memory)@.cell(filtered) is Array,
    ensures
        final(memory).wf(),
        final(memory).globals_handle() == old(memory).globals_handle(),
        r is Ok ==> crate::eval::prefix(old(tmp)@, final(tmp)@),
        scratch_ok(m0, final(memory)@, old(memory).globals_handle(), final(tmp)@),
        old(memory)@.kept_except(final(memory)@, old(memory)@.obj(filtered)),
        final(memory)@.live(filtered),
        final(memory)@.obj(filtered) == old(memory)@.obj(filtered),
        final(memory)@.cell(filtered) is Array,
        final(memory).pos(filtered) == old(memory).pos(filtered),
        r is Ok ==> ({
            let it = old(memory).elems(a)[idx as int];
            let e = final(memory).elems(filtered).last();
            &&& final(memory).elems(filtered) == old(memory).elems(filtered).push(e)
            &&& !old(memory)@.objs.contains_key(e)
            &&& arg_made(old(memory)@, old(memory).globals_handle(), it, final(memory)@, e)
            &&& name_case(old(memory)@, it) ==> !old(memory)@.objs.contains_key(final(memory)@.objs[e]->Array_0[1])
            &&& arg_item_ok(old(memory)@, old(memory).globals_handle(), it, is_final)
        }),
        r matches Err(e) ==> (out_of_memory(e) && final(memory).full())
            || !arg_item_ok(old(memory)@, old(memory).globals_handle(), old(memory).elems(a)[idx as int], is_final),
{
    let ghost g = memory.globals_handle();
    let ghost m1 = memory@;
    let ghost o_f = m1.obj(filtered);
    let ghost f0 = old(memory).elems(filtered);
    let ghost it = old(memory).elems(a)[idx as int];
    let ghost t1 = tmp@;
    proof {
        assert(crate::eval::prefix(t1, t1)) by {
            assert(t1.subrange(0, t1.len() as int) =~= t1);
        }
        old(memory).lemma_ok();
        old(memory).lemma_closed();
        old(memory).lemma_globals();
        assert(m1.kept_in(m1));
    }
    let ghost t2 = tmp@;
    proof {
        lemma_in_tmp(m0, memory@, g, t1, tmp@, filtered);
        crate::memory::lemma_kept_live_h(m0, memory@, a);
    }
    match memory.value(a) {
        Value::Array => {},
        _ => return Err(crate::eval::internal_error()),
    }
    let item = match s_array_get(memory, a, idx, Ghost(m0), Ghost(tmp@)) {
        Some(x) => x,
        None => return Err(crate::eval::internal_error()),
    };
    keep(tmp, item);
    proof {
        lemma_in_tmp(m0, memory@, g, tmp@, tmp@, item);
        lemma_in_tmp(m0, memory@, g, t1, tmp@, filtered);
        assert(memory@.obj(item) == it);
        assert(memory@.objs == m1.objs);
    }
    let iv = memory.value(item);
    match iv {
        Value::Primitive(Primitive::String(s)) => {
            let ghost mb = memory@;
            let sub_item = if starts_with_amp(&s) {
                if is_final {
                    let rest = if s.as_str().unicode_len() == 1 { "args".to_owned() } else { without_first(&s) };
                    let x = match s_make(memory, Value::Primitive(Primitive::String(rest)), Ghost(m0), Ghost(tmp@)) {
                        Ok(x) => x,
                        Err(e) => {
                            proof {
                                crate::memory::lemma_kept_trans(m1, mb, memory@);
                                crate::memory::lemma_kept_except_of_kept(m1, memory@, o_f);
                                crate::memory::lemma_kept_live(m1, memory@, filtered);
                            }
                            return Err(e);
                        },
                    };
                    keep(tmp, x);
                    x
                } else {
                    proof {
                        crate::memory::lemma_kept_except_of_kept(m1, memory@, o_f);
                    }
                    let mut m = "`".to_owned();
                    m.append(name);
                    m.append("` \"args\" list, item ");
                    m.append(usize_to_string(idx).as_str());
                    m.append(", & argument cannot have an inital value");
                    return Err(Error { message: m });
                }
            } else {
                let nil = match s_make(memory, Value::Primitive(Primitive::Nil), Ghost(m0), Ghost(tmp@)) {
                    Ok(x) => x,
                    Err(e) => {
                        proof {
                            crate::memory::lemma_kept_trans(m1, mb, memory@);
                            crate::memory::lemma_kept_except_of_kept(m1, memory@, o_f);
                            crate::memory::lemma_kept_live(m1, memory@, filtered);
                        }
                        return Err(e);
                    },
                };
                keep(tmp, nil);
                let ghost mn = memory@;
                proof {
                    lemma_in_tmp(m0, memory@, g, tmp@, tmp@, nil);
                    lemma_in_tmp(m0, memory@, g, t2.push(item), tmp@, item);
                    crate::memory::lemma_kept_trans(m1, mb, mn);
                }
                let pair = [item, nil];
                let x = match s_array_of(memory, position_unknown_exec(), &pair, Ghost(m0), Ghost(tmp@)) {
                    Ok(x) => x,
                    Err(e) => {
                        proof {
                            crate::memory::lemma_kept_trans(m1, mn, memory@);
                            crate::memory::lemma_kept_except_of_kept(m1, memory@, o_f);
                            crate::memory::lemma_kept_live(m1, memory@, filtered);
                        }
                        return Err(e);
                    },
                };
                keep(tmp, x);
                proof {
                    crate::memory::lemma_kept_trans(m1, mn, memory@);
                    assert(memory@.cell(x)->Array_0 =~= seq![it, mn.obj(nil)]);
                }
                x
            };
            proof {
                lemma_in_tmp(m0, memory@, g, tmp@, tmp@, sub_item);
                lemma_in_tmp(m0, memory@, g, t1, tmp@, filtered);
                crate::memory::lemma_kept_live_h(m0, memory@, a);
                crate::memory::lemma_kept_live(m1, memory@, filtered);
                assert(m1.objs[it] == Obj::Prim(PrimModel::Str(s@)));
            }
            match memory.value(filtered) {
                Value::Array => {},
                _ => return Err(crate::eval::internal_error()),
            }
            let ghost mp = memory@;
            let ghost e = mp.obj(sub_item);
            proof {
                memory.lemma_ok();
            }
            s_array_push(memory, filtered, sub_item, Ghost(m0), Ghost(tmp@));
            proof {
                memory.lemma_ok();
                memory.lemma_closed();
                crate::memory::lemma_kept_except_of_kept(m1, mp, o_f);
                crate::memory::lemma_kept_except_of_changed(mp, memory@, o_f, memory@.objs[o_f]);
                crate::memory::lemma_kept_except_trans(m1, mp, memory@, o_f);
                assert(memory.elems(filtered) == f0.push(e));
                assert(memory.elems(filtered).last() == e);
                assert(e != o_f);
                assert(memory@.objs[e] == mp.objs[e]);
                if !is_rest_name(s@) {
                    let n = mp.objs[e]->Array_0[1];
                    assert(n != o_f);
                    assert(memory@.objs[n] == mp.objs[n]);
                }
            }
        },
        Value::Array => {
            let ghost v = m1.objs[it]->Array_0;
            let itemn = memory.array_len(item);
            if itemn != 2 {
                proof {
                    crate::memory::lemma_kept_except_of_kept(m1, memory@, o_f);
                }
                let mut m = "`".to_owned();
                m.append(name);
                m.append("` \"args\" list, item ");
                m.append(usize_to_string(idx).as_str());
                m.append(" is not a pair (len ");
                m.append(usize_to_string(itemn).as_str());
                m.append(")");
                return Err(Error { message: m });
            }
            let ghost t3 = tmp@;
            let first = match s_array_get(memory, item, 0, Ghost(m0), Ghost(tmp@)) {
                Some(x) => x,
                None => return Err(crate::eval::internal_error()),
            };
            keep(tmp, first);
            proof {
                lemma_in_tmp(m0, memory@, g, tmp@, tmp@, first);
                assert(memory@.obj(first) == v[0]);
                assert(memory@.objs == m1.objs);
            }
            match memory.value(first) {
                Value::Primitive(Primitive::String(s)) => {
                    if starts_with_amp(&s) {
                        proof {
                            crate::memory::lemma_kept_except_of_kept(m1, memory@, o_f);
                        }
                        let mut m = "`".to_owned();
                        m.append(name);
                        m.append("` \"args\" list, item ");
                        m.append(usize_to_string(idx).as_str());
                        m.append(", & argument cannot have an inital value");
                        return Err(Error { message: m });
                    }
                },
                _ => {
                    proof {
                        crate::memory::lemma_kept_except_of_kept(m1, memory@, o_f);
                    }
                    return Err(item_error(name, idx, "` \"args\" list, item ", &iv));
                },
            }
            let ghost mq = memory@;
            let pair = match s_array_of(memory, position_unknown_exec(), &[], Ghost(m0), Ghost(tmp@)) {
                Ok(p) => p,
                Err(e) => {
                    proof {
                        crate::memory::lemma_kept_trans(m1, mq, memory@);
                        crate::memory::lemma_kept_except_of_kept(m1, memory@, o_f);
                        crate::memory::lemma_kept_live(m1, memory@, filtered);
                    }
                    return Err(e);
                },
            };
            keep(tmp, pair);
            let ghost m2 = memory@;
            let ghost op = m2.obj(pair);
            proof {
                lemma_in_tmp(m0, memory@, g, tmp@, tmp@, pair);
                lemma_in_tmp(m0, memory@, g, t3.push(first), tmp@, first);
                lemma_in_tmp(m0, memory@, g, t2.push(item), tmp@, item);
                crate::memory::lemma_kept_trans(m1, mq, m2);
                assert(!m1.objs.contains_key(op));
                memory.lemma_ok();
            }
            s_array_push(memory, pair, first, Ghost(m0), Ghost(tmp@));
            let ghost m3 = memory@;
            proof {
                lemma_in_tmp(m0, memory@, g, t2.push(item), tmp@, item);
                crate::memory::lemma_kept_except_of_changed(m2, m3, op, m3.objs[op]);
                crate::memory::lemma_kept_of_kept_except(m1, m2, m3, op);
                assert(m3.objs[op] == Obj::Array(seq![v[0]], position_unknown())) by {
                    assert(m2.obj(first) == mq.obj(first));
                    assert(m2.obj(first) == v[0]);
                    assert(m2.cell(pair)->Array_0 =~= Seq::<nat>::empty());
                    assert(m2.cell(pair)->Array_0.push(v[0]) =~= seq![v[0]]);
                }
            }
            match memory.value(item) {
                Value::Array => {},
                _ => return Err(crate::eval::internal_error()),
            }
            let second = match s_array_get(memory, item, 1, Ghost(m0), Ghost(tmp@)) {
                Some(x) => x,
                None => return Err(crate::eval::internal_error()),
            };
            keep(tmp, second);
            proof {
                lemma_in_tmp(m0, memory@, g, tmp@, tmp@, second);
                assert(memory@.obj(second) == v[1]);
                memory.lemma_closed();
                crate::memory::lemma_kept_live(m1, memory@, g);
                assert(memory@.objs[v[1]] == m1.objs[v[1]]);
                assert(initial_model(memory@, g, v[1]) == initial_model(m1, g, v[1]));
            }
            let ghost t4 = tmp@;
            let ghost m4 = memory@;
            let init = match filter_initial(memory, second, Ghost(m0), tmp) {
                Ok(x) => x,
                Err(e) => {
                    proof {
                        crate::memory::lemma_kept_except_of_kept(m1, memory@, o_f);
                        crate::memory::lemma_kept_live(m1, memory@, filtered);
                    }
                    return Err(e);
                },
            };
            proof {
                crate::eval::lemma_prefix_trans(t2, t4, tmp@);
            }
            keep(tmp, init);
            proof {
                lemma_in_tmp(m0, memory@, g, tmp@, tmp@, init);
                crate::eval::lemma_prefix_trans(t3, t4, tmp@);
                lemma_in_tmp(m0, memory@, g, t3.push(first).push(pair), tmp@, pair);
            }
            match memory.value(pair) {
                Value::Array => {},
                _ => return Err(crate::eval::internal_error()),
            }
            let ghost m5 = memory@;
            proof {
                memory.lemma_ok();
            }
            s_array_push(memory, pair, init, Ghost(m0), Ghost(tmp@));
            let ghost m6 = memory@;
            proof {
                lemma_in_tmp(m0, memory@, g, t1, tmp@, filtered);
                lemma_in_tmp(m0, memory@, g, t3.push(first).push(pair), tmp@, pair);
                crate::memory::lemma_kept_except_of_changed(m5, m6, op, m6.objs[op]);
                crate::memory::lemma_kept_of_kept_except(m1, m5, m6, op);
                assert(m5.objs[op] == m3.objs[op]);
                assert(m5.obj(init) == initial_model(m1, g, v[1]).unwrap());
                assert(m6.objs[op] == Obj::Array(seq![v[0], initial_model(m1, g, v[1]).unwrap()], position_unknown())) by {
                    assert(seq![v[0]].push(m5.obj(init)) =~= seq![v[0], initial_model(m1, g, v[1]).unwrap()]);
                }
                crate::memory::lemma_kept_live(m1, memory@, filtered);
            }
            match memory.value(filtered) {
                Value::Array => {},
                _ => return Err(crate::eval::internal_error()),
            }
            s_array_push(memory, filtered, pair, Ghost(m0), Ghost(tmp@));
            proof {
                memory.lemma_ok();
                memory.lemma_closed();
                crate::memory::lemma_kept_except_of_kept(m1, m6, o_f);
                crate::memory::lemma_kept_except_of_changed(m6, memory@, o_f, memory@.objs[o_f]);
                crate::memory::lemma_kept_except_trans(m1, m6, memory@, o_f);
                assert(memory.elems(filtered) == f0.push(op));
                assert(op != o_f);
                assert(memory@.objs[op] == m6.objs[op]);
            }
        },
        _ => {
            proof {
                crate::memory::lemma_kept_except_of_kept(m1, memory@, o_f);
            }
            return Err(item_error(name, idx, "` \"args\" list, item ", &iv));
        },
    }
    Ok(())
}

/// Whether an arguments list can make arguments: none, nil, or an array
/// of items that each can.
pub open spec fn args_ok(m: MemoryModel, g: MemHandle, spec: Option<MemHandle>) -> bool {
    match spec {
        None => true,
        Some(a) => m.value(a) == ValueModel::Primitive(PrimModel::Nil) || (m.value(a) is Array
            && forall|i: int| 0 <= i < m.cell(a)->Array_0.len()
                ==> arg_item_ok(m, g, #[trigger] m.cell(a)->Array_0[i], i + 1 >= m.cell(a)->Array_0.len())),
    }
}

/// `x` is the arguments that `spec` makes in the heap `m0`, as the heap `m`
/// holds them: a new nil for none; nil itself; otherwise a new array of the
/// arguments made from the list's items, in order.
pub open spec fn args_made(m0: MemoryModel, g: MemHandle, spec: Option<MemHandle>, m: MemoryModel, x: nat) -> bool {
    match spec {
        None => m.objs.contains_key(x) && m.objs[x] == Obj::Prim(PrimModel::Nil),
        Some(a) => if m0.value(a) == ValueModel::Primitive(PrimModel::Nil) {
            x == m0.obj(a)
        } else {
            let items = m0.cell(a)->Array_0;
            &&& m0.cell(a) is Array
            &&& m.objs.contains_key(x)
            &&& !m0.objs.contains_key(x)
            &&& m.objs[x] is Array
            &&& m.objs[x]->Array_1 == position_unknown()
            &&& m.objs[x]->Array_0.len() == items.len()
            &&& forall|i: int| 0 <= i < items.len() ==> arg_made(m0, g, items[i], m, #[trigger] m.objs[x]->Array_0[i])
        },
    }
}

/// The arguments of a function being made: nil for none; from an array of
/// names, each with nil as its default, or pairs of a name and a default,
/// and a last name after `&` for the rest of the arguments.
fn fun_args(memory: &mut Memory, name: &str, spec_args: Option<MemHandle>, Ghost(m0): Ghost<MemoryModel>, tmp: &mut Vec<MemHandle>) -> (r: Result<MemHandle, Error>)
    requires
        old(memory).wf(),
        scratch_ok(m0, old(memory)@, old(memory).globals_handle(), old(tmp)@),
        spec_args matches Some(a) ==> m0.live(a),
    ensures
        final(memory).wf(),
        final(memory).globals_handle() == old(memory).globals_handle(),
        r is Ok ==> crate::eval::prefix(old(tmp)@, final(tmp)@),
        scratch_ok(m0, final(memory)@, old(memory).globals_handle(), final(tmp)@),
        r matches Ok(x) ==> final(tmp)@.contains(x),
        old(memory)@.kept_in(final(memory)@),
        r matches Ok(x) ==> args_made(old(memory)@, old(memory).globals_handle(), spec_args, final(memory)@, final(memory)@.obj(x)),
        r is Ok ==> args_ok(old(memory)@, old(memory).globals_handle(), spec_args),
        r matches Err(e) ==> (out_of_memory(e) && final(memory).full()) || !args_ok(old(memory)@, old(memory).globals_handle(), spec_args),
{
    let ghost g = memory.globals_handle();
    let ghost t0 = tmp@;
    let ghost me = memory@;
    proof {
        assert(crate::eval::prefix(t0, t0)) by {
            assert(t0.subrange(0, t0.len() as int) =~= t0);
        }
        old(memory).lemma_ok();
        old(memory).lemma_closed();
        old(memory).lemma_globals();
        assert(me.kept_in(me));
    }
    let a = match spec_args {
        None => {
            let n = s_make(memory, Value::Primitive(Primitive::Nil), Ghost(m0), Ghost(tmp@))?;
            keep(tmp, n);
            return Ok(n);
        },
        Some(a) => a,
    };
    proof {
        crate::memory::lemma_kept_live_h(m0, memory@, a);
    }
    match memory.value(a) {
        Value::Primitive(Primitive::Nil) => {
            let c = s_copy(memory, a, Ghost(m0), Ghost(tmp@));
            keep(tmp, c);
            return Ok(c);
        },
        Value::Array => {},
        v => {
            let mut m = "`".to_owned();
            m.append(name);
            m.append("` expects array for arguments, got: ");
            m.append(v.debug_text().as_str());
            return Err(Error { message: m });
        },
    }
    let filtered = match s_array_of(memory, position_unknown_exec(), &[], Ghost(m0), Ghost(tmp@)) {
        Ok(f) => f,
        Err(e) => return Err(e),
    };
    keep(tmp, filtered);
    let ghost t1 = tmp@;
    let ghost o_f = memory@.obj(filtered);
    let ghost items = me.cell(a)->Array_0;
    proof {
        crate::eval::lemma_prefix_trans(t0, t0, t1);
        crate::memory::lemma_kept_live(me, memory@, a);
        assert(memory.elems(filtered) =~= Seq::<nat>::empty());
    }
    let argsn = memory.array_len(a);
    let mut idx: usize = 0;
    while idx < argsn
        invariant
            memory.wf(),
            memory.globals_handle() == g,
            g == old(memory).globals_handle(),
            scratch_ok(m0, memory@, g, tmp@),
            crate::eval::prefix(t1, tmp@),
            crate::eval::prefix(t0, t1),
            t1.contains(filtered),
            t0 == old(tmp)@,
            m0.live(a),
            me == old(memory)@,
            me.ok(),
            me.closed(),
            me.live(g),
            me.live(a),
            me.kept_in(memory@),
            !me.objs.contains_key(o_f),
            memory@.live(filtered),
            memory@.obj(filtered) == o_f,
            memory@.cell(filtered) is Array,
            memory.pos(filtered) == position_unknown(),
            memory@.live(a),
            memory@.cell(a) == me.cell(a),
            me.cell(a) is Array,
            items == me.cell(a)->Array_0,
            argsn == items.len(),
            idx <= argsn,
            spec_args == Some(a),
            memory.elems(filtered).len() == idx,
            forall|k: int| 0 <= k < idx ==> arg_made(me, g, items[k], memory@, #[trigger] memory.elems(filtered)[k])
                && memory.elems(filtered)[k] != o_f
                && (name_case(me, items[k]) ==> memory@.objs[memory.elems(filtered)[k]]->Array_0[1] != o_f),
            forall|k: int| 0 <= k < idx ==> arg_item_ok(me, g, #[trigger] items[k], k + 1 >= argsn),
        decreases argsn - idx,
    {
        let ghost t2 = tmp@;
        let ghost mi = memory@;
        let ghost fi = memory.elems(filtered);
        let ghost it = items[idx as int];
        proof {
            memory.lemma_closed();
            assert(me.objs.contains_key(it));
            assert(mi.objs.contains_key(it));
        }
        match add_arg_item(memory, name, a, idx, idx + 1 >= argsn, filtered, Ghost(m0), tmp) {
            Ok(()) => {},
            Err(e) => {
                proof {
                    lemma_arg_kept(me, mi, g, it, idx + 1 >= argsn, mi, 0);
                    crate::memory::lemma_kept_of_kept_except(me, mi, memory@, o_f);
                    assert(me.cell(a)->Array_0[idx as int] == it);
                }
                return Err(e);
            },
        }
        proof {
            crate::eval::lemma_prefix_trans(t1, t2, tmp@);
            crate::memory::lemma_kept_of_kept_except(me, mi, memory@, o_f);
            crate::memory::lemma_kept_live(me, memory@, a);
            memory.lemma_closed();
            let e = memory.elems(filtered).last();
            lemma_arg_kept(me, mi, g, it, idx + 1 >= argsn, memory@, e);
            assert forall|k: int| 0 <= k < idx + 1 implies arg_made(me, g, items[k], memory@, #[trigger] memory.elems(filtered)[k])
                && memory.elems(filtered)[k] != o_f
                && (name_case(me, items[k]) ==> memory@.objs[memory.elems(filtered)[k]]->Array_0[1] != o_f) by {
                if k < idx {
                    assert(memory.elems(filtered)[k] == fi[k]);
                    lemma_arg_made_kept(me, g, items[k], mi, memory@, fi[k], o_f);
                    assert(memory@.objs[fi[k]] == mi.objs[fi[k]]);
                } else {
                    assert(memory.elems(filtered)[k] == e);
                }
            }
        }
        idx = idx + 1;
    }
    proof {
        crate::eval::lemma_prefix_trans(t0, t1, tmp@);
        crate::eval::lemma_prefix_contains(t1, tmp@, filtered);
    }
    Ok(filtered)
}

/// Binds item `idx` of the locals list `l` in the dictionary `filtered`: a
/// name to itself, a pair of a name and an initial value to that value.
#[verifier::rlimit(80)]
fn add_local_item(memory: &mut Memory, name: &str, l: MemHandle, idx: usize, filtered: MemHandle,
    Ghost(m0): Ghost<MemoryModel>, tmp: &mut Vec<MemHandle>) -> (r: Result<(), Error>)
    requires
        old(memory).wf(),
        scratch_ok(m0, old(memory)@, old(memory).globals_handle(), old(tmp)@),
        m0.live(l),
        old(tmp)@.contains(filtered),
        old(memory)@.cell(l) is Array,
        idx < old(memory).elems(l).len(),
        old(memory)@.cell(filtered) is Dict,
    ensures
        final(memory).wf(),
        final(memory).globals_handle() == old(memory).globals_handle(),
        r is Ok ==> crate::eval::prefix(old(tmp)@, final(tmp)@),
        scratch_ok(m0, final(memory)@, old(memory).globals_handle(), final(tmp)@),
        old(memory)@.kept_except(final(memory)@, old(memory)@.obj(filtered)),
        final(memory)@.live(filtered),
        final(memory)@.obj(filtered) == old(memory)@.obj(filtered),
        final(memory)@.cell(filtered) is Dict,
        r is Ok ==> local_item_model(old(memory)@, old(memory).globals_handle(), old(memory).entries(filtered),
            old(memory).elems(l)[idx as int]) == Some(final(memory).entries(filtered)),
        r is Err ==> local_item_model(old(memory)@, old(memory).globals_handle(), old(memory).entries(filtered),
            old(memory).elems(l)[idx as int]) is None,
{
    let ghost g = memory.globals_handle();
    let ghost m1 = memory@;
    let ghost o_f = m1.obj(filtered);
    let ghost d0 = old(memory).entries(filtered);
    let ghost it = old(memory).elems(l)[idx as int];
    let ghost t1 = tmp@;
    proof {
        lemma_in_tmp(m0, memory@, g, t1, tmp@, filtered);
        crate::memory::lemma_kept_live_h(m0, memory@, l);
        assert(crate::eval::prefix(t1, t1)) by {
            assert(t1.subrange(0, t1.len() as int) =~= t1);
        }
        old(memory).lemma_ok();
        old(memory).lemma_globals();
        assert(m1.kept_in(m1));
    }
    match memory.value(l) {
        Value::Array => {},
        _ => return Err(crate::eval::internal_error()),
    }
    let item = match s_array_get(memory, l, idx, Ghost(m0), Ghost(tmp@)) {
        Some(x) => x,
        None => return Err(crate::eval::internal_error()),
    };
    keep(tmp, item);
    proof {
        lemma_in_tmp(m0, memory@, g, tmp@, tmp@, item);
        lemma_in_tmp(m0, memory@, g, t1, tmp@, filtered);
        crate::memory::lemma_kept_live(m1, memory@, filtered);
        crate::memory::lemma_kept_live(m1, memory@, g);
        assert(memory@.obj(item) == it);
    }
    let iv = memory.value(item);
    match iv {
        Value::Primitive(Primitive::String(k)) => {
            match memory.value(filtered) {
                Value::Dict => {},
                _ => return Err(crate::eval::internal_error()),
            }
            let ghost m2 = memory@;
            s_dict_set(memory, filtered, Primitive::String(k), item, Ghost(m0), Ghost(tmp@));
            proof {
                memory.lemma_ok();
                crate::memory::lemma_kept_except_of_kept(m1, m2, o_f);
                crate::memory::lemma_kept_except_of_changed(m2, memory@, o_f, memory@.objs[o_f]);
                crate::memory::lemma_kept_except_trans(m1, m2, memory@, o_f);
                assert(m1.objs[it] == Obj::Prim(PrimModel::Str(k@)));
            }
            Ok(())
        },
        Value::Array => {
            if memory.array_len(item) != 2 {
                proof {
                    crate::memory::lemma_kept_except_of_kept(m1, memory@, o_f);
                }
                return Err(item_error(name, idx, "` locals item ", &iv));
            }
            let ghost t2 = tmp@;
            let ghost v = m1.objs[it]->Array_0;
            let key_h = match s_array_get(memory, item, 0, Ghost(m0), Ghost(tmp@)) {
                Some(x) => x,
                None => return Err(crate::eval::internal_error()),
            };
            keep(tmp, key_h);
            proof {
                lemma_in_tmp(m0, memory@, g, tmp@, tmp@, key_h);
                lemma_in_tmp(m0, memory@, g, t2, tmp@, item);
                assert(memory@.obj(key_h) == v[0]);
                assert(memory@.objs == m1.objs);
            }
            let key = match memory.value(key_h) {
                Value::Primitive(Primitive::String(k)) => Primitive::String(k),
                v => {
                    proof {
                        crate::memory::lemma_kept_except_of_kept(m1, memory@, o_f);
                    }
                    let mut m = "`".to_owned();
                    m.append(name);
                    m.append("` locals item ");
                    m.append(usize_to_string(idx).as_str());
                    m.append(", key is not a string: ");
                    m.append(v.debug_text().as_str());
                    return Err(Error { message: m });
                },
            };
            match memory.value(item) {
                Value::Array => {},
                _ => return Err(crate::eval::internal_error()),
            }
            let ghost t3 = tmp@;
            let vh = match s_array_get(memory, item, 1, Ghost(m0), Ghost(tmp@)) {
                Some(x) => x,
                None => return Err(crate::eval::internal_error()),
            };
            keep(tmp, vh);
            proof {
                lemma_in_tmp(m0, memory@, g, tmp@, tmp@, vh);
                assert(memory@.obj(vh) == v[1]);
                assert(memory@.objs == m1.objs);
                crate::memory::lemma_kept_live(m1, memory@, g);
                assert(initial_model(memory@, g, v[1]) == initial_model(m1, g, v[1]));
            }
            let ghost t4 = tmp@;
            let ghost m3 = memory@;
            let init = match filter_initial(memory, vh, Ghost(m0), tmp) {
                Ok(x) => x,
                Err(e) => {
                    proof {
                        crate::memory::lemma_kept_except_of_kept(m1, memory@, o_f);
                    }
                    return Err(e);
                },
            };
            proof {
                crate::eval::lemma_prefix_trans(t3, t4, tmp@);
                crate::eval::lemma_prefix_trans(t1, t3, tmp@);
            }
            keep(tmp, init);
            proof {
                lemma_in_tmp(m0, memory@, g, tmp@, tmp@, init);
                lemma_in_tmp(m0, memory@, g, t1, tmp@, filtered);
                crate::memory::lemma_kept_live(m1, memory@, filtered);
            }
            match memory.value(filtered) {
                Value::Dict => {},
                _ => return Err(crate::eval::internal_error()),
            }
            let ghost m4 = memory@;
            s_dict_set(memory, filtered, key, init, Ghost(m0), Ghost(tmp@));
            proof {
                memory.lemma_ok();
                assert(m4.objs == m1.objs);
                crate::memory::lemma_kept_except_of_kept(m1, m4, o_f);
                crate::memory::lemma_kept_except_of_changed(m4, memory@, o_f, memory@.objs[o_f]);
                crate::memory::lemma_kept_except_trans(m1, m4, memory@, o_f);
            }
            Ok(())
        },
        _ => {
            proof {
                crate::memory::lemma_kept_except_of_kept(m1, memory@, o_f);
            }
            Err(item_error(name, idx, "` locals item ", &iv))
        },
    }
}

/// Whether a locals list can make locals: none, nil, a dictionary, or an
/// array of names and pairs of a name and an initial value.
pub open spec fn locals_ok(m: MemoryModel, g: MemHandle, spec: Option<MemHandle>) -> bool {
    match spec {
        None => true,
        Some(l) => m.value(l) == ValueModel::Primitive(PrimModel::Nil) || m.value(l) is Dict
            || (m.value(l) is Array && locals_model(m, g, m.cell(l)->Array_0) is Some),
    }
}

/// `x` is the locals that `spec` makes in the heap `m0`, as the heap `m`
/// holds it: a new nil for none; nil or a dictionary itself; otherwise a new
/// dictionary of the list's bindings.
pub open spec fn locals_made(m0: MemoryModel, g: MemHandle, spec: Option<MemHandle>, m: MemoryModel, x: nat) -> bool {
    match spec {
        None => m.objs.contains_key(x) && m.objs[x] == Obj::Prim(PrimModel::Nil),
        Some(l) => if m0.value(l) == ValueModel::Primitive(PrimModel::Nil) || m0.value(l) is Dict {
            x == m0.obj(l)
        } else {
            m0.cell(l) is Array && m.objs.contains_key(x) && m.objs[x] is Dict && !m0.objs.contains_key(x)
                && Some(m.objs[x]->Dict_0) == locals_model(m0, g, m0.cell(l)->Array_0)
        },
    }
}

/// The locals of a function being made: nil for none; a dictionary as it
/// is; from an array of names and pairs of a name and an initial value.
fn fun_locals(memory: &mut Memory, name: &str, spec_locals: Option<MemHandle>, Ghost(m0): Ghost<MemoryModel>, tmp: &mut Vec<MemHandle>) -> (r: Result<MemHandle, Error>)
    requires
        old(memory).wf(),
        scratch_ok(m0, old(memory)@, old(memory).globals_handle(), old(tmp)@),
        spec_locals matches Some(l) ==> m0.live(l),
    ensures
        final(memory).wf(),
        final(memory).globals_handle() == old(memory).globals_handle(),
        r is Ok ==> crate::eval::prefix(old(tmp)@, final(tmp)@),
        scratch_ok(m0, final(memory)@, old(memory).globals_handle(), final(tmp)@),
        r matches Ok(x) ==> final(tmp)@.contains(x),
        old(memory)@.kept_in(final(memory)@),
        r matches Ok(x) ==> locals_made(old(memory)@, old(memory).globals_handle(), spec_locals, final(memory)@, final(memory)@.obj(x)),
        r is Ok ==> locals_ok(old(memory)@, old(memory).globals_handle(), spec_locals),
        r matches Err(e) ==> (out_of_memory(e) && final(memory).full()) || !locals_ok(old(memory)@, old(memory).globals_handle(), spec_locals),
{
    let ghost g = memory.globals_handle();
    let ghost t0 = tmp@;
    let ghost me = memory@;
    proof {
        old(memory).lemma_ok();
        old(memory).lemma_closed();
        old(memory).lemma_globals();
        assert(me.kept_in(me));
    }
    let l = match spec_locals {
        None => {
            let n = s_make(memory, Value::Primitive(Primitive::Nil), Ghost(m0), Ghost(tmp@))?;
            keep(tmp, n);
            return Ok(n);
        },
        Some(l) => l,
    };
    proof {
        crate::memory::lemma_kept_live_h(m0, memory@, l);
    }
    match memory.value(l) {
        Value::Primitive(Primitive::Nil) | Value::Dict => {
            let c = s_copy(memory, l, Ghost(m0), Ghost(tmp@));
            keep(tmp, c);
            return Ok(c);
        },
        Value::Array => {},
        _ => {
            let mut m = "`".to_owned();
            m.append(name);
            m.append("` expects array or dict for locals");
            return Err(Error { message: m });
        },
    }
    let filtered = s_dict_new(memory, Ghost(m0), Ghost(tmp@))?;
    keep(tmp, filtered);
    let ghost t1 = tmp@;
    let ghost o_f = memory@.obj(filtered);
    let ghost items = me.cell(l)->Array_0;
    proof {
        assert(!me.objs.contains_key(o_f)) by {
            if me.objs.contains_key(o_f) {
                assert(o_f < me.next);
            }
        }
        crate::memory::lemma_kept_live(me, memory@, l);
        assert(items.take(0) =~= Seq::<nat>::empty());
        assert(memory.entries(filtered) =~= Seq::<(PrimModel, nat)>::empty());
    }
    let n = memory.array_len(l);
    let mut idx: usize = 0;
    while idx < n
        invariant
            memory.wf(),
            memory.globals_handle() == g,
            g == old(memory).globals_handle(),
            scratch_ok(m0, memory@, g, tmp@),
            crate::eval::prefix(t1, tmp@),
            crate::eval::prefix(t0, t1),
            t1.contains(filtered),
            t0 == old(tmp)@,
            m0.live(l),
            me == old(memory)@,
            me.ok(),
            me.closed(),
            me.live(g),
            me.live(l),
            me.kept_in(memory@),
            !me.objs.contains_key(o_f),
            memory@.live(filtered),
            memory@.obj(filtered) == o_f,
            memory@.cell(filtered) is Dict,
            memory@.live(l),
            memory@.cell(l) == me.cell(l),
            me.cell(l) is Array,
            items == me.cell(l)->Array_0,
            n == items.len(),
            idx <= n,
            locals_model(me, g, items.take(idx as int)) == Some(memory.entries(filtered)),
            spec_locals == Some(l),
        decreases n - idx,
    {
        let ghost t2 = tmp@;
        let ghost mi = memory@;
        let ghost di = memory.entries(filtered);
        let ghost it = items[idx as int];
        proof {
            crate::eval::lemma_prefix_contains(t1, tmp@, filtered);
            memory.lemma_closed();
            assert(me.objs.contains_key(it));
            assert(mi.objs.contains_key(it));
            lemma_local_item_kept(me, mi, g, di, it);
            assert(items.take(idx + 1).drop_last() =~= items.take(idx as int));
            assert(items.take(idx + 1).last() == it);
        }
        match add_local_item(memory, name, l, idx, filtered, Ghost(m0), tmp) {
            Ok(()) => {},
            Err(e) => {
                proof {
                    assert(locals_model(me, g, items.take(idx + 1)) is None);
                    lemma_locals_none(me, g, items, idx + 1);
                }
                return Err(e);
            },
        }
        proof {
            crate::eval::lemma_prefix_trans(t1, t2, tmp@);
            crate::memory::lemma_kept_of_kept_except(me, mi, memory@, o_f);
            crate::memory::lemma_kept_live(me, memory@, l);
        }
        idx = idx + 1;
    }
    proof {
        crate::eval::lemma_prefix_trans(t0, t1, tmp@);
        crate::eval::lemma_prefix_contains(t1, tmp@, filtered);
        assert(items.take(n as int) =~= items);
    }
    Ok(filtered)
}

proof fn lemma_locals_model_kept(m1: MemoryModel, m2: MemoryModel, g: MemHandle, items: Seq<nat>)
    requires
        m1.kept_in(m2),
        m1.closed(),
        m2.closed(),
        m1.live(g),
        forall|i: int| 0 <= i < items.len() ==> m1.objs.contains_key(#[trigger] items[i]) && m2.objs.contains_key(items[i]),
    ensures
        locals_model(m1, g, items) == locals_model(m2, g, items),
    decreases items.len(),
{
    if items.len() > 0 {
        let p = items.drop_last();
        assert forall|i: int| 0 <= i < p.len() implies m1.objs.contains_key(#[trigger] p[i]) && m2.objs.contains_key(p[i]) by {
            assert(p[i] == items[i]);
        }
        lemma_locals_model_kept(m1, m2, g, p);
        match locals_model(m1, g, p) {
            Some(d) => lemma_local_item_kept(m1, m2, g, d, items.last()),
            None => {},
        }
    }
}

/// Which locals and arguments are made, and what they come to, depends only
/// on objects that the heap keeps.
proof fn lemma_spec_kept(m1: MemoryModel, m2: MemoryModel, g: MemHandle, locals: Option<MemHandle>, args: Option<MemHandle>,
    m: MemoryModel, xl: nat, xa: nat)
    requires
        m1.kept_in(m2),
        m1.closed(),
        m2.closed(),
        m1.live(g),
        locals matches Some(l) ==> m1.live(l),
        args matches Some(a) ==> m1.live(a),
        m1.ok(),
        m2.kept_in(m),
        m.objs.contains_key(xl),
        m.objs.contains_key(xa),
    ensures
        locals_ok(m1, g, locals) == locals_ok(m2, g, locals),
        locals_made(m2, g, locals, m, xl) ==> locals_made(m1, g, locals, m, xl),
        args_ok(m1, g, args) == args_ok(m2, g, args),
        args_made(m2, g, args, m, xa) ==> args_made(m1, g, args, m, xa),
{
    assert(!m2.objs.contains_key(xl) ==> !m1.objs.contains_key(xl)) by {
        if !m2.objs.contains_key(xl) && m1.objs.contains_key(xl) {
            assert(xl >= m2.next);
        }
    }
    assert(!m2.objs.contains_key(xa) ==> !m1.objs.contains_key(xa)) by {
        if !m2.objs.contains_key(xa) && m1.objs.contains_key(xa) {
            assert(xa >= m2.next);
        }
    }
    match locals {
        Some(l) => {
            crate::memory::lemma_kept_live(m1, m2, l);
            assert(m2.cell(l) == m1.cell(l));
            assert(m2.value(l) == m1.value(l));
            if m1.cell(l) is Array {
                let items = m1.cell(l)->Array_0;
                assert forall|i: int| 0 <= i < items.len() implies m1.objs.contains_key(#[trigger] items[i]) && m2.objs.contains_key(items[i]) by {
                    assert(m1.objs[m1.obj(l)]->Array_0[i] == items[i]);
                    assert(m2.objs[m2.obj(l)]->Array_0[i] == items[i]);
                }
                lemma_locals_model_kept(m1, m2, g, items);
            }
            assert(locals_ok(m1, g, locals) == locals_ok(m2, g, locals));
            assert(locals_made(m2, g, locals, m, xl) ==> locals_made(m1, g, locals, m, xl));
        },
        None => {},
    }
    match args {
        Some(a) => {
            crate::memory::lemma_kept_live(m1, m2, a);
            assert(m2.cell(a) == m1.cell(a));
            assert(m2.value(a) == m1.value(a));
            if m1.cell(a) is Array {
                let items = m1.cell(a)->Array_0;
                assert forall|i: int| 0 <= i < items.len() implies
                    arg_item_ok(m1, g, #[trigger] items[i], i + 1 >= items.len()) == arg_item_ok(m2, g, items[i], i + 1 >= items.len())
                    && arg_made(m1, g, items[i], m, m.objs[xa]->Array_0[i]) == arg_made(m2, g, items[i], m, m.objs[xa]->Array_0[i]) by {
                    assert(m1.objs[m1.obj(a)]->Array_0[i] == items[i]);
                    assert(m2.objs[m2.obj(a)]->Array_0[i] == items[i]);
                    lemma_arg_kept(m1, m2, g, items[i], i + 1 >= items.len(), m, m.objs[xa]->Array_0[i]);
                }
            }
            assert(args_ok(m1, g, args) == args_ok(m2, g, args));
            assert(args_made(m2, g, args, m, xa) ==> args_made(m1, g, args, m, xa));
        },
        None => {},
    }
}

/// What a heap that keeps its objects still holds of made arguments and
/// locals.
proof fn lemma_made_kept(m0: MemoryModel, g: MemHandle, locals: Option<MemHandle>, args: Option<MemHandle>,
    m1: MemoryModel, m2: MemoryModel, xl: nat, xa: nat)
    requires
        m1.kept_in(m2),
        m2.closed(),
        m1.closed(),
        m2.objs.contains_key(xl),
        m2.objs.contains_key(xa),
    ensures
        locals_made(m0, g, locals, m1, xl) ==> locals_made(m0, g, locals, m2, xl),
        args_made(m0, g, args, m1, xa) ==> args_made(m0, g, args, m2, xa),
{
    if args_made(m0, g, args, m1, xa) {
        match args {
            Some(a) => {
                if !(m0.value(a) == ValueModel::Primitive(PrimModel::Nil)) {
                    let items = m0.cell(a)->Array_0;
                    assert(m2.objs[xa] == m1.objs[xa]);
                    assert forall|i: int| 0 <= i < items.len() implies arg_made(m0, g, items[i], m2, #[trigger] m2.objs[xa]->Array_0[i]) by {
                        let e = m1.objs[xa]->Array_0[i];
                        assert(arg_made(m0, g, items[i], m1, e));
                        assert(m2.objs.contains_key(e));
                        assert(m2.objs[e] == m1.objs[e]);
                        if name_case(m0, items[i]) {
                            let n = m1.objs[e]->Array_0[1];
                            assert(m2.objs[e]->Array_0[1] == n);
                            assert(m2.objs.contains_key(n));
                        }
                    }
                }
            },
            None => {},
        }
    }
}

/// Whether the arguments made from `spec` are nil: for none, or for nil.
pub open spec fn args_nil(m: MemoryModel, spec: Option<MemHandle>) -> bool {
    match spec {
        None => true,
        Some(a) => m.value(a) == ValueModel::Primitive(PrimModel::Nil),
    }
}

/// Whether the locals made from `spec` are nil: for none, or for nil.
pub open spec fn locals_nil(m: MemoryModel, spec: Option<MemHandle>) -> bool {
    match spec {
        None => true,
        Some(l) => m.value(l) == ValueModel::Primitive(PrimModel::Nil),
    }
}

/// The bindings of the locals made from `spec`, where they are a dictionary.
pub open spec fn locals_entries(m: MemoryModel, g: MemHandle, spec: Option<MemHandle>) -> Seq<(PrimModel, nat)> {
    match spec {
        Some(l) => if m.value(l) is Dict { m.cell(l)->Dict_0 } else { locals_model(m, g, m.cell(l)->Array_0).unwrap() },
        None => Seq::empty(),
    }
}

/// Whether a function can be made of the body, locals and arguments: each
/// of these can be made, and the body is code, or a function whose own
/// arguments are not given again.
pub open spec fn fun_ok(m: MemoryModel, g: MemHandle, body: MemHandle, locals: Option<MemHandle>, args: Option<MemHandle>) -> bool {
    &&& args_ok(m, g, args)
    &&& locals_ok(m, g, locals)
    &&& match m.cell(body) {
        Obj::Array(_, _) => true,
        Obj::Fun(_, a1, l1, _) => ((obj_value(m.objs[a1]) is Array && args_nil(m, args))
                || obj_value(m.objs[a1]) == ValueModel::Primitive(PrimModel::Nil))
            && (obj_value(m.objs[l1]) is Dict || obj_value(m.objs[l1]) == ValueModel::Primitive(PrimModel::Nil)),
        _ => false,
    }
}

/// `x`, in the heap `m`, is the function made in the heap `m0` of the body,
/// locals, arguments and name: of code, the arguments and locals made and
/// the code; of a function, its code, its arguments unless new ones are
/// given, and a new copy of its locals (with the given ones bound over them)
/// where it has a dictionary of them.
pub open spec fn fun_made(m0: MemoryModel, g: MemHandle, body: MemHandle, locals: Option<MemHandle>, args: Option<MemHandle>,
    name: Option<Seq<char>>, m: MemoryModel, x: nat) -> bool {
    &&& m.objs.contains_key(x)
    &&& m.objs[x] is Fun
    &&& m.objs[x]->Fun_0 == name
    &&& match m0.cell(body) {
        Obj::Array(_, _) => args_made(m0, g, args, m, m.objs[x]->Fun_1) && locals_made(m0, g, locals, m, m.objs[x]->Fun_2)
            && m.objs[x]->Fun_3 == m0.obj(body),
        Obj::Fun(_, a1, l1, b1) => {
            &&& m.objs[x]->Fun_3 == b1
            &&& if obj_value(m0.objs[a1]) is Array && args_nil(m0, args) {
                m.objs[x]->Fun_1 == a1
            } else {
                args_made(m0, g, args, m, m.objs[x]->Fun_1)
            }
            &&& if obj_value(m0.objs[l1]) is Dict {
                &&& m.objs.contains_key(m.objs[x]->Fun_2)
                &&& !m0.objs.contains_key(m.objs[x]->Fun_2)
                &&& m.objs[m.objs[x]->Fun_2] == Obj::Dict(if locals_nil(m0, locals) { m0.objs[l1]->Dict_0 } else {
                    crate::memory::dict_merge(m0.objs[l1]->Dict_0, locals_entries(m0, g, locals)) })
            } else {
                locals_made(m0, g, locals, m, m.objs[x]->Fun_2)
            }
        },
        _ => false,
    }
}

/// A function made of the function `body`, with the arguments `fa` and
/// locals `fl` made for it: its arguments where it has an array of them and
/// `fa` is nil, else `fa`; a new copy of its locals where it has a dictionary
/// of them, with those of `fl` bound over them, else `fl`; its code.
#[verifier::rlimit(100)]
#[verifier::spinoff_prover]
fn fun_from_fun(memory: &mut Memory, body: MemHandle, fa: MemHandle, fl: MemHandle, fun_name: Option<String>,
    Ghost(m0): Ghost<MemoryModel>, tmp: &mut Vec<MemHandle>) -> (r: Result<MemHandle, Error>)
    requires
        old(memory).wf(),
        scratch_ok(m0, old(memory)@, old(memory).globals_handle(), old(tmp)@),
        old(tmp)@.contains(fa),
        old(tmp)@.contains(fl),
        old(memory)@.live(body),
        old(memory)@.cell(body) is Fun,
        old(memory)@.value(fa) == ValueModel::Primitive(PrimModel::Nil) || old(memory)@.value(fa) is Array,
        old(memory)@.value(fl) == ValueModel::Primitive(PrimModel::Nil) || old(memory)@.value(fl) is Dict,
    ensures
        final(memory).wf(),
        final(memory).globals_handle() == old(memory).globals_handle(),
        scratch_ok(m0, final(memory)@, old(memory).globals_handle(), match r { Ok(x) => final(tmp)@.push(x), Err(_) => final(tmp)@ }),
        old(memory)@.kept_in(final(memory)@),
        r matches Ok(x) ==> ({
            let m = old(memory)@;
            let f = m.cell(body);
            let fx = final(memory)@.objs[final(memory)@.obj(x)];
            &&& final(memory)@.objs.contains_key(final(memory)@.obj(x))
            &&& fx is Fun
            &&& fx->Fun_0 == crate::memory::name_model(fun_name)
            &&& fx->Fun_3 == f->Fun_3
            &&& fx->Fun_1 == (if obj_value(m.objs[f->Fun_1]) is Array && m.value(fa) == ValueModel::Primitive(PrimModel::Nil) {
                f->Fun_1 } else { m.obj(fa) })
            &&& if obj_value(m.objs[f->Fun_2]) is Dict {
                &&& final(memory)@.objs.contains_key(fx->Fun_2)
                &&& !m.objs.contains_key(fx->Fun_2)
                &&& final(memory)@.objs[fx->Fun_2] == Obj::Dict(if m.value(fl) == ValueModel::Primitive(PrimModel::Nil) {
                    m.objs[f->Fun_2]->Dict_0 } else { crate::memory::dict_merge(m.objs[f->Fun_2]->Dict_0, m.cell(fl)->Dict_0) })
            } else {
                fx->Fun_2 == m.obj(fl)
            }
        }),
        r is Ok ==> ({
            let m = old(memory)@;
            let f = m.cell(body);
            &&& (obj_value(m.objs[f->Fun_1]) is Array && m.value(fa) == ValueModel::Primitive(PrimModel::Nil))
                || obj_value(m.objs[f->Fun_1]) == ValueModel::Primitive(PrimModel::Nil)
            &&& obj_value(m.objs[f->Fun_2]) is Dict || obj_value(m.objs[f->Fun_2]) == ValueModel::Primitive(PrimModel::Nil)
        }),
        r matches Err(e) ==> (out_of_memory(e) && final(memory).full()) || !({
            let m = old(memory)@;
            let f = m.cell(body);
            &&& (obj_value(m.objs[f->Fun_1]) is Array && m.value(fa) == ValueModel::Primitive(PrimModel::Nil))
                || obj_value(m.objs[f->Fun_1]) == ValueModel::Primitive(PrimModel::Nil)
            &&& obj_value(m.objs[f->Fun_2]) is Dict || obj_value(m.objs[f->Fun_2]) == ValueModel::Primitive(PrimModel::Nil)
        }),
{
    let ghost g = memory.globals_handle();
    let ghost me = memory@;
    let ghost t2 = tmp@;
    proof {
        old(memory).lemma_ok();
        assert(crate::eval::prefix(t2, t2)) by {
            assert(t2.subrange(0, t2.len() as int) =~= t2);
        }
    }
    let inner = crate::scratch::s_fun_unpack(memory, body, Ghost(m0), Ghost(tmp@));
    keep(tmp, inner.args);
    keep(tmp, inner.locals);
    keep(tmp, inner.body);
    let ghost t3 = tmp@;
    let ghost a1 = me.cell(body)->Fun_1;
    let ghost l1 = me.cell(body)->Fun_2;
    let ghost b1 = me.cell(body)->Fun_3;
    proof {
        assert(t3 =~= t2.push(inner.args).push(inner.locals).push(inner.body));
        assert(t3[t3.len() - 3] == inner.args && t3[t3.len() - 2] == inner.locals && t3[t3.len() - 1] == inner.body);
        assert(t3.contains(inner.args) && t3.contains(inner.locals) && t3.contains(inner.body));
        assert(crate::eval::prefix(t2, t3)) by {
            assert(t3.subrange(0, t2.len() as int) =~= t2);
        }
        assert(crate::eval::prefix(t3, t3)) by {
            assert(t3.subrange(0, t3.len() as int) =~= t3);
        }
        lemma_in_tmp(m0, memory@, g, t3, tmp@, inner.args);
        lemma_in_tmp(m0, memory@, g, t3, tmp@, inner.locals);
        lemma_in_tmp(m0, memory@, g, t2, tmp@, fa);
        lemma_in_tmp(m0, memory@, g, t2, tmp@, fl);
        assert(memory@.objs == me.objs);
        assert(memory@.obj(fa) == me.obj(fa) && memory@.obj(fl) == me.obj(fl));
        memory.lemma_ok();
    }
    let ghost m3 = memory@;
    let ia = memory.value(inner.args);
    let oa = memory.value(fa);
    let ghost ua = obj_value(me.objs[a1]) is Array && me.value(fa) == ValueModel::Primitive(PrimModel::Nil);
    let args = match (ia, oa) {
        (Value::Array, Value::Primitive(Primitive::Nil)) => {
            proof {
                assert(ua);
            }
            inner.args
        },
        (Value::Primitive(Primitive::Nil), Value::Array) | (Value::Primitive(Primitive::Nil), Value::Primitive(Primitive::Nil)) => {
            proof {
                assert(!ua);
                assert(obj_value(me.objs[a1]) == ValueModel::Primitive(PrimModel::Nil));
            }
            fa
        },
        _ => return Err(err("`fn` given non-nil array, but body is a fn that already has an array")),
    };
    proof {
        assert(ua ==> args == inner.args);
        assert(!ua ==> args == fa);
    }
    let il = memory.value(inner.locals);
    let ol = memory.value(fl);
    let ghost ul = obj_value(me.objs[l1]) is Dict;
    let ghost fnil = me.value(fl) == ValueModel::Primitive(PrimModel::Nil);
    proof {
        assert(il.model() == obj_value(me.objs[l1]));
        assert(ol.model() == me.value(fl));
    }
    let locals = match (il, ol) {
        (Value::Dict, Value::Primitive(Primitive::Nil)) => {
            let c = s_clone(memory, inner.locals, Ghost(m0), Ghost(tmp@))?;
            keep(tmp, c);
            proof {
                assert(!me.objs.contains_key(memory@.obj(c)));
            }
            c
        },
        (Value::Primitive(Primitive::Nil), Value::Dict) | (Value::Primitive(Primitive::Nil), Value::Primitive(Primitive::Nil)) => {
            proof {
                assert(m3.kept_in(memory@));
            }
            fl
        },
        (Value::Dict, Value::Dict) => {
            let c = s_clone(memory, inner.locals, Ghost(m0), Ghost(tmp@))?;
            keep(tmp, c);
            let ghost m4 = memory@;
            let ghost oc = m4.obj(c);
            proof {
                lemma_in_tmp(m0, memory@, g, tmp@, tmp@, c);
                crate::eval::lemma_prefix_push(t3, c);
                lemma_in_tmp(m0, memory@, g, t3, tmp@, fl);
                assert(!m3.objs.contains_key(oc));
                crate::memory::lemma_kept_live(m3, m4, fl);
                assert(m4.obj(fl) != oc);
                memory.lemma_ok();
            }
            match (memory.value(c), memory.value(fl)) {
                (Value::Dict, Value::Dict) => {},
                _ => return Err(crate::eval::internal_error()),
            }
            crate::scratch::s_dict_pull(memory, c, fl, Ghost(m0), Ghost(tmp@));
            proof {
                crate::memory::lemma_kept_except_of_changed(m4, memory@, oc, memory@.objs[oc]);
                crate::memory::lemma_kept_of_kept_except(m3, m4, memory@, oc);
                assert(m4.cell(fl) == m3.cell(fl));
            }
            c
        },
        _ => return Err(crate::eval::internal_error()),
    };
    let ghost m5 = memory@;
    proof {
        assert(crate::eval::prefix(t3, tmp@)) by {
            assert(tmp@.subrange(0, t3.len() as int) =~= t3);
        }
        assert(args == inner.args || args == fa);
        lemma_in_tmp(m0, memory@, g, t3, tmp@, inner.args);
        lemma_in_tmp(m0, memory@, g, t3, tmp@, inner.body);
        crate::eval::lemma_prefix_contains(t2, t3, fa);
        lemma_in_tmp(m0, memory@, g, t3, tmp@, fa);
        if locals == fl {
            crate::eval::lemma_prefix_contains(t2, t3, fl);
            lemma_in_tmp(m0, memory@, g, t3, tmp@, fl);
        } else {
            assert(tmp@.last() == locals);
            lemma_in_tmp(m0, memory@, g, tmp@, tmp@, locals);
        }
        crate::memory::lemma_kept_live(m3, m5, fa);
        crate::memory::lemma_kept_live(m3, m5, inner.args);
        crate::memory::lemma_kept_live(m3, m5, inner.body);
        crate::memory::lemma_kept_trans(me, m3, m5);
    }
    proof {
        assert(m5.obj(inner.body) == b1);
        assert(ua ==> m5.obj(args) == a1);
        assert(!ua ==> m5.obj(args) == me.obj(fa));
        assert(!ul ==> m5.obj(locals) == me.obj(fl));
        assert(ul ==> !me.objs.contains_key(m5.obj(locals)) && m5.objs.contains_key(m5.obj(locals))
            && m5.objs[m5.obj(locals)] == Obj::Dict(if fnil { me.objs[l1]->Dict_0 } else {
                crate::memory::dict_merge(me.objs[l1]->Dict_0, me.cell(fl)->Dict_0) }));
    }
    let r = crate::scratch::s_fun_new(memory, crate::memory::Fun { name: fun_name, args, locals, body: inner.body }, Ghost(m0), Ghost(tmp@));
    proof {
        crate::memory::lemma_kept_trans(me, m5, memory@);
        if r is Ok {
            memory.lemma_closed();
            crate::memory::lemma_kept_live(m5, memory@, locals);
            assert(memory@.objs[m5.obj(locals)] == m5.objs[m5.obj(locals)]);
            lemma_scratch_live(m0, memory@, g, tmp@.push(r.unwrap()), tmp@.len() as int);
            let x = memory@.obj(r.unwrap());
            let fx = memory@.objs[x];
            let f = me.cell(body);
            assert(f->Fun_1 == a1 && f->Fun_2 == l1 && f->Fun_3 == b1);
            assert(memory@.objs.contains_key(x));
            assert(fx is Fun);
            assert(fx->Fun_0 == crate::memory::name_model(fun_name));
            assert(fx->Fun_3 == f->Fun_3);
            assert(fx->Fun_1 == (if obj_value(me.objs[f->Fun_1]) is Array && me.value(fa) == ValueModel::Primitive(PrimModel::Nil) {
                f->Fun_1 } else { me.obj(fa) }));
            if ul {
                assert(memory@.objs.contains_key(fx->Fun_2));
                assert(!me.objs.contains_key(fx->Fun_2));
                assert(memory@.objs[fx->Fun_2] == Obj::Dict(if me.value(fl) == ValueModel::Primitive(PrimModel::Nil) {
                    me.objs[f->Fun_2]->Dict_0 } else { crate::memory::dict_merge(me.objs[f->Fun_2]->Dict_0, me.cell(fl)->Dict_0) }));
            } else {
                assert(fx->Fun_2 == me.obj(fl));
            }
        }
    }
    r
}

/// Makes a function of a body, locals, arguments and a name. A function
/// given as the body lends its arguments and locals where none are given
/// (its locals merged under the given ones where both are), and its body.
#[verifier::rlimit(100)]
#[verifier::spinoff_prover]
fn fun_impl(memory: &mut Memory, name: &str, spec_body: MemHandle, spec_locals: Option<MemHandle>,
    spec_args: Option<MemHandle>, fun_name: Option<String>, Ghost(m0): Ghost<MemoryModel>, tmp: &mut Vec<MemHandle>) -> (r: Result<MemHandle, Error>)
    requires
        old(memory).wf(),
        scratch_ok(m0, old(memory)@, old(memory).globals_handle(), old(tmp)@),
        m0.live(spec_body),
        spec_locals matches Some(l) ==> m0.live(l),
        spec_args matches Some(a) ==> m0.live(a),
    ensures
        final(memory).wf(),
        final(memory).globals_handle() == old(memory).globals_handle(),
        scratch_ok(m0, final(memory)@, old(memory).globals_handle(), match r { Ok(x) => final(tmp)@.push(x), Err(_) => final(tmp)@ }),
        old(memory)@.kept_in(final(memory)@),
        r matches Ok(x) ==> fun_made(old(memory)@, old(memory).globals_handle(), spec_body, spec_locals, spec_args,
            crate::memory::name_model(fun_name), final(memory)@, final(memory)@.obj(x)),
        r is Ok ==> fun_ok(old(memory)@, old(memory).globals_handle(), spec_body, spec_locals, spec_args),
        r matches Err(e) ==> (out_of_memory(e) && final(memory).full())
            || !fun_ok(old(memory)@, old(memory).globals_handle(), spec_body, spec_locals, spec_args),
{
    let ghost g = memory.globals_handle();
    let ghost t0 = tmp@;
    let ghost me = memory@;
    proof {
        old(memory).lemma_ok();
        old(memory).lemma_closed();
        old(memory).lemma_globals();
        crate::memory::lemma_kept_live_h(m0, me, spec_body);
        match spec_locals { Some(l) => crate::memory::lemma_kept_live_h(m0, me, l), None => {} }
        match spec_args { Some(a) => crate::memory::lemma_kept_live_h(m0, me, a), None => {} }
    }
    let fa = fun_args(memory, name, spec_args, Ghost(m0), tmp)?;
    let ghost t1 = tmp@;
    let ghost m1 = memory@;
    proof {
        memory.lemma_ok();
        memory.lemma_closed();
        lemma_in_tmp(m0, memory@, g, t1, tmp@, fa);
        crate::memory::lemma_kept_live(me, m1, g);
        match spec_locals { Some(l) => crate::memory::lemma_kept_live(me, m1, l), None => {} }
        match spec_args { Some(a) => crate::memory::lemma_kept_live(me, m1, a), None => {} }
    }
    let fl = match fun_locals(memory, name, spec_locals, Ghost(m0), tmp) {
        Ok(x) => x,
        Err(e) => {
            proof {
                crate::memory::lemma_kept_trans(me, m1, memory@);
                lemma_spec_kept(me, m1, g, spec_locals, spec_args, m1, m1.obj(fa), m1.obj(fa));
            }
            return Err(e);
        },
    };
    let ghost t2 = tmp@;
    let ghost m2 = memory@;
    proof {
        crate::eval::lemma_prefix_contains(t1, t2, fa);
        lemma_in_tmp(m0, memory@, g, t2, tmp@, fa);
        lemma_in_tmp(m0, memory@, g, t2, tmp@, fl);
        crate::memory::lemma_kept_live_h(m0, memory@, spec_body);
        assert(crate::eval::prefix(t2, t2)) by {
            assert(t2.subrange(0, t2.len() as int) =~= t2);
        }
        memory.lemma_ok();
        memory.lemma_closed();
        crate::memory::lemma_kept_trans(me, m1, m2);
        crate::memory::lemma_kept_live(m1, m2, fa);
        lemma_spec_kept(me, m1, g, spec_locals, spec_args, m2, m2.obj(fl), m2.obj(fa));
        lemma_made_kept(me, g, spec_locals, spec_args, m1, m2, m2.obj(fl), m2.obj(fa));
        crate::memory::lemma_kept_live(me, m2, spec_body);
        assert(m2.cell(spec_body) == me.cell(spec_body));
        // What the made arguments and locals are, as values.
        assert(obj_value(m2.objs[m2.obj(fa)]) == ValueModel::Primitive(PrimModel::Nil) <==> args_nil(me, spec_args)) by {
            match spec_args {
                Some(a) => {
                    crate::memory::lemma_kept_live(me, m2, a);
                    assert(m2.cell(a) == me.cell(a));
                },
                None => {},
            }
        }
        assert(obj_value(m2.objs[m2.obj(fl)]) == ValueModel::Primitive(PrimModel::Nil) <==> locals_nil(me, spec_locals)) by {
            match spec_locals {
                Some(l) => {
                    crate::memory::lemma_kept_live(me, m2, l);
                    assert(m2.cell(l) == me.cell(l));
                },
                None => {},
            }
        }
        assert(obj_value(m2.objs[m2.obj(fl)]) == ValueModel::Primitive(PrimModel::Nil) || m2.objs[m2.obj(fl)] is Dict) by {
            match spec_locals {
                Some(l) => {
                    crate::memory::lemma_kept_live(me, m2, l);
                    assert(m2.cell(l) == me.cell(l));
                },
                None => {},
            }
        }
        assert(m2.objs[m2.obj(fl)] is Dict ==> m2.objs[m2.obj(fl)]->Dict_0 == locals_entries(me, g, spec_locals)) by {
            match spec_locals {
                Some(l) => {
                    crate::memory::lemma_kept_live(me, m2, l);
                    assert(m2.cell(l) == me.cell(l));
                },
                None => {},
            }
        }
    }
    match memory.value(spec_body) {
        Value::Array => {
            let r = crate::scratch::s_fun_new(memory, crate::memory::Fun { name: fun_name, args: fa, locals: fl, body: spec_body },
                Ghost(m0), Ghost(tmp@));
            proof {
                crate::memory::lemma_kept_trans(me, m2, memory@);
                if r is Ok {
                    memory.lemma_closed();
                    lemma_scratch_live(m0, memory@, g, tmp@.push(r.unwrap()), tmp@.len() as int);
                    crate::memory::lemma_kept_live(m2, memory@, fa);
                    crate::memory::lemma_kept_live(m2, memory@, fl);
                    lemma_made_kept(me, g, spec_locals, spec_args, m2, memory@, m2.obj(fl), m2.obj(fa));
                }
            }
            r
        },
        Value::Fun => {
            let ghost a1 = me.cell(spec_body)->Fun_1;
            let ghost l1 = me.cell(spec_body)->Fun_2;
            let ghost b1 = me.cell(spec_body)->Fun_3;
            let r = fun_from_fun(memory, spec_body, fa, fl, fun_name, Ghost(m0), tmp);
            proof {
                crate::memory::lemma_kept_trans(me, m2, memory@);
                if r is Ok {
                    memory.lemma_closed();
                    lemma_scratch_live(m0, memory@, g, tmp@.push(r.unwrap()), tmp@.len() as int);
                    crate::memory::lemma_kept_live(m2, memory@, fa);
                    crate::memory::lemma_kept_live(m2, memory@, fl);
                    lemma_made_kept(me, g, spec_locals, spec_args, m2, memory@, m2.obj(fl), m2.obj(fa));
                    assert(me.cell(spec_body) == m2.cell(spec_body));
                    assert(me.objs[a1] == m2.objs[a1]);
                    assert(me.objs[l1] == m2.objs[l1]);
                }
            }
            r
        },
        _ => {
            proof {
                crate::memory::lemma_kept_trans(me, m2, memory@);
            }
            Err(err("`fn` expects array for body"))
        },
    }
}

/// How `fn` reads its arguments: the last is the body; before it, from the
/// right, the locals, then the arguments, then the name; a string in the
/// place of the locals or the arguments is the name instead.
/// Whether the value `h` names is a string, usable as a name.
pub open spec fn is_name(m: MemoryModel, h: MemHandle) -> bool {
    m.value(h) is Primitive && m.value(h)->Primitive_0 is Str
}

/// How `fn` reads its arguments, the last of which is the body: before it
/// the locals; before them the arguments, unless the first is a name; a
/// name first where there are four, or where the first is a string.
pub open spec fn fn_layout(m: MemoryModel, args: Seq<MemHandle>) -> (Option<MemHandle>, Option<MemHandle>, Option<Seq<char>>) {
    let n = args.len();
    let nm = if is_name(m, args[0]) { Some(m.value(args[0])->Primitive_0->Str_0) } else { None };
    if n == 2 {
        if is_name(m, args[0]) { (None, None, nm) } else { (Some(args[0]), None, None) }
    } else if n == 3 {
        if is_name(m, args[0]) { (Some(args[1]), None, nm) } else { (Some(args[1]), Some(args[0]), None) }
    } else if n == 4 {
        (Some(args[2]), Some(args[1]), nm)
    } else {
        (None, None, None)
    }
}

/// Whether `fn` can read its arguments: one to four, with a name first
/// where there are four.
pub open spec fn fn_layout_ok(m: MemoryModel, args: Seq<MemHandle>) -> bool {
    1 <= args.len() <= 4 && (args.len() == 4 ==> is_name(m, args[0]))
}

fn fn_parts(memory: &Memory, fname: &str, args: &[MemHandle]) -> (r: Result<(Option<MemHandle>, Option<MemHandle>, Option<String>), Error>)
    requires
        memory.wf(),
        forall|i: int| 0 <= i < args@.len() ==> memory@.live(#[trigger] args@[i]),
        1 <= args@.len() <= 4,
    ensures
        r matches Ok((l, a, _)) ==> (l matches Some(x) ==> args@.contains(x)) && (a matches Some(x) ==> args@.contains(x)),
        r matches Ok((l, a, nm)) ==> (l, a, crate::memory::name_model(nm)) == fn_layout(memory@, args@),
        r is Ok <==> fn_layout_ok(memory@, args@),
{
    let n = args.len();
    if n == 1 {
        return Ok((None, None, None));
    }
    let n_2 = args[n - 2];
    proof {
        assert(args@[n - 2] == n_2);
    }
    if n == 2 {
        return match memory.value(n_2) {
            Value::Primitive(Primitive::String(s)) => Ok((None, None, Some(s))),
            _ => Ok((Some(n_2), None, None)),
        };
    }
    let n_3 = args[n - 3];
    proof {
        assert(args@[n - 3] == n_3);
    }
    if n == 3 {
        return match memory.value(n_3) {
            Value::Primitive(Primitive::String(s)) => Ok((Some(n_2), None, Some(s))),
            _ => Ok((Some(n_2), Some(n_3), None)),
        };
    }
    match memory.value(args[0]) {
        Value::Primitive(Primitive::String(s)) => Ok((Some(n_2), Some(n_3), Some(s))),
        v => {
            let mut m = "Unrecognized name for `".to_owned();
            m.append(fname);
            m.append("`: ");
            m.append(v.to_text().as_str());
            Err(Error { message: m })
        },
    }
}

/// `fn` (and `do` with more than one argument): a new function.
fn fn_from_args(memory: &mut Memory, fname: &str, args: &[MemHandle], Ghost(m0): Ghost<MemoryModel>, tmp: &mut Vec<MemHandle>) -> (r: Result<MemHandle, Error>)
    requires
        old(memory).wf(),
        scratch_ok(m0, old(memory)@, old(memory).globals_handle(), old(tmp)@),
        forall|i: int| 0 <= i < args@.len() ==> m0.live(#[trigger] args@[i]),
    ensures
        final(memory).wf(),
        final(memory).globals_handle() == old(memory).globals_handle(),
        scratch_ok(m0, final(memory)@, old(memory).globals_handle(), match r { Ok(x) => final(tmp)@.push(x), Err(_) => final(tmp)@ }),
        r is Ok ==> 1 <= args@.len() <= 4,
        r matches Ok(x) ==> final(memory)@.cell(x) is Fun,
        old(memory)@.kept_in(final(memory)@),
        r matches Ok(x) ==> ({
            let lay = fn_layout(old(memory)@, args@);
            fun_made(old(memory)@, old(memory).globals_handle(), args@.last(), lay.0, lay.1, lay.2, final(memory)@, final(memory)@.obj(x))
        }),
        r is Ok ==> fn_ok(old(memory)@, old(memory).globals_handle(), args@),
        r matches Err(e) ==> (out_of_memory(e) && final(memory).full()) || !fn_ok(old(memory)@, old(memory).globals_handle(), args@),
{
    proof {
        old(memory).lemma_ok();
        assert(old(memory)@.kept_in(old(memory)@));
    }
    let n = args.len();
    if n < 1 {
        let mut m = "`".to_owned();
        m.append(fname);
        m.append("` expects at least 1 argument");
        return Err(Error { message: m });
    }
    if n > 4 {
        let mut m = "`".to_owned();
        m.append(fname);
        m.append("` expects at most 4 arguments");
        return Err(Error { message: m });
    }
    proof {
        assert forall|i: int| 0 <= i < args@.len() implies memory@.live(#[trigger] args@[i]) by {
            crate::memory::lemma_kept_live_h(m0, memory@, args@[i]);
        }
    }
    let (l, a, name) = fn_parts(memory, fname, args)?;
    proof {
        assert(args@[n - 1] == args@.last());
        match l { Some(x) => { let k = choose|k: int| 0 <= k < args@.len() && args@[k] == x; assert(m0.live(args@[k])); }, None => {} }
        match a { Some(x) => { let k = choose|k: int| 0 <= k < args@.len() && args@[k] == x; assert(m0.live(args@[k])); }, None => {} }
    }
    fun_impl(memory, fname, args[n - 1], l, a, name, Ghost(m0), tmp)
}

/// What a function made stays so where the heap's objects do.
proof fn lemma_fun_made_objs(m: MemoryModel, g: MemHandle, body: MemHandle, l: Option<MemHandle>, a: Option<MemHandle>,
    nm: Option<Seq<char>>, m1: MemoryModel, m2: MemoryModel, x: nat)
    requires
        m1.objs == m2.objs,
        fun_made(m, g, body, l, a, nm, m1, x),
    ensures
        fun_made(m, g, body, l, a, nm, m2, x),
{
    let f = m1.objs[x];
    assert(args_made(m, g, a, m1, f->Fun_1) ==> args_made(m, g, a, m2, f->Fun_1));
    assert(locals_made(m, g, l, m1, f->Fun_2) ==> locals_made(m, g, l, m2, f->Fun_2));
    match a {
        Some(h) => {
            let items = m.cell(h)->Array_0;
            assert(forall|i: int| 0 <= i < items.len() ==> arg_made(m, g, items[i], m1, #[trigger] m1.objs[f->Fun_1]->Array_0[i])
                ==> arg_made(m, g, items[i], m2, m2.objs[f->Fun_1]->Array_0[i]));
        },
        None => {},
    }
}

/// The locals that `set-fn` reads: the argument before the body, where
/// there are three or more.
pub open spec fn set_fn_locals(args: Seq<MemHandle>) -> Option<MemHandle> {
    if args.len() > 2 { Some(args[args.len() - 2]) } else { None }
}

/// The arguments that `set-fn` reads: the third from the end, where there
/// are four.
pub open spec fn set_fn_args(args: Seq<MemHandle>) -> Option<MemHandle> {
    if args.len() > 3 { Some(args[args.len() - 3]) } else { None }
}

/// Whether `fn` can make a function of its arguments.
pub open spec fn fn_ok(m: MemoryModel, g: MemHandle, args: Seq<MemHandle>) -> bool {
    fn_layout_ok(m, args) && fun_ok(m, g, args.last(), fn_layout(m, args).0, fn_layout(m, args).1)
}

/// `x`, in the heap `m1`, is the function that `fn` makes of its arguments.
pub open spec fn fn_made(m: MemoryModel, g: MemHandle, args: Seq<MemHandle>, m1: MemoryModel, x: nat) -> bool {
    fun_made(m, g, args.last(), fn_layout(m, args).0, fn_layout(m, args).1, fn_layout(m, args).2, m1, x)
}

/// Whether `set-fn` can make a named function of its arguments and find
/// `set` bound.
pub open spec fn set_fn_ok(m: MemoryModel, g: MemHandle, args: Seq<MemHandle>) -> bool {
    &&& 2 <= args.len() <= 4
    &&& is_name(m, args[0])
    &&& fun_ok(m, g, args.last(), set_fn_locals(args), set_fn_args(args))
    &&& crate::memory::has_key(m.cell(g)->Dict_0, PrimModel::Str("set"@))
}

/// `x`, in the heap `m1`, is the function that `set-fn` makes of its
/// arguments, named by the first.
pub open spec fn set_fn_made(m: MemoryModel, g: MemHandle, args: Seq<MemHandle>, m1: MemoryModel, x: nat) -> bool {
    fun_made(m, g, args.last(), set_fn_locals(args), set_fn_args(args), Some(m.value(args[0])->Primitive_0->Str_0), m1, x)
}

/// `set-fn`: makes a function named by its first argument (with the locals
/// and arguments `set_fn_locals` and `set_fn_args` read) and hands back a
/// call of `set` on the name and the function.
#[verifier::rlimit(100)]
#[verifier::spinoff_prover]
fn b_set_fn(memory: &mut Memory, args: &[MemHandle]) -> (r: Result<BuiltinReturn, Error>)
    requires
        old(memory).wf(),
        forall|i: int| 0 <= i < args@.len() ==> old(memory)@.live(#[trigger] args@[i]),
    ensures
        builtin_keeps(old(memory), final(memory)),
        returns_fresh(old(memory)@, final(memory)@, old(memory).globals_handle(), r),
        computes(final(memory), r, set_fn_ok(old(memory)@, old(memory).globals_handle(), args@)),
        r is Ok ==> (r matches Ok(BuiltinReturn::Push(hs)) && hs@.len() == 3
            && Some(final(memory)@.obj(hs@[0])) == crate::memory::dict_lookup(old(memory).entries(old(memory).globals_handle()),
                PrimModel::Str("set"@))
            && final(memory)@.obj(hs@[1]) == old(memory)@.obj(args@[0])
            && set_fn_made(old(memory)@, old(memory).globals_handle(), args@, final(memory)@, final(memory)@.obj(hs@[2]))),
        objects_kept(old(memory)@, final(memory)@),
{
    let ghost m0 = memory@;
    let ghost g = memory.globals_handle();
    proof {
        lemma_scratch_start(memory);
        memory.lemma_globals();
    }
    let mut tmp: Vec<MemHandle> = Vec::new();
    let n = args.len();
    if n < 2 {
        return s_finish(memory, &tmp, Err(err("`fn` expects at least 2 arguments")), Ghost(m0));
    }
    if n > 4 {
        return s_finish(memory, &tmp, Err(err("`fn` expects at most 4 arguments")), Ghost(m0));
    }
    let name = match memory.value(args[0]) {
        Value::Primitive(Primitive::String(s)) => s,
        v => {
            let mut m = "Unrecognized name for `set-fn`: ".to_owned();
            m.append(v.to_text().as_str());
            return s_finish(memory, &tmp, Err(Error { message: m }), Ghost(m0));
        },
    };
    let l = if n > 2 { Some(args[n - 2]) } else { None };
    let a = if n > 3 { Some(args[n - 3]) } else { None };
    let ghost nm = name@;
    proof {
        assert(l == set_fn_locals(args@));
        assert(a == set_fn_args(args@));
        assert(args@[n - 1] == args@.last());
        assert(l matches Some(x) ==> m0.live(x));
        assert(a matches Some(x) ==> m0.live(x));
    }
    let fr = fun_impl(memory, "set-fn", args[n - 1], l, a, Some(name), Ghost(m0), &mut tmp);
    proof {
        old(memory).lemma_ok();
        lemma_objects_kept_then(m0, m0, memory@);
    }
    let f = match fr {
        Ok(f) => f,
        Err(e) => return s_finish(memory, &tmp, Err(e), Ghost(m0)),
    };
    let ghost mf = memory@;
    let ghost of = mf.obj(f);
    keep(&mut tmp, f);
    let g_h = memory.globals();
    proof {
        memory.lemma_globals();
    }
    proof {
        crate::memory::lemma_kept_live(m0, memory@, g);
        assert(memory@.cell(g) == m0.cell(g));
    }
    let set = match s_dict_get(memory, g_h, &Primitive::String("set".to_owned()), Ghost(m0), Ghost(tmp@)) {
        Some(x) => x,
        None => return s_finish(memory, &tmp, Err(crate::eval::internal_error()), Ghost(m0)),
    };
    keep(&mut tmp, set);
    let ghost t1 = tmp@;
    proof {
        assert(t1[t1.len() - 1] == set && t1[t1.len() - 2] == f);
        lemma_scratch_live(m0, memory@, g, t1, t1.len() - 1);
        lemma_scratch_live(m0, memory@, g, t1, t1.len() - 2);
        crate::memory::lemma_kept_live_h(m0, memory@, args@[0]);
    }
    let ghost oset = memory@.obj(set);
    let c1 = s_copy(memory, set, Ghost(m0), Ghost(tmp@));
    proof {
        crate::memory::lemma_kept_live_h(m0, memory@, args@[0]);
        assert(memory@.live(f)) by {
            lemma_scratch_live(m0, memory@, g, t1.push(c1), t1.len() - 2);
        }
    }
    let ghost mc1 = memory@;
    proof {
        assert(mc1.obj(c1) == oset);
        crate::memory::lemma_kept_live_h(m0, mc1, args@[0]);
        lemma_scratch_live(m0, mc1, g, tmp@.push(c1), tmp@.len() as int);
    }
    let c2 = s_copy(memory, args[0], Ghost(m0), Ghost(tmp@.push(c1)));
    let ghost mc2 = memory@;
    proof {
        crate::memory::lemma_kept_live(mc1, mc2, c1);
        assert(mc2.obj(c2) == m0.obj(args@[0]));
        lemma_scratch_live(m0, mc2, g, tmp@.push(c1).push(c2), tmp@.len() as int + 1);
    }
    proof {
        assert(memory@.live(f)) by {
            lemma_scratch_live(m0, memory@, g, t1.push(c1).push(c2), t1.len() - 2);
        }
    }
    let c3 = s_copy(memory, f, Ghost(m0), Ghost(tmp@.push(c1).push(c2)));
    proof {
        crate::memory::lemma_kept_live(mc2, memory@, c1);
        crate::memory::lemma_kept_live(mc2, memory@, c2);
    }
    let mut hs: Vec<MemHandle> = Vec::new();
    hs.push(c1);
    hs.push(c2);
    hs.push(c3);
    let res = Ok(BuiltinReturn::Push(hs));
    let ghost m2 = memory@;
    proof {
        assert(tmp@ + result_handles(res) =~= tmp@.push(c1).push(c2).push(c3));
        assert(m2.obj(c3) == of);
        assert(m2.objs == mf.objs);
        assert(m2.obj(c1) == oset);
        assert(m2.obj(c2) == m0.obj(args@[0]));
    }
    let r = s_finish(memory, &tmp, res, Ghost(m0));
    proof {
        assert(result_handles(r)[0] == c1 && result_handles(r)[1] == c2 && result_handles(r)[2] == c3);
        assert(memory@.obj(c1) == m2.obj(c1));
        assert(memory@.obj(c2) == m2.obj(c2));
        assert(memory@.obj(c3) == of);
        lemma_fun_made_objs(m0, g, args@.last(), set_fn_locals(args@), set_fn_args(args@), Some(nm), mf, memory@, of);
        assert(nm == m0.value(args@[0])->Primitive_0->Str_0);
        assert(set_fn_made(m0, g, args@, memory@, memory@.obj(c3)));
        assert(memory@.obj(c2) == m0.obj(args@[0]));
        assert(Some(memory@.obj(c1)) == crate::memory::dict_lookup(m0.cell(g)->Dict_0, PrimModel::Str("set"@)));
        assert(set_fn_ok(m0, g, args@));
    }
    r
}

/// What `b_fun` gives, and does to the heap.
pub open spec fn fun_post(mem0: Memory, mem1: Memory, b: Builtin, args: Seq<MemHandle>, r: Result<BuiltinReturn, Error>) -> bool {
    &&& builtin_keeps(&mem0, &mem1)
    &&& objects_kept(mem0@, mem1@)
    &&& returns_fresh(mem0@, mem1@, mem0.globals_handle(), r)
    &&& (b == Builtin::DoCall && args.len() == 1 ==> (r matches Ok(BuiltinReturn::Push(hs)) && hs@.len() == 1
            && mem1@.obj(hs@[0]) == mem0@.obj(args[0])))
    &&& (b == Builtin::DoCall && args.len() != 1 ==> computes(&mem1, r, fn_ok(mem0@, mem0.globals_handle(), args))
            && (r is Ok ==> (r matches Ok(BuiltinReturn::Push(hs)) && hs@.len() == 1
                && fn_made(mem0@, mem0.globals_handle(), args, mem1@, mem1@.obj(hs@[0])))))
    &&& (b == Builtin::SetFn ==> computes(&mem1, r, set_fn_ok(mem0@, mem0.globals_handle(), args))
            && (r is Ok ==> (r matches Ok(BuiltinReturn::Push(hs)) && hs@.len() == 3
                && Some(mem1@.obj(hs@[0])) == crate::memory::dict_lookup(mem0.entries(mem0.globals_handle()),
                    PrimModel::Str("set"@))
                && mem1@.obj(hs@[1]) == mem0@.obj(args[0])
                && set_fn_made(mem0@, mem0.globals_handle(), args, mem1@, mem1@.obj(hs@[2])))))
    &&& (b != Builtin::DoCall && b != Builtin::SetFn ==> computes(&mem1, r, fn_ok(mem0@, mem0.globals_handle(), args))
            && (r is Ok ==> (r matches Ok(BuiltinReturn::Value(h))
                && fn_made(mem0@, mem0.globals_handle(), args, mem1@, mem1@.obj(h)))))
}

/// `fn`, `set-fn` and `do`: `fn` makes a function of its arguments as
/// `fn_layout` reads them; `do` runs a lone block as it is, or runs the
/// function that `fn` would make of its arguments; `set-fn` makes a function
/// named by its first argument and runs `set` on the name and the function.
pub fn b_fun(memory: &mut Memory, b: Builtin, args: &[MemHandle]) -> (r: Result<BuiltinReturn, Error>)
    requires
        old(memory).wf(),
        forall|i: int| 0 <= i < args@.len() ==> old(memory)@.live(#[trigger] args@[i]),
    ensures
        fun_post(*old(memory), *final(memory), b, args@, r),
{
    let ghost m0 = memory@;
    let ghost g = memory.globals_handle();
    proof {
        lemma_scratch_start(memory);
        memory.lemma_globals();
    }
    let mut tmp: Vec<MemHandle> = Vec::new();
    match b {
        Builtin::DoCall => {
            if args.len() == 1 {
                let c = s_copy(memory, args[0], Ghost(m0), Ghost(tmp@));
                let mut hs: Vec<MemHandle> = Vec::new();
                hs.push(c);
                let res = Ok(BuiltinReturn::Push(hs));
                proof {
                    assert(tmp@ + result_handles(res) =~= tmp@.push(c));
                }
                let ghost m1 = memory@;
                let r = s_finish(memory, &tmp, res, Ghost(m0));
                proof {
                    assert(result_handles(r)[0] == c);
                    old(memory).lemma_ok();
                    lemma_objects_kept_then(m0, m0, m1);
                }
                return r;
            }
            let res = match fn_from_args(memory, "fn", args, Ghost(m0), &mut tmp) {
                Ok(f) => {
                    let mut hs: Vec<MemHandle> = Vec::new();
                    hs.push(f);
                    Ok(BuiltinReturn::Push(hs))
                },
                Err(e) => Err(e),
            };
            let ghost m1 = memory@;
            proof {
                match res {
                    Ok(BuiltinReturn::Push(ref hs)) => assert(tmp@ + result_handles(res) =~= tmp@.push(hs@[0])),
                    _ => assert(tmp@ + result_handles(res) =~= tmp@),
                }
            }
            let r = s_finish(memory, &tmp, res, Ghost(m0));
            proof {
                old(memory).lemma_ok();
                lemma_objects_kept_then(m0, m0, m1);
                match r {
                    Ok(BuiltinReturn::Push(ref hs)) => {
                        assert(result_handles(r)[0] == hs@[0]);
                        assert(memory@.obj(hs@[0]) == m1.obj(hs@[0]));
                        let lay = fn_layout(m0, args@);
                        lemma_fun_made_objs(m0, g, args@.last(), lay.0, lay.1, lay.2, m1, memory@, m1.obj(hs@[0]));
                        assert(fn_made(m0, g, args@, memory@, memory@.obj(hs@[0])));
                    },
                    _ => {},
                }
                assert(computes(memory, r, fn_ok(m0, g, args@)));
            }
            r
        },
        Builtin::SetFn => b_set_fn(memory, args),
        _ => {
            let res = match fn_from_args(memory, "fn", args, Ghost(m0), &mut tmp) {
                Ok(f) => Ok(BuiltinReturn::Value(f)),
                Err(e) => Err(e),
            };
            let ghost m1 = memory@;
            proof {
                assert(tmp@ + result_handles(res) =~= (match res { Ok(BuiltinReturn::Value(h)) => tmp@.push(h), _ => tmp@ }));
            }
            let r = s_finish(memory, &tmp, res, Ghost(m0));
            proof {
                old(memory).lemma_ok();
                lemma_objects_kept_then(m0, m0, m1);
                match r {
                    Ok(BuiltinReturn::Value(h)) => {
                        assert(result_handles(r)[0] == h);
                        assert(memory@.obj(h) == m1.obj(h));
                        let lay = fn_layout(m0, args@);
                        lemma_fun_made_objs(m0, g, args@.last(), lay.0, lay.1, lay.2, m1, memory@, m1.obj(h));
                    },
                    _ => {},
                }
            }
            r
        },
    }
}
/// What calling builtin `b` on `args` comes to, from heap `m0` to heap
/// `m1`, with source names `tags` and files allowed or not: its operation's
/// contract, or the request for outside work it makes.
pub open spec fn builtin_spec(b: Builtin, tags: Seq<String>, file_allow: bool, m0: Memory, m1: Memory,
    args: Seq<MemHandle>, r: Outcome) -> bool {
    &&& (builtin_keeps(&m0, &m1))
    &&& (r matches Outcome::Done(res) ==> returns_fresh(m0@, m1@, m0.globals_handle(), res))
    &&& (r matches Outcome::Io(req) ==> request_of(b, req) && (touches_files(req) ==> file_allow))
    &&& (b == Builtin::Plus ==> (r matches Outcome::Done(res) && arith_post(m0, m1, IntOp::Add, args, res)))
    &&& (b == Builtin::Minus ==> (r matches Outcome::Done(res) && arith_post(m0, m1, IntOp::Sub, args, res)))
    &&& (b == Builtin::Times ==> (r matches Outcome::Done(res) && arith_post(m0, m1, IntOp::Mul, args, res)))
    &&& (b == Builtin::Divide ==> (r matches Outcome::Done(res) && arith_post(m0, m1, IntOp::Div, args, res)))
    &&& (b == Builtin::BitAnd ==> (r matches Outcome::Done(res) && arith_post(m0, m1, IntOp::And, args, res)))
    &&& (b == Builtin::BitOr ==> (r matches Outcome::Done(res) && arith_post(m0, m1, IntOp::Or, args, res)))
    &&& (b == Builtin::BitXor ==> (r matches Outcome::Done(res) && arith_post(m0, m1, IntOp::Xor, args, res)))
    &&& (b == Builtin::Discard ==> (r matches Outcome::Done(Ok(BuiltinReturn::Empty)) && m1 == m0))
    &&& (b == Builtin::Modulo ==> (r matches Outcome::Done(res) && modulo_post(m0, m1, args, res)))
    &&& (b == Builtin::Complement ==> (r matches Outcome::Done(res) && unary_post(m0, m1, false, args, res)))
    &&& (b == Builtin::Negate ==> (r matches Outcome::Done(res) && unary_post(m0, m1, true, args, res)))
    &&& (b == Builtin::LogicOr ==> (r matches Outcome::Done(res) && logic_post(m0, m1, LogicOp::Or, args, res)))
    &&& (b == Builtin::LogicAnd ==> (r matches Outcome::Done(res) && logic_post(m0, m1, LogicOp::And, args, res)))
    &&& (b == Builtin::LogicXor ==> (r matches Outcome::Done(res) && logic_post(m0, m1, LogicOp::Xor, args, res)))
    &&& (b == Builtin::LogicNot ==> (r matches Outcome::Done(res) && not_post(m0, m1, args, res)))
    &&& (b == Builtin::Equal ==> (r matches Outcome::Done(res) && equal_post(m0, m1, false, args, res)))
    &&& (b == Builtin::Less ==> (r matches Outcome::Done(res) && compare_post(m0, m1, Compare::Less, args, res)))
    &&& (b == Builtin::Greater ==> (r matches Outcome::Done(res) && compare_post(m0, m1, Compare::Greater, args, res)))
    &&& (b == Builtin::LessEq ==> (r matches Outcome::Done(res) && compare_post(m0, m1, Compare::LessEq, args, res)))
    &&& (b == Builtin::GreaterEq ==> (r matches Outcome::Done(res) && compare_post(m0, m1, Compare::GreaterEq, args, res)))
    &&& (b == Builtin::IsInt ==> (r matches Outcome::Done(res) && is_post(m0, m1, Kind::Int, args, res)))
    &&& (b == Builtin::IsString ==> (r matches Outcome::Done(res) && is_post(m0, m1, Kind::Text, args, res)))
    &&& (b == Builtin::IsBuiltin ==> (r matches Outcome::Done(res) && is_post(m0, m1, Kind::Builtin, args, res)))
    &&& (b == Builtin::IsQuote ==> (r matches Outcome::Done(res) && is_post(m0, m1, Kind::Quote, args, res)))
    &&& (b == Builtin::IsArray ==> (r matches Outcome::Done(res) && is_post(m0, m1, Kind::Array, args, res)))
    &&& (b == Builtin::IsDict ==> (r matches Outcome::Done(res) && is_post(m0, m1, Kind::Dict, args, res)))
    &&& (b == Builtin::IsFn ==> (r matches Outcome::Done(res) && is_post(m0, m1, Kind::Fun, args, res)))
    &&& (b == Builtin::IsBool ==> (r matches Outcome::Done(res) && is_post(m0, m1, Kind::Bool, args, res)))
    &&& (b == Builtin::IsCallable ==> (r matches Outcome::Done(res) && is_post(m0, m1, Kind::Callable, args, res)))
    &&& (b == Builtin::ToBool ==> (r matches Outcome::Done(res) && to_bool_post(m0, m1, args, res)))
    &&& (b == Builtin::ToInt ==> (r matches Outcome::Done(res) && to_int_post(m0, m1, args, res)))
    &&& (b == Builtin::ToText ==> (r matches Outcome::Done(res) && to_string_post(m0, m1, args, res)))
    &&& (b == Builtin::Identity ==> (r matches Outcome::Done(res) && identity_post(m0, m1, args, res)))
    &&& (b == Builtin::FailWith ==> (r matches Outcome::Done(res) && fail_post(m0, args, res) && m1 == m0))
    &&& (b == Builtin::FileAllowed ==> (r matches Outcome::Done(res) && give_bool_post(m0, m1, file_allow, res)))
    &&& (b == Builtin::MakeArray ==> (r matches Outcome::Done(res) && make_array_post(m0, m1, args, res)))
    &&& (b == Builtin::MakeDict ==> (r matches Outcome::Done(res) && make_dict_post(m0, m1, args, res)))
    &&& (b == Builtin::MakeQuote ==> (r matches Outcome::Done(res) && make_quote_post(m0, m1, args, res)))
    &&& (b == Builtin::Unquote ==> (r matches Outcome::Done(res) && unquote_post(m0, m1, args, res)))
    &&& (b == Builtin::Length ==> (r matches Outcome::Done(res) && len_post(m0, m1, args, res)))
    &&& (b == Builtin::GetItem ==> (r matches Outcome::Done(res) && get_post(m0, m1, args, res)))
    &&& (b == Builtin::HasItem ==> (r matches Outcome::Done(res) && has_post(m0, m1, args, res)))
    &&& (b == Builtin::PushItem ==> (r matches Outcome::Done(res) && push_post(m0, m1, args, res)))
    &&& (b == Builtin::DeleteItem ==> (r matches Outcome::Done(res) && del_post(m0, m1, args, res)))
    &&& (b == Builtin::Truncate ==> (r matches Outcome::Done(res) && truncate_post(m0, m1, args, res)))
    &&& (b == Builtin::Duplicate ==> (r matches Outcome::Done(res) && clone_post(m0, m1, args, res)))
    &&& (b == Builtin::Assign ==> (r matches Outcome::Done(res) && set_post(m0, m1, args, res)))
    &&& (b == Builtin::Keys ==> (r matches Outcome::Done(res) && keys_post(m0, m1, args, res)))
    &&& (b == Builtin::Apply ==> (r matches Outcome::Done(res) && apply_post(m0, m1, args, res)))
    &&& (b == Builtin::IfElse ==> (r matches Outcome::Done(res) && if_post(m0, m1, args, res)))
    &&& (b == Builtin::GetPosition ==> (r matches Outcome::Done(res) && get_position_post(m0, m1, args, res)))
    &&& (b == Builtin::GetPositionSource ==> (r matches Outcome::Done(res) && get_position_source_post(m0, m1, tags, args, res)))
    &&& (b == Builtin::Inset ==> (r matches Outcome::Done(res) && inset_post(m0, m1, args, res)))
    &&& (b == Builtin::Outset ==> (r matches Outcome::Done(res) && outset_post(m0, m1, args, res)))
    &&& (b == Builtin::MakeArrayAt ==> (r matches Outcome::Done(res) && make_array_at_post(m0, m1, args, res)))
    &&& (b == Builtin::FnUnpack ==> (r matches Outcome::Done(res) && fn_unpack_post(m0, m1, args, res)))
    &&& (b == Builtin::Print ==> print_post(m0, args, r) && m1 == m0)
    &&& (b == Builtin::MakeFn ==> (r matches Outcome::Done(res) && fun_post(m0, m1, Builtin::MakeFn, args, res)))
    &&& (b == Builtin::SetFn ==> (r matches Outcome::Done(res) && fun_post(m0, m1, Builtin::SetFn, args, res)))
    &&& (b == Builtin::DoCall ==> (r matches Outcome::Done(res) && fun_post(m0, m1, Builtin::DoCall, args, res)))
    &&& (b == Builtin::Flush ==> io_post(m0, file_allow, Builtin::Flush, args, r) && m1 == m0)
    &&& (b == Builtin::FileExists ==> io_post(m0, file_allow, Builtin::FileExists, args, r) && m1 == m0)
    &&& (b == Builtin::FileIn ==> io_post(m0, file_allow, Builtin::FileIn, args, r) && m1 == m0)
    &&& (b == Builtin::FileOut ==> io_post(m0, file_allow, Builtin::FileOut, args, r) && m1 == m0)
    &&& (b == Builtin::ReadLine ==> io_post(m0, file_allow, Builtin::ReadLine, args, r) && m1 == m0)
    &&& (b == Builtin::ReadAll ==> io_post(m0, file_allow, Builtin::ReadAll, args, r) && m1 == m0)
    &&& (b == Builtin::NotEqual ==> (r matches Outcome::Done(res) && equal_post(m0, m1, true, args, res)))
}

/// Calls the builtin on the arguments.
#[verifier::rlimit(60)]
pub(crate) fn call_builtin(memory: &mut Memory, tags: &Vec<String>, file_allow: bool, b: Builtin, args: &[MemHandle]) -> (r: Outcome)
    requires
        old(memory).wf(),
        forall|i: int| 0 <= i < args@.len() ==> old(memory)@.live(#[trigger] args@[i]),
    ensures
        builtin_spec(b, tags@, file_allow, *old(memory), *final(memory), args@, r),
{
    proof {
        old(memory).lemma_ok();
        crate::eval::lemma_handles_kept_refl(old(memory)@);
    }
    match b {
        Builtin::Plus => Outcome::Done(b_arith(memory, IntOp::Add, args)),
        Builtin::Minus => Outcome::Done(b_arith(memory, IntOp::Sub, args)),
        Builtin::Times => Outcome::Done(b_arith(memory, IntOp::Mul, args)),
        Builtin::Divide => Outcome::Done(b_arith(memory, IntOp::Div, args)),
        Builtin::BitAnd => Outcome::Done(b_arith(memory, IntOp::And, args)),
        Builtin::BitOr => Outcome::Done(b_arith(memory, IntOp::Or, args)),
        Builtin::BitXor => Outcome::Done(b_arith(memory, IntOp::Xor, args)),
        Builtin::Discard => Outcome::Done(give_nothing(memory)),
        Builtin::Modulo => Outcome::Done(b_modulo(memory, args)),
        Builtin::Complement => Outcome::Done(b_unary(memory, false, args)),
        Builtin::Negate => Outcome::Done(b_unary(memory, true, args)),
        Builtin::LogicOr => Outcome::Done(b_logic(memory, LogicOp::Or, args)),
        Builtin::LogicAnd => Outcome::Done(b_logic(memory, LogicOp::And, args)),
        Builtin::LogicXor => Outcome::Done(b_logic(memory, LogicOp::Xor, args)),
        Builtin::LogicNot => Outcome::Done(b_not(memory, args)),
        Builtin::Equal => Outcome::Done(b_equal(memory, false, args)),
        Builtin::Less => Outcome::Done(b_compare(memory, Compare::Less, args)),
        Builtin::Greater => Outcome::Done(b_compare(memory, Compare::Greater, args)),
        Builtin::LessEq => Outcome::Done(b_compare(memory, Compare::LessEq, args)),
        Builtin::GreaterEq => Outcome::Done(b_compare(memory, Compare::GreaterEq, args)),
        Builtin::IsInt => Outcome::Done(b_is(memory, Kind::Int, args)),
        Builtin::IsString => Outcome::Done(b_is(memory, Kind::Text, args)),
        Builtin::IsBuiltin => Outcome::Done(b_is(memory, Kind::Builtin, args)),
        Builtin::IsQuote => Outcome::Done(b_is(memory, Kind::Quote, args)),
        Builtin::IsArray => Outcome::Done(b_is(memory, Kind::Array, args)),
        Builtin::IsDict => Outcome::Done(b_is(memory, Kind::Dict, args)),
        Builtin::IsFn => Outcome::Done(b_is(memory, Kind::Fun, args)),
        Builtin::IsBool => Outcome::Done(b_is(memory, Kind::Bool, args)),
        Builtin::IsCallable => Outcome::Done(b_is(memory, Kind::Callable, args)),
        Builtin::ToBool => Outcome::Done(b_to_bool(memory, args)),
        Builtin::ToInt => Outcome::Done(b_to_int(memory, args)),
        Builtin::ToText => Outcome::Done(b_to_string(memory, args)),
        Builtin::Identity => Outcome::Done(b_identity(memory, args)),
        Builtin::FailWith => Outcome::Done(b_fail(memory, args)),
        Builtin::FileAllowed => Outcome::Done(give_bool(memory, file_allow)),
        Builtin::MakeArray => Outcome::Done(b_make_array(memory, args)),
        Builtin::MakeDict => Outcome::Done(b_make_dict(memory, args)),
        Builtin::MakeQuote => Outcome::Done(b_make_quote(memory, args)),
        Builtin::Unquote => Outcome::Done(b_unquote(memory, args)),
        Builtin::Length => Outcome::Done(b_len(memory, args)),
        Builtin::GetItem => Outcome::Done(b_get(memory, args)),
        Builtin::HasItem => Outcome::Done(b_has(memory, args)),
        Builtin::PushItem => Outcome::Done(b_push(memory, args)),
        Builtin::DeleteItem => Outcome::Done(b_del(memory, args)),
        Builtin::Truncate => Outcome::Done(b_truncate(memory, args)),
        Builtin::Duplicate => Outcome::Done(b_clone(memory, args)),
        Builtin::Assign => Outcome::Done(b_set(memory, args)),
        Builtin::Keys => Outcome::Done(b_keys(memory, args)),
        Builtin::Apply => Outcome::Done(b_apply(memory, args)),
        Builtin::IfElse => Outcome::Done(b_if(memory, args)),
        Builtin::GetPosition => Outcome::Done(b_get_position(memory, args)),
        Builtin::GetPositionSource => Outcome::Done(b_get_position_source(memory, tags, args)),
        Builtin::Inset => Outcome::Done(b_inset(memory, args)),
        Builtin::Outset => Outcome::Done(b_outset(memory, args)),
        Builtin::MakeArrayAt => Outcome::Done(b_make_array_at(memory, args)),
        Builtin::FnUnpack => Outcome::Done(b_fn_unpack(memory, args)),
        Builtin::Print => b_print(memory, args),
        Builtin::MakeFn => Outcome::Done(b_fun(memory, b, args)),
        Builtin::SetFn => Outcome::Done(b_fun(memory, b, args)),
        Builtin::DoCall => Outcome::Done(b_fun(memory, b, args)),
        Builtin::Flush => b_io(memory, file_allow, b, args),
        Builtin::FileExists => b_io(memory, file_allow, b, args),
        Builtin::FileIn => b_io(memory, file_allow, b, args),
        Builtin::FileOut => b_io(memory, file_allow, b, args),
        Builtin::ReadLine => b_io(memory, file_allow, b, args),
        Builtin::ReadAll => b_io(memory, file_allow, b, args),
        Builtin::NotEqual => Outcome::Done(b_equal(memory, true, args)),
    }
}

/// What handing `reply` to builtin `b` comes to, from heap `m0` to heap
/// `m1`: nothing for a write, a flush or a file opened; `true` or `nil` for
/// whether a file exists; a new string for a line or the rest of the input
/// (nothing at its end); an error naming the builtin for a failure.
pub open spec fn io_done(b: Builtin, reply: IoReply, m0: Memory, m1: Memory, r: Result<BuiltinReturn, Error>) -> bool {
    &&& builtin_keeps(&m0, &m1)
    &&& returns_fresh(m0@, m1@, m0.globals_handle(), r)
    &&& match (b, reply) {
        (Builtin::Print, IoReply::Done) | (Builtin::Flush, IoReply::Done) | (Builtin::FileIn, IoReply::Done)
            | (Builtin::FileOut, IoReply::Done) | (Builtin::ReadLine, IoReply::Line(None)) =>
            r == Ok::<BuiltinReturn, Error>(BuiltinReturn::Empty),
        (Builtin::FileExists, IoReply::Exists(x)) => computes(&m1, r, true) && (r is Ok ==> gives_prim(m1@, r, bool_prim(x))),
        (Builtin::ReadLine, IoReply::Line(Some(t))) | (Builtin::ReadAll, IoReply::Text(t)) =>
            computes(&m1, r, true) && (r is Ok ==> gives_prim(m1@, r, PrimModel::Str(t@))),
        (_, IoReply::Failed(e)) => r matches Err(x) && x.message@ == "Filesystem failure running `"@ + io_name(b)@ + "`: "@ + e@,
        _ => r is Err,
    }
}

/// The result of a builtin that waited for the outside world, from the
/// reply.
pub fn finish_io(memory: &mut Memory, b: Builtin, reply: IoReply) -> (r: Result<BuiltinReturn, Error>)
    requires
        old(memory).wf(),
    ensures
        io_done(b, reply, *old(memory), *final(memory), r),
{
    proof {
        old(memory).lemma_ok();
        crate::eval::lemma_handles_kept_refl(old(memory)@);
        lemma_nothing_fresh(old(memory)@, old(memory)@, old(memory).globals_handle());
    }
    match reply {
        IoReply::Done => match b {
            Builtin::Print | Builtin::Flush | Builtin::FileIn | Builtin::FileOut => Ok(BuiltinReturn::Empty),
            _ => Err(crate::eval::internal_error()),
        },
        IoReply::Exists(x) => match b {
            Builtin::FileExists => give_bool(memory, x),
            _ => Err(crate::eval::internal_error()),
        },
        IoReply::Line(t) => match b {
            Builtin::ReadLine => match t {
                Some(t) => give(memory, Value::Primitive(Primitive::String(t))),
                None => Ok(BuiltinReturn::Empty),
            },
            _ => Err(crate::eval::internal_error()),
        },
        IoReply::Text(t) => match b {
            Builtin::ReadAll => give(memory, Value::Primitive(Primitive::String(t))),
            _ => Err(crate::eval::internal_error()),
        },
        IoReply::Failed(e) => Err(fs_error(io_name_exec(b), &e)),
    }
}

/// The name a failure of the outside world reports for the builtin.
pub open spec fn io_name(b: Builtin) -> &'static str {
    match b {
        Builtin::Print | Builtin::Flush => "print",
        Builtin::FileExists => "file-exists",
        Builtin::FileIn => "file-in",
        Builtin::FileOut => "file-out",
        Builtin::ReadLine => "read-line",
        Builtin::ReadAll => "read-all",
        _ => "io",
    }
}

fn io_name_exec(b: Builtin) -> (r: &'static str)
    ensures
        r == io_name(b),
{
    match b {
        Builtin::Print | Builtin::Flush => "print",
        Builtin::FileExists => "file-exists",
        Builtin::FileIn => "file-in",
        Builtin::FileOut => "file-out",
        Builtin::ReadLine => "read-line",
        Builtin::ReadAll => "read-all",
        _ => "io",
    }
}


/// The bindings of each builtin in `bs` to its name.
pub open spec fn builtin_bindings(bs: Seq<Builtin>) -> Seq<(Seq<char>, PrimModel)> {
    Seq::new(bs.len(), |i: int| (bs[i].name_model(), PrimModel::Builtin(bs[i])))
}

/// The global bindings the standard library makes besides `args`, in
/// order: the builtins, `else` (nil) after `if`, `trunc` (a second name
/// for `truncate`), then `nil`, `true`, `sp`
/// and `ln` (a space and a newline), and the least and greatest integers.
pub open spec fn global_bindings() -> Seq<(Seq<char>, PrimModel)> {
    builtin_bindings(builtins_through_if()) + seq![("else"@, PrimModel::Nil)]
        + builtin_bindings(builtins_after_else()) + seq![
        ("trunc"@, PrimModel::Builtin(Builtin::Truncate)),
        ("nil"@, PrimModel::Nil),
        ("true"@, PrimModel::True),
        ("sp"@, PrimModel::Str(" "@)),
        ("ln"@, PrimModel::Str("\n"@)),
        ("INT_MIN"@, PrimModel::Int(i64::MIN)),
        ("INT_MAX"@, PrimModel::Int(i64::MAX)),
    ]
}

/// What the first `n` of the bindings `bs`, made in turn, bind `name` to:
/// the last of them for it.
pub open spec fn last_binding(bs: Seq<(Seq<char>, PrimModel)>, name: Seq<char>, n: nat) -> Option<PrimModel>
    decreases n,
{
    if n == 0 {
        None
    } else if bs[n - 1].0 == name {
        Some(bs[n - 1].1)
    } else {
        last_binding(bs, name, (n - 1) as nat)
    }
}

/// Appends the bindings of the builtins `bs` to `out`.
fn push_builtins(out: &mut Vec<(&'static str, Primitive)>, bs: &Vec<Builtin>)
    ensures
        final(out)@.len() == old(out)@.len() + bs@.len(),
        forall|i: int| 0 <= i < old(out)@.len() ==> #[trigger] final(out)@[i] == old(out)@[i],
        forall|i: int| 0 <= i < bs@.len() ==> (#[trigger] final(out)@[old(out)@.len() + i]).0@ == bs@[i].name_model()
            && final(out)@[old(out)@.len() + i].1.model() == PrimModel::Builtin(bs@[i]),
{
    let ghost n0 = out@.len();
    let mut i: usize = 0;
    while i < bs.len()
        invariant
            i <= bs@.len(),
            out@.len() == n0 + i,
            n0 == old(out)@.len(),
            forall|k: int| 0 <= k < n0 ==> #[trigger] out@[k] == old(out)@[k],
            forall|k: int| 0 <= k < i ==> (#[trigger] out@[n0 + k]).0@ == bs@[k].name_model()
                && out@[n0 + k].1.model() == PrimModel::Builtin(bs@[k]),
        decreases bs@.len() - i,
    {
        let b = bs[i];
        out.push((b.name(), Primitive::Builtin(b)));
        i = i + 1;
    }
}

/// The global bindings the standard library makes besides `args`, as
/// `global_bindings` lists them.
pub fn global_list() -> (r: Vec<(&'static str, Primitive)>)
    ensures
        r@.len() == global_bindings().len(),
        forall|i: int| 0 <= i < r@.len() ==> (#[trigger] r@[i]).0@ == global_bindings()[i].0
            && r@[i].1.model() == global_bindings()[i].1,
{
    let mut out: Vec<(&'static str, Primitive)> = Vec::new();
    let first = through_if();
    let ghost o0 = out@;
    push_builtins(&mut out, &first);
    let ghost o1 = out@;
    out.push(("else", Primitive::Nil));
    let ghost n1 = out@.len();
    let ghost oe = out@;
    let last = after_else();
    push_builtins(&mut out, &last);
    let ghost n2 = out@.len();
    let ghost o2 = out@;
    out.push(("trunc", Primitive::Builtin(Builtin::Truncate)));
    out.push(("nil", Primitive::Nil));
    out.push(("true", Primitive::True));
    out.push(("sp", Primitive::String(" ".to_owned())));
    out.push(("ln", Primitive::String("\n".to_owned())));
    out.push(("INT_MIN", Primitive::Int(i64::MIN)));
    out.push(("INT_MAX", Primitive::Int(i64::MAX)));
    proof {
        let gb = global_bindings();
        let f = builtin_bindings(builtins_through_if());
        let l = builtin_bindings(builtins_after_else());
        assert(out@.len() == gb.len());
        assert forall|i: int| 0 <= i < out@.len() implies (#[trigger] out@[i]).0@ == gb[i].0 && out@[i].1.model() == gb[i].1 by {
            if i < n2 {
                assert(out@[i] == o2[i]);
                if i < f.len() {
                    assert(o2[i] == oe[i]);
                    assert(oe[i] == o1[i]);
                    assert(o1[o0.len() + i] == o1[i]);
                    assert(gb[i] == f[i]);
                } else if i == f.len() {
                    assert(o2[i] == oe[i]);
                    assert(gb[i] == ("else"@, PrimModel::Nil));
                } else {
                    let j = i - n1;
                    assert(o2[n1 + j] == o2[i]);
                    assert(gb[i] == l[j]);
                }
            } else {
                let c = i - n2;
                assert(gb[i] == seq![
                    ("trunc"@, PrimModel::Builtin(Builtin::Truncate)),
                    ("nil"@, PrimModel::Nil),
                    ("true"@, PrimModel::True),
                    ("sp"@, PrimModel::Str(" "@)),
                    ("ln"@, PrimModel::Str("\n"@)),
                    ("INT_MIN"@, PrimModel::Int(i64::MIN)),
                    ("INT_MAX"@, PrimModel::Int(i64::MAX)),
                ][c]);
            }
        }
    }
    out
}

/// The dictionary `d` binds `name` to an object of `m` that holds `p`.
pub open spec fn binds_prim(m: MemoryModel, d: Seq<(PrimModel, nat)>, name: Seq<char>, p: PrimModel) -> bool {
    dict_lookup(d, PrimModel::Str(name)) matches Some(o) && m.objs.contains_key(o) && m.objs[o] == Obj::Prim(p)
}

/// The dictionary `d` binds `args` to an array of `m` of the strings `texts`,
/// in order.
pub open spec fn binds_args(m: MemoryModel, d: Seq<(PrimModel, nat)>, texts: Seq<Seq<char>>) -> bool {
    dict_lookup(d, PrimModel::Str("args"@)) matches Some(o) && m.objs.contains_key(o) && m.objs[o] is Array
        && m.objs[o]->Array_0.len() == texts.len()
        && forall|i: int| 0 <= i < texts.len() ==> m.objs.contains_key(#[trigger] m.objs[o]->Array_0[i])
            && m.objs[m.objs[o]->Array_0[i]] == Obj::Prim(PrimModel::Str(texts[i]))
}

/// What a dictionary of a consistent heap binds a key to is in the heap.
proof fn lemma_lookup_held(m: &Memory, h: MemHandle, k: PrimModel)
    requires
        m.wf(),
        m@.live(h),
        m@.cell(h) is Dict,
        dict_lookup(m.entries(h), k) is Some,
    ensures
        m@.objs.contains_key(dict_lookup(m.entries(h), k).unwrap()),
{
    m.lemma_closed();
    let d = m.entries(h);
    let i = crate::memory::key_index(d, k);
    assert(0 <= i < d.len() && d[i].0 == k);
    assert(m@.objs.contains_key(m@.objs[m@.obj(h)]->Dict_0[i].1));
}

/// A binding to a primitive survives a step that keeps every object but the
/// globals, and leaves what the globals bind the name to.
proof fn lemma_binds_kept(m1: &Memory, m2: &Memory, name: Seq<char>, p: PrimModel)
    requires
        m1.wf(),
        m2.wf(),
        m1.globals_handle() == m2.globals_handle(),
        binds_prim(m1@, m1.entries(m1.globals_handle()), name, p),
        m1@.kept_except(m2@, m1@.obj(m1.globals_handle())),
        dict_lookup(m2.entries(m2.globals_handle()), PrimModel::Str(name))
            == dict_lookup(m1.entries(m1.globals_handle()), PrimModel::Str(name)),
    ensures
        binds_prim(m2@, m2.entries(m2.globals_handle()), name, p),
{
    let g = m1.globals_handle();
    m1.lemma_globals();
    m2.lemma_globals();
    assert(m1@.handles[g.idx as int] is Some);
    lemma_lookup_held(m2, g, PrimModel::Str(name));
}

/// Binds `name` in the globals to a new object for the primitive.
fn bind(memory: &mut Memory, name: &str, p: Primitive) -> (r: Result<(), Error>)
    requires
        old(memory).wf(),
    ensures
        final(memory).wf(),
        final(memory).globals_handle() == old(memory).globals_handle(),
        handles_kept(old(memory)@, final(memory)@),
        old(memory)@.kept_except(final(memory)@, old(memory)@.obj(old(memory).globals_handle())),
        r is Ok ==> ({
            let g = old(memory).globals_handle();
            let d = final(memory).entries(g);
            let o = dict_lookup(d, PrimModel::Str(name@)).unwrap();
            &&& final(memory)@.cell(g) is Dict
            &&& d == crate::memory::dict_insert(old(memory).entries(g), PrimModel::Str(name@), o)
            &&& final(memory)@.objs.contains_key(o)
            &&& final(memory)@.objs[o] == Obj::Prim(p.model())
        }),
        r matches Err(e) ==> (out_of_memory(e) && final(memory).full()),
{
    let g = memory.globals();
    proof {
        memory.lemma_globals();
    }
    match memory.dict_set_value(g, Primitive::String(name.to_owned()), Value::Primitive(p)) {
        Ok(()) => Ok(()),
        Err(_) => Err(crate::eval::memory_full_error()),
    }
}

/// Makes the bindings of `global_bindings` in the globals, in order, and
/// binds `args` to a new array of new strings, the program's arguments.
pub fn populate(memory: &mut Memory, args: &Vec<String>) -> (r: Result<(), Error>)
    requires
        old(memory).wf(),
    ensures
        final(memory).wf(),
        final(memory).globals_handle() == old(memory).globals_handle(),
        handles_kept(old(memory)@, final(memory)@),
        r is Ok ==> forall|k: int| 0 <= k < global_bindings().len() && (#[trigger] global_bindings()[k]).0 != "args"@
            ==> binds_prim(final(memory)@, final(memory).entries(final(memory).globals_handle()), global_bindings()[k].0,
                last_binding(global_bindings(), global_bindings()[k].0, global_bindings().len()).unwrap()),
        r is Ok ==> binds_args(final(memory)@, final(memory).entries(final(memory).globals_handle()),
            args@.map_values(|a: String| a@)),
        r matches Err(e) ==> (out_of_memory(e) && final(memory).full()),
{
    let ghost m0 = memory@;
    let g = memory.globals();
    proof {
        memory.lemma_ok();
        crate::eval::lemma_handles_kept_refl(m0);
    }
    let gl = global_list();
    let ghost gb = global_bindings();
    let mut j: usize = 0;
    while j < gl.len()
        invariant
            memory.wf(),
            memory.globals_handle() == g,
            g == old(memory).globals_handle(),
            handles_kept(m0, memory@),
            m0 == old(memory)@,
            gb == global_bindings(),
            gl@.len() == gb.len(),
            forall|i: int| 0 <= i < gl@.len() ==> (#[trigger] gl@[i]).0@ == gb[i].0 && gl@[i].1.model() == gb[i].1,
            j <= gl@.len(),
            forall|k: int| 0 <= k < j ==> binds_prim(memory@, memory.entries(g), #[trigger] gb[k].0,
                last_binding(gb, gb[k].0, j as nat).unwrap()),
        decreases gl@.len() - j,
    {
        let ghost m1 = *memory;
        let ghost e1 = memory.entries(g);
        let (name, p) = match &gl[j] {
            (n, p) => (*n, p.duplicate()),
        };
        bind(memory, name, p)?;
        proof {
            let e2 = memory.entries(g);
            let o = dict_lookup(e2, PrimModel::Str(name@)).unwrap();
            crate::memory::lemma_handles_kept_trans(m0, m1@, memory@);
            m1.lemma_globals();
            m1.lemma_dict_keys(g);
            assert forall|k: int| 0 <= k < j + 1 implies binds_prim(memory@, memory.entries(g), #[trigger] gb[k].0,
                last_binding(gb, gb[k].0, (j + 1) as nat).unwrap()) by {
                crate::memory::lemma_dict_read_after_write(e1, PrimModel::Str(name@), o, PrimModel::Str(gb[k].0));
                if gb[k].0 != gb[j as int].0 {
                    lemma_binds_kept(&m1, memory, gb[k].0, last_binding(gb, gb[k].0, j as nat).unwrap());
                }
            }
        }
        j = j + 1;
    }
    let ghost m2 = memory@;
    let ghost mem2 = *memory;
    let ghost e2 = memory.entries(g);
    proof {
        lemma_scratch_start(memory);
        memory.lemma_globals();
        memory.lemma_ok();
        lemma_kept_except_of_kept(m2, m2, m2.obj(g));
    }
    let mut tmp: Vec<MemHandle> = Vec::new();
    let mut k: usize = 0;
    while k < args.len()
        invariant
            memory.wf(),
            memory.globals_handle() == g,
            g == old(memory).globals_handle(),
            scratch_ok(m2, memory@, g, tmp@),
            k <= args@.len(),
            tmp@.len() == k,
            memory.entries(g) == e2,
            memory@.live(g) && memory@.cell(g) is Dict,
            memory@.obj(g) == m2.obj(g),
            m2.kept_except(memory@, m2.obj(g)),
            m2.ok(),
            mem2.wf(),
            mem2@ == m2,
            mem2.globals_handle() == g,
            e2 == mem2.entries(g),
            forall|q: int| 0 <= q < k ==> memory@.objs[memory@.obj(#[trigger] tmp@[q])] == Obj::Prim(PrimModel::Str(args@[q]@)),
            handles_kept(m0, m2),
            m0 == old(memory)@,
        decreases args@.len() - k,
    {
        let ghost m3 = memory@;
        let ghost t3 = tmp@;
        let h = match s_make(memory, Value::Primitive(Primitive::String(args[k].clone())), Ghost(m2), Ghost(tmp@)) {
            Ok(h) => h,
            Err(e) => {
                let _ = s_finish(memory, &tmp, Err(crate::eval::memory_full_error()), Ghost(m2));
                proof {
                    crate::memory::lemma_handles_kept_trans(m0, m2, memory@);
                }
                return Err(e);
            },
        };
        proof {
            memory.lemma_globals();
            crate::memory::lemma_kept_live(m3, memory@, g);
            lemma_kept_except_of_kept(m3, memory@, m2.obj(g));
            lemma_kept_except_trans(m2, m3, memory@, m2.obj(g));
            assert forall|q: int| 0 <= q < k implies memory@.objs[memory@.obj(#[trigger] t3[q])] == Obj::Prim(PrimModel::Str(args@[q]@)) by {
                lemma_scratch_live(m2, m3, g, t3, q);
                crate::memory::lemma_kept_live(m3, memory@, t3[q]);
            }
        }
        tmp.push(h);
        k = k + 1;
    }
    proof {
        assert forall|q: int| 0 <= q < tmp@.len() implies memory@.live(#[trigger] tmp@[q]) by {
            lemma_scratch_live(m2, memory@, g, tmp@, q);
        }
    }
    let ghost m3 = memory@;
    let arr = match s_array_of(memory, position_unknown_exec(), tmp.as_slice(), Ghost(m2), Ghost(tmp@)) {
        Ok(a) => a,
        Err(e) => {
            let _ = s_finish(memory, &tmp, Err(crate::eval::memory_full_error()), Ghost(m2));
            proof {
                crate::memory::lemma_handles_kept_trans(m0, m2, memory@);
            }
            return Err(e);
        },
    };
    let ghost t4 = tmp@;
    tmp.push(arr);
    let ghost m4 = memory@;
    let ghost mem4 = *memory;
    proof {
        memory.lemma_globals();
        lemma_scratch_live(m2, memory@, g, tmp@, tmp@.len() - 1);
        memory.lemma_ok();
        crate::memory::lemma_kept_live(m3, m4, g);
        lemma_kept_except_of_kept(m3, m4, m2.obj(g));
        lemma_kept_except_trans(m2, m3, m4, m2.obj(g));
        assert forall|q: int| 0 <= q < t4.len() implies m4.objs[m4.cell(arr)->Array_0[q]] == Obj::Prim(PrimModel::Str(args@[q]@)) by {
            lemma_scratch_live(m2, m3, g, t4, q);
            crate::memory::lemma_kept_live(m3, m4, t4[q]);
        }
    }
    let ghost e4 = memory.entries(g);
    s_dict_set(memory, g, Primitive::String("args".to_owned()), arr, Ghost(m2), Ghost(tmp@));
    let ghost m5 = memory@;
    proof {
        let oa = m4.obj(arr);
        memory.lemma_globals();
        mem4.lemma_dict_keys(g);
        assert(tmp@ + result_handles(Ok(BuiltinReturn::Empty)) =~= tmp@);
        assert(oa != m4.obj(g));
        crate::memory::lemma_kept_except_of_changed(m4, m5, m4.obj(g), m5.objs[m4.obj(g)]);
        lemma_kept_except_trans(m2, m4, m5, m2.obj(g));
        crate::memory::lemma_dict_read_after_write(e4, PrimModel::Str("args"@), oa, PrimModel::Str("args"@));
        let texts = args@.map_values(|a: String| a@);
        memory.lemma_closed();
        assert(binds_args(m5, memory.entries(g), texts)) by {
            assert(m5.objs[oa] == m4.objs[oa]);
            assert forall|q: int| 0 <= q < texts.len() implies m5.objs.contains_key(#[trigger] m5.objs[oa]->Array_0[q])
                && m5.objs[m5.objs[oa]->Array_0[q]] == Obj::Prim(PrimModel::Str(texts[q])) by {
                let x = m5.objs[oa]->Array_0[q];
                assert(m4.objs[x] == Obj::Prim(PrimModel::Str(args@[q]@)));
                assert(x != m4.obj(g));
            }
        }
        assert forall|c: int| 0 <= c < gb.len() && (#[trigger] gb[c]).0 != "args"@ implies binds_prim(m5, memory.entries(g),
            gb[c].0, last_binding(gb, gb[c].0, gb.len()).unwrap()) by {
            crate::memory::lemma_dict_read_after_write(e4, PrimModel::Str("args"@), oa, PrimModel::Str(gb[c].0));
            assert(binds_prim(m2, e2, gb[c].0, last_binding(gb, gb[c].0, gb.len()).unwrap()));
            lemma_binds_kept(&mem2, memory, gb[c].0, last_binding(gb, gb[c].0, gb.len()).unwrap());
        }
    }
    let _ = s_finish(memory, &tmp, Ok(BuiltinReturn::Empty), Ghost(m2));
    proof {
        crate::memory::lemma_handles_kept_trans(m0, m2, memory@);
    }
    Ok(())
}
} // verus!
