//! The managed heap: cells addressed by index, handles that name cells across
//! garbage collections, and a copying collector.
//!
//! The heap's meaning (`MemoryModel`) gives every cell a stable identity: a
//! handle names an object, and an object holds primitives and the identities
//! of other objects. Collection moves cells to new addresses but changes no
//! object that a handle can reach.

use vstd::prelude::*;
use std::collections::VecDeque;
use crate::reader::{ReaderPosition, position_unknown, position_unknown_exec, AstContent};
use crate::reader_model::AstModel;
use crate::globals::Builtin;

verus! {

pub const MB: usize = 1048576;
pub const GB: usize = 1073741824;
pub const STARTING_SIZE: usize = 1048576;
/// Size over which capacity grows by a fixed amount instead of doubling.
pub const INFLECTION_SIZE: usize = 1073741824;
/// The default largest capacity: 4 GB of cells, or as many as addresses allow.
pub const DEFAULT_LIMIT: u64 = 4294967296;

pub fn default_limit() -> (r: usize)
    ensures
        r as int == if usize::MAX >= DEFAULT_LIMIT { DEFAULT_LIMIT as int } else { usize::MAX as int },
{
    if usize::MAX as u64 >= DEFAULT_LIMIT {
        DEFAULT_LIMIT as usize
    } else {
        usize::MAX
    }
}

/// A value that fits in one cell.
#[derive(Debug, Clone)]
pub enum Primitive {
    Nil,
    True,
    String(String),
    Int(i64),
    Builtin(Builtin),
}

/// The mathematical value of a primitive.
pub enum PrimModel {
    Nil,
    True,
    Str(Seq<char>),
    Int(i64),
    Builtin(Builtin),
}

impl Primitive {
    pub open spec fn model(&self) -> PrimModel {
        match self {
            Primitive::Nil => PrimModel::Nil,
            Primitive::True => PrimModel::True,
            Primitive::String(s) => PrimModel::Str(s@),
            Primitive::Int(i) => PrimModel::Int(*i),
            Primitive::Builtin(b) => PrimModel::Builtin(*b),
        }
    }

    /// A copy of this primitive.
    pub fn duplicate(&self) -> (r: Primitive)
        ensures
            r.model() == self.model(),
    {
        match self {
            Primitive::Nil => Primitive::Nil,
            Primitive::True => Primitive::True,
            Primitive::String(s) => Primitive::String(s.clone()),
            Primitive::Int(i) => Primitive::Int(*i),
            Primitive::Builtin(b) => Primitive::Builtin(*b),
        }
    }

    /// Whether two primitives are equal.
    pub fn same(&self, other: &Primitive) -> (r: bool)
        ensures
            r == (self.model() == other.model()),
    {
        let r = match self {
            Primitive::Nil => match other {
                Primitive::Nil => true,
                _ => false,
            },
            Primitive::True => match other {
                Primitive::True => true,
                _ => false,
            },
            Primitive::String(a) => match other {
                Primitive::String(b) => {
                    let e = *a == *b;
                    assert(e == (a@ == b@));
                    e
                },
                _ => false,
            },
            Primitive::Int(a) => match other {
                Primitive::Int(b) => *a == *b,
                _ => false,
            },
            Primitive::Builtin(a) => match other {
                Primitive::Builtin(b) => {
                    let e = *a == *b;
                    assert(e == (*a == *b));
                    e
                },
                _ => false,
            },
        };
        r
    }
}

/// What a handle refers to, as far as the evaluator looks at it: a primitive
/// itself, or the kind of a compound object.
#[derive(Debug)]
pub enum Value {
    Primitive(Primitive),
    Quote,
    Array,
    Dict,
    Fun,
}

pub enum ValueModel {
    Primitive(PrimModel),
    Quote,
    Array,
    Dict,
    Fun,
}

impl Value {
    pub open spec fn model(&self) -> ValueModel {
        match self {
            Value::Primitive(p) => ValueModel::Primitive(p.model()),
            Value::Quote => ValueModel::Quote,
            Value::Array => ValueModel::Array,
            Value::Dict => ValueModel::Dict,
            Value::Fun => ValueModel::Fun,
        }
    }
}

/// A function object: an optional name (bound to the function itself while
/// it runs), argument and local declarations, and a body.
pub struct Fun {
    pub name: Option<String>,
    pub args: MemHandle,
    pub locals: MemHandle,
    pub body: MemHandle,
}

/// An object of the heap, with the identities of the objects it refers to.
pub enum Obj {
    Prim(PrimModel),
    Quote(nat),
    Array(Seq<nat>, ReaderPosition),
    Dict(Seq<(PrimModel, nat)>),
    Fun(Option<Seq<char>>, nat, nat, nat),
    /// Marks, in a saved scope, a variable that was unbound.
    Hole,
    /// Only seen during collection.
    Moved,
}

/// The value of an object, as `Memory::value` reports it.
pub open spec fn obj_value(o: Obj) -> ValueModel {
    match o {
        Obj::Prim(p) => ValueModel::Primitive(p),
        Obj::Quote(_) => ValueModel::Quote,
        Obj::Array(_, _) => ValueModel::Array,
        Obj::Dict(_) => ValueModel::Dict,
        Obj::Fun(_, _, _, _) => ValueModel::Fun,
        _ => ValueModel::Primitive(PrimModel::Nil),
    }
}

/// The meaning of the heap: what each handle names, and the objects.
pub struct MemoryModel {
    pub handles: Seq<Option<nat>>,
    pub objs: Map<nat, Obj>,
    /// Every object's identity is below this; new objects get it.
    pub next: nat,
}

/// A handle: an index into the handle table, whose entry holds the address
/// of the cell it names. A handle is a plain index: dropping it gives
/// nothing back. Its entry, and what it names, stay in use (a root of every
/// collection) until `Memory::handle_release` gives it up.
#[derive(Debug, Clone, Copy, PartialEq, Eq, Structural)]
pub struct MemHandleImpl {
    pub idx: usize,
}

pub type MemHandle = MemHandleImpl;

impl MemoryModel {
    /// Every object's identity is below `next`.
    pub open spec fn ok(self) -> bool {
        &&& forall|o: nat| #[trigger] self.objs.contains_key(o) ==> o < self.next
        &&& forall|i: int| 0 <= i < self.handles.len() && #[trigger] self.handles[i] is Some ==> self.objs.contains_key(self.handles[i].unwrap())
    }

    /// The handle names an object.
    pub open spec fn live(self, h: MemHandle) -> bool {
        &&& h.idx < self.handles.len()
        &&& self.handles[h.idx as int] is Some
        &&& self.objs.contains_key(self.handles[h.idx as int].unwrap())
    }

    pub open spec fn obj(self, h: MemHandle) -> nat {
        self.handles[h.idx as int].unwrap()
    }

    pub open spec fn cell(self, h: MemHandle) -> Obj {
        self.objs[self.obj(h)]
    }

    pub open spec fn value(self, h: MemHandle) -> ValueModel {
        obj_value(self.cell(h))
    }

    /// Every handle that named an object of `self` names the same object in
    /// `new`, and every object that both hold is unchanged.
    pub open spec fn kept_in(self, new: MemoryModel) -> bool {
        &&& new.handles.len() >= self.handles.len()
        &&& forall|i: int|
            0 <= i < self.handles.len() && #[trigger] self.handles[i] is Some ==> new.handles[i]
                == self.handles[i] && new.objs.contains_key(self.handles[i].unwrap())
        &&& forall|o: nat|
            #[trigger] new.objs.contains_key(o) && self.objs.contains_key(o) ==> new.objs[o]
                == self.objs[o]
        &&& new.next >= self.next
        &&& forall|o: nat| #[trigger] new.objs.contains_key(o) ==> self.objs.contains_key(o) || o >= self.next
    }

    /// As `kept_in`, except that object `o` may have changed.
    pub open spec fn kept_except(self, new: MemoryModel, o: nat) -> bool {
        &&& new.handles.len() >= self.handles.len()
        &&& forall|i: int|
            0 <= i < self.handles.len() && #[trigger] self.handles[i] is Some ==> new.handles[i]
                == self.handles[i] && new.objs.contains_key(self.handles[i].unwrap())
        &&& forall|p: nat|
            #[trigger] new.objs.contains_key(p) && self.objs.contains_key(p) && p != o
                ==> new.objs[p] == self.objs[p]
        &&& new.next >= self.next
        &&& forall|p: nat| #[trigger] new.objs.contains_key(p) ==> self.objs.contains_key(p) || p >= self.next
    }

    /// `h` is a handle of `new` that was free in `self`, and no other handle
    /// entry changed.
    pub open spec fn new_handle(self, new: MemoryModel, h: MemHandle, o: nat) -> bool {
        &&& h.idx < new.handles.len()
        &&& new.handles[h.idx as int] == Some(o)
        &&& (h.idx >= self.handles.len() || self.handles[h.idx as int] is None)
        &&& new.handles.len() <= self.handles.len() + 1
        &&& new.handles.len() >= self.handles.len()
        &&& forall|i: int|
            0 <= i < new.handles.len() && i != h.idx ==> #[trigger] new.handles[i] == (if i
                < self.handles.len() {
                self.handles[i]
            } else {
                None
            })
    }
}

struct DictEntry {
    key: Primitive,
    addr: usize,
}

struct FunCell {
    name: Option<String>,
    args: usize,
    locals: usize,
    body: usize,
}

enum MemCell {
    Primitive(Primitive),
    Quote(usize),
    Array(Vec<usize>, ReaderPosition),
    Dict(Vec<DictEntry>),
    Fun(FunCell),
    Hole,
    /// Used during collection only.
    Forward(usize),
}

pub open spec fn name_model(n: Option<String>) -> Option<Seq<char>> {
    match n {
        Some(s) => Some(s@),
        None => None,
    }
}

spec fn entry_model(e: DictEntry, ids: Seq<nat>) -> (PrimModel, nat) {
    (e.key.model(), ids[e.addr as int])
}

spec fn abs_cell(c: MemCell, ids: Seq<nat>) -> Obj {
    match c {
        MemCell::Primitive(p) => Obj::Prim(p.model()),
        MemCell::Quote(a) => Obj::Quote(ids[a as int]),
        MemCell::Array(v, pos) => Obj::Array(Seq::new(v@.len(), |i: int| ids[v@[i] as int]), pos),
        MemCell::Dict(d) => Obj::Dict(Seq::new(d@.len(), |i: int| entry_model(d@[i], ids))),
        MemCell::Fun(f) => Obj::Fun(
            name_model(f.name),
            ids[f.args as int],
            ids[f.locals as int],
            ids[f.body as int],
        ),
        MemCell::Hole => Obj::Hole,
        MemCell::Forward(_) => Obj::Moved,
    }
}

/// Every address in the cell is below `n`.
spec fn ptrs_below(c: MemCell, n: int) -> bool {
    match c {
        MemCell::Quote(a) => a < n,
        MemCell::Array(v, _) => forall|i: int| 0 <= i < v@.len() ==> #[trigger] v@[i] < n,
        MemCell::Dict(d) => forall|i: int| 0 <= i < d@.len() ==> #[trigger] d@[i].addr < n,
        MemCell::Fun(f) => f.args < n && f.locals < n && f.body < n,
        _ => true,
    }
}

spec fn keys_distinct(d: Seq<DictEntry>) -> bool {
    forall|i: int, j: int|
        0 <= i < d.len() && 0 <= j < d.len() && i != j ==> #[trigger] d[i].key.model()
            != #[trigger] d[j].key.model()
}

spec fn cell_ok(c: MemCell, n: int) -> bool {
    &&& ptrs_below(c, n)
    &&& !(c is Forward)
    &&& (c matches MemCell::Dict(d) ==> keys_distinct(d@))
}

/// The cell has no address in it: it may be allocated while a collection
/// can move other cells.
spec fn no_ptrs(c: MemCell) -> bool {
    match c {
        MemCell::Quote(_) | MemCell::Fun(_) | MemCell::Forward(_) => false,
        MemCell::Array(v, _) => v@.len() == 0,
        MemCell::Dict(d) => d@.len() == 0,
        _ => true,
    }
}

/// The identities are a prefix of the other's.
spec fn ids_prefix(a: Seq<nat>, b: Seq<nat>) -> bool {
    a.len() <= b.len() && forall|i: int| 0 <= i < a.len() ==> #[trigger] a[i] == b[i]
}

proof fn lemma_abs_extend(c: MemCell, a: Seq<nat>, b: Seq<nat>)
    requires
        ptrs_below(c, a.len() as int),
        ids_prefix(a, b),
    ensures
        abs_cell(c, a) == abs_cell(c, b),
{
    match c {
        MemCell::Array(v, pos) => {
            assert(Seq::new(v@.len(), |i: int| a[v@[i] as int]) =~= Seq::new(
                v@.len(),
                |i: int| b[v@[i] as int],
            ));
        },
        MemCell::Dict(d) => {
            assert forall|i: int| 0 <= i < d@.len() implies entry_model(d@[i], a) == entry_model(
                d@[i],
                b,
            ) by {
                assert(d@[i].addr < a.len());
            }
            assert(Seq::new(d@.len(), |i: int| entry_model(d@[i], a)) =~= Seq::new(
                d@.len(),
                |i: int| entry_model(d@[i], b),
            ));
        },
        _ => {},
    }
}

/// The managed heap.
pub struct Memory {
    space: Vec<MemCell>,
    capacity: usize,
    handles: Vec<Option<usize>>,
    free: VecDeque<usize>,
    /// The dictionary of global variables.
    globals: MemHandle,
    /// The largest capacity a collection may grow the heap to.
    gc_size_limit: usize,
    /// Cells live after the last collection, and the capacity it chose.
    last_live: usize,
    last_capacity: usize,
    ids: Ghost<Seq<nat>>,
    next_id: Ghost<nat>,
}

impl View for Memory {
    type V = MemoryModel;

    closed spec fn view(&self) -> MemoryModel {
        MemoryModel {
            handles: handles_of(self.handles@, self.ids@),
            objs: objs_of(self.space@, self.ids@),
            next: self.next_id@,
        }
    }
}

spec fn handles_of(handles: Seq<Option<usize>>, ids: Seq<nat>) -> Seq<Option<nat>> {
    Seq::new(
        handles.len(),
        |i: int|
            match handles[i] {
                Some(a) => Some(ids[a as int]),
                None => None,
            },
    )
}

spec fn addr_in(space: Seq<MemCell>, ids: Seq<nat>, o: nat) -> int {
    choose|a: int| 0 <= a < space.len() && ids[a] == o
}

spec fn objs_of(space: Seq<MemCell>, ids: Seq<nat>) -> Map<nat, Obj> {
    Map::new(
        |o: nat| exists|a: int| 0 <= a < space.len() && ids[a] == o,
        |o: nat| abs_cell(space[addr_in(space, ids, o)], ids),
    )
}

/// Identities are distinct, and every cell's addresses are in range.
spec fn space_ok(space: Seq<MemCell>, ids: Seq<nat>) -> bool {
    &&& ids.len() == space.len()
    &&& forall|a: int, b: int|
        0 <= a < space.len() && 0 <= b < space.len() && a != b ==> #[trigger] ids[a] != #[trigger] ids[b]
    &&& forall|a: int| 0 <= a < space.len() ==> #[trigger] cell_ok(space[a], space.len() as int)
}

proof fn lemma_objs_at(space: Seq<MemCell>, ids: Seq<nat>, a: int)
    requires
        space_ok(space, ids),
        0 <= a < space.len(),
    ensures
        objs_of(space, ids).contains_key(ids[a]),
        objs_of(space, ids)[ids[a]] == abs_cell(space[a], ids),
        addr_in(space, ids, ids[a]) == a,
{
    let o = ids[a];
    assert(exists|b: int| 0 <= b < space.len() && ids[b] == o);
    let b = addr_in(space, ids, o);
    assert(0 <= b < space.len() && ids[b] == o);
}

proof fn lemma_objs_push(space: Seq<MemCell>, ids: Seq<nat>, c: MemCell, o: nat)
    requires
        space_ok(space, ids),
        cell_ok(c, space.len() + 1 as int),
        !ids.contains(o),
    ensures
        space_ok(space.push(c), ids.push(o)),
        objs_of(space.push(c), ids.push(o)) == objs_of(space, ids).insert(o, abs_cell(c, ids.push(o))),
{
    let s2 = space.push(c);
    let i2 = ids.push(o);
    assert forall|a: int, b: int| 0 <= a < s2.len() && 0 <= b < s2.len() && a != b implies #[trigger] i2[a] != #[trigger] i2[b] by {
        if a < space.len() && b < space.len() {
        } else if a == space.len() {
            assert(ids.contains(i2[b]) || b == space.len());
        } else {
            assert(ids.contains(i2[a]) || a == space.len());
        }
    }
    assert forall|a: int| 0 <= a < s2.len() implies #[trigger] cell_ok(s2[a], s2.len() as int) by {
        if a < space.len() {
            assert(cell_ok(space[a], space.len() as int));
        }
    }
    assert(space_ok(s2, i2));
    let m1 = objs_of(space, ids).insert(o, abs_cell(c, i2));
    let m2 = objs_of(s2, i2);
    assert forall|p: nat| m1.contains_key(p) <==> m2.contains_key(p) by {
        if m1.contains_key(p) {
            if p == o {
                lemma_objs_at(s2, i2, space.len() as int);
            } else {
                let a = addr_in(space, ids, p);
                lemma_objs_at(s2, i2, a);
            }
        }
        if m2.contains_key(p) {
            let a = addr_in(s2, i2, p);
            if a < space.len() {
                lemma_objs_at(space, ids, a);
            }
        }
    }
    assert forall|p: nat| m1.contains_key(p) implies m1[p] == m2[p] by {
        if p == o {
            lemma_objs_at(s2, i2, space.len() as int);
        } else {
            let a = addr_in(space, ids, p);
            lemma_objs_at(space, ids, a);
            lemma_objs_at(s2, i2, a);
            assert(cell_ok(space[a], space.len() as int));
            assert(ids_prefix(ids, i2));
            lemma_abs_extend(space[a], ids, i2);
        }
    }
    assert(m1 =~= m2);
}

proof fn lemma_objs_set(space: Seq<MemCell>, ids: Seq<nat>, a: int, c: MemCell)
    requires
        space_ok(space, ids),
        0 <= a < space.len(),
        cell_ok(c, space.len() as int),
    ensures
        space_ok(space.update(a, c), ids),
        objs_of(space.update(a, c), ids) == objs_of(space, ids).insert(ids[a], abs_cell(c, ids)),
{
    let s2 = space.update(a, c);
    assert forall|b: int| 0 <= b < s2.len() implies #[trigger] cell_ok(s2[b], s2.len() as int) by {
        if b != a {
            assert(cell_ok(space[b], space.len() as int));
        }
    }
    let m1 = objs_of(space, ids).insert(ids[a], abs_cell(c, ids));
    let m2 = objs_of(s2, ids);
    assert forall|p: nat| m1.contains_key(p) <==> m2.contains_key(p) by {
        if m1.contains_key(p) && p != ids[a] {
            let b = addr_in(space, ids, p);
            lemma_objs_at(s2, ids, b);
        }
        if m1.contains_key(p) && p == ids[a] {
            lemma_objs_at(s2, ids, a);
        }
        if m2.contains_key(p) {
            let b = addr_in(s2, ids, p);
            lemma_objs_at(space, ids, b);
        }
    }
    assert forall|p: nat| m1.contains_key(p) implies m1[p] == m2[p] by {
        if p == ids[a] {
            lemma_objs_at(s2, ids, a);
        } else {
            let b = addr_in(space, ids, p);
            lemma_objs_at(space, ids, b);
            lemma_objs_at(s2, ids, b);
        }
    }
    assert(m1 =~= m2);
}

impl Memory {
    closed spec fn addr_of(&self, o: nat) -> int {
        addr_in(self.space@, self.ids@, o)
    }

    /// The heap is consistent: every address in a cell or a handle is in
    /// range, identities are distinct, and the globals are a dictionary.
    pub closed spec fn wf(&self) -> bool {
        &&& space_ok(self.space@, self.ids@)
        &&& forall|a: int| 0 <= a < self.space@.len() ==> #[trigger] self.ids@[a] < self.next_id@
        &&& forall|i: int|
            0 <= i < self.handles@.len() && #[trigger] self.handles@[i] is Some
                ==> self.handles@[i].unwrap() < self.space@.len()
        &&& forall|j: int|
            0 <= j < self.free@.len() ==> #[trigger] self.free@[j] < self.handles@.len()
                && self.handles@[self.free@[j] as int] is None
        &&& self.free@.no_duplicates()
        &&& self.globals.idx < self.handles@.len()
        &&& self.handles@[self.globals.idx as int] is Some
        &&& self.space@[self.handles@[self.globals.idx as int].unwrap() as int] is Dict
    }

    proof fn lemma_obj_at(&self, a: int)
        requires
            self.wf(),
            0 <= a < self.space@.len(),
        ensures
            self@.objs.contains_key(self.ids@[a]),
            self@.objs[self.ids@[a]] == abs_cell(self.space@[a], self.ids@),
            self.addr_of(self.ids@[a]) == a,
    {
        lemma_objs_at(self.space@, self.ids@, a);
    }

    /// The handle names a cell.
    spec fn handle_ok(&self, h: MemHandle) -> bool {
        h.idx < self.handles@.len() && self.handles@[h.idx as int] is Some
    }

    spec fn addr(&self, h: MemHandle) -> int {
        self.handles@[h.idx as int].unwrap() as int
    }

    proof fn lemma_handle(&self, h: MemHandle)
        requires
            self.wf(),
            self.handle_ok(h),
        ensures
            self@.live(h),
            self@.obj(h) == self.ids@[self.addr(h)],
            self@.cell(h) == abs_cell(self.space@[self.addr(h)], self.ids@),
            0 <= self.addr(h) < self.space@.len(),
    {
        self.lemma_obj_at(self.addr(h));
    }

    /// Identities are below the next one.
    pub proof fn lemma_ok(&self)
        requires
            self.wf(),
        ensures
            self@.ok(),
    {
        assert forall|o: nat| #[trigger] self@.objs.contains_key(o) implies o < self@.next by {
            let a = self.addr_of(o);
            assert(0 <= a < self.space@.len() && self.ids@[a] == o);
        }
        assert forall|i: int| 0 <= i < self@.handles.len() && #[trigger] self@.handles[i] is Some implies self@.objs.contains_key(self@.handles[i].unwrap()) by {
            self.lemma_obj_at(self.handles@[i].unwrap() as int);
        }
    }

    /// The handle of the dictionary of global variables.
    pub closed spec fn globals_handle(&self) -> MemHandle {
        self.globals
    }

    /// The handle of the dictionary of global variables.
    pub fn globals(&self) -> (h: MemHandle)
        ensures
            h == self.globals_handle(),
    {
        self.globals
    }

    /// The globals dictionary is a live handle naming a dictionary.
    pub proof fn lemma_globals(&self)
        requires
            self.wf(),
        ensures
            self@.live(self.globals_handle()),
            self@.cell(self.globals_handle()) is Dict,
    {
        self.lemma_handle(self.globals);
    }

    /// The heap was just collected, and the cells still in use leave no room
    /// for another within the capacity the collection chose.
    pub closed spec fn full(&self) -> bool {
        &&& self.last_live == self.space@.len()
        &&& self.last_capacity == self.capacity
        &&& self.space@.len() >= self.capacity
    }

    /// The released handle table entries, in the order in which they are
    /// reused: the first is handed out next.
    pub closed spec fn free_handles(&self) -> Seq<usize> {
        self.free@
    }

    /// The largest capacity a collection may grow the heap to.
    pub closed spec fn size_limit(&self) -> usize {
        self.gc_size_limit
    }

    /// Sets the largest capacity a collection may grow the heap to.
    pub fn set_gc_size_limit(&mut self, limit: usize)
        requires
            old(self).wf(),
        ensures
            final(self).wf(),
            final(self)@ == old(self)@,
            final(self).globals_handle() == old(self).globals_handle(),
            final(self).size_limit() == limit,
    {
        self.gc_size_limit = limit;
        assert(self@.handles =~= old(self)@.handles);
        assert(self@.objs =~= old(self)@.objs);
    }
}


/// The identities of the cells copied so far, by their new address.
spec fn ids_of(g: Seq<int>, ids0: Seq<nat>) -> Seq<nat> {
    Seq::new(g.len(), |t: int| ids0[g[t]])
}

/// The old heap is consistent.
spec fn orig_ok(orig: Seq<MemCell>, ids0: Seq<nat>) -> bool {
    &&& ids0.len() == orig.len()
    &&& forall|a: int, b: int|
        0 <= a < orig.len() && 0 <= b < orig.len() && a != b ==> #[trigger] ids0[a] != #[trigger] ids0[b]
    &&& forall|a: int| 0 <= a < orig.len() ==> #[trigger] cell_ok(orig[a], orig.len() as int)
}

/// A collection in progress. Cell `g[t]` of the old heap has moved to address
/// `t` of the new one and is marked there; cells below `scan` have their
/// addresses moved too; cell `hole` is being rewritten (or -1 for none).
spec fn fwd_inv(
    from: Seq<MemCell>,
    to: Seq<MemCell>,
    orig: Seq<MemCell>,
    ids0: Seq<nat>,
    g: Seq<int>,
    scan: int,
    hole: int,
) -> bool {
    &&& from.len() == orig.len()
    &&& g.len() == to.len()
    &&& 0 <= scan <= to.len()
    &&& forall|t: int|
        0 <= t < to.len() ==> 0 <= #[trigger] g[t] < orig.len() && from[g[t]] == MemCell::Forward(
            t as usize,
        )
    &&& forall|a: int|
        0 <= a < from.len() && (#[trigger] from[a] is Forward) ==> from[a]->Forward_0 < to.len()
            && g[from[a]->Forward_0 as int] == a
    &&& forall|a: int| 0 <= a < from.len() && !(#[trigger] from[a] is Forward) ==> from[a] == orig[a]
    &&& forall|t: int|
        0 <= t < scan && t != hole ==> cell_ok(#[trigger] to[t], to.len() as int) && abs_cell(
            to[t],
            ids_of(g, ids0),
        ) == abs_cell(orig[g[t]], ids0)
    &&& forall|t: int| scan <= t < to.len() && t != hole ==> #[trigger] to[t] == orig[g[t]]
}

proof fn lemma_fwd_bound(from: Seq<MemCell>, to: Seq<MemCell>, orig: Seq<MemCell>, ids0: Seq<nat>, g: Seq<int>, scan: int, hole: int)
    requires
        fwd_inv(from, to, orig, ids0, g, scan, hole),
        to.len() <= usize::MAX,
    ensures
        to.len() <= orig.len(),
        g.no_duplicates(),
{
    assert forall|i: int, j: int| 0 <= i < g.len() && 0 <= j < g.len() && i != j implies g[i] != g[j] by {
        assert(from[g[i]] == MemCell::Forward(i as usize));
        assert(from[g[j]] == MemCell::Forward(j as usize));
    }
    g.unique_seq_to_set();
    vstd::set_lib::lemma_int_range(0, orig.len() as int);
    assert(g.to_set().subset_of(vstd::set_lib::set_int_range(0, orig.len() as int)));
    vstd::set_lib::lemma_len_subset(g.to_set(), vstd::set_lib::set_int_range(0, orig.len() as int));
}

/// Moves the old cell at `a` to the new heap, unless it has moved already;
/// gives its new address.
fn forward_one(
    from: &mut Vec<MemCell>,
    to: &mut Vec<MemCell>,
    a: usize,
    Ghost(orig): Ghost<Seq<MemCell>>,
    Ghost(ids0): Ghost<Seq<nat>>,
    Ghost(g): Ghost<Seq<int>>,
    Ghost(scan): Ghost<int>,
    Ghost(hole): Ghost<int>,
) -> (r: (usize, Ghost<Seq<int>>))
    requires
        fwd_inv(old(from)@, old(to)@, orig, ids0, g, scan, hole),
        orig_ok(orig, ids0),
        a < orig.len(),
        hole < scan,
    ensures
        fwd_inv(final(from)@, final(to)@, orig, ids0, r.1@, scan, hole),
        r.0 < final(to)@.len(),
        r.1@[r.0 as int] == a,
        g.is_prefix_of(r.1@),
        old(to)@.len() <= final(to)@.len(),
        forall|t: int| 0 <= t < old(to)@.len() ==> #[trigger] final(to)@[t] == old(to)@[t],
{
    let tl = to.len();
    proof {
        lemma_fwd_bound(from@, to@, orig, ids0, g, scan, hole);
    }
    match from[a] {
        MemCell::Forward(t) => {
            return (t, Ghost(g));
        },
        _ => {},
    }
    let t = to.len();
    let mut cell = MemCell::Forward(t);
    from.set_and_swap(a, &mut cell);
    to.push(cell);
    let ghost g2 = g.push(a as int);
    proof {
        assert(g.is_prefix_of(g2));
        let f2 = from@;
        let t2 = to@;
        assert forall|tt: int| 0 <= tt < t2.len() implies 0 <= #[trigger] g2[tt] < orig.len() && f2[g2[tt]]
            == MemCell::Forward(tt as usize) by {
            if tt < t as int {
                assert(g2[tt] == g[tt]);
                assert(g[tt] != a as int);
            }
        }
        assert forall|tt: int| 0 <= tt < scan && tt != hole implies cell_ok(#[trigger] t2[tt], t2.len() as int)
            && abs_cell(t2[tt], ids_of(g2, ids0)) == abs_cell(orig[g2[tt]], ids0) by {
            assert(t2[tt] == old(to)@[tt]);
            assert(ids_prefix(ids_of(g, ids0), ids_of(g2, ids0)));
            lemma_abs_extend(t2[tt], ids_of(g, ids0), ids_of(g2, ids0));
        }
    }
    (t, Ghost(g2))
}

/// Rewrites the cell at `scan` of the new heap with moved addresses.
fn scan_cell(
    from: &mut Vec<MemCell>,
    to: &mut Vec<MemCell>,
    scan: usize,
    Ghost(orig): Ghost<Seq<MemCell>>,
    Ghost(ids0): Ghost<Seq<nat>>,
    Ghost(g): Ghost<Seq<int>>,
) -> (r: Ghost<Seq<int>>)
    requires
        fwd_inv(old(from)@, old(to)@, orig, ids0, g, scan as int, -1),
        orig_ok(orig, ids0),
        scan < old(to)@.len(),
    ensures
        fwd_inv(final(from)@, final(to)@, orig, ids0, r@, scan + 1, -1),
        g.is_prefix_of(r@),
        old(to)@.len() <= final(to)@.len(),
{
    let mut cell = MemCell::Hole;
    to.set_and_swap(scan, &mut cell);
    let ghost oc = orig[g[scan as int]];
    assert(cell == oc);
    assert(cell_ok(orig[g[scan as int]], orig.len() as int));
    assert(fwd_inv(from@, to@, orig, ids0, g, scan + 1, scan as int));
    let ghost mut gg = g;
    let ghost sc = scan + 1;
    let new_cell = match cell {
        MemCell::Primitive(p) => MemCell::Primitive(p),
        MemCell::Quote(a) => {
            assert(a < orig.len());
            let (t, Ghost(g2)) = forward_one(from, to, a, Ghost(orig), Ghost(ids0), Ghost(gg), Ghost(sc), Ghost(scan as int));
            proof { gg = g2; }
            MemCell::Quote(t)
        },
        MemCell::Array(v, pos) => {
            let mut nv: Vec<usize> = Vec::new();
            let mut i: usize = 0;
            assert(forall|j: int| 0 <= j < v@.len() ==> #[trigger] v@[j] < orig.len());
            while i < v.len()
                invariant
                    fwd_inv(from@, to@, orig, ids0, gg, sc, scan as int),
                    orig_ok(orig, ids0),
                    g.is_prefix_of(gg),
                    sc == scan + 1,
                    scan < g.len(),
                    old(to)@.len() <= to@.len(),
                    oc == MemCell::Array(v, pos),
                    forall|j: int| 0 <= j < v@.len() ==> #[trigger] v@[j] < orig.len(),
                    i <= v@.len(),
                    nv@.len() == i,
                    forall|j: int| 0 <= j < i ==> #[trigger] nv@[j] < to@.len() && gg[nv@[j] as int] == v@[j],
                decreases v@.len() - i,
            {
                assert(v@[i as int] < orig.len());
                let (t, Ghost(g2)) = forward_one(from, to, v[i], Ghost(orig), Ghost(ids0), Ghost(gg), Ghost(sc), Ghost(scan as int));
                proof {
                    assert forall|j: int| 0 <= j < i implies #[trigger] nv@[j] < to@.len() && g2[nv@[j] as int] == v@[j] by {
                        assert(gg.is_prefix_of(g2));
                    }
                    gg = g2;
                }
                nv.push(t);
                i = i + 1;
            }
            proof {
                let ids = ids_of(gg, ids0);
                assert(Seq::new(nv@.len(), |j: int| ids[nv@[j] as int]) =~= Seq::new(v@.len(), |j: int| ids0[v@[j] as int]));
            }
            MemCell::Array(nv, pos)
        },
        MemCell::Dict(d) => {
            let mut d = d;
            let ghost d0 = d@;
            let mut nd: Vec<DictEntry> = Vec::new();
            let mut i: usize = 0;
            while i < d.len()
                invariant
                    fwd_inv(from@, to@, orig, ids0, gg, sc, scan as int),
                    orig_ok(orig, ids0),
                    g.is_prefix_of(gg),
                    sc == scan + 1,
                    scan < g.len(),
                    old(to)@.len() <= to@.len(),
                    oc matches MemCell::Dict(dd) && dd@ == d0,
                    cell_ok(oc, orig.len() as int),
                    d@.len() == d0.len(),
                    forall|j: int| i <= j < d0.len() ==> #[trigger] d@[j] == d0[j],
                    forall|j: int| 0 <= j < d0.len() ==> #[trigger] d0[j].addr < orig.len(),
                    i <= d0.len(),
                    nd@.len() == i,
                    forall|j: int| 0 <= j < i ==> #[trigger] nd@[j].addr < to@.len() && gg[nd@[j].addr as int]
                        == d0[j].addr && nd@[j].key.model() == d0[j].key.model(),
                decreases d0.len() - i,
            {
                let mut e = DictEntry { key: Primitive::Nil, addr: 0 };
                d.set_and_swap(i, &mut e);
                let (t, Ghost(g2)) = forward_one(from, to, e.addr, Ghost(orig), Ghost(ids0), Ghost(gg), Ghost(sc), Ghost(scan as int));
                proof {
                    assert forall|j: int| 0 <= j < i implies #[trigger] nd@[j].addr < to@.len() && g2[nd@[j].addr as int] == d0[j].addr
                        && nd@[j].key.model() == d0[j].key.model() by {
                        assert(gg.is_prefix_of(g2));
                    }
                    gg = g2;
                }
                nd.push(DictEntry { key: e.key, addr: t });
                i = i + 1;
            }
            proof {
                let ids = ids_of(gg, ids0);
                assert(Seq::new(nd@.len(), |j: int| entry_model(nd@[j], ids)) =~= Seq::new(d0.len(), |j: int| entry_model(d0[j], ids0)));
                assert(keys_distinct(d0));
                assert forall|x: int, y: int| 0 <= x < nd@.len() && 0 <= y < nd@.len() && x != y implies
                    #[trigger] nd@[x].key.model() != #[trigger] nd@[y].key.model() by {
                    assert(nd@[x].addr < to@.len() && nd@[y].addr < to@.len());
                    assert(d0[x].key.model() != d0[y].key.model());
                }
            }
            MemCell::Dict(nd)
        },
        MemCell::Fun(f) => {
            let FunCell { name, args, locals, body } = f;
            let (ta, Ghost(g2)) = forward_one(from, to, args, Ghost(orig), Ghost(ids0), Ghost(gg), Ghost(sc), Ghost(scan as int));
            let (tl, Ghost(g3)) = forward_one(from, to, locals, Ghost(orig), Ghost(ids0), Ghost(g2), Ghost(sc), Ghost(scan as int));
            let (tb, Ghost(g4)) = forward_one(from, to, body, Ghost(orig), Ghost(ids0), Ghost(g3), Ghost(sc), Ghost(scan as int));
            proof {
                assert(g2.is_prefix_of(g3) && g3.is_prefix_of(g4));
                assert(g4[ta as int] == args && g4[tl as int] == locals && g4[tb as int] == body);
                gg = g4;
            }
            MemCell::Fun(FunCell { name, args: ta, locals: tl, body: tb })
        },
        MemCell::Hole => MemCell::Hole,
        MemCell::Forward(x) => MemCell::Forward(x),
    };
    proof {
        let ids = ids_of(gg, ids0);
        assert(cell_ok(new_cell, to@.len() as int));
        assert(abs_cell(new_cell, ids) == abs_cell(oc, ids0));
    }
    to.set(scan, new_cell);
    proof {
        let t2 = to@;
        assert forall|t: int| 0 <= t < scan + 1 && t != -1 implies cell_ok(#[trigger] t2[t], t2.len() as int)
            && abs_cell(t2[t], ids_of(gg, ids0)) == abs_cell(orig[gg[t]], ids0) by {
            if t < scan {
            }
        }
    }
    Ghost(gg)
}


/// Out of memory: the heap is full even after a collection.
#[derive(Debug, Clone, Copy, PartialEq, Eq, Structural)]
pub struct MemoryFull;

/// The capacity a collection asks for: doubled (or, past the inflection
/// size, grown by a gigabyte of cells) where over half of the cells were live
/// after the last collection.
pub open spec fn desired_capacity_model(old_capacity: usize, last_live: usize, last_capacity: usize) -> int {
    if 2 * last_live > last_capacity {
        if old_capacity < INFLECTION_SIZE {
            old_capacity * 2
        } else {
            vstd::math::min(old_capacity + GB, usize::MAX as int)
        }
    } else {
        old_capacity as int
    }
}

pub fn desired_capacity(old_capacity: usize, last_live: usize, last_capacity: usize) -> (r: usize)
    ensures
        r == desired_capacity_model(old_capacity, last_live, last_capacity),
{
    if last_live > last_capacity / 2 {
        if old_capacity < INFLECTION_SIZE {
            old_capacity * 2
        } else {
            old_capacity.saturating_add(GB)
        }
    } else {
        old_capacity
    }
}

impl MemoryModel {
    /// What a collection may do: the handles are unchanged, objects only
    /// disappear, and none that a handle names does.
    pub open spec fn collected_to(self, new: MemoryModel) -> bool {
        &&& new.handles == self.handles
        &&& new.next == self.next
        &&& forall|o: nat| #[trigger] new.objs.contains_key(o) ==> self.objs.contains_key(o) && new.objs[o] == self.objs[o]
        &&& forall|i: int| 0 <= i < self.handles.len() && #[trigger] self.handles[i] is Some ==> new.objs.contains_key(self.handles[i].unwrap())
    }
}

impl Memory {
    /// Copies every cell that a handle can reach into a fresh space, in
    /// breadth-first order from each handle in turn, and drops the rest.
    fn collect(&mut self) -> (r: Result<(), MemoryFull>)
        requires
            old(self).wf(),
        ensures
            final(self).wf(),
            old(self)@.collected_to(final(self)@),
            final(self).globals == old(self).globals,
            final(self).next_id == old(self).next_id,
            final(self).gc_size_limit == old(self).gc_size_limit,
            final(self).capacity == vstd::math::min(
                desired_capacity_model(old(self).capacity, old(self).last_live, old(self).last_capacity),
                old(self).gc_size_limit as int),
            final(self).last_live == final(self).space@.len(),
            final(self).last_capacity == final(self).capacity,
            r is Ok ==> final(self).space@.len() < final(self).capacity,
            r is Err ==> final(self).full(),
    {
        let capacity = self.capacity;
        let desired = desired_capacity(capacity, self.last_live, self.last_capacity);
        let new_capacity = if desired < self.gc_size_limit {
            desired
        } else {
            self.gc_size_limit
        };
        let mut from: Vec<MemCell> = Vec::new();
        std::mem::swap(&mut from, &mut self.space);
        let mut to: Vec<MemCell> = Vec::with_capacity(new_capacity);
        let ghost orig = from@;
        let ghost ids0 = self.ids@;
        let ghost h0 = self.handles@;
        let ghost mut g: Seq<int> = Seq::empty();
        proof {
            assert(orig_ok(orig, ids0)) by {
                assert forall|a: int| 0 <= a < orig.len() implies #[trigger] cell_ok(orig[a], orig.len() as int) by {
                    assert(cell_ok(old(self).space@[a], old(self).space@.len() as int));
                }
            }
            assert forall|a: int| 0 <= a < from@.len() implies !(#[trigger] from@[a] is Forward) by {
                assert(cell_ok(orig[a], orig.len() as int));
            }
        }
        let n = self.handles.len();
        let mut i: usize = 0;
        let mut scan: usize = 0;
        while i < n
            invariant
                orig_ok(orig, ids0),
                fwd_inv(from@, to@, orig, ids0, g, scan as int, -1),
                scan == to@.len(),
                n == h0.len(),
                self.handles@.len() == n,
                i <= n,
                self.next_id == old(self).next_id,
                self.globals == old(self).globals,
                self.gc_size_limit == old(self).gc_size_limit,
                self.free@ == old(self).free@,
                h0 == old(self).handles@,
                ids0 == old(self).ids@,
                orig == old(self).space@,
                forall|j: int| 0 <= j < n && #[trigger] h0[j] is Some ==> h0[j].unwrap() < orig.len(),
                forall|j: int|
                    0 <= j < i && #[trigger] h0[j] is Some ==> self.handles@[j] is Some
                        && self.handles@[j].unwrap() < to@.len() && g[self.handles@[j].unwrap() as int]
                        == h0[j].unwrap(),
                forall|j: int| 0 <= j < i && #[trigger] h0[j] is None ==> self.handles@[j] is None,
                forall|j: int| i <= j < n ==> #[trigger] self.handles@[j] == h0[j],
            decreases n - i,
        {
            match self.handles[i] {
                Some(a) => {
                    assert(h0[i as int] is Some);
                    let (t, Ghost(g2)) = forward_one(&mut from, &mut to, a, Ghost(orig), Ghost(ids0), Ghost(g), Ghost(scan as int), Ghost(-1int));
                    proof {
                        g = g2;
                    }
                    while scan < to.len()
                        invariant
                            orig_ok(orig, ids0),
                            fwd_inv(from@, to@, orig, ids0, g, scan as int, -1),
                            g2.is_prefix_of(g),
                            t < to@.len(),
                            g2[t as int] == a,
                        decreases orig.len() - scan,
                    {
                        let tl = to.len();
                        proof {
                            lemma_fwd_bound(from@, to@, orig, ids0, g, scan as int, -1);
                        }
                        let Ghost(g3) = scan_cell(&mut from, &mut to, scan, Ghost(orig), Ghost(ids0), Ghost(g));
                        proof {
                            assert(g.is_prefix_of(g3));
                            g = g3;
                        }
                        scan = scan + 1;
                    }
                    proof {
                        assert forall|j: int| 0 <= j < i && #[trigger] h0[j] is Some implies g[self.handles@[j].unwrap() as int] == h0[j].unwrap() by {
                        }
                    }
                    self.handles.set(i, Some(t));
                },
                None => {},
            }
            i = i + 1;
        }
        let ghost ids = ids_of(g, ids0);
        proof {
            lemma_fwd_bound(from@, to@, orig, ids0, g, scan as int, -1);
        }
        self.space = to;
        self.ids = Ghost(ids);
        self.capacity = new_capacity;
        self.last_live = self.space.len();
        self.last_capacity = new_capacity;
        proof {
            let sp = self.space@;
            assert forall|a: int, b: int| 0 <= a < sp.len() && 0 <= b < sp.len() && a != b implies #[trigger] ids[a] != #[trigger] ids[b] by {
                assert(g[a] != g[b]);
            }
            assert forall|a: int| 0 <= a < sp.len() implies #[trigger] ids[a] < self.next_id@ by {
                assert(0 <= g[a] < orig.len());
                assert(ids[a] == ids0[g[a]]);
                assert(ids0[g[a]] == old(self).ids@[g[a]]);
                assert(old(self).ids@[g[a]] < old(self).next_id@);
            }
            assert forall|a: int| 0 <= a < sp.len() implies #[trigger] cell_ok(sp[a], sp.len() as int) by {
            }
            let gi = old(self).handles@[old(self).globals.idx as int].unwrap() as int;
            let gt = self.handles@[self.globals.idx as int].unwrap() as int;
            assert(g[gt] == gi);
            assert(abs_cell(sp[gt], ids) == abs_cell(orig[gi], ids0));
            assert(orig[gi] is Dict);
            assert(sp[gt] is Dict);
            assert forall|j: int| 0 <= j < self.free@.len() implies #[trigger] self.free@[j] < self.handles@.len()
                && self.handles@[self.free@[j] as int] is None by {
                assert(old(self).free@[j] < n);
                assert(h0[old(self).free@[j] as int] is None);
            }
            assert forall|j: int| 0 <= j < self.handles@.len() && #[trigger] self.handles@[j] is Some
                implies self.handles@[j].unwrap() < self.space@.len() by {
                if h0[j] is None {
                }
            }
            assert(self.wf());
            // the model
            assert(self@.handles =~= old(self)@.handles) by {
                assert forall|j: int| 0 <= j < n implies self@.handles[j] == old(self)@.handles[j] by {
                    if h0[j] is Some {
                    }
                }
            }
            assert forall|o: nat| #[trigger] self@.objs.contains_key(o) implies old(self)@.objs.contains_key(o) && self@.objs[o] == old(self)@.objs[o] by {
                let t = self.addr_of(o);
                self.lemma_obj_at(t);
                old(self).lemma_obj_at(g[t]);
            }
            assert forall|j: int| 0 <= j < old(self)@.handles.len() && #[trigger] old(self)@.handles[j] is Some implies self@.objs.contains_key(old(self)@.handles[j].unwrap()) by {
                let t = self.handles@[j].unwrap() as int;
                self.lemma_obj_at(t);
            }
        }
        if self.space.len() >= new_capacity {
            return Err(MemoryFull);
        }
        Ok(())
    }
}

impl MemoryModel {
    /// `new` is `self` after a collection, plus the object `o`, new, equal to `obj`.
    pub open spec fn allocated(self, new: MemoryModel, o: nat, obj: Obj) -> bool {
        &&& !self.objs.contains_key(o)
        &&& o == self.next
        &&& new.next == self.next + 1
        &&& new.objs.contains_key(o)
        &&& new.objs[o] == obj
        &&& forall|p: nat|
            #[trigger] new.objs.contains_key(p) && p != o ==> self.objs.contains_key(p) && new.objs[p]
                == self.objs[p]
        &&& forall|i: int|
            0 <= i < self.handles.len() && #[trigger] self.handles[i] is Some ==> new.objs.contains_key(
                self.handles[i].unwrap(),
            )
    }

    /// `new` is `self` after a collection, plus a new object equal to `obj`,
    /// named by the new handle `h`.
    pub open spec fn added(self, new: MemoryModel, h: MemHandle, obj: Obj) -> bool {
        &&& self.allocated(new, new.obj(h), obj)
        &&& self.new_handle(new, h, new.obj(h))
    }

    /// `new` is `self` with a new handle `h` to the existing object `o`.
    pub open spec fn handed_out(self, new: MemoryModel, h: MemHandle, o: nat) -> bool {
        &&& new.objs == self.objs
        &&& new.next == self.next
        &&& self.new_handle(new, h, o)
    }

    /// `new` is `self` with object `o` replaced by `obj`.
    pub open spec fn changed(self, new: MemoryModel, o: nat, obj: Obj) -> bool {
        &&& new.handles == self.handles
        &&& new.next == self.next
        &&& new.objs == self.objs.insert(o, obj)
    }
}

impl Memory {
    proof fn lemma_collected_refl(&self)
        requires
            self.wf(),
        ensures
            self@.collected_to(self@),
    {
        assert forall|i: int| 0 <= i < self@.handles.len() && #[trigger] self@.handles[i] is Some implies self@.objs.contains_key(self@.handles[i].unwrap()) by {
            self.lemma_obj_at(self.handles@[i].unwrap() as int);
        }
    }

    /// Makes room for `n` more cells, collecting where there is not.
    fn reserve(&mut self, n: usize) -> (r: Result<(), MemoryFull>)
        requires
            old(self).wf(),
        ensures
            final(self).wf(),
            old(self)@.collected_to(final(self)@),
            final(self).globals == old(self).globals,
            final(self).next_id == old(self).next_id,
            final(self).gc_size_limit == old(self).gc_size_limit,
            r is Ok ==> final(self).space@.len() + n <= final(self).capacity,
            r is Err ==> final(self).last_live == final(self).space@.len()
                && final(self).last_capacity == final(self).capacity
                && (final(self).space@.len() + n > final(self).capacity
                    || final(self).space@.len() >= final(self).capacity),
            old(self).space@.len() + n <= old(self).capacity ==> r is Ok && *final(self) == *old(self),
            old(self).space@.len() + n > old(self).capacity ==> final(self).capacity == vstd::math::min(
                desired_capacity_model(old(self).capacity, old(self).last_live, old(self).last_capacity),
                old(self).gc_size_limit as int)
                && final(self).last_live == final(self).space@.len()
                && final(self).last_capacity == final(self).capacity,
    {
        if self.capacity >= n && self.space.len() <= self.capacity - n {
            proof {
                self.lemma_collected_refl();
            }
            return Ok(());
        }
        self.collect()?;
        if self.capacity >= n && self.space.len() <= self.capacity - n {
            Ok(())
        } else {
            Err(MemoryFull)
        }
    }

    /// Adds a cell at the end of the space, as a new object.
    fn push_cell(&mut self, cell: MemCell) -> (a: usize)
        requires
            old(self).wf(),
            cell_ok(cell, old(self).space@.len() + 1 as int),
        ensures
            final(self).wf(),
            a == old(self).space@.len(),
            final(self).space@ == old(self).space@.push(cell),
            final(self).ids@ == old(self).ids@.push(old(self).next_id@),
            final(self).next_id@ == old(self).next_id@ + 1,
            final(self).globals == old(self).globals,
            final(self).handles@ == old(self).handles@,
            final(self).capacity == old(self).capacity,
            final(self).gc_size_limit == old(self).gc_size_limit,
            final(self).last_live == old(self).last_live,
            final(self).last_capacity == old(self).last_capacity,
            final(self)@.handles == old(self)@.handles,
            final(self)@.objs == old(self)@.objs.insert(old(self).next_id@, abs_cell(cell, final(self).ids@)),
            !old(self)@.objs.contains_key(old(self).next_id@),
    {
        let ghost o = self.next_id@;
        proof {
            assert(!self.ids@.contains(o)) by {
                if self.ids@.contains(o) {
                    let a = choose|a: int| 0 <= a < self.ids@.len() && self.ids@[a] == o;
                    assert(self.ids@[a] < self.next_id@);
                }
            }
            lemma_objs_push(self.space@, self.ids@, cell, o);
            if old(self)@.objs.contains_key(o) {
                let a = self.addr_of(o);
                assert(0 <= a < self.space@.len() && self.ids@[a] == o);
                assert(self.ids@[a] < self.next_id@);
            }
        }
        let a = self.space.len();
        self.space.push(cell);
        self.ids = Ghost(self.ids@.push(o));
        self.next_id = Ghost(o + 1);
        proof {
            assert(handles_of(self.handles@, self.ids@) =~= handles_of(old(self).handles@, old(self).ids@));
            assert forall|b: int| 0 <= b < self.space@.len() implies #[trigger] self.ids@[b] < self.next_id@ by {
                if b < a {
                    assert(old(self).ids@[b] < o);
                }
            }
        }
        a
    }

    /// Allocates a cell that holds no address, collecting first where the
    /// space is full.
    fn allocate(&mut self, cell: MemCell) -> (r: Result<usize, MemoryFull>)
        requires
            old(self).wf(),
            no_ptrs(cell),
            !(cell is Dict) || keys_distinct(cell->Dict_0@),
        ensures
            final(self).wf(),
            final(self).globals == old(self).globals,
            r is Err ==> old(self)@.collected_to(final(self)@) && final(self).full(),
            final(self).gc_size_limit == old(self).gc_size_limit,
            r matches Ok(a) ==> a < final(self).space@.len() && final(self).space@[a as int] == cell
                && old(self)@.allocated(final(self)@, final(self).ids@[a as int], abs_cell(cell, final(self).ids@))
                && final(self)@.handles == old(self)@.handles,
            old(self).space@.len() < old(self).capacity ==> (r matches Ok(a) && a == old(self).space@.len()
                && final(self).space@ == old(self).space@.push(cell) && final(self).capacity == old(self).capacity),
            old(self).space@.len() >= old(self).capacity ==> final(self).capacity == vstd::math::min(
                desired_capacity_model(old(self).capacity, old(self).last_live, old(self).last_capacity),
                old(self).gc_size_limit as int)
                && final(self).last_capacity == final(self).capacity
                && (r matches Ok(a) ==> a == final(self).last_live && final(self).space@.len() == a + 1),
    {
        self.reserve(1)?;
        let ghost mid = self@;
        let a = self.push_cell(cell);
        proof {
            let o = self.ids@[a as int];
            assert forall|p: nat| #[trigger] self@.objs.contains_key(p) && p != o implies old(self)@.objs.contains_key(p) && self@.objs[p] == old(self)@.objs[p] by {
                assert(mid.objs.contains_key(p));
            }
            assert forall|i: int| 0 <= i < old(self)@.handles.len() && #[trigger] old(self)@.handles[i] is Some implies self@.objs.contains_key(old(self)@.handles[i].unwrap()) by {
                assert(mid.objs.contains_key(old(self)@.handles[i].unwrap()));
            }
        }
        Ok(a)
    }

    /// A new handle to the cell at `addr`: a freed table entry where there
    /// is one, else a new entry.
    fn handle_new(&mut self, addr: usize) -> (h: MemHandle)
        requires
            old(self).wf(),
            addr < old(self).space@.len(),
        ensures
            final(self).wf(),
            final(self).space@ == old(self).space@,
            final(self).ids@ == old(self).ids@,
            final(self).next_id == old(self).next_id,
            final(self).globals == old(self).globals,
            final(self).capacity == old(self).capacity,
            final(self).handles@[h.idx as int] == Some(addr),
            old(self)@.handed_out(final(self)@, h, old(self).ids@[addr as int]),
            old(self).free@.len() > 0 ==> h.idx == old(self).free@[0] && final(self).free@ == old(self).free@.drop_first(),
            old(self).free@.len() == 0 ==> h.idx == old(self).handles@.len() && final(self).free@ == old(self).free@,
    {
        let idx = if self.free.len() > 0 {
            let idx = self.free.pop_front().unwrap();
            proof {
                assert(old(self).free@[0] == idx);
            }
            self.handles.set(idx, Some(addr));
            idx
        } else {
            let idx = self.handles.len();
            self.handles.push(Some(addr));
            idx
        };
        let h = MemHandleImpl { idx };
        proof {
            let nh = self@.handles;
            let oh = old(self)@.handles;
            assert(nh.len() <= oh.len() + 1);
            assert forall|j: int| 0 <= j < self.free@.len() implies #[trigger] self.free@[j] < self.handles@.len()
                && self.handles@[self.free@[j] as int] is None by {
                if old(self).free@.len() > 0 {
                    assert(self.free@[j] == old(self).free@[j + 1]);
                    assert(old(self).free@[j + 1] != old(self).free@[0]);
                }
            }
        }
        h
    }
}

/// The key occurs in the dictionary's entries.
pub open spec fn has_key(d: Seq<(PrimModel, nat)>, k: PrimModel) -> bool {
    exists|i: int| 0 <= i < d.len() && d[i].0 == k
}

pub open spec fn key_index(d: Seq<(PrimModel, nat)>, k: PrimModel) -> int {
    choose|i: int| 0 <= i < d.len() && d[i].0 == k
}

/// No key occurs twice.
pub open spec fn distinct_keys(d: Seq<(PrimModel, nat)>) -> bool {
    forall|i: int, j: int| 0 <= i < d.len() && 0 <= j < d.len() && i != j ==> #[trigger] d[i].0 != #[trigger] d[j].0
}

/// The object a key maps to.
pub open spec fn dict_lookup(d: Seq<(PrimModel, nat)>, k: PrimModel) -> Option<nat> {
    if has_key(d, k) {
        Some(d[key_index(d, k)].1)
    } else {
        None
    }
}

/// Binding a key: in place where it is bound, else at the end.
pub open spec fn dict_insert(d: Seq<(PrimModel, nat)>, k: PrimModel, o: nat) -> Seq<(PrimModel, nat)> {
    if has_key(d, k) {
        d.update(key_index(d, k), (k, o))
    } else {
        d.push((k, o))
    }
}

/// Unbinding a key; the other entries keep their order.
pub open spec fn dict_remove(d: Seq<(PrimModel, nat)>, k: PrimModel) -> Seq<(PrimModel, nat)> {
    if has_key(d, k) {
        d.remove(key_index(d, k))
    } else {
        d
    }
}

/// The object made for a value by `Memory::value_new`.
pub open spec fn value_obj(m: MemoryModel, o: nat, v: ValueModel) -> bool {
    match v {
        ValueModel::Primitive(p) => m.objs[o] == Obj::Prim(p),
        ValueModel::Quote => m.objs[o] is Quote && m.objs.contains_key(m.objs[o]->Quote_0)
            && m.objs[m.objs[o]->Quote_0] == Obj::Prim(PrimModel::Nil),
        ValueModel::Dict => m.objs[o] == Obj::Dict(Seq::empty()),
        _ => m.objs[o] == Obj::Array(Seq::empty(), position_unknown()),
    }
}

spec fn entries_model(d: Seq<DictEntry>, ids: Seq<nat>) -> Seq<(PrimModel, nat)> {
    Seq::new(d.len(), |i: int| entry_model(d[i], ids))
}

pub proof fn lemma_key_index(d: Seq<(PrimModel, nat)>, k: PrimModel, i: int)
    requires
        distinct_keys(d),
        0 <= i < d.len(),
        d[i].0 == k,
    ensures
        has_key(d, k),
        key_index(d, k) == i,
{
    let j = key_index(d, k);
    assert(0 <= j < d.len() && d[j].0 == k);
}

impl Memory {
    fn addr_exec(&self, h: MemHandle) -> (a: usize)
        requires
            self.wf(),
            self@.live(h),
        ensures
            a == self.addr(h),
            a < self.space@.len(),
            self@.obj(h) == self.ids@[a as int],
            self@.cell(h) == abs_cell(self.space@[a as int], self.ids@),
    {
        let a = self.handles[h.idx].unwrap();
        proof {
            self.lemma_handle(h);
        }
        a
    }

    proof fn lemma_dict_distinct(&self, a: int)
        requires
            self.wf(),
            0 <= a < self.space@.len(),
            self.space@[a] is Dict,
        ensures
            distinct_keys(abs_cell(self.space@[a], self.ids@)->Dict_0),
    {
        assert(cell_ok(self.space@[a], self.space@.len() as int));
        let d = self.space@[a]->Dict_0@;
        let m = abs_cell(self.space@[a], self.ids@)->Dict_0;
        assert forall|i: int, j: int| 0 <= i < m.len() && 0 <= j < m.len() && i != j implies #[trigger] m[i].0 != #[trigger] m[j].0 by {
            assert(d[i].key.model() != d[j].key.model());
        }
    }

    /// Every dictionary object binds each key at most once.
    pub proof fn lemma_dict_keys(&self, h: MemHandle)
        requires
            self.wf(),
            self@.live(h),
            self@.cell(h) is Dict,
        ensures
            distinct_keys(self@.cell(h)->Dict_0),
    {
        self.lemma_handle(h);
        self.lemma_dict_distinct(self.addr(h));
    }

    /// A new heap whose global variable dictionary is empty.
    pub fn new_sized(starting_size: usize) -> (m: Memory)
        ensures
            m.wf(),
            m.globals_handle().idx == 0,
            m@.handles.len() == 1,
            m@.live(m.globals_handle()),
            m@.cell(m.globals_handle()) == Obj::Dict(Seq::empty()),
            m@.objs.dom() == set![m@.obj(m.globals_handle())],
            !m.full(),
            m.size_limit() as int == if usize::MAX >= DEFAULT_LIMIT { DEFAULT_LIMIT as int } else { usize::MAX as int },
            m.free_handles() == Seq::<usize>::empty(),
    {
        let mut space: Vec<MemCell> = Vec::with_capacity(starting_size);
        space.push(MemCell::Dict(Vec::new()));
        let mut handles: Vec<Option<usize>> = Vec::new();
        handles.push(Some(0));
        let ghost ids0: Seq<nat> = seq![0nat];
        let m = Memory {
            space,
            capacity: starting_size,
            handles,
            free: VecDeque::new(),
            globals: MemHandleImpl { idx: 0 },
            gc_size_limit: default_limit(),
            last_live: 0,
            last_capacity: 0,
            ids: Ghost(ids0),
            next_id: Ghost(1nat),
        };
        proof {
            assert(space_ok(m.space@, m.ids@));
            assert(m.wf());
            m.lemma_obj_at(0);
            assert(m@.cell(m.globals) == abs_cell(m.space@[0], m.ids@));
            assert(abs_cell(m.space@[0], m.ids@)->Dict_0 =~= Seq::empty());
            assert forall|o: nat| m@.objs.contains_key(o) implies o == 0 by {
                let a = m.addr_of(o);
            }
            assert(m@.objs.dom() =~= set![0nat]);
        }
        m
    }

    /// A new heap of the default starting size.
    pub fn new() -> (m: Memory)
        ensures
            m.wf(),
            m.globals_handle().idx == 0,
            m@.handles.len() == 1,
            m@.live(m.globals_handle()),
            m@.cell(m.globals_handle()) == Obj::Dict(Seq::empty()),
            m@.objs.dom() == set![m@.obj(m.globals_handle())],
            !m.full(),
            m.size_limit() as int == if usize::MAX >= DEFAULT_LIMIT { DEFAULT_LIMIT as int } else { usize::MAX as int },
            m.free_handles() == Seq::<usize>::empty(),
    {
        Self::new_sized(STARTING_SIZE)
    }

    /// Gives up a handle; its table entry is reused by a later handle.
    pub fn handle_release(&mut self, h: MemHandle)
        requires
            old(self).wf(),
            old(self)@.live(h),
            h.idx != old(self).globals_handle().idx,
        ensures
            final(self).wf(),
            final(self).globals_handle() == old(self).globals_handle(),
            final(self)@.objs == old(self)@.objs,
            final(self)@.next == old(self)@.next,
            final(self)@.handles == old(self)@.handles.update(h.idx as int, None),
            final(self).full() == old(self).full(),
            final(self).size_limit() == old(self).size_limit(),
            final(self).free_handles() == old(self).free_handles().push(h.idx),
    {
        self.release(h);
    }

    fn release(&mut self, h: MemHandle)
        requires
            old(self).wf(),
            old(self)@.live(h),
            h.idx != old(self).globals.idx,
        ensures
            final(self).wf(),
            final(self).globals == old(self).globals,
            final(self).space == old(self).space,
            final(self).ids == old(self).ids,
            final(self).next_id == old(self).next_id,
            final(self).capacity == old(self).capacity,
            final(self).last_live == old(self).last_live,
            final(self).last_capacity == old(self).last_capacity,
            final(self).gc_size_limit == old(self).gc_size_limit,
            final(self)@.objs == old(self)@.objs,
            final(self)@.handles == old(self)@.handles.update(h.idx as int, None),
            final(self).free@ == old(self).free@.push(h.idx),
    {
        self.handles.set(h.idx, None);
        self.free.push_back(h.idx);
        proof {
            assert(handles_of(self.handles@, self.ids@) =~= old(self)@.handles.update(h.idx as int, None));
            assert forall|j: int| 0 <= j < self.free@.len() implies #[trigger] self.free@[j] < self.handles@.len()
                && self.handles@[self.free@[j] as int] is None by {
                if j < old(self).free@.len() {
                    assert(old(self).free@[j] < old(self).handles@.len());
                }
            }
            assert(self.free@.no_duplicates()) by {
                assert forall|i: int, j: int| 0 <= i < self.free@.len() && 0 <= j < self.free@.len() && i != j implies self.free@[i] != self.free@[j] by {
                    if i < old(self).free@.len() && j == old(self).free@.len() {
                        assert(old(self).handles@[old(self).free@[i] as int] is None);
                    }
                    if j < old(self).free@.len() && i == old(self).free@.len() {
                        assert(old(self).handles@[old(self).free@[j] as int] is None);
                    }
                }
            }
        }
    }

    /// What the handle names, as the evaluator looks at it.
    pub fn value(&self, h: MemHandle) -> (v: Value)
        requires
            self.wf(),
            self@.live(h),
        ensures
            v.model() == self@.value(h),
    {
        let a = self.addr_exec(h);
        match &self.space[a] {
            MemCell::Primitive(p) => Value::Primitive(p.duplicate()),
            MemCell::Quote(_) => Value::Quote,
            MemCell::Array(_, _) => Value::Array,
            MemCell::Dict(_) => Value::Dict,
            MemCell::Fun(_) => Value::Fun,
            _ => Value::Primitive(Primitive::Nil),
        }
    }

    /// Whether the two handles name the same object.
    pub fn same_object(&self, a: MemHandle, b: MemHandle) -> (r: bool)
        requires
            self.wf(),
            self@.live(a),
            self@.live(b),
        ensures
            r == (self@.obj(a) == self@.obj(b)),
    {
        let x = self.addr_exec(a);
        let y = self.addr_exec(b);
        proof {
            self.lemma_obj_at(x as int);
            self.lemma_obj_at(y as int);
        }
        x == y
    }

    /// Whether the handle names a hole (an unbound marker in a saved scope).
    pub fn is_hole(&self, h: MemHandle) -> (r: bool)
        requires
            self.wf(),
            self@.live(h),
        ensures
            r == (self@.cell(h) is Hole),
    {
        let a = self.addr_exec(h);
        match &self.space[a] {
            MemCell::Hole => true,
            _ => false,
        }
    }

    /// A new handle to the object at `a`.
    fn hand_out(&mut self, a: usize) -> (h: MemHandle)
        requires
            old(self).wf(),
            a < old(self).space@.len(),
        ensures
            final(self).wf(),
            final(self).globals == old(self).globals,
            final(self).space@ == old(self).space@,
            final(self).ids@ == old(self).ids@,
            old(self)@.handed_out(final(self)@, h, old(self).ids@[a as int]),
            final(self)@.live(h),
    {
        let h = self.handle_new(a);
        proof {
            self.lemma_handle(h);
        }
        h
    }

    /// Allocates a cell and hands out a handle to it.
    fn alloc_handle(&mut self, cell: MemCell) -> (r: Result<MemHandle, MemoryFull>)
        requires
            old(self).wf(),
            no_ptrs(cell),
            !(cell is Dict) || keys_distinct(cell->Dict_0@),
        ensures
            r is Err ==> final(self).full(),
            final(self).wf(),
            final(self).globals_handle() == old(self).globals_handle(),
            r is Err ==> old(self)@.collected_to(final(self)@),
            r matches Ok(h) ==> old(self)@.added(final(self)@, h, abs_cell(cell, Seq::empty()))
                && final(self)@.live(h),
    {
        let a = self.allocate(cell)?;
        let ghost mid = self@;
        let ghost o = self.ids@[a as int];
        proof {
            lemma_abs_no_ptrs(cell, self.ids@);
        }
        let h = self.hand_out(a);
        proof {
            assert(self@.obj(h) == o);
            assert forall|i: int| 0 <= i < old(self)@.handles.len() && #[trigger] old(self)@.handles[i] is Some implies self@.objs.contains_key(old(self)@.handles[i].unwrap()) by {
                assert(mid.objs.contains_key(old(self)@.handles[i].unwrap()));
            }
        }
        Ok(h)
    }

    /// A new nil.
    pub fn nil(&mut self) -> (r: Result<MemHandle, MemoryFull>)
        requires
            old(self).wf(),
        ensures
            r is Err ==> final(self).full(),
            final(self).wf(),
            final(self).globals_handle() == old(self).globals_handle(),
            r is Err ==> old(self)@.collected_to(final(self)@),
            r matches Ok(h) ==> old(self)@.added(final(self)@, h, Obj::Prim(PrimModel::Nil)),
    {
        self.alloc_handle(MemCell::Primitive(Primitive::Nil))
    }

    /// A new empty array.
    pub fn array_new(&mut self) -> (r: Result<MemHandle, MemoryFull>)
        requires
            old(self).wf(),
        ensures
            r is Err ==> final(self).full(),
            final(self).wf(),
            final(self).globals_handle() == old(self).globals_handle(),
            r is Err ==> old(self)@.collected_to(final(self)@),
            r matches Ok(h) ==> old(self)@.added(final(self)@, h, Obj::Array(Seq::empty(), position_unknown())),
    {
        let cell = MemCell::Array(Vec::new(), position_unknown_exec());
        assert(abs_cell(cell, Seq::empty())->Array_0 =~= Seq::<nat>::empty());
        self.alloc_handle(cell)
    }

    /// A new empty dictionary.
    pub fn dict_new(&mut self) -> (r: Result<MemHandle, MemoryFull>)
        requires
            old(self).wf(),
        ensures
            r is Err ==> final(self).full(),
            final(self).wf(),
            final(self).globals_handle() == old(self).globals_handle(),
            r is Err ==> old(self)@.collected_to(final(self)@),
            r matches Ok(h) ==> old(self)@.added(final(self)@, h, Obj::Dict(Seq::empty())),
    {
        let cell = MemCell::Dict(Vec::new());
        assert(abs_cell(cell, Seq::empty())->Dict_0 =~= Seq::<(PrimModel, nat)>::empty());
        self.alloc_handle(cell)
    }
}

proof fn lemma_abs_no_ptrs(c: MemCell, ids: Seq<nat>)
    requires
        no_ptrs(c),
    ensures
        abs_cell(c, ids) == abs_cell(c, Seq::empty()),
{
    match c {
        MemCell::Array(v, pos) => {
            assert(Seq::new(v@.len(), |i: int| ids[v@[i] as int]) =~= Seq::new(v@.len(), |i: int| Seq::<nat>::empty()[v@[i] as int]));
        },
        MemCell::Dict(d) => {
            assert(Seq::new(d@.len(), |i: int| entry_model(d@[i], ids)) =~= Seq::new(d@.len(), |i: int| entry_model(d@[i], Seq::empty())));
        },
        _ => {},
    }
}

impl Memory {
    /// The heap after one cell was replaced by a consistent one.
    proof fn lemma_put(&self, prev: Memory, a: int)
        requires
            prev.wf(),
            0 <= a < prev.space@.len(),
            self.space@ == prev.space@.update(a, self.space@[a]),
            cell_ok(self.space@[a], prev.space@.len() as int),
            prev.handles@[prev.globals.idx as int].unwrap() == a ==> self.space@[a] is Dict,
            self.ids == prev.ids,
            self.next_id == prev.next_id,
            self.handles == prev.handles,
            self.free == prev.free,
            self.globals == prev.globals,
        ensures
            self.wf(),
            self@.handles == prev@.handles,
            self@.objs == prev@.objs.insert(prev.ids@[a], abs_cell(self.space@[a], self.ids@)),
    {
        lemma_objs_set(prev.space@, prev.ids@, a, self.space@[a]);
        assert(prev.space@.update(a, self.space@[a]) == self.space@);
    }

    /// The address the handle names, for a handle that may have been
    /// collected to a new address since it was checked.
    fn live_addr(&self, h: MemHandle) -> (a: usize)
        requires
            self.wf(),
            self@.live(h),
        ensures
            a < self.space@.len(),
            self.ids@[a as int] == self@.obj(h),
            self@.cell(h) == abs_cell(self.space@[a as int], self.ids@),
    {
        self.addr_exec(h)
    }

    /// A new handle to the object quoted by the quote `h`.
    pub fn quote_get(&mut self, h: MemHandle) -> (r: MemHandle)
        requires
            old(self).wf(),
            old(self)@.live(h),
            old(self)@.cell(h) is Quote,
        ensures
            final(self).wf(),
            final(self).globals_handle() == old(self).globals_handle(),
            old(self)@.handed_out(final(self)@, r, old(self)@.cell(h)->Quote_0),
            final(self)@.live(r),
    {
        let a = self.addr_exec(h);
        let inner = match &self.space[a] {
            MemCell::Quote(i) => *i,
            _ => 0,
        };
        proof {
            assert(cell_ok(self.space@[a as int], self.space@.len() as int));
        }
        self.hand_out(inner)
    }

    /// Makes the quote `h` quote the object named by `dst`.
    pub fn quote_set(&mut self, h: MemHandle, dst: MemHandle)
        requires
            old(self).wf(),
            old(self)@.live(h),
            old(self)@.live(dst),
            old(self)@.cell(h) is Quote,
        ensures
            final(self).wf(),
            final(self).globals_handle() == old(self).globals_handle(),
            old(self)@.changed(final(self)@, old(self)@.obj(h), Obj::Quote(old(self)@.obj(dst))),
    {
        let d = self.addr_exec(dst);
        let a = self.addr_exec(h);
        proof {
            old(self).lemma_handle(old(self).globals);
        }
        self.space.set(a, MemCell::Quote(d));
        proof {
            self.lemma_put(*old(self), a as int);
        }
    }

    /// A new quote of the object named by `h`.
    pub fn quote_new(&mut self, h: MemHandle) -> (r: Result<MemHandle, MemoryFull>)
        requires
            old(self).wf(),
            old(self)@.live(h),
        ensures
            r is Err ==> final(self).full(),
            final(self).wf(),
            final(self).globals_handle() == old(self).globals_handle(),
            r is Err ==> old(self)@.collected_to(final(self)@),
            r matches Ok(q) ==> old(self)@.added(final(self)@, q, Obj::Quote(old(self)@.obj(h))),
    {
        let q = self.alloc_handle(MemCell::Hole)?;
        let ghost mid = *self;
        proof {
            lemma_added_live(old(self)@, mid@, q, Obj::Hole, h);
        }
        let d = self.addr_exec(h);
        let a = self.addr_exec(q);
        proof {
            mid.lemma_handle(mid.globals);
            assert(mid.handles@[mid.globals.idx as int].unwrap() != a) by {
                if mid.handles@[mid.globals.idx as int].unwrap() == a {
                    mid.lemma_handle(q);
                }
            }
        }
        self.space.set(a, MemCell::Quote(d));
        proof {
            self.lemma_put(mid, a as int);
            let o = mid@.obj(q);
            assert(self@.obj(q) == o);
            assert forall|p: nat| #[trigger] self@.objs.contains_key(p) && p != o implies old(self)@.objs.contains_key(p) && self@.objs[p] == old(self)@.objs[p] by {
                assert(mid@.objs.contains_key(p));
            }
            assert forall|i: int| 0 <= i < old(self)@.handles.len() && #[trigger] old(self)@.handles[i] is Some implies self@.objs.contains_key(old(self)@.handles[i].unwrap()) by {
                assert(mid@.objs.contains_key(old(self)@.handles[i].unwrap()));
            }
        }
        Ok(q)
    }

    /// A new quote of the object that the quote `h` quotes.
    pub fn quote_clone(&mut self, h: MemHandle) -> (r: Result<MemHandle, MemoryFull>)
        requires
            old(self).wf(),
            old(self)@.live(h),
            old(self)@.cell(h) is Quote,
        ensures
            r is Err ==> final(self).full(),
            final(self).wf(),
            final(self).globals_handle() == old(self).globals_handle(),
            old(self)@.kept_in(final(self)@),
            r matches Ok(q) ==> final(self)@.live(q) && final(self)@.cell(q) == old(self)@.cell(h)
                && !old(self)@.objs.contains_key(final(self)@.obj(q)) && fresh(old(self)@, q),
    {
        let inner = self.quote_get(h);
        let ghost m1 = self@;
        proof {
            old(self).lemma_ok();
            lemma_handed_out_live(old(self)@, m1, inner, old(self)@.cell(h)->Quote_0, h);
        }
        let r = self.quote_new(inner);
        let ghost m2 = self@;
        proof {
            old(self).lemma_globals();
            assert(inner.idx != old(self).globals_handle().idx);
            if r is Ok {
                let q = r.unwrap();
                lemma_added_live(m1, m2, q, Obj::Quote(m1.obj(inner)), inner);
                lemma_added_kept(m1, m2, q, Obj::Quote(m1.obj(inner)));
                lemma_added_fresh(old(self)@, m1, m2, q, Obj::Quote(m1.obj(inner)));
            } else {
                lemma_collected_live(m1, m2, inner);
            }
            old(self).lemma_ok();
            lemma_kept_trans(old(self)@, m1, m2);
        }
        self.handle_release(inner);
        proof {
            lemma_release_kept(old(self)@, m2, self@, inner);
            if r is Ok {
                let q = r.unwrap();
                assert(self@.handles[q.idx as int] == m2.handles[q.idx as int]);
                if q.idx < old(self)@.handles.len() && old(self)@.handles[q.idx as int] is Some {
                    assert(m1.handles[q.idx as int] is Some);
                }
            }
        }
        r
    }
}

/// A handle that named an object before an allocation names the same one after.
pub proof fn lemma_added_live(m0: MemoryModel, m1: MemoryModel, q: MemHandle, obj: Obj, h: MemHandle)
    requires
        m0.added(m1, q, obj),
        m0.live(h),
    ensures
        m1.live(h),
        m1.obj(h) == m0.obj(h),
        m1.cell(h) == m0.cell(h),
        h.idx != q.idx,
        m0.kept_in(m1),
{
    assert(m1.handles[h.idx as int] == m0.handles[h.idx as int]);
    assert(m1.objs.contains_key(m0.obj(h)));
    lemma_added_kept(m0, m1, q, obj);
}

/// An allocation keeps every object a handle could reach.
pub proof fn lemma_added_kept(m0: MemoryModel, m1: MemoryModel, q: MemHandle, obj: Obj)
    requires
        m0.added(m1, q, obj),
    ensures
        m0.kept_in(m1),
{
    assert forall|i: int| 0 <= i < m0.handles.len() && #[trigger] m0.handles[i] is Some implies m1.handles[i] == m0.handles[i] && m1.objs.contains_key(m0.handles[i].unwrap()) by {
        assert(i != q.idx);
    }
    assert forall|o: nat| #[trigger] m1.objs.contains_key(o) && m0.objs.contains_key(o) implies m1.objs[o] == m0.objs[o] by {
        if o == m1.obj(q) {
        }
    }
}

/// A new handle keeps every handle and object.
pub proof fn lemma_handed_out_live(m0: MemoryModel, m1: MemoryModel, q: MemHandle, o: nat, h: MemHandle)
    requires
        m0.ok(),
        m0.handed_out(m1, q, o),
        m0.live(h),
    ensures
        m1.live(h),
        m1.obj(h) == m0.obj(h),
        m1.cell(h) == m0.cell(h),
        h.idx != q.idx,
        m0.kept_in(m1),
{
    assert(m1.handles[h.idx as int] == m0.handles[h.idx as int]);
    assert forall|i: int| 0 <= i < m0.handles.len() && #[trigger] m0.handles[i] is Some implies m1.handles[i] == m0.handles[i] && m1.objs.contains_key(m0.handles[i].unwrap()) by {
        assert(i != q.idx);
    }
}

/// A collection keeps what a handle names.
pub proof fn lemma_collected_live(m0: MemoryModel, m1: MemoryModel, h: MemHandle)
    requires
        m0.collected_to(m1),
        m0.live(h),
    ensures
        m1.live(h),
        m1.obj(h) == m0.obj(h),
        m1.cell(h) == m0.cell(h),
        m0.kept_in(m1),
{
    assert(m0.handles[h.idx as int] is Some);
}

/// Keeping is transitive.
pub proof fn lemma_kept_trans(m0: MemoryModel, m1: MemoryModel, m2: MemoryModel)
    requires
        m0.ok(),
        m0.kept_in(m1),
        m1.kept_in(m2),
    ensures
        m0.kept_in(m2),
{
    assert forall|i: int| 0 <= i < m0.handles.len() && #[trigger] m0.handles[i] is Some implies m2.handles[i] == m0.handles[i] && m2.objs.contains_key(m0.handles[i].unwrap()) by {
        assert(m1.handles[i] == m0.handles[i]);
    }
    assert forall|o: nat| #[trigger] m2.objs.contains_key(o) && m0.objs.contains_key(o) implies m2.objs[o] == m0.objs[o] by {
        if !m1.objs.contains_key(o) {
            assert(o >= m1.next);
            assert(m0.objs.contains_key(o) || o >= m0.next);
        }
    }
}

/// A live handle of a kept heap is live after.
pub proof fn lemma_kept_live(m0: MemoryModel, m1: MemoryModel, h: MemHandle)
    requires
        m0.kept_in(m1),
        m0.live(h),
    ensures
        m1.live(h),
        m1.obj(h) == m0.obj(h),
{
    assert(m0.handles[h.idx as int] is Some);
}

impl Memory {
    /// The elements of the array `h`.
    pub open spec fn elems(&self, h: MemHandle) -> Seq<nat> {
        self@.cell(h)->Array_0
    }

    /// Where the array `h` was read.
    pub open spec fn pos(&self, h: MemHandle) -> ReaderPosition {
        self@.cell(h)->Array_1
    }

    /// A new array of the objects the handles name, read at `pos`.
    pub fn array_from_handles_at(&mut self, pos: ReaderPosition, hs: &[MemHandle]) -> (r: Result<MemHandle, MemoryFull>)
        requires
            old(self).wf(),
            forall|i: int| 0 <= i < hs@.len() ==> old(self)@.live(#[trigger] hs@[i]),
        ensures
            r is Err ==> final(self).full(),
            final(self).wf(),
            final(self).globals_handle() == old(self).globals_handle(),
            r is Err ==> old(self)@.collected_to(final(self)@),
            r matches Ok(q) ==> old(self)@.added(final(self)@, q, Obj::Array(Seq::new(hs@.len(), |i: int| old(self)@.obj(hs@[i])), pos))
                && final(self)@.live(q),
    {
        let cell = MemCell::Array(Vec::new(), pos);
        assert(abs_cell(cell, Seq::empty())->Array_0 =~= Seq::<nat>::empty());
        let q = self.alloc_handle(cell)?;
        let ghost mid = *self;
        let mut v: Vec<usize> = Vec::new();
        let mut i: usize = 0;
        while i < hs.len()
            invariant
                self.wf(),
                *self == mid,
                old(self)@.added(mid@, q, Obj::Array(Seq::empty(), pos)),
                forall|k: int| 0 <= k < hs@.len() ==> old(self)@.live(#[trigger] hs@[k]),
                i <= hs@.len(),
                v@.len() == i,
                forall|k: int| 0 <= k < i ==> #[trigger] v@[k] < self.space@.len() && self.ids@[v@[k] as int] == old(self)@.obj(hs@[k]),
            decreases hs@.len() - i,
        {
            proof {
                lemma_added_live(old(self)@, mid@, q, Obj::Array(Seq::empty(), pos), hs@[i as int]);
            }
            let a = self.addr_exec(hs[i]);
            v.push(a);
            i = i + 1;
        }
        let a = self.addr_exec(q);
        proof {
            mid.lemma_handle(mid.globals);
            assert(mid.handles@[mid.globals.idx as int].unwrap() != a) by {
                if mid.handles@[mid.globals.idx as int].unwrap() == a {
                    mid.lemma_handle(q);
                }
            }
        }
        let ghost vv = v@;
        self.space.set(a, MemCell::Array(v, pos));
        proof {
            self.lemma_put(mid, a as int);
            let o = mid@.obj(q);
            assert(Seq::new(vv.len(), |k: int| self.ids@[vv[k] as int]) =~= Seq::new(hs@.len(), |k: int| old(self)@.obj(hs@[k])));
            assert forall|p: nat| #[trigger] self@.objs.contains_key(p) && p != o implies old(self)@.objs.contains_key(p) && self@.objs[p] == old(self)@.objs[p] by {
                assert(mid@.objs.contains_key(p));
            }
            assert forall|k: int| 0 <= k < old(self)@.handles.len() && #[trigger] old(self)@.handles[k] is Some implies self@.objs.contains_key(old(self)@.handles[k].unwrap()) by {
                assert(mid@.objs.contains_key(old(self)@.handles[k].unwrap()));
            }
            self.lemma_handle(q);
        }
        Ok(q)
    }

    /// A new array of the objects the handles name.
    pub fn array_from_handles(&mut self, hs: &[MemHandle]) -> (r: Result<MemHandle, MemoryFull>)
        requires
            old(self).wf(),
            forall|i: int| 0 <= i < hs@.len() ==> old(self)@.live(#[trigger] hs@[i]),
        ensures
            r is Err ==> final(self).full(),
            final(self).wf(),
            final(self).globals_handle() == old(self).globals_handle(),
            r is Err ==> old(self)@.collected_to(final(self)@),
            r matches Ok(q) ==> old(self)@.added(final(self)@, q, Obj::Array(Seq::new(hs@.len(), |i: int| old(self)@.obj(hs@[i])), position_unknown()))
                && final(self)@.live(q),
    {
        self.array_from_handles_at(position_unknown_exec(), hs)
    }

    /// The number of elements of the array `h`.
    pub fn array_len(&self, h: MemHandle) -> (n: usize)
        requires
            self.wf(),
            self@.live(h),
            self@.cell(h) is Array,
        ensures
            n == self.elems(h).len(),
    {
        let a = self.addr_exec(h);
        match &self.space[a] {
            MemCell::Array(v, _) => v.len(),
            _ => 0,
        }
    }

    /// Where the array `h` was read; the unknown position for other objects.
    pub fn array_get_position(&self, h: MemHandle) -> (p: ReaderPosition)
        requires
            self.wf(),
            self@.live(h),
        ensures
            p == (if self@.cell(h) is Array { self.pos(h) } else { position_unknown() }),
    {
        let a = self.addr_exec(h);
        match &self.space[a] {
            MemCell::Array(_, pos) => *pos,
            _ => position_unknown_exec(),
        }
    }

    /// A new handle to element `idx` of the array `h`, where there is one.
    pub fn array_get(&mut self, h: MemHandle, idx: usize) -> (r: Option<MemHandle>)
        requires
            old(self).wf(),
            old(self)@.live(h),
            old(self)@.cell(h) is Array,
        ensures
            final(self).wf(),
            final(self).globals_handle() == old(self).globals_handle(),
            idx >= old(self).elems(h).len() ==> r is None && final(self)@ == old(self)@,
            idx < old(self).elems(h).len() ==> (r matches Some(e) && old(self)@.handed_out(final(self)@, e, old(self).elems(h)[idx as int])
                && final(self)@.live(e)),
    {
        let a = self.addr_exec(h);
        let (len, e) = match &self.space[a] {
            MemCell::Array(v, _) => {
                if idx < v.len() {
                    (v.len(), v[idx])
                } else {
                    (v.len(), 0)
                }
            },
            _ => (0, 0),
        };
        if idx < len {
            proof {
                assert(cell_ok(self.space@[a as int], self.space@.len() as int));
            }
            Some(self.hand_out(e))
        } else {
            None
        }
    }

    /// A new handle for each element of the array `h`, in order.
    pub fn array_as_handles(&mut self, h: MemHandle) -> (r: Vec<MemHandle>)
        requires
            old(self).wf(),
            old(self)@.live(h),
            old(self)@.cell(h) is Array,
        ensures
            final(self).wf(),
            final(self).globals_handle() == old(self).globals_handle(),
            final(self)@.objs == old(self)@.objs,
            old(self)@.kept_in(final(self)@),
            r@.len() == old(self).elems(h).len(),
            forall|i: int| 0 <= i < r@.len() ==> final(self)@.live(#[trigger] r@[i]) && final(self)@.obj(r@[i]) == old(self).elems(h)[i],
    {
        let n = self.array_len(h);
        let mut r: Vec<MemHandle> = Vec::new();
        let mut i: usize = 0;
        proof {
            old(self).lemma_ok();
            assert(old(self)@.kept_in(self@));
        }
        while i < n
            invariant
                self.wf(),
                self.globals == old(self).globals,
                self@.objs == old(self)@.objs,
                self@.next == old(self)@.next,
                old(self)@.kept_in(self@),
                self@.live(h),
                self@.cell(h) == old(self)@.cell(h),
                old(self)@.cell(h) is Array,
                n == old(self).elems(h).len(),
                i <= n,
                r@.len() == i,
                forall|k: int| 0 <= k < i ==> self@.live(#[trigger] r@[k]) && self@.obj(r@[k]) == old(self).elems(h)[k],
            decreases n - i,
        {
            let ghost m1 = self@;
            proof {
                self.lemma_ok();
            }
            let e = self.array_get(h, i).unwrap();
            proof {
                lemma_handed_out_live(m1, self@, e, m1.cell(h)->Array_0[i as int], h);
                assert forall|k: int| 0 <= k < i implies self@.live(#[trigger] r@[k]) && self@.obj(r@[k]) == old(self).elems(h)[k] by {
                    lemma_handed_out_live(m1, self@, e, m1.cell(h)->Array_0[i as int], r@[k]);
                }
                lemma_kept_trans(old(self)@, m1, self@);
            }
            r.push(e);
            i = i + 1;
        }
        r
    }

    /// Replaces element `idx` of the array `h` with the object `dst` names.
    pub fn array_set(&mut self, h: MemHandle, idx: usize, dst: MemHandle)
        requires
            old(self).wf(),
            old(self)@.live(h),
            old(self)@.live(dst),
            old(self)@.cell(h) is Array,
            idx < old(self).elems(h).len(),
        ensures
            final(self).wf(),
            final(self).globals_handle() == old(self).globals_handle(),
            old(self)@.changed(final(self)@, old(self)@.obj(h), Obj::Array(old(self).elems(h).update(idx as int, old(self)@.obj(dst)), old(self).pos(h))),
    {
        let d = self.addr_exec(dst);
        let a = self.addr_exec(h);
        proof {
            old(self).lemma_handle(old(self).globals);
        }
        let mut c = MemCell::Hole;
        self.space.set_and_swap(a, &mut c);
        match c {
            MemCell::Array(mut v, pos) => {
                let ghost v0 = v@;
                v.set(idx, d);
                proof {
                    assert(cell_ok(old(self).space@[a as int], old(self).space@.len() as int));
                    assert(Seq::new(v@.len(), |k: int| self.ids@[v@[k] as int]) =~= Seq::new(v0.len(), |k: int| self.ids@[v0[k] as int]).update(idx as int, self.ids@[d as int]));
                }
                self.space.set(a, MemCell::Array(v, pos));
                proof {
                    assert(self.space@ =~= old(self).space@.update(a as int, self.space@[a as int]));
                    self.lemma_put(*old(self), a as int);
                }
            },
            _ => {},
        }
    }

    /// Appends the object `dst` names to the array `h`.
    pub fn array_push(&mut self, h: MemHandle, dst: MemHandle)
        requires
            old(self).wf(),
            old(self)@.live(h),
            old(self)@.live(dst),
            old(self)@.cell(h) is Array,
        ensures
            final(self).wf(),
            final(self).globals_handle() == old(self).globals_handle(),
            old(self)@.changed(final(self)@, old(self)@.obj(h), Obj::Array(old(self).elems(h).push(old(self)@.obj(dst)), old(self).pos(h))),
    {
        let d = self.addr_exec(dst);
        let a = self.addr_exec(h);
        proof {
            old(self).lemma_handle(old(self).globals);
        }
        let mut c = MemCell::Hole;
        self.space.set_and_swap(a, &mut c);
        match c {
            MemCell::Array(mut v, pos) => {
                let ghost v0 = v@;
                v.push(d);
                proof {
                    assert(cell_ok(old(self).space@[a as int], old(self).space@.len() as int));
                    assert(Seq::new(v@.len(), |k: int| self.ids@[v@[k] as int]) =~= Seq::new(v0.len(), |k: int| self.ids@[v0[k] as int]).push(self.ids@[d as int]));
                }
                self.space.set(a, MemCell::Array(v, pos));
                proof {
                    assert(self.space@ =~= old(self).space@.update(a as int, self.space@[a as int]));
                    self.lemma_put(*old(self), a as int);
                }
            },
            _ => {},
        }
    }

    /// Shortens the array `h` to `len` elements (no change where it is not longer).
    pub fn array_truncate(&mut self, h: MemHandle, len: usize)
        requires
            old(self).wf(),
            old(self)@.live(h),
            old(self)@.cell(h) is Array,
        ensures
            final(self).wf(),
            final(self).globals_handle() == old(self).globals_handle(),
            old(self)@.changed(final(self)@, old(self)@.obj(h), Obj::Array(
                if len < old(self).elems(h).len() { old(self).elems(h).take(len as int) } else { old(self).elems(h) },
                old(self).pos(h),
            )),
    {
        let a = self.addr_exec(h);
        proof {
            old(self).lemma_handle(old(self).globals);
        }
        let mut c = MemCell::Hole;
        self.space.set_and_swap(a, &mut c);
        match c {
            MemCell::Array(mut v, pos) => {
                let ghost v0 = v@;
                v.truncate(len);
                proof {
                    assert(cell_ok(old(self).space@[a as int], old(self).space@.len() as int));
                    let m0 = Seq::new(v0.len(), |k: int| self.ids@[v0[k] as int]);
                    if len < v0.len() {
                        assert(Seq::new(v@.len(), |k: int| self.ids@[v@[k] as int]) =~= m0.take(len as int));
                    } else {
                        assert(Seq::new(v@.len(), |k: int| self.ids@[v@[k] as int]) =~= m0);
                    }
                }
                self.space.set(a, MemCell::Array(v, pos));
                proof {
                    assert(self.space@ =~= old(self).space@.update(a as int, self.space@[a as int]));
                    self.lemma_put(*old(self), a as int);
                }
            },
            _ => {},
        }
    }
}

/// Position of the entry with the key, if any.
fn find_key(d: &Vec<DictEntry>, key: &Primitive) -> (r: Option<usize>)
    ensures
        r matches Some(i) ==> i < d@.len() && d@[i as int].key.model() == key.model(),
        r is None ==> forall|i: int| 0 <= i < d@.len() ==> #[trigger] d@[i].key.model() != key.model(),
{
    let mut i: usize = 0;
    while i < d.len()
        invariant
            i <= d@.len(),
            forall|j: int| 0 <= j < i ==> #[trigger] d@[j].key.model() != key.model(),
        decreases d@.len() - i,
    {
        if d[i].key.same(key) {
            return Some(i);
        }
        i = i + 1;
    }
    None
}

proof fn lemma_entries_distinct(d: Seq<DictEntry>, ids: Seq<nat>)
    requires
        keys_distinct(d),
    ensures
        distinct_keys(entries_model(d, ids)),
{
    let m = entries_model(d, ids);
    assert forall|i: int, j: int| 0 <= i < m.len() && 0 <= j < m.len() && i != j implies #[trigger] m[i].0 != #[trigger] m[j].0 by {
        assert(d[i].key.model() != d[j].key.model());
    }
}

/// Binds the key to the address, in place where it is bound.
fn entries_insert(d: &mut Vec<DictEntry>, key: Primitive, addr: usize, Ghost(ids): Ghost<Seq<nat>>, Ghost(n): Ghost<int>)
    requires
        keys_distinct(old(d)@),
        forall|i: int| 0 <= i < old(d)@.len() ==> #[trigger] old(d)@[i].addr < n,
        addr < n,
    ensures
        keys_distinct(final(d)@),
        forall|i: int| 0 <= i < final(d)@.len() ==> #[trigger] final(d)@[i].addr < n,
        entries_model(final(d)@, ids) == dict_insert(entries_model(old(d)@, ids), key.model(), ids[addr as int]),
{
    let ghost m0 = entries_model(d@, ids);
    let ghost k = key.model();
    proof {
        lemma_entries_distinct(d@, ids);
    }
    match find_key(d, &key) {
        Some(i) => {
            proof {
                lemma_key_index(m0, k, i as int);
            }
            d.set(i, DictEntry { key, addr });
            proof {
                assert(entries_model(d@, ids) =~= m0.update(i as int, (k, ids[addr as int])));
                assert forall|x: int, y: int| 0 <= x < d@.len() && 0 <= y < d@.len() && x != y implies #[trigger] d@[x].key.model() != #[trigger] d@[y].key.model() by {
                    assert(old(d)@[x].key.model() != old(d)@[y].key.model());
                }
            }
        },
        None => {
            proof {
                assert(!has_key(m0, k)) by {
                    if has_key(m0, k) {
                        let j = choose|j: int| 0 <= j < m0.len() && m0[j].0 == k;
                        assert(d@[j].key.model() != k);
                    }
                }
            }
            d.push(DictEntry { key, addr });
            proof {
                assert(entries_model(d@, ids) =~= m0.push((k, ids[addr as int])));
                assert forall|x: int, y: int| 0 <= x < d@.len() && 0 <= y < d@.len() && x != y implies #[trigger] d@[x].key.model() != #[trigger] d@[y].key.model() by {
                    if x < old(d)@.len() && y < old(d)@.len() {
                        assert(old(d)@[x].key.model() != old(d)@[y].key.model());
                    }
                }
            }
        },
    }
}

/// Unbinds the key; the other entries keep their order.
fn entries_remove(d: &mut Vec<DictEntry>, key: &Primitive, Ghost(ids): Ghost<Seq<nat>>, Ghost(n): Ghost<int>)
    requires
        keys_distinct(old(d)@),
        forall|i: int| 0 <= i < old(d)@.len() ==> #[trigger] old(d)@[i].addr < n,
    ensures
        keys_distinct(final(d)@),
        forall|i: int| 0 <= i < final(d)@.len() ==> #[trigger] final(d)@[i].addr < n,
        entries_model(final(d)@, ids) == dict_remove(entries_model(old(d)@, ids), key.model()),
{
    let ghost m0 = entries_model(d@, ids);
    let ghost k = key.model();
    proof {
        lemma_entries_distinct(d@, ids);
    }
    match find_key(d, key) {
        Some(i) => {
            proof {
                lemma_key_index(m0, k, i as int);
            }
            d.remove(i);
            proof {
                assert(entries_model(d@, ids) =~= m0.remove(i as int));
                assert forall|x: int| 0 <= x < d@.len() implies #[trigger] d@[x].addr < n by {
                    if x < i {
                        assert(d@[x] == old(d)@[x]);
                    } else {
                        assert(d@[x] == old(d)@[x + 1]);
                    }
                }
                assert forall|x: int, y: int| 0 <= x < d@.len() && 0 <= y < d@.len() && x != y implies #[trigger] d@[x].key.model() != #[trigger] d@[y].key.model() by {
                    let x2 = if x < i { x } else { x + 1 };
                    let y2 = if y < i { y } else { y + 1 };
                    assert(d@[x] == old(d)@[x2]);
                    assert(d@[y] == old(d)@[y2]);
                    assert(old(d)@[x2].key.model() != old(d)@[y2].key.model());
                }
            }
        },
        None => {
            proof {
                assert(!has_key(m0, k)) by {
                    if has_key(m0, k) {
                        let j = choose|j: int| 0 <= j < m0.len() && m0[j].0 == k;
                        assert(d@[j].key.model() != k);
                    }
                }
            }
        },
    }
}

impl Memory {
    /// The entries of the dictionary `h`, in order.
    pub open spec fn entries(&self, h: MemHandle) -> Seq<(PrimModel, nat)> {
        self@.cell(h)->Dict_0
    }

    /// The number of keys of the dictionary `h`.
    pub fn dict_len(&self, h: MemHandle) -> (n: usize)
        requires
            self.wf(),
            self@.live(h),
            self@.cell(h) is Dict,
        ensures
            n == self.entries(h).len(),
    {
        let a = self.addr_exec(h);
        match &self.space[a] {
            MemCell::Dict(d) => d.len(),
            _ => 0,
        }
    }

    /// Whether the dictionary `h` binds the key.
    pub fn dict_has(&self, h: MemHandle, key: &Primitive) -> (r: bool)
        requires
            self.wf(),
            self@.live(h),
            self@.cell(h) is Dict,
        ensures
            r == has_key(self.entries(h), key.model()),
    {
        let a = self.addr_exec(h);
        match &self.space[a] {
            MemCell::Dict(d) => {
                let r = find_key(d, key);
                proof {
                    let m = entries_model(d@, self.ids@);
                    assert(m == self.entries(h));
                    if r is None {
                        if has_key(m, key.model()) {
                            let j = choose|j: int| 0 <= j < m.len() && m[j].0 == key.model();
                            assert(d@[j].key.model() != key.model());
                        }
                    } else {
                        assert(m[r.unwrap() as int].0 == key.model());
                    }
                }
                r.is_some()
            },
            _ => false,
        }
    }

    /// A new handle to what the dictionary `h` binds the key to, if anything.
    pub fn dict_get(&mut self, h: MemHandle, key: &Primitive) -> (r: Option<MemHandle>)
        requires
            old(self).wf(),
            old(self)@.live(h),
            old(self)@.cell(h) is Dict,
        ensures
            final(self).wf(),
            final(self).globals_handle() == old(self).globals_handle(),
            dict_lookup(old(self).entries(h), key.model()) is None ==> r is None && final(self)@ == old(self)@,
            dict_lookup(old(self).entries(h), key.model()) matches Some(o) ==> (r matches Some(e)
                && old(self)@.handed_out(final(self)@, e, o) && final(self)@.live(e)),
    {
        let a = self.addr_exec(h);
        let found: Option<(usize, usize)> = match &self.space[a] {
            MemCell::Dict(d) => {
                match find_key(d, key) {
                    Some(i) => Some((i, d[i].addr)),
                    None => None,
                }
            },
            _ => None,
        };
        proof {
            let d = self.space@[a as int]->Dict_0@;
            let m = entries_model(d, self.ids@);
            assert(m == self.entries(h));
            self.lemma_dict_distinct(a as int);
            assert(cell_ok(self.space@[a as int], self.space@.len() as int));
            match found {
                Some((i, x)) => {
                    lemma_key_index(m, key.model(), i as int);
                    assert(x < self.space@.len());
                },
                None => {
                    if has_key(m, key.model()) {
                        let j = choose|j: int| 0 <= j < m.len() && m[j].0 == key.model();
                        assert(d[j].key.model() != key.model());
                    }
                },
            }
        }
        let found = match found {
            Some((_, x)) => Some(x),
            None => None,
        };
        match found {
            Some(x) => Some(self.hand_out(x)),
            None => None,
        }
    }
}

/// The object `Memory::value_new` makes for a value other than a quote.
pub open spec fn plain_value_obj(v: ValueModel) -> Obj {
    match v {
        ValueModel::Primitive(p) => Obj::Prim(p),
        ValueModel::Dict => Obj::Dict(Seq::empty()),
        _ => Obj::Array(Seq::empty(), position_unknown()),
    }
}

impl MemoryModel {
    /// `new` holds the new object `o` made for the value `v`.
    pub open spec fn value_made(self, new: MemoryModel, o: nat, v: ValueModel) -> bool {
        &&& self.kept_in(new)
        &&& new.objs.contains_key(o)
        &&& value_obj(new, o, v)
        &&& !self.objs.contains_key(o)
        &&& o >= self.next
        &&& !(v is Quote) ==> self.allocated(new, o, plain_value_obj(v)) && new.handles == self.handles
    }

    /// `new` is `self` after a collection, with the new object `o` equal to
    /// `obj`, and object `c` replaced by `cobj`.
    pub open spec fn allocated_changed(self, new: MemoryModel, o: nat, obj: Obj, c: nat, cobj: Obj) -> bool {
        &&& o == self.next
        &&& new.next == self.next + 1
        &&& !self.objs.contains_key(o)
        &&& new.handles == self.handles
        &&& new.objs.contains_key(o) && new.objs[o] == obj
        &&& new.objs.contains_key(c) && new.objs[c] == cobj
        &&& forall|p: nat| #[trigger] new.objs.contains_key(p) && p != o && p != c ==> self.objs.contains_key(p) && new.objs[p] == self.objs[p]
        &&& forall|i: int| 0 <= i < self.handles.len() && #[trigger] self.handles[i] is Some ==> new.objs.contains_key(self.handles[i].unwrap())
    }
}

/// The dictionary `d` with every binding of `s` made in turn.
pub open spec fn dict_merge(d: Seq<(PrimModel, nat)>, s: Seq<(PrimModel, nat)>) -> Seq<(PrimModel, nat)>
    decreases s.len(),
{
    if s.len() == 0 {
        d
    } else {
        dict_merge(dict_insert(d, s[0].0, s[0].1), s.drop_first())
    }
}

impl Memory {
    /// Binds the key in the dictionary `h` to the object `dst` names.
    pub fn dict_set(&mut self, h: MemHandle, key: Primitive, dst: MemHandle)
        requires
            old(self).wf(),
            old(self)@.live(h),
            old(self)@.live(dst),
            old(self)@.cell(h) is Dict,
        ensures
            final(self).wf(),
            final(self).globals_handle() == old(self).globals_handle(),
            old(self)@.changed(final(self)@, old(self)@.obj(h), Obj::Dict(dict_insert(old(self).entries(h), key.model(), old(self)@.obj(dst)))),
    {
        let d = self.addr_exec(dst);
        let a = self.addr_exec(h);
        self.dict_set_addr(a, key, d);
    }

    /// Binds the key in the dictionary at `a` to the object at `d`.
    fn dict_set_addr(&mut self, a: usize, key: Primitive, d: usize)
        requires
            old(self).wf(),
            a < old(self).space@.len(),
            d < old(self).space@.len(),
            old(self).space@[a as int] is Dict,
        ensures
            final(self).wf(),
            final(self).globals == old(self).globals,
            final(self).ids == old(self).ids,
            final(self).space@.len() == old(self).space@.len(),
            final(self).space@[a as int] is Dict,
            final(self).space@ == old(self).space@.update(a as int, final(self).space@[a as int]),
            old(self)@.changed(final(self)@, old(self).ids@[a as int], Obj::Dict(dict_insert(
                abs_cell(old(self).space@[a as int], old(self).ids@)->Dict_0, key.model(), old(self).ids@[d as int]))),
    {
        let mut c = MemCell::Hole;
        self.space.set_and_swap(a, &mut c);
        match c {
            MemCell::Dict(mut entries) => {
                proof {
                    assert(cell_ok(old(self).space@[a as int], old(self).space@.len() as int));
                }
                entries_insert(&mut entries, key, d, Ghost(self.ids@), Ghost(self.space@.len() as int));
                self.space.set(a, MemCell::Dict(entries));
                proof {
                    assert(self.space@ =~= old(self).space@.update(a as int, self.space@[a as int]));
                    self.lemma_put(*old(self), a as int);
                }
            },
            _ => {},
        }
    }

    /// Unbinds the key in the dictionary `h`.
    pub fn dict_del(&mut self, h: MemHandle, key: &Primitive)
        requires
            old(self).wf(),
            old(self)@.live(h),
            old(self)@.cell(h) is Dict,
        ensures
            final(self).wf(),
            final(self).globals_handle() == old(self).globals_handle(),
            old(self)@.changed(final(self)@, old(self)@.obj(h), Obj::Dict(dict_remove(old(self).entries(h), key.model()))),
    {
        let a = self.addr_exec(h);
        let mut c = MemCell::Hole;
        self.space.set_and_swap(a, &mut c);
        match c {
            MemCell::Dict(mut entries) => {
                proof {
                    assert(cell_ok(old(self).space@[a as int], old(self).space@.len() as int));
                }
                entries_remove(&mut entries, key, Ghost(self.ids@), Ghost(self.space@.len() as int));
                self.space.set(a, MemCell::Dict(entries));
                proof {
                    assert(self.space@ =~= old(self).space@.update(a as int, self.space@[a as int]));
                    self.lemma_put(*old(self), a as int);
                }
            },
            _ => {},
        }
    }

    /// The keys of the dictionary `h`, in order.
    pub fn dict_keys(&self, h: MemHandle) -> (r: Vec<Primitive>)
        requires
            self.wf(),
            self@.live(h),
            self@.cell(h) is Dict,
        ensures
            r@.len() == self.entries(h).len(),
            forall|i: int| 0 <= i < r@.len() ==> #[trigger] r@[i].model() == self.entries(h)[i].0,
    {
        let a = self.addr_exec(h);
        let mut r: Vec<Primitive> = Vec::new();
        match &self.space[a] {
            MemCell::Dict(d) => {
                let mut i: usize = 0;
                while i < d.len()
                    invariant
                        i <= d@.len(),
                        r@.len() == i,
                        forall|k: int| 0 <= k < i ==> #[trigger] r@[k].model() == d@[k].key.model(),
                    decreases d@.len() - i,
                {
                    r.push(d[i].key.duplicate());
                    i = i + 1;
                }
            },
            _ => {},
        }
        r
    }

    /// Makes the object for a value: a primitive itself; for a quote, a quote
    /// of a new nil; for anything else, an empty array.
    fn alloc_value(&mut self, value: Value) -> (r: Result<usize, MemoryFull>)
        requires
            old(self).wf(),
        ensures
            r is Err ==> final(self).full(),
            final(self).wf(),
            final(self).globals == old(self).globals,
            old(self)@.kept_in(final(self)@),
            r matches Ok(a) ==> a < final(self).space@.len() && old(self)@.value_made(final(self)@, final(self).ids@[a as int], value.model()),
    {
        proof {
            old(self).lemma_ok();
        }
        match value {
            Value::Primitive(p) => {
                let ghost pm = p.model();
                let r = self.allocate(MemCell::Primitive(p));
                proof {
                    if r is Ok {
                        self.lemma_obj_at(r.unwrap() as int);
                        lemma_allocated_kept(old(self)@, self@, self.ids@[r.unwrap() as int], Obj::Prim(pm));
                    } else {
                        lemma_kept_of_collected(old(self)@, self@);
                    }
                }
                r
            },
            Value::Quote => {
                let ghost m0 = self@;
                let inner = match self.allocate(MemCell::Primitive(Primitive::Nil)) {
                    Ok(i) => i,
                    Err(e) => {
                        proof { lemma_kept_of_collected(old(self)@, self@); }
                        return Err(e);
                    },
                };
                let ghost m1 = self@;
                let ghost o_in = self.ids@[inner as int];
                proof {
                    self.lemma_obj_at(inner as int);
                    lemma_allocated_kept(m0, m1, o_in, Obj::Prim(PrimModel::Nil));
                    self.lemma_ok();
                }
                let t = self.hand_out(inner);
                let ghost m2 = self@;
                proof {
                    lemma_handed_out_kept(m1, m2, t, o_in);
                    lemma_kept_trans(m0, m1, m2);
                    self.lemma_ok();
                }
                let outer = match self.allocate(MemCell::Hole) {
                    Ok(o) => o,
                    Err(e) => {
                        proof {
                            lemma_kept_of_collected(m2, self@);
                            lemma_kept_trans(m0, m2, self@);
                        }
                        return Err(e);
                    },
                };
                let ghost m3 = self@;
                let ghost o_out = self.ids@[outer as int];
                proof {
                    lemma_allocated_kept(m2, m3, o_out, Obj::Hole);
                    lemma_kept_live(m2, m3, t);
                    self.lemma_handle(t);
                }
                let ia = self.addr_exec(t);
                proof {
                    self.lemma_handle(self.globals);
                    self.lemma_obj_at(outer as int);
                    assert(self.handles@[self.globals.idx as int].unwrap() != outer) by {
                        if self.handles@[self.globals.idx as int].unwrap() == outer {
                            assert(self.ids@[outer as int] == m2.obj(self.globals));
                        }
                    }
                }
                let ghost m3e = *self;
                self.space.set(outer, MemCell::Quote(ia));
                proof {
                    self.lemma_put(m3e, outer as int);
                }
                let ghost m4 = self@;
                proof {
                    assert(m4.objs[o_out] == Obj::Quote(o_in));
                }
                self.release(t);
                proof {
                    let m5 = self@;
                    assert(m5.objs[o_out] == Obj::Quote(o_in));
                    assert(m5.objs.contains_key(o_in) && m5.objs[o_in] == Obj::Prim(PrimModel::Nil)) by {
                        assert(m3.objs.contains_key(o_in));
                        assert(m3.objs[o_in] == m2.objs[o_in]);
                    }
                    assert(m0.kept_in(m5)) by {
                        assert forall|i: int| 0 <= i < m0.handles.len() && #[trigger] m0.handles[i] is Some implies m5.handles[i] == m0.handles[i] && m5.objs.contains_key(m0.handles[i].unwrap()) by {
                            assert(m3.handles[i] == m0.handles[i]);
                            assert(i != t.idx);
                        }
                        assert forall|p: nat| #[trigger] m5.objs.contains_key(p) && m0.objs.contains_key(p) implies m5.objs[p] == m0.objs[p] by {
                            assert(p != o_out);
                        }
                        assert forall|p: nat| #[trigger] m5.objs.contains_key(p) implies m0.objs.contains_key(p) || p >= m0.next by {
                            if p != o_out {
                                assert(m3.objs.contains_key(p));
                            }
                        }
                    }
                }
                Ok(outer)
            },
            Value::Dict => {
                let cell = MemCell::Dict(Vec::new());
                assert(abs_cell(cell, Seq::empty())->Dict_0 =~= Seq::<(PrimModel, nat)>::empty());
                let r = self.allocate(cell);
                proof {
                    if r is Ok {
                        self.lemma_obj_at(r.unwrap() as int);
                        lemma_abs_no_ptrs(cell, self.ids@);
                        assert(abs_cell(cell, self.ids@) == Obj::Dict(Seq::empty()));
                        lemma_allocated_kept(old(self)@, self@, self.ids@[r.unwrap() as int], abs_cell(cell, self.ids@));
                    } else {
                        lemma_kept_of_collected(old(self)@, self@);
                    }
                }
                r
            },
            _ => {
                let cell = MemCell::Array(Vec::new(), position_unknown_exec());
                assert(abs_cell(cell, Seq::empty())->Array_0 =~= Seq::<nat>::empty());
                let r = self.allocate(cell);
                proof {
                    if r is Ok {
                        self.lemma_obj_at(r.unwrap() as int);
                        lemma_abs_no_ptrs(cell, self.ids@);
                        lemma_allocated_kept(old(self)@, self@, self.ids@[r.unwrap() as int], abs_cell(cell, self.ids@));
                    } else {
                        lemma_kept_of_collected(old(self)@, self@);
                    }
                }
                r
            },
        }
    }
}

/// An allocation keeps every handle and object.
pub proof fn lemma_allocated_kept(m0: MemoryModel, m1: MemoryModel, o: nat, obj: Obj)
    requires
        m0.allocated(m1, o, obj),
        m1.handles == m0.handles,
    ensures
        m0.kept_in(m1),
{
}

/// Handing out a handle keeps every handle and object.
pub proof fn lemma_handed_out_kept(m0: MemoryModel, m1: MemoryModel, q: MemHandle, o: nat)
    requires
        m0.ok(),
        m0.handed_out(m1, q, o),
    ensures
        m0.kept_in(m1),
{
    assert forall|i: int| 0 <= i < m0.handles.len() && #[trigger] m0.handles[i] is Some implies m1.handles[i] == m0.handles[i] && m1.objs.contains_key(m0.handles[i].unwrap()) by {
        assert(i != q.idx);
    }
}

/// A collection keeps every handle and object.
pub proof fn lemma_kept_of_collected(m0: MemoryModel, m1: MemoryModel)
    requires
        m0.collected_to(m1),
    ensures
        m0.kept_in(m1),
{
}

proof fn lemma_merge_push(d: Seq<(PrimModel, nat)>, s: Seq<(PrimModel, nat)>, x: (PrimModel, nat))
    ensures
        dict_merge(d, s.push(x)) == dict_insert(dict_merge(d, s), x.0, x.1),
    decreases s.len(),
{
    let t = s.push(x);
    assert(t.len() > 0 && t[0] == (if s.len() == 0 { x } else { s[0] }));
    if s.len() == 0 {
        assert(t.drop_first() =~= Seq::<(PrimModel, nat)>::empty());
        assert(dict_merge(dict_insert(d, x.0, x.1), t.drop_first()) == dict_insert(d, x.0, x.1));
    } else {
        assert(t.drop_first() =~= s.drop_first().push(x));
        lemma_merge_push(dict_insert(d, s[0].0, s[0].1), s.drop_first(), x);
    }
}

impl Memory {
    /// A new object for a value, named by a new handle: a primitive itself;
    /// for a quote, a quote of a new nil; for anything else, an empty array.
    pub fn value_new(&mut self, value: Value) -> (r: Result<MemHandle, MemoryFull>)
        requires
            old(self).wf(),
        ensures
            r is Err ==> final(self).full(),
            final(self).wf(),
            final(self).globals_handle() == old(self).globals_handle(),
            old(self)@.kept_in(final(self)@),
            r matches Ok(h) ==> final(self)@.live(h) && !old(self)@.objs.contains_key(final(self)@.obj(h))
                && fresh(old(self)@, h)
                && value_obj(final(self)@, final(self)@.obj(h), value.model())
                && (!(value.model() is Quote) ==> old(self)@.added(final(self)@, h, plain_value_obj(value.model()))),
    {
        let ghost vm = value.model();
        let a = self.alloc_value(value)?;
        let ghost m1 = self@;
        let ghost o = self.ids@[a as int];
        proof {
            self.lemma_ok();
            old(self).lemma_ok();
        }
        let h = self.hand_out(a);
        proof {
            lemma_handed_out_kept(m1, self@, h, o);
            lemma_kept_trans(old(self)@, m1, self@);
            if h.idx < old(self)@.handles.len() && old(self)@.handles[h.idx as int] is Some {
                assert(m1.handles[h.idx as int] is Some);
            }
        }
        Ok(h)
    }

    /// Binds the key in the dictionary `h` to a new object for the value (as
    /// `value_new` makes it).
    pub fn dict_set_value(&mut self, h: MemHandle, key: Primitive, value: Value) -> (r: Result<(), MemoryFull>)
        requires
            old(self).wf(),
            old(self)@.live(h),
            old(self)@.cell(h) is Dict,
        ensures
            r is Err ==> final(self).full(),
            final(self).wf(),
            final(self).globals_handle() == old(self).globals_handle(),
            final(self)@.live(h),
            r is Ok ==> ({
                let d = final(self).entries(h);
                let o = dict_lookup(d, key.model()).unwrap();
                &&& final(self)@.cell(h) is Dict
                &&& has_key(d, key.model())
                &&& d == dict_insert(old(self).entries(h), key.model(), o)
                &&& !old(self)@.objs.contains_key(o)
                &&& final(self)@.objs.contains_key(o)
                &&& value_obj(final(self)@, o, value.model())
            }),
            forall|g: MemHandle| old(self)@.live(g) && old(self)@.obj(g) != old(self)@.obj(h)
                ==> #[trigger] final(self)@.live(g) && final(self)@.cell(g) == old(self)@.cell(g),
            handles_kept(old(self)@, final(self)@),
            old(self)@.kept_except(final(self)@, old(self)@.obj(h)),
    {
        let ghost vm = value.model();
        proof {
            old(self).lemma_ok();
        }
        let b = match self.alloc_value(value) {
            Ok(b) => b,
            Err(e) => {
                proof {
                    lemma_kept_handles(old(self)@, self@);
                    assert forall|g: MemHandle| old(self)@.live(g) && old(self)@.obj(g) != old(self)@.obj(h) implies #[trigger] self@.live(g) && self@.cell(g) == old(self)@.cell(g) by {
                        lemma_kept_live(old(self)@, self@, g);
                    }
                    lemma_kept_live(old(self)@, self@, h);
                    lemma_kept_except_of_kept(old(self)@, self@, old(self)@.obj(h));
                }
                return Err(e);
            },
        };
        let ghost m1 = self@;
        let ghost o = self.ids@[b as int];
        proof {
            lemma_kept_live(old(self)@, m1, h);
            self.lemma_handle(h);
        }
        let a = self.addr_exec(h);
        proof {
            assert(self@.cell(h) == old(self)@.cell(h));
            assert(self.space@[a as int] is Dict);
        }
        let ghost m1e = *self;
        self.dict_set_addr(a, key, b);
        proof {
            let m2 = self@;
            self.lemma_handle(h);
            assert(m2.cell(h) == Obj::Dict(dict_insert(old(self).entries(h), key.model(), o)));
            let d = m2.cell(h)->Dict_0;
            assert(d[key_index(old(self).entries(h), key.model())] == (key.model(), o) || d.last() == (key.model(), o));
            assert(has_key(d, key.model())) by {
                if has_key(old(self).entries(h), key.model()) {
                    assert(d[key_index(old(self).entries(h), key.model())].0 == key.model());
                } else {
                    assert(d[d.len() - 1].0 == key.model());
                }
            }
            self.lemma_dict_keys(h);
            let k = key_index(d, key.model());
            if has_key(old(self).entries(h), key.model()) {
                lemma_key_index(d, key.model(), key_index(old(self).entries(h), key.model()));
            } else {
                lemma_key_index(d, key.model(), d.len() - 1);
            }
            assert(o != m1.obj(h)) by {
                assert(!old(self)@.objs.contains_key(o));
            }
            assert(value_obj(m2, o, vm)) by {
                if vm is Quote {
                    let inner = m1.objs[o]->Quote_0;
                    assert(inner != m1.obj(h)) by {
                        if inner == m1.obj(h) {
                            assert(m1.objs[inner] == Obj::Prim(PrimModel::Nil));
                        }
                    }
                }
            }
            assert forall|g: MemHandle| old(self)@.live(g) && old(self)@.obj(g) != old(self)@.obj(h) implies #[trigger] self@.live(g) && self@.cell(g) == old(self)@.cell(g) by {
                lemma_kept_live(old(self)@, m1, g);
            }
            lemma_kept_handles(old(self)@, m1);
            m1e.lemma_ok();
            lemma_changed_handles(m1, m2, m1.obj(h), m2.cell(h));
            lemma_handles_kept_trans(old(self)@, m1, m2);
            lemma_kept_except_of_kept(old(self)@, m1, m1.obj(h));
            lemma_kept_except_of_changed(m1, m2, m1.obj(h), m2.cell(h));
            lemma_kept_except_trans(old(self)@, m1, m2, m1.obj(h));
        }
        Ok(())
    }

    /// Replaces the object that `h` names by the object for the value (as
    /// `value_new` makes it): every handle to it sees the new value.
    pub fn set_value(&mut self, h: MemHandle, value: Value) -> (r: Result<(), MemoryFull>)
        requires
            old(self).wf(),
            old(self)@.live(h),
            old(self)@.obj(h) != old(self)@.obj(old(self).globals_handle()),
        ensures
            r is Err ==> final(self).full(),
            final(self).wf(),
            final(self).globals_handle() == old(self).globals_handle(),
            final(self)@.live(h),
            final(self)@.obj(h) == old(self)@.obj(h),
            r is Err ==> old(self)@.kept_in(final(self)@),
            r is Ok ==> value_obj(final(self)@, final(self)@.obj(h), value.model()),
            forall|g: MemHandle| old(self)@.live(g) && old(self)@.obj(g) != old(self)@.obj(h)
                ==> #[trigger] final(self)@.live(g) && final(self)@.cell(g) == old(self)@.cell(g),
            handles_kept(old(self)@, final(self)@),
    {
        let ghost vm = value.model();
        let ghost o = old(self)@.obj(h);
        proof {
            old(self).lemma_ok();
            old(self).lemma_globals();
        }
        let (cell, inner) = match value {
            Value::Primitive(p) => (MemCell::Primitive(p), None),
            Value::Quote => {
                let ghost m0 = self@;
                match self.allocate(MemCell::Primitive(Primitive::Nil)) {
                    Ok(i) => {
                        proof {
                            self.lemma_obj_at(i as int);
                            lemma_allocated_kept(m0, self@, self.ids@[i as int], Obj::Prim(PrimModel::Nil));
                        }
                        (MemCell::Quote(i), Some(i))
                    },
                    Err(e) => {
                        proof {
                            lemma_kept_of_collected(old(self)@, self@);
                            lemma_kept_live(old(self)@, self@, h);
                            lemma_kept_handles(old(self)@, self@);
                            assert forall|g: MemHandle| old(self)@.live(g) && old(self)@.obj(g) != old(self)@.obj(h) implies #[trigger] self@.live(g) && self@.cell(g) == old(self)@.cell(g) by {
                                lemma_kept_live(old(self)@, self@, g);
                            }
                        }
                        return Err(e);
                    },
                }
            },
            Value::Dict => (MemCell::Dict(Vec::new()), None),
            _ => (MemCell::Array(Vec::new(), position_unknown_exec()), None),
        };
        let ghost m1 = self@;
        proof {
            lemma_kept_live(old(self)@, m1, h);
            lemma_kept_live(old(self)@, m1, old(self).globals_handle());
            self.lemma_handle(self.globals);
            assert(abs_cell(cell, self.ids@) is Array ==> abs_cell(cell, self.ids@)->Array_0 =~= Seq::<nat>::empty());
            assert(abs_cell(cell, self.ids@) is Dict ==> abs_cell(cell, self.ids@)->Dict_0 =~= Seq::<(PrimModel, nat)>::empty());
        }
        let a = self.addr_exec(h);
        proof {
            assert(self.handles@[self.globals.idx as int].unwrap() != a) by {
                if self.handles@[self.globals.idx as int].unwrap() == a {
                    assert(self.ids@[a as int] == m1.obj(self.globals));
                }
            }
        }
        let ghost m1e = *self;
        self.space.set(a, cell);
        proof {
            self.lemma_put(m1e, a as int);
            let m2 = self@;
            assert(m2.obj(h) == o);
            if vm is Quote {
                let i = inner.unwrap();
                let oi = m1e.ids@[i as int];
                assert(oi != o) by {
                    assert(!old(self)@.objs.contains_key(oi));
                }
                assert(m2.objs[o] == Obj::Quote(oi));
                assert(m2.objs.contains_key(oi) && m2.objs[oi] == Obj::Prim(PrimModel::Nil));
            }
            assert(value_obj(m2, o, vm));
            assert forall|g: MemHandle| old(self)@.live(g) && old(self)@.obj(g) != old(self)@.obj(h) implies #[trigger] m2.live(g) && m2.cell(g) == old(self)@.cell(g) by {
                lemma_kept_live(old(self)@, m1, g);
            }
            lemma_kept_handles(old(self)@, m1);
            lemma_changed_handles(m1, m2, o, m2.objs[o]);
            lemma_handles_kept_trans(old(self)@, m1, m2);
        }
        Ok(())
    }

    /// Sets element `idx` of the array `h` to a new object for the value (as
    /// `value_new` makes it).
    pub fn array_set_value(&mut self, h: MemHandle, idx: usize, value: Value) -> (r: Result<(), MemoryFull>)
        requires
            old(self).wf(),
            old(self)@.live(h),
            old(self)@.cell(h) is Array,
            idx < old(self).elems(h).len(),
        ensures
            r is Err ==> final(self).full(),
            final(self).wf(),
            final(self).globals_handle() == old(self).globals_handle(),
            final(self)@.live(h),
            final(self)@.cell(h) is Array,
            final(self).pos(h) == old(self).pos(h),
            r is Err ==> old(self)@.kept_in(final(self)@),
            r is Ok ==> ({
                let o = final(self).elems(h)[idx as int];
                &&& final(self).elems(h) == old(self).elems(h).update(idx as int, o)
                &&& !old(self)@.objs.contains_key(o)
                &&& final(self)@.objs.contains_key(o)
                &&& value_obj(final(self)@, o, value.model())
            }),
            forall|g: MemHandle| old(self)@.live(g) && old(self)@.obj(g) != old(self)@.obj(h)
                ==> #[trigger] final(self)@.live(g) && final(self)@.cell(g) == old(self)@.cell(g),
            handles_kept(old(self)@, final(self)@),
    {
        let ghost vm = value.model();
        proof {
            old(self).lemma_ok();
            old(self).lemma_globals();
        }
        let v = match self.value_new(value) {
            Ok(v) => v,
            Err(e) => {
                proof {
                    lemma_kept_live(old(self)@, self@, h);
                    lemma_kept_handles(old(self)@, self@);
                    assert forall|g: MemHandle| old(self)@.live(g) && old(self)@.obj(g) != old(self)@.obj(h) implies #[trigger] self@.live(g) && self@.cell(g) == old(self)@.cell(g) by {
                        lemma_kept_live(old(self)@, self@, g);
                    }
                }
                return Err(e);
            },
        };
        let ghost m1 = self@;
        let ghost o = m1.obj(v);
        proof {
            lemma_kept_live(old(self)@, m1, h);
            self.lemma_ok();
        }
        self.array_set(h, idx, v);
        let ghost m2 = self@;
        proof {
            assert(o != m1.obj(h));
            lemma_changed_handles(m1, m2, m1.obj(h), m2.objs[m1.obj(h)]);
            assert(value_obj(m2, o, vm)) by {
                if vm is Quote {
                    let inner = m1.objs[o]->Quote_0;
                    assert(inner != m1.obj(h)) by {
                        if inner == m1.obj(h) {
                            assert(m1.objs[inner] == Obj::Prim(PrimModel::Nil));
                        }
                    }
                }
            }
        }
        self.handle_release(v);
        proof {
            let m3 = self@;
            assert(h.idx != v.idx);
            lemma_kept_handles(old(self)@, m1);
            lemma_handles_kept_trans(old(self)@, m1, m2);
            assert forall|i: int| 0 <= i < old(self)@.handles.len() && #[trigger] old(self)@.handles[i] is Some
                implies m3.handles[i] == old(self)@.handles[i] && m3.objs.contains_key(old(self)@.handles[i].unwrap()) by {
                assert(m2.handles[i] == old(self)@.handles[i]);
                assert(i != v.idx);
            }
            assert forall|g: MemHandle| old(self)@.live(g) && old(self)@.obj(g) != old(self)@.obj(h) implies #[trigger] m3.live(g) && m3.cell(g) == old(self)@.cell(g) by {
                lemma_kept_live(old(self)@, m1, g);
                assert(g.idx != v.idx);
            }
        }
        Ok(())
    }

    /// Appends to the array `h` a new object for the value (as `value_new`
    /// makes it). The index is not used.
    pub fn array_push_value(&mut self, h: MemHandle, idx: usize, value: Value) -> (r: Result<(), MemoryFull>)
        requires
            old(self).wf(),
            old(self)@.live(h),
            old(self)@.cell(h) is Array,
        ensures
            r is Err ==> final(self).full(),
            final(self).wf(),
            final(self).globals_handle() == old(self).globals_handle(),
            final(self)@.live(h),
            final(self)@.cell(h) is Array,
            final(self).pos(h) == old(self).pos(h),
            r is Err ==> old(self)@.kept_in(final(self)@),
            r is Ok ==> ({
                let o = final(self).elems(h).last();
                &&& final(self).elems(h) == old(self).elems(h).push(o)
                &&& !old(self)@.objs.contains_key(o)
                &&& final(self)@.objs.contains_key(o)
                &&& value_obj(final(self)@, o, value.model())
            }),
            forall|g: MemHandle| old(self)@.live(g) && old(self)@.obj(g) != old(self)@.obj(h)
                ==> #[trigger] final(self)@.live(g) && final(self)@.cell(g) == old(self)@.cell(g),
            handles_kept(old(self)@, final(self)@),
    {
        let ghost vm = value.model();
        proof {
            old(self).lemma_ok();
            old(self).lemma_globals();
        }
        let v = match self.value_new(value) {
            Ok(v) => v,
            Err(e) => {
                proof {
                    lemma_kept_live(old(self)@, self@, h);
                    lemma_kept_handles(old(self)@, self@);
                    assert forall|g: MemHandle| old(self)@.live(g) && old(self)@.obj(g) != old(self)@.obj(h) implies #[trigger] self@.live(g) && self@.cell(g) == old(self)@.cell(g) by {
                        lemma_kept_live(old(self)@, self@, g);
                    }
                }
                return Err(e);
            },
        };
        let ghost m1 = self@;
        let ghost o = m1.obj(v);
        proof {
            lemma_kept_live(old(self)@, m1, h);
            self.lemma_ok();
        }
        self.array_push(h, v);
        let ghost m2 = self@;
        proof {
            assert(o != m1.obj(h));
            lemma_changed_handles(m1, m2, m1.obj(h), m2.objs[m1.obj(h)]);
            assert(value_obj(m2, o, vm)) by {
                if vm is Quote {
                    let inner = m1.objs[o]->Quote_0;
                    assert(inner != m1.obj(h)) by {
                        if inner == m1.obj(h) {
                            assert(m1.objs[inner] == Obj::Prim(PrimModel::Nil));
                        }
                    }
                }
            }
        }
        self.handle_release(v);
        proof {
            let m3 = self@;
            assert(h.idx != v.idx);
            lemma_kept_handles(old(self)@, m1);
            lemma_handles_kept_trans(old(self)@, m1, m2);
            assert forall|i: int| 0 <= i < old(self)@.handles.len() && #[trigger] old(self)@.handles[i] is Some
                implies m3.handles[i] == old(self)@.handles[i] && m3.objs.contains_key(old(self)@.handles[i].unwrap()) by {
                assert(m2.handles[i] == old(self)@.handles[i]);
                assert(i != v.idx);
            }
            assert forall|g: MemHandle| old(self)@.live(g) && old(self)@.obj(g) != old(self)@.obj(h) implies #[trigger] m3.live(g) && m3.cell(g) == old(self)@.cell(g) by {
                lemma_kept_live(old(self)@, m1, g);
                assert(g.idx != v.idx);
            }
        }
        Ok(())
    }

    /// Binds the key in the dictionary `h` to a new hole.
    pub fn dict_set_hole(&mut self, h: MemHandle, key: Primitive) -> (r: Result<(), MemoryFull>)
        requires
            old(self).wf(),
            old(self)@.live(h),
            old(self)@.cell(h) is Dict,
        ensures
            r is Err ==> final(self).full(),
            final(self).wf(),
            final(self).globals_handle() == old(self).globals_handle(),
            r is Err ==> old(self)@.collected_to(final(self)@),
            r is Ok ==> old(self)@.allocated_changed(final(self)@, old(self)@.next, Obj::Hole, old(self)@.obj(h),
                Obj::Dict(dict_insert(old(self).entries(h), key.model(), old(self)@.next))),
    {
        let b = self.allocate(MemCell::Hole)?;
        let ghost m1 = self@;
        proof {
            self.lemma_obj_at(b as int);
            lemma_allocated_kept(old(self)@, m1, old(self)@.next, Obj::Hole);
            lemma_kept_live(old(self)@, m1, h);
            self.lemma_handle(h);
        }
        let a = self.addr_exec(h);
        self.dict_set_addr(a, key, b);
        proof {
            assert(a != b) by {
                if a == b {
                    assert(m1.obj(h) == old(self)@.next);
                }
            }
        }
        Ok(())
    }
}

impl MemoryModel {
    /// Every object that an object refers to is in the heap.
    pub open spec fn closed(self) -> bool {
        &&& forall|o: nat| #[trigger] self.objs.contains_key(o) && self.objs[o] is Quote
            ==> self.objs.contains_key(self.objs[o]->Quote_0)
        &&& forall|o: nat, i: int| self.objs.contains_key(o) && self.objs[o] is Array && 0 <= i < self.objs[o]->Array_0.len()
            ==> self.objs.contains_key(#[trigger] self.objs[o]->Array_0[i])
        &&& forall|o: nat, i: int| self.objs.contains_key(o) && self.objs[o] is Dict && 0 <= i < self.objs[o]->Dict_0.len()
            ==> self.objs.contains_key(#[trigger] self.objs[o]->Dict_0[i].1)
        &&& forall|o: nat| #[trigger] self.objs.contains_key(o) && self.objs[o] is Fun
            ==> self.objs.contains_key(self.objs[o]->Fun_1) && self.objs.contains_key(self.objs[o]->Fun_2)
                && self.objs.contains_key(self.objs[o]->Fun_3)
    }
}

impl Memory {
    /// A consistent heap is closed: no object refers outside it.
    pub proof fn lemma_closed(&self)
        requires
            self.wf(),
        ensures
            self@.closed(),
    {
        let m = self@;
        assert forall|o: nat| #[trigger] m.objs.contains_key(o) && m.objs[o] is Quote implies m.objs.contains_key(m.objs[o]->Quote_0) by {
            let a = self.addr_of(o);
            assert(0 <= a < self.space@.len() && self.ids@[a] == o);
            self.lemma_obj_at(a);
            assert(cell_ok(self.space@[a], self.space@.len() as int));
            let x = self.space@[a]->Quote_0;
            self.lemma_obj_at(x as int);
        }
        assert forall|o: nat, i: int| m.objs.contains_key(o) && m.objs[o] is Array && 0 <= i < m.objs[o]->Array_0.len()
            implies m.objs.contains_key(#[trigger] m.objs[o]->Array_0[i]) by {
            let a = self.addr_of(o);
            assert(0 <= a < self.space@.len() && self.ids@[a] == o);
            self.lemma_obj_at(a);
            assert(cell_ok(self.space@[a], self.space@.len() as int));
            let x = self.space@[a]->Array_0@[i];
            self.lemma_obj_at(x as int);
        }
        assert forall|o: nat, i: int| m.objs.contains_key(o) && m.objs[o] is Dict && 0 <= i < m.objs[o]->Dict_0.len()
            implies m.objs.contains_key(#[trigger] m.objs[o]->Dict_0[i].1) by {
            let a = self.addr_of(o);
            assert(0 <= a < self.space@.len() && self.ids@[a] == o);
            self.lemma_obj_at(a);
            assert(cell_ok(self.space@[a], self.space@.len() as int));
            let x = self.space@[a]->Dict_0@[i].addr;
            self.lemma_obj_at(x as int);
        }
        assert forall|o: nat| #[trigger] m.objs.contains_key(o) && m.objs[o] is Fun implies m.objs.contains_key(m.objs[o]->Fun_1)
            && m.objs.contains_key(m.objs[o]->Fun_2) && m.objs.contains_key(m.objs[o]->Fun_3) by {
            let a = self.addr_of(o);
            assert(0 <= a < self.space@.len() && self.ids@[a] == o);
            self.lemma_obj_at(a);
            assert(cell_ok(self.space@[a], self.space@.len() as int));
            let f = self.space@[a]->Fun_0;
            self.lemma_obj_at(f.args as int);
            self.lemma_obj_at(f.locals as int);
            self.lemma_obj_at(f.body as int);
        }
    }
}

/// The object `o` of the heap `objs` is the tree `t`: a primitive for a
/// leaf, a quote of the object for the quoted node, an array at position
/// `at` of the objects for a group's items.
pub open spec fn represents(objs: Map<nat, Obj>, o: nat, t: AstModel, at: ReaderPosition) -> bool
    decreases t,
{
    objs.contains_key(o) && match t {
        AstModel::Nil => objs[o] == Obj::Prim(PrimModel::Nil),
        AstModel::True => objs[o] == Obj::Prim(PrimModel::True),
        AstModel::Str(s) => objs[o] == Obj::Prim(PrimModel::Str(s)),
        AstModel::Int(i) => objs[o] == Obj::Prim(PrimModel::Int(i)),
        AstModel::Quote(b) => objs[o] is Quote && represents(objs, objs[o]->Quote_0, b.content, b.at),
        AstModel::Group(v) => {
            &&& objs[o] is Array
            &&& objs[o]->Array_1 == at
            &&& objs[o]->Array_0.len() == v.len()
            &&& forall|i: int| 0 <= i < v.len() ==> represents(objs, #[trigger] objs[o]->Array_0[i], v[i].content, v[i].at)
        },
    }
}

/// What a tree's objects are stays so while the heap keeps them.
pub proof fn lemma_represents_kept(m0: MemoryModel, m1: MemoryModel, o: nat, t: AstModel, at: ReaderPosition)
    requires
        m0.kept_in(m1),
        m1.closed(),
        m1.objs.contains_key(o),
        represents(m0.objs, o, t, at),
    ensures
        represents(m1.objs, o, t, at),
    decreases t,
{
    assert(m1.objs[o] == m0.objs[o]);
    match t {
        AstModel::Quote(b) => {
            lemma_represents_kept(m0, m1, m1.objs[o]->Quote_0, b.content, b.at);
        },
        AstModel::Group(v) => {
            assert forall|i: int| 0 <= i < v.len() implies represents(m1.objs, #[trigger] m1.objs[o]->Array_0[i], v[i].content, v[i].at) by {
                lemma_represents_kept(m0, m1, m1.objs[o]->Array_0[i], v[i].content, v[i].at);
            }
        },
        _ => {},
    }
}

/// The handle was not in use in `m`.
pub open spec fn fresh(m: MemoryModel, h: MemHandle) -> bool {
    !(h.idx < m.handles.len() && m.handles[h.idx as int] is Some)
}

/// Dropping a handle made since `m0` keeps what `m0` had.
pub proof fn lemma_release_kept(m0: MemoryModel, m1: MemoryModel, m2: MemoryModel, h: MemHandle)
    requires
        m0.kept_in(m1),
        fresh(m0, h),
        h.idx < m1.handles.len(),
        m2.objs == m1.objs,
        m2.next == m1.next,
        m2.handles == m1.handles.update(h.idx as int, None),
    ensures
        m0.kept_in(m2),
{
    assert forall|i: int| 0 <= i < m0.handles.len() && #[trigger] m0.handles[i] is Some implies m2.handles[i] == m0.handles[i] && m2.objs.contains_key(m0.handles[i].unwrap()) by {
        assert(i != h.idx);
    }
}

/// A handle made by an allocation since `m0` was fresh in `m0`.
pub proof fn lemma_added_fresh(m0: MemoryModel, m1: MemoryModel, m2: MemoryModel, h: MemHandle, obj: Obj)
    requires
        m0.kept_in(m1),
        m1.added(m2, h, obj),
    ensures
        fresh(m0, h),
{
    if h.idx < m0.handles.len() && m0.handles[h.idx as int] is Some {
        assert(m1.handles[h.idx as int] == m0.handles[h.idx as int]);
    }
}

impl Memory {
    /// Builds the objects for a tree whose root is at `at`; the new handle
    /// names the root.
    fn construct_node(&mut self, src: &AstContent, at: ReaderPosition) -> (r: Result<MemHandle, MemoryFull>)
        requires
            old(self).wf(),
        ensures
            r is Err ==> final(self).full(),
            final(self).wf(),
            final(self).globals_handle() == old(self).globals_handle(),
            old(self)@.kept_in(final(self)@),
            r matches Ok(h) ==> final(self)@.live(h) && fresh(old(self)@, h)
                && represents(final(self)@.objs, final(self)@.obj(h), src.model(), at),
        decreases src,
    {
        proof {
            old(self).lemma_ok();
        }
        let value = match src {
            AstContent::Nil => Value::Primitive(Primitive::Nil),
            AstContent::True => Value::Primitive(Primitive::True),
            AstContent::String(s) => Value::Primitive(Primitive::String(s.clone())),
            AstContent::Int(i) => Value::Primitive(Primitive::Int(*i)),
            AstContent::Quote(b) => {
                let inner = self.construct_node(&b.content, b.at)?;
                let ghost m1 = self@;
                proof {
                    self.lemma_ok();
                }
                let q = match self.quote_new(inner) {
                    Ok(q) => q,
                    Err(e) => {
                        proof {
                            lemma_kept_of_collected(m1, self@);
                            lemma_kept_trans(old(self)@, m1, self@);
                        }
                        return Err(e);
                    },
                };
                let ghost m2 = self@;
                proof {
                    lemma_added_live(m1, m2, q, Obj::Quote(m1.obj(inner)), inner);
                    lemma_added_fresh(old(self)@, m1, m2, q, Obj::Quote(m1.obj(inner)));
                    lemma_kept_trans(old(self)@, m1, m2);
                    self.lemma_closed();
                    lemma_represents_kept(m1, m2, m1.obj(inner), b.content.model(), b.at);
                }
                self.handle_release(inner);
                proof {
                    lemma_release_kept(old(self)@, m2, self@, inner);
                    assert(self@.handles[q.idx as int] == m2.handles[q.idx as int]);
                    assert(src.model() == AstModel::Quote(Box::new(b.model())));
                }
                return Ok(q);
            },
            AstContent::Group(v) => {
                return self.construct_group(src, v, at);
            },
        };
        let ghost vm = value.model();
        let r = self.value_new(value);
        proof {
            if r is Ok {
                let h = r.unwrap();
                lemma_added_fresh(old(self)@, old(self)@, self@, h, plain_value_obj(vm));
            }
        }
        r
    }

    /// Builds the objects for a group: an object for each item, then the
    /// array of them.
    fn construct_group(&mut self, src: &AstContent, v: &Vec<crate::reader::AstNode>, at: ReaderPosition) -> (r: Result<MemHandle, MemoryFull>)
        requires
            old(self).wf(),
            *src == AstContent::Group(*v),
        ensures
            r is Err ==> final(self).full(),
            final(self).wf(),
            final(self).globals_handle() == old(self).globals_handle(),
            old(self)@.kept_in(final(self)@),
            r matches Ok(h) ==> final(self)@.live(h) && fresh(old(self)@, h)
                && represents(final(self)@.objs, final(self)@.obj(h), src.model(), at),
        decreases src, 0nat,
    {
        proof {
            old(self).lemma_ok();
        }
        let ghost vm = src.model()->Group_0;
        let mut hs: Vec<MemHandle> = Vec::new();
        let mut i: usize = 0;
        while i < v.len()
            invariant
                *src == AstContent::Group(*v),
                vm == src.model()->Group_0,
                i <= v@.len(),
                hs@.len() == i,
                self.wf(),
                self.globals_handle() == old(self).globals_handle(),
                old(self)@.ok(),
                old(self)@.kept_in(self@),
                forall|j: int| 0 <= j < i ==> self@.live(#[trigger] hs@[j]) && fresh(old(self)@, hs@[j])
                    && represents(self@.objs, self@.obj(hs@[j]), vm[j].content, vm[j].at),
                forall|j: int, k: int| 0 <= j < k < i ==> #[trigger] hs@[j].idx != #[trigger] hs@[k].idx,
            decreases v@.len() - i,
        {
            let ghost m0 = self@;
            proof {
                assert(decreases_to!(src => src->Group_0));
                assert(decreases_to!(src->Group_0 => src->Group_0@));
                assert(decreases_to!(src->Group_0@ => v@[i as int]));
                assert(decreases_to!(v@[i as int] => v@[i as int].content));
                assert(vm[i as int] == v@[i as int].model());
                self.lemma_ok();
            }
            let h = match self.construct_node(&v[i].content, v[i].at) {
                Ok(h) => h,
                Err(e) => {
                    proof {
                        lemma_kept_trans(old(self)@, m0, self@);
                    }
                    return Err(e);
                },
            };
            proof {
                lemma_kept_trans(old(self)@, m0, self@);
                self.lemma_closed();
                assert forall|j: int| 0 <= j < i implies self@.live(#[trigger] hs@[j]) && fresh(old(self)@, hs@[j])
                    && represents(self@.objs, self@.obj(hs@[j]), vm[j].content, vm[j].at) by {
                    lemma_kept_live(m0, self@, hs@[j]);
                    lemma_represents_kept(m0, self@, m0.obj(hs@[j]), vm[j].content, vm[j].at);
                }
                assert forall|j: int| 0 <= j < i implies #[trigger] hs@[j].idx != h.idx by {
                    assert(m0.handles[hs@[j].idx as int] is Some);
                }
                if h.idx < old(self)@.handles.len() && old(self)@.handles[h.idx as int] is Some {
                    assert(m0.handles[h.idx as int] is Some);
                }
            }
            hs.push(h);
            i = i + 1;
        }
        let ghost m1 = self@;
        let arr = match self.array_from_handles_at(at, hs.as_slice()) {
            Ok(a) => a,
            Err(e) => {
                proof {
                    lemma_kept_of_collected(m1, self@);
                    lemma_kept_trans(old(self)@, m1, self@);
                }
                return Err(e);
            },
        };
        let ghost m2 = self@;
        let ghost os = Seq::new(hs@.len(), |j: int| m1.obj(hs@[j]));
        proof {
            lemma_added_kept(m1, m2, arr, Obj::Array(os, at));
            lemma_added_fresh(old(self)@, m1, m2, arr, Obj::Array(os, at));
            lemma_kept_trans(old(self)@, m1, m2);
            self.lemma_closed();
            assert forall|j: int| 0 <= j < hs@.len() implies m2.live(#[trigger] hs@[j]) && hs@[j].idx != arr.idx by {
                lemma_added_live(m1, m2, arr, Obj::Array(os, at), hs@[j]);
            }
            assert forall|j: int| 0 <= j < vm.len() implies represents(m2.objs, #[trigger] m2.objs[m2.obj(arr)]->Array_0[j], vm[j].content, vm[j].at) by {
                assert(m2.objs[m2.obj(arr)]->Array_0[j] == m1.obj(hs@[j]));
                lemma_represents_kept(m1, m2, m1.obj(hs@[j]), vm[j].content, vm[j].at);
            }
            assert(represents(m2.objs, m2.obj(arr), src.model(), at));
        }
        let mut k: usize = 0;
        while k < hs.len()
            invariant
                k <= hs@.len(),
                old(self).wf(),
                self.wf(),
                self.globals_handle() == old(self).globals_handle(),
                old(self)@.kept_in(self@),
                self@.objs == m2.objs,
                self@.live(arr),
                self@.obj(arr) == m2.obj(arr),
                fresh(old(self)@, arr),
                forall|j: int| k <= j < hs@.len() ==> self@.live(#[trigger] hs@[j]) && fresh(old(self)@, hs@[j]) && hs@[j].idx != arr.idx,
                forall|j: int, l: int| 0 <= j < l < hs@.len() ==> #[trigger] hs@[j].idx != #[trigger] hs@[l].idx,
            decreases hs@.len() - k,
        {
            let ghost m3 = self@;
            let h = hs[k];
            proof {
                self.lemma_globals();
                if h.idx == self.globals_handle().idx {
                    assert(old(self)@.handles[h.idx as int] is Some) by {
                        old(self).lemma_globals();
                    }
                }
            }
            self.handle_release(h);
            proof {
                lemma_release_kept(old(self)@, m3, self@, h);
                assert forall|j: int| k + 1 <= j < hs@.len() implies self@.live(#[trigger] hs@[j]) by {
                    assert(hs@[j].idx != h.idx);
                    assert(self@.handles[hs@[j].idx as int] == m3.handles[hs@[j].idx as int]);
                }
                assert(self@.handles[arr.idx as int] == m3.handles[arr.idx as int]);
            }
            k = k + 1;
        }
        Ok(arr)
    }

    /// Builds the objects for a program's tree. The root group has no
    /// position.
    pub fn construct(&mut self, src: AstContent) -> (r: Result<MemHandle, MemoryFull>)
        requires
            old(self).wf(),
        ensures
            r is Err ==> final(self).full(),
            final(self).wf(),
            final(self).globals_handle() == old(self).globals_handle(),
            old(self)@.kept_in(final(self)@),
            r matches Ok(h) ==> final(self)@.live(h) && fresh(old(self)@, h)
                && represents(final(self)@.objs, final(self)@.obj(h), src.model(), position_unknown()),
    {
        self.construct_node(&src, position_unknown_exec())
    }
}

impl Memory {
    /// Replaces the new cell at the address of `q` by `cell`, which refers
    /// only to cells in range. What `q` names then is `cell`'s object.
    proof fn lemma_fill(&self, mid: Memory, old_m: MemoryModel, q: MemHandle, a: int, obj: Obj)
        requires
            mid.wf(),
            old_m.ok(),
            old_m.added(mid@, q, obj),
            old_m.live(mid.globals),
            mid@.live(q),
            a == mid.addr(q),
            self.space@ == mid.space@.update(a, self.space@[a]),
            cell_ok(self.space@[a], mid.space@.len() as int),
            !(self.space@[a] is Dict),
            self.ids == mid.ids,
            self.next_id == mid.next_id,
            self.handles == mid.handles,
            self.free == mid.free,
            self.globals == mid.globals,
        ensures
            self.wf(),
            old_m.added(self@, q, abs_cell(self.space@[a], self.ids@)),
            self@.live(q),
    {
        mid.lemma_handle(q);
        mid.lemma_handle(mid.globals);
        assert(mid.handles@[mid.globals.idx as int].unwrap() != a) by {
            if mid.handles@[mid.globals.idx as int].unwrap() == a {
                assert(mid@.obj(mid.globals) == mid@.obj(q));
                assert(mid.globals.idx != q.idx);
                assert(mid@.handles[mid.globals.idx as int] == old_m.handles[mid.globals.idx as int]);
                assert(old_m.objs.contains_key(mid@.obj(mid.globals)));
            }
        }
        self.lemma_put(mid, a);
        let o = mid@.obj(q);
        assert forall|p: nat| #[trigger] self@.objs.contains_key(p) && p != o implies old_m.objs.contains_key(p) && self@.objs[p] == old_m.objs[p] by {
            assert(mid@.objs.contains_key(p));
        }
        assert forall|i: int| 0 <= i < old_m.handles.len() && #[trigger] old_m.handles[i] is Some implies self@.objs.contains_key(old_m.handles[i].unwrap()) by {
            assert(mid@.objs.contains_key(old_m.handles[i].unwrap()));
        }
    }

    /// A new function object.
    pub fn fun_new(&mut self, f: Fun) -> (r: Result<MemHandle, MemoryFull>)
        requires
            old(self).wf(),
            old(self)@.live(f.args),
            old(self)@.live(f.locals),
            old(self)@.live(f.body),
        ensures
            r is Err ==> final(self).full(),
            final(self).wf(),
            final(self).globals_handle() == old(self).globals_handle(),
            r is Err ==> old(self)@.collected_to(final(self)@),
            r matches Ok(q) ==> final(self)@.live(q) && old(self)@.added(final(self)@, q,
                Obj::Fun(name_model(f.name), old(self)@.obj(f.args), old(self)@.obj(f.locals), old(self)@.obj(f.body))),
    {
        proof {
            old(self).lemma_ok();
        }
        let q = self.alloc_handle(MemCell::Hole)?;
        let ghost mid = *self;
        proof {
            lemma_added_live(old(self)@, mid@, q, Obj::Hole, f.args);
            lemma_added_live(old(self)@, mid@, q, Obj::Hole, f.locals);
            lemma_added_live(old(self)@, mid@, q, Obj::Hole, f.body);
        }
        let da = self.addr_exec(f.args);
        let dl = self.addr_exec(f.locals);
        let db = self.addr_exec(f.body);
        let a = self.addr_exec(q);
        let ghost nm = name_model(f.name);
        self.space.set(a, MemCell::Fun(FunCell { name: f.name, args: da, locals: dl, body: db }));
        proof {
            old(self).lemma_globals();
            self.lemma_fill(mid, old(self)@, q, a as int, Obj::Hole);
        }
        Ok(q)
    }

    /// The parts of the function `h`: its name, and new handles to its
    /// arguments, locals and body.
    pub fn fun_unpack(&mut self, h: MemHandle) -> (r: Fun)
        requires
            old(self).wf(),
            old(self)@.live(h),
            old(self)@.cell(h) is Fun,
        ensures
            final(self).wf(),
            final(self).globals_handle() == old(self).globals_handle(),
            old(self)@.kept_in(final(self)@),
            final(self)@.objs == old(self)@.objs,
            final(self)@.next == old(self)@.next,
            name_model(r.name) == old(self)@.cell(h)->Fun_0,
            final(self)@.live(r.args) && final(self)@.obj(r.args) == old(self)@.cell(h)->Fun_1,
            final(self)@.live(r.locals) && final(self)@.obj(r.locals) == old(self)@.cell(h)->Fun_2,
            final(self)@.live(r.body) && final(self)@.obj(r.body) == old(self)@.cell(h)->Fun_3,
            fresh(old(self)@, r.args) && fresh(old(self)@, r.locals) && fresh(old(self)@, r.body),
            r.args.idx != r.locals.idx && r.args.idx != r.body.idx && r.locals.idx != r.body.idx,
    {
        proof {
            old(self).lemma_ok();
        }
        let a = self.addr_exec(h);
        proof {
            assert(cell_ok(self.space@[a as int], self.space@.len() as int));
        }
        let (name, da, dl, db) = match &self.space[a] {
            MemCell::Fun(f) => {
                let name = match &f.name {
                    Some(s) => Some(s.clone()),
                    None => None,
                };
                (name, f.args, f.locals, f.body)
            },
            _ => (None, 0, 0, 0),
        };
        let ghost m0 = self@;
        let ha = self.hand_out(da);
        let ghost m1 = self@;
        proof {
            lemma_handed_out_kept(m0, m1, ha, self.ids@[da as int]);
            self.lemma_ok();
        }
        let hl = self.hand_out(dl);
        let ghost m2 = self@;
        proof {
            lemma_handed_out_live(m1, m2, hl, self.ids@[dl as int], ha);
            lemma_kept_trans(m0, m1, m2);
            self.lemma_ok();
        }
        let hb = self.hand_out(db);
        proof {
            lemma_handed_out_live(m2, self@, hb, self.ids@[db as int], ha);
            lemma_handed_out_live(m2, self@, hb, self.ids@[db as int], hl);
            lemma_kept_trans(m0, m2, self@);
            if ha.idx < m0.handles.len() && m0.handles[ha.idx as int] is Some {
                assert(false);
            }
            if hl.idx < m0.handles.len() && m0.handles[hl.idx as int] is Some {
                assert(m1.handles[hl.idx as int] is Some);
            }
            if hb.idx < m0.handles.len() && m0.handles[hb.idx as int] is Some {
                assert(m2.handles[hb.idx as int] is Some);
            }
        }
        Fun { name, args: ha, locals: hl, body: hb }
    }

    /// A new array with the elements and position of the array `h`.
    pub fn array_clone(&mut self, h: MemHandle) -> (r: Result<MemHandle, MemoryFull>)
        requires
            old(self).wf(),
            old(self)@.live(h),
            old(self)@.cell(h) is Array,
        ensures
            r is Err ==> final(self).full(),
            final(self).wf(),
            final(self).globals_handle() == old(self).globals_handle(),
            r is Err ==> old(self)@.collected_to(final(self)@),
            r matches Ok(q) ==> final(self)@.live(q) && old(self)@.added(final(self)@, q, old(self)@.cell(h)),
    {
        proof {
            old(self).lemma_ok();
        }
        let pos = self.array_get_position(h);
        let cell = MemCell::Array(Vec::new(), pos);
        assert(abs_cell(cell, Seq::empty())->Array_0 =~= Seq::<nat>::empty());
        let q = self.alloc_handle(cell)?;
        let ghost mid = *self;
        proof {
            lemma_added_live(old(self)@, mid@, q, Obj::Array(Seq::empty(), pos), h);
        }
        let a = self.addr_exec(h);
        let qa = self.addr_exec(q);
        proof {
            assert(cell_ok(self.space@[a as int], self.space@.len() as int));
        }
        let mut copy: Vec<usize> = Vec::new();
        match &self.space[a] {
            MemCell::Array(v, _) => {
                let mut i: usize = 0;
                while i < v.len()
                    invariant
                        i <= v@.len(),
                        copy@ == v@.take(i as int),
                    decreases v@.len() - i,
                {
                    copy.push(v[i]);
                    i = i + 1;
                    assert(copy@ =~= v@.take(i as int));
                }
                assert(copy@ =~= v@);
            },
            _ => {},
        }
        self.space.set(qa, MemCell::Array(copy, pos));
        proof {
            old(self).lemma_globals();
            self.lemma_fill(mid, old(self)@, q, qa as int, Obj::Array(Seq::empty(), pos));
            assert(abs_cell(self.space@[qa as int], self.ids@)->Array_0 =~= mid@.cell(h)->Array_0);
        }
        Ok(q)
    }

    /// A new dictionary with the entries of the dictionary `h`.
    pub fn dict_clone(&mut self, h: MemHandle) -> (r: Result<MemHandle, MemoryFull>)
        requires
            old(self).wf(),
            old(self)@.live(h),
            old(self)@.cell(h) is Dict,
        ensures
            r is Err ==> final(self).full(),
            final(self).wf(),
            final(self).globals_handle() == old(self).globals_handle(),
            r is Err ==> old(self)@.collected_to(final(self)@),
            r matches Ok(q) ==> final(self)@.live(q) && old(self)@.added(final(self)@, q, old(self)@.cell(h)),
    {
        proof {
            old(self).lemma_ok();
        }
        let cell = MemCell::Dict(Vec::new());
        assert(abs_cell(cell, Seq::empty())->Dict_0 =~= Seq::<(PrimModel, nat)>::empty());
        let q = self.alloc_handle(cell)?;
        let ghost mid = *self;
        proof {
            lemma_added_live(old(self)@, mid@, q, Obj::Dict(Seq::empty()), h);
        }
        let a = self.addr_exec(h);
        let qa = self.addr_exec(q);
        proof {
            assert(cell_ok(self.space@[a as int], self.space@.len() as int));
        }
        let mut copy: Vec<DictEntry> = Vec::new();
        match &self.space[a] {
            MemCell::Dict(d) => {
                let mut i: usize = 0;
                while i < d.len()
                    invariant
                        i <= d@.len(),
                        copy@.len() == i,
                        forall|k: int| 0 <= k < i ==> (#[trigger] copy@[k]).key.model() == d@[k].key.model() && copy@[k].addr == d@[k].addr,
                    decreases d@.len() - i,
                {
                    copy.push(DictEntry { key: d[i].key.duplicate(), addr: d[i].addr });
                    i = i + 1;
                }
            },
            _ => {},
        }
        let ghost d0 = self.space@[a as int]->Dict_0@;
        proof {
            assert(keys_distinct(copy@)) by {
                assert forall|i: int, j: int| 0 <= i < copy@.len() && 0 <= j < copy@.len() && i != j implies #[trigger] copy@[i].key.model() != #[trigger] copy@[j].key.model() by {
                    assert(d0[i].key.model() != d0[j].key.model());
                }
            }
        }
        self.space.set(qa, MemCell::Dict(copy));
        proof {
            self.lemma_put(mid, qa as int);
            assert(abs_cell(self.space@[qa as int], self.ids@)->Dict_0 =~= mid@.cell(h)->Dict_0);
            mid.lemma_handle(q);
            mid.lemma_handle(mid.globals);
            let o = mid@.obj(q);
            assert(self@.obj(q) == o);
            assert forall|p: nat| #[trigger] self@.objs.contains_key(p) && p != o implies old(self)@.objs.contains_key(p) && self@.objs[p] == old(self)@.objs[p] by {
                assert(mid@.objs.contains_key(p));
            }
            assert forall|i: int| 0 <= i < old(self)@.handles.len() && #[trigger] old(self)@.handles[i] is Some implies self@.objs.contains_key(old(self)@.handles[i].unwrap()) by {
                assert(mid@.objs.contains_key(old(self)@.handles[i].unwrap()));
            }
        }
        Ok(q)
    }

    /// Binds in the dictionary `dst` every key of the dictionary `src`, in
    /// order, to what `src` binds it to.
    pub fn dict_pull(&mut self, dst: MemHandle, src: MemHandle)
        requires
            old(self).wf(),
            old(self)@.live(dst),
            old(self)@.live(src),
            old(self)@.cell(dst) is Dict,
            old(self)@.cell(src) is Dict,
        ensures
            final(self).wf(),
            final(self).globals_handle() == old(self).globals_handle(),
            old(self)@.obj(dst) == old(self)@.obj(src) ==> final(self)@ == old(self)@,
            old(self)@.obj(dst) != old(self)@.obj(src) ==> old(self)@.changed(final(self)@, old(self)@.obj(dst),
                Obj::Dict(dict_merge(old(self).entries(dst), old(self).entries(src)))),
    {
        let ad = self.addr_exec(dst);
        let as_ = self.addr_exec(src);
        if ad == as_ {
            return;
        }
        proof {
            old(self).lemma_obj_at(ad as int);
            old(self).lemma_obj_at(as_ as int);
            assert(cell_ok(self.space@[as_ as int], self.space@.len() as int));
        }
        let ghost sd = old(self).entries(src);
        let ghost dd = old(self).entries(dst);
        let ghost od = old(self)@.obj(dst);
        let n = match &self.space[as_] {
            MemCell::Dict(d) => d.len(),
            _ => 0,
        };
        let mut i: usize = 0;
        proof {
            assert(sd.take(0) =~= Seq::<(PrimModel, nat)>::empty());
            assert(old(self)@.objs.insert(od, Obj::Dict(dd)) =~= old(self)@.objs);
        }
        while i < n
            invariant
                self.wf(),
                self.globals == old(self).globals,
                self.ids == old(self).ids,
                self.space@.len() == old(self).space@.len(),
                ad < self.space@.len(),
                as_ < self.space@.len(),
                ad != as_,
                self.space@[ad as int] is Dict,
                self.space@[as_ as int] == old(self).space@[as_ as int],
                old(self).space@[as_ as int] is Dict,
                n == old(self).space@[as_ as int]->Dict_0@.len(),
                sd == abs_cell(old(self).space@[as_ as int], old(self).ids@)->Dict_0,
                od == old(self).ids@[ad as int],
                i <= n,
                old(self)@.changed(self@, od, Obj::Dict(dict_merge(dd, sd.take(i as int)))),
                self@.objs[od] == Obj::Dict(dict_merge(dd, sd.take(i as int))),
            decreases n - i,
        {
            let (key, d) = match &self.space[as_] {
                MemCell::Dict(e) => (e[i].key.duplicate(), e[i].addr),
                _ => (Primitive::Nil, 0),
            };
            proof {
                assert(cell_ok(self.space@[as_ as int], self.space@.len() as int));
                self.lemma_obj_at(ad as int);
            }
            let ghost m0 = self@;
            self.dict_set_addr(ad, key, d);
            proof {
                assert(sd[i as int] == (key.model(), self.ids@[d as int]));
                assert(sd.take(i + 1) =~= sd.take(i as int).push(sd[i as int]));
                lemma_merge_push(dd, sd.take(i as int), sd[i as int]);
                assert(self@.objs =~= old(self)@.objs.insert(od, Obj::Dict(dict_merge(dd, sd.take(i + 1)))));
                assert(self.space@[as_ as int] == old(self).space@[as_ as int]);
            }
            i = i + 1;
        }
        proof {
            assert(sd.take(n as int) =~= sd);
        }
    }
}

/// Every handle of `hs` names an object, none is the globals handle `g`,
/// and no two share an entry of the handle table.
pub open spec fn handles_ok(m: MemoryModel, g: MemHandle, hs: Seq<MemHandle>) -> bool {
    &&& forall|i: int| 0 <= i < hs.len() ==> m.live(#[trigger] hs[i]) && hs[i].idx != g.idx
    &&& forall|i: int, j: int| 0 <= i < j < hs.len() ==> #[trigger] hs[i].idx != #[trigger] hs[j].idx
}

/// Every handle entry in use in `m0` names the same object in `m1`, and
/// that object is there.
pub open spec fn handles_kept(m0: MemoryModel, m1: MemoryModel) -> bool {
    &&& m1.handles.len() >= m0.handles.len()
    &&& forall|i: int| 0 <= i < m0.handles.len() && #[trigger] m0.handles[i] is Some
        ==> m1.handles[i] == m0.handles[i] && m1.objs.contains_key(m0.handles[i].unwrap())
}

pub proof fn lemma_kept_handles(m0: MemoryModel, m1: MemoryModel)
    requires
        m0.kept_in(m1),
    ensures
        handles_kept(m0, m1),
{
}

pub proof fn lemma_changed_handles(m0: MemoryModel, m1: MemoryModel, o: nat, obj: Obj)
    requires
        m0.ok(),
        m0.changed(m1, o, obj),
    ensures
        handles_kept(m0, m1),
{
}

pub proof fn lemma_handles_kept_trans(m0: MemoryModel, m1: MemoryModel, m2: MemoryModel)
    requires
        handles_kept(m0, m1),
        handles_kept(m1, m2),
    ensures
        handles_kept(m0, m2),
{
    assert forall|i: int| 0 <= i < m0.handles.len() && #[trigger] m0.handles[i] is Some
        implies m2.handles[i] == m0.handles[i] && m2.objs.contains_key(m0.handles[i].unwrap()) by {
        assert(m1.handles[i] == m0.handles[i]);
    }
}

/// Handles stay usable while the heap keeps its handle entries.
pub proof fn lemma_handles_ok_kept(m0: MemoryModel, m1: MemoryModel, g: MemHandle, hs: Seq<MemHandle>)
    requires
        handles_ok(m0, g, hs),
        handles_kept(m0, m1),
    ensures
        handles_ok(m1, g, hs),
{
    assert forall|i: int| 0 <= i < hs.len() implies m1.live(#[trigger] hs[i]) && hs[i].idx != g.idx by {
        assert(m0.handles[hs[i].idx as int] is Some);
    }
}

/// A handle made since `m0` can join handles that were usable in `m0`.
pub proof fn lemma_handles_push(m0: MemoryModel, m1: MemoryModel, g: MemHandle, hs: Seq<MemHandle>, r: MemHandle)
    requires
        handles_ok(m0, g, hs),
        handles_kept(m0, m1),
        m0.live(g),
        m1.live(r),
        fresh(m0, r),
    ensures
        handles_ok(m1, g, hs.push(r)),
{
    lemma_handles_ok_kept(m0, m1, g, hs);
    let t = hs.push(r);
    assert forall|i: int| 0 <= i < t.len() implies m1.live(#[trigger] t[i]) && t[i].idx != g.idx by {
        if i < hs.len() {
            assert(t[i] == hs[i]);
        }
    }
    assert forall|i: int, j: int| 0 <= i < j < t.len() implies #[trigger] t[i].idx != #[trigger] t[j].idx by {
        if j == hs.len() {
            assert(m0.live(hs[i]));
        } else {
            assert(t[i] == hs[i] && t[j] == hs[j]);
        }
    }
}

/// The handles of two lists share no entry.
pub open spec fn disjoint(a: Seq<MemHandle>, b: Seq<MemHandle>) -> bool {
    forall|i: int, j: int| 0 <= i < a.len() && 0 <= j < b.len() ==> #[trigger] a[i].idx != #[trigger] b[j].idx
}

pub proof fn lemma_handles_split(m: MemoryModel, g: MemHandle, a: Seq<MemHandle>, b: Seq<MemHandle>)
    requires
        handles_ok(m, g, a + b),
    ensures
        handles_ok(m, g, a),
        handles_ok(m, g, b),
        disjoint(a, b),
{
    let t = a + b;
    assert forall|i: int| 0 <= i < a.len() implies m.live(#[trigger] a[i]) && a[i].idx != g.idx by {
        assert(t[i] == a[i]);
    }
    assert forall|i: int| 0 <= i < b.len() implies m.live(#[trigger] b[i]) && b[i].idx != g.idx by {
        assert(t[a.len() + i] == b[i]);
    }
    assert forall|i: int, j: int| 0 <= i < j < a.len() implies #[trigger] a[i].idx != #[trigger] a[j].idx by {
        assert(t[i] == a[i] && t[j] == a[j]);
    }
    assert forall|i: int, j: int| 0 <= i < j < b.len() implies #[trigger] b[i].idx != #[trigger] b[j].idx by {
        assert(t[a.len() + i] == b[i] && t[a.len() + j] == b[j]);
    }
    assert forall|i: int, j: int| 0 <= i < a.len() && 0 <= j < b.len() implies #[trigger] a[i].idx != #[trigger] b[j].idx by {
        assert(t[i] == a[i] && t[a.len() + j] == b[j]);
    }
}

pub proof fn lemma_handles_join(m: MemoryModel, g: MemHandle, a: Seq<MemHandle>, b: Seq<MemHandle>)
    requires
        handles_ok(m, g, a),
        handles_ok(m, g, b),
        disjoint(a, b),
    ensures
        handles_ok(m, g, a + b),
{
    let t = a + b;
    assert forall|i: int| 0 <= i < t.len() implies m.live(#[trigger] t[i]) && t[i].idx != g.idx by {
        if i < a.len() {
            assert(t[i] == a[i]);
        } else {
            assert(t[i] == b[i - a.len()]);
        }
    }
    assert forall|i: int, j: int| 0 <= i < j < t.len() implies #[trigger] t[i].idx != #[trigger] t[j].idx by {
        if j < a.len() {
            assert(t[i] == a[i] && t[j] == a[j]);
        } else if i < a.len() {
            assert(t[i] == a[i] && t[j] == b[j - a.len()]);
        } else {
            assert(t[i] == b[i - a.len()] && t[j] == b[j - a.len()]);
        }
    }
}

impl Memory {
    /// A new handle to the object `h` names.
    pub fn handle_copy(&mut self, h: MemHandle) -> (r: MemHandle)
        requires
            old(self).wf(),
            old(self)@.live(h),
        ensures
            final(self).wf(),
            final(self).globals_handle() == old(self).globals_handle(),
            old(self)@.handed_out(final(self)@, r, old(self)@.obj(h)),
            old(self)@.kept_in(final(self)@),
            final(self)@.live(r),
            fresh(old(self)@, r),
            final(self)@.obj(r) == old(self)@.obj(h),
    {
        proof {
            old(self).lemma_ok();
        }
        let a = self.addr_exec(h);
        let r = self.hand_out(a);
        proof {
            lemma_handed_out_kept(old(self)@, self@, r, old(self)@.obj(h));
        }
        r
    }

    /// Gives up every handle of the list.
    pub fn release_all(&mut self, hs: &Vec<MemHandle>)
        requires
            old(self).wf(),
            handles_ok(old(self)@, old(self).globals_handle(), hs@),
        ensures
            final(self).wf(),
            final(self).globals_handle() == old(self).globals_handle(),
            final(self)@.objs == old(self)@.objs,
            final(self)@.next == old(self)@.next,
            final(self)@.handles.len() == old(self)@.handles.len(),
            forall|i: int| 0 <= i < old(self)@.handles.len() && (forall|k: int| 0 <= k < hs@.len() ==> hs@[k].idx != i)
                ==> #[trigger] final(self)@.handles[i] == old(self)@.handles[i],
            forall|k: int| 0 <= k < hs@.len() ==> final(self)@.handles[#[trigger] hs@[k].idx as int] is None,
            final(self).full() == old(self).full(),
            final(self).size_limit() == old(self).size_limit(),
    {
        let mut k: usize = 0;
        while k < hs.len()
            invariant
                k <= hs@.len(),
                self.wf(),
                self.globals_handle() == old(self).globals_handle(),
                self@.objs == old(self)@.objs,
                self@.next == old(self)@.next,
                self@.handles.len() == old(self)@.handles.len(),
                handles_ok(self@, self.globals_handle(), hs@.subrange(k as int, hs@.len() as int)),
                forall|i: int| 0 <= i < old(self)@.handles.len() && (forall|j: int| 0 <= j < k ==> hs@[j].idx != i)
                    ==> #[trigger] self@.handles[i] == old(self)@.handles[i],
                forall|j: int| 0 <= j < k ==> self@.handles[#[trigger] hs@[j].idx as int] is None,
                self.full() == old(self).full(),
                self.size_limit() == old(self).size_limit(),
                handles_ok(old(self)@, old(self).globals_handle(), hs@),
            decreases hs@.len() - k,
        {
            let ghost m0 = self@;
            let ghost rest = hs@.subrange(k as int, hs@.len() as int);
            let h = hs[k];
            assert(rest[0] == h);
            self.handle_release(h);
            proof {
                let rest2 = hs@.subrange(k + 1, hs@.len() as int);
                assert forall|i: int| 0 <= i < rest2.len() implies self@.live(#[trigger] rest2[i]) && rest2[i].idx != self.globals_handle().idx by {
                    assert(rest2[i] == rest[i + 1]);
                    assert(rest[0].idx != rest[i + 1].idx);
                }
                assert forall|i: int, j: int| 0 <= i < j < rest2.len() implies #[trigger] rest2[i].idx != #[trigger] rest2[j].idx by {
                    assert(rest2[i] == rest[i + 1] && rest2[j] == rest[j + 1]);
                }
                assert forall|i: int| 0 <= i < old(self)@.handles.len() && (forall|j: int| 0 <= j < k + 1 ==> hs@[j].idx != i)
                    implies #[trigger] self@.handles[i] == old(self)@.handles[i] by {
                    assert(hs@[k as int].idx != i);
                    assert(forall|j: int| 0 <= j < k ==> hs@[j].idx != i);
                }
                assert forall|j: int| 0 <= j < k + 1 implies self@.handles[#[trigger] hs@[j].idx as int] is None by {
                    if j < k {
                        assert(m0.handles[hs@[j].idx as int] is None);
                    }
                }
            }
            k = k + 1;
        }
    }
}

/// After the handles of `b` are given up, those of `a` still work.
pub proof fn lemma_released_rest(m0: MemoryModel, m1: MemoryModel, g: MemHandle, a: Seq<MemHandle>, b: Seq<MemHandle>)
    requires
        handles_ok(m0, g, a + b),
        m1.objs == m0.objs,
        m1.handles.len() == m0.handles.len(),
        forall|i: int| 0 <= i < m0.handles.len() && (forall|k: int| 0 <= k < b.len() ==> b[k].idx != i)
            ==> #[trigger] m1.handles[i] == m0.handles[i],
        m0.live(g),
    ensures
        handles_ok(m1, g, a),
        m1.live(g),
        forall|i: int| 0 <= i < m0.handles.len() && m0.handles[i] is Some && i != g.idx
            && (forall|j: int| 0 <= j < a.len() ==> a[j].idx != i)
            && (forall|k: int| 0 <= k < b.len() ==> b[k].idx != i) ==> #[trigger] m1.handles[i] == m0.handles[i],
        forall|i: int| 0 <= i < a.len() ==> m1.handles[#[trigger] a[i].idx as int] == m0.handles[a[i].idx as int],
{
    lemma_handles_split(m0, g, a, b);
    assert forall|i: int| 0 <= i < a.len() implies m1.live(#[trigger] a[i]) && a[i].idx != g.idx by {
        assert forall|k: int| 0 <= k < b.len() implies b[k].idx != a[i].idx by {
            assert(a[i].idx != b[k].idx);
        }
        assert(m1.handles[a[i].idx as int] == m0.handles[a[i].idx as int]);
    }
    assert forall|k: int| 0 <= k < b.len() implies b[k].idx != g.idx by {
        assert(m0.live(b[k]));
    }
    assert(m1.handles[g.idx as int] == m0.handles[g.idx as int]);
}

impl Memory {
    /// What a live handle names is in the heap.
    pub proof fn lemma_live_cell(&self, h: MemHandle)
        requires
            self.wf(),
            self@.live(h),
        ensures
            self@.objs.contains_key(self@.obj(h)),
    {
    }
}

/// A handle that named an object still does where the heap keeps its handles.
pub proof fn lemma_kept_live_h(m0: MemoryModel, m1: MemoryModel, h: MemHandle)
    requires
        handles_kept(m0, m1),
        m0.live(h),
    ensures
        m1.live(h),
        m1.obj(h) == m0.obj(h),
{
    assert(m0.handles[h.idx as int] is Some);
}

/// Binding a key keeps every key bound.
pub proof fn lemma_insert_keeps(d: Seq<(PrimModel, nat)>, k: PrimModel, o: nat)
    ensures
        has_key(dict_insert(d, k, o), k),
        forall|k2: PrimModel| #[trigger] has_key(d, k2) ==> has_key(dict_insert(d, k, o), k2),
{
    let n = dict_insert(d, k, o);
    if has_key(d, k) {
        let i = key_index(d, k);
        assert(n[i].0 == k);
    } else {
        assert(n[d.len() as int].0 == k);
    }
    assert forall|k2: PrimModel| #[trigger] has_key(d, k2) implies has_key(n, k2) by {
        let j = choose|j: int| 0 <= j < d.len() && d[j].0 == k2;
        if has_key(d, k) && j == key_index(d, k) {
            assert(n[j].0 == k);
        } else {
            assert(n[j] == d[j]);
        }
    }
}

/// A dictionary gives back for a key what was last bound to it, and binding
/// one key leaves the binding of every other key as it was.
pub proof fn lemma_dict_read_after_write(d: Seq<(PrimModel, nat)>, k: PrimModel, o: nat, k2: PrimModel)
    requires
        distinct_keys(d),
    ensures
        distinct_keys(dict_insert(d, k, o)),
        dict_lookup(dict_insert(d, k, o), k) == Some(o),
        k2 != k ==> dict_lookup(dict_insert(d, k, o), k2) == dict_lookup(d, k2),
{
    let n = dict_insert(d, k, o);
    let i: int = if has_key(d, k) { key_index(d, k) } else { d.len() as int };
    assert(n.len() == (if has_key(d, k) { d.len() } else { d.len() + 1 }));
    assert(n[i] == (k, o));
    assert(forall|j: int| 0 <= j < n.len() && j != i ==> #[trigger] n[j] == d[j]);
    assert(!has_key(d, k) ==> forall|j: int| 0 <= j < d.len() ==> #[trigger] d[j].0 != k);
    assert(distinct_keys(n)) by {
        assert forall|a: int, b: int| 0 <= a < n.len() && 0 <= b < n.len() && a != b implies #[trigger] n[a].0 != #[trigger] n[b].0 by {
            if a == i {
                assert(n[b] == d[b]);
            } else if b == i {
                assert(n[a] == d[a]);
            } else {
                assert(n[a] == d[a] && n[b] == d[b]);
            }
        }
    }
    lemma_key_index(n, k, i);
    if k2 != k {
        if has_key(d, k2) {
            let j = key_index(d, k2);
            assert(j != i);
            assert(n[j] == d[j]);
            lemma_key_index(n, k2, j);
        } else {
            assert(!has_key(n, k2)) by {
                if has_key(n, k2) {
                    let j = key_index(n, k2);
                    assert(j != i);
                    assert(d[j].0 == k2);
                }
            }
        }
    }
}

/// Unbinding a key leaves it unbound and the binding of every other key as
/// it was.
pub proof fn lemma_dict_delete(d: Seq<(PrimModel, nat)>, k: PrimModel, k2: PrimModel)
    requires
        distinct_keys(d),
    ensures
        distinct_keys(dict_remove(d, k)),
        dict_lookup(dict_remove(d, k), k) is None,
        k2 != k ==> dict_lookup(dict_remove(d, k), k2) == dict_lookup(d, k2),
{
    let n = dict_remove(d, k);
    if has_key(d, k) {
        let i = key_index(d, k);
        assert(n.len() == d.len() - 1);
        assert(forall|j: int| 0 <= j < n.len() ==> #[trigger] n[j] == (if j < i { d[j] } else { d[j + 1] }));
        assert(distinct_keys(n)) by {
            assert forall|a: int, b: int| 0 <= a < n.len() && 0 <= b < n.len() && a != b implies #[trigger] n[a].0 != #[trigger] n[b].0 by {
                let a2 = if a < i { a } else { a + 1 };
                let b2 = if b < i { b } else { b + 1 };
                assert(n[a] == d[a2] && n[b] == d[b2] && a2 != b2);
            }
        }
        assert(!has_key(n, k)) by {
            if has_key(n, k) {
                let j = key_index(n, k);
                let j2 = if j < i { j } else { j + 1 };
                assert(d[j2].0 == k && j2 != i);
            }
        }
        if k2 != k {
            if has_key(d, k2) {
                let j = key_index(d, k2);
                assert(j != i);
                let j1 = if j < i { j } else { j - 1 };
                assert(n[j1] == d[j]);
                lemma_key_index(n, k2, j1);
            } else {
                assert(!has_key(n, k2)) by {
                    if has_key(n, k2) {
                        let j = key_index(n, k2);
                        let j2 = if j < i { j } else { j + 1 };
                        assert(d[j2].0 == k2);
                    }
                }
            }
        }
    }
}

/// Unbinding a key a second time changes nothing.
pub proof fn law_delete_twice(d: Seq<(PrimModel, nat)>, k: PrimModel)
    requires
        distinct_keys(d),
    ensures
        dict_remove(dict_remove(d, k), k) == dict_remove(d, k),
{
    lemma_dict_delete(d, k, k);
}

/// A change of one object is seen through every handle to it, and through
/// no other: every other handle still names an object equal to its own.
pub proof fn lemma_changed_read(m0: MemoryModel, m1: MemoryModel, o: nat, obj: Obj, h: MemHandle)
    requires
        m0.changed(m1, o, obj),
        m0.live(h),
    ensures
        m1.live(h),
        m1.obj(h) == m0.obj(h),
        m1.cell(h) == (if m0.obj(h) == o { obj } else { m0.cell(h) }),
{
}

/// An array gives back at an index what was last set there, and setting
/// one index, or appending, leaves every other element as it was.
pub proof fn lemma_array_read_after_write(es: Seq<nat>, i: int, x: nat, j: int)
    requires
        0 <= j < es.len(),
    ensures
        0 <= i < es.len() ==> es.update(i, x)[j] == (if i == j { x } else { es[j] }),
        es.push(x)[j] == es[j],
        es.push(x)[es.len() as int] == x,
        es.push(x).len() == es.len() + 1,
{
}

/// The objects that an object refers to.
pub open spec fn children(obj: Obj) -> Seq<nat> {
    match obj {
        Obj::Quote(q) => seq![q],
        Obj::Array(v, _) => v,
        Obj::Dict(d) => Seq::new(d.len(), |i: int| d[i].1),
        Obj::Fun(_, a, l, b) => seq![a, l, b],
        _ => Seq::empty(),
    }
}

/// Every object within `depth` references of `o` is in `m1`, as it is in `m0`.
pub open spec fn same_to_depth(m0: MemoryModel, m1: MemoryModel, o: nat, depth: nat) -> bool
    decreases depth,
{
    &&& m1.objs.contains_key(o)
    &&& m1.objs[o] == m0.objs[o]
    &&& depth > 0 ==> forall|i: int| 0 <= i < children(m1.objs[o]).len()
        ==> same_to_depth(m0, m1, #[trigger] children(m1.objs[o])[i], (depth - 1) as nat)
}

/// What a handle reaches survives every later step that keeps the handles
/// (each allocation, with the collection it may run, and each change to
/// another object): every object within any number of references of it is
/// still in the heap, unchanged.
pub proof fn lemma_kept_reach(m0: MemoryModel, m1: MemoryModel, h: MemHandle, depth: nat)
    requires
        m0.closed(),
        m1.closed(),
        m0.kept_in(m1),
        m0.live(h),
    ensures
        m1.live(h),
        m1.obj(h) == m0.obj(h),
        same_to_depth(m0, m1, m0.obj(h), depth),
{
    lemma_kept_live(m0, m1, h);
    lemma_kept_reach_obj(m0, m1, m0.obj(h), depth);
}

proof fn lemma_kept_reach_obj(m0: MemoryModel, m1: MemoryModel, o: nat, depth: nat)
    requires
        m0.closed(),
        m1.closed(),
        m0.kept_in(m1),
        m0.objs.contains_key(o),
        m1.objs.contains_key(o),
    ensures
        same_to_depth(m0, m1, o, depth),
    decreases depth,
{
    let x = m1.objs[o];
    assert(x == m0.objs[o]);
    if depth > 0 {
        assert forall|i: int| 0 <= i < children(x).len() implies same_to_depth(m0, m1, #[trigger] children(x)[i], (depth - 1) as nat) by {
            let c = children(x)[i];
            match x {
                Obj::Quote(q) => {
                    assert(c == q);
                },
                Obj::Array(v, _) => {
                    assert(c == x->Array_0[i]);
                },
                Obj::Dict(d) => {
                    assert(c == x->Dict_0[i].1);
                },
                Obj::Fun(_, a, l, b) => {
                    assert(c == a || c == l || c == b);
                },
                _ => {},
            }
            assert(m0.objs.contains_key(c));
            assert(m1.objs.contains_key(c));
            lemma_kept_reach_obj(m0, m1, c, (depth - 1) as nat);
        }
    }
}


/// Keeping everything keeps everything but `o`.
pub proof fn lemma_kept_except_of_kept(m1: MemoryModel, m2: MemoryModel, o: nat)
    requires
        m1.kept_in(m2),
    ensures
        m1.kept_except(m2, o),
{
}

/// Changing object `o` keeps everything but `o`.
pub proof fn lemma_kept_except_of_changed(m1: MemoryModel, m2: MemoryModel, o: nat, obj: Obj)
    requires
        m1.ok(),
        m1.changed(m2, o, obj),
        m1.objs.contains_key(o),
    ensures
        m1.kept_except(m2, o),
{
}

/// Keeping everything but `o`, twice over.
pub proof fn lemma_kept_except_trans(m1: MemoryModel, m2: MemoryModel, m3: MemoryModel, o: nat)
    requires
        m1.ok(),
        m1.kept_except(m2, o),
        m2.kept_except(m3, o),
    ensures
        m1.kept_except(m3, o),
{
    assert forall|i: int| 0 <= i < m1.handles.len() && #[trigger] m1.handles[i] is Some
        implies m3.handles[i] == m1.handles[i] && m3.objs.contains_key(m1.handles[i].unwrap()) by {
        assert(m2.handles[i] == m1.handles[i]);
    }
    assert forall|p: nat| #[trigger] m3.objs.contains_key(p) && m1.objs.contains_key(p) && p != o
        implies m3.objs[p] == m1.objs[p] by {
        if !m2.objs.contains_key(p) {
            assert(p >= m2.next);
        }
    }
    assert forall|p: nat| #[trigger] m3.objs.contains_key(p) implies m1.objs.contains_key(p) || p >= m1.next by {
        if m2.objs.contains_key(p) {
        }
    }
}

/// Where `o` was not yet an object, keeping everything but `o` keeps
/// everything there was.
pub proof fn lemma_kept_of_kept_except(m1: MemoryModel, m2: MemoryModel, m3: MemoryModel, o: nat)
    requires
        m1.ok(),
        m1.kept_in(m2),
        m2.kept_except(m3, o),
        !m1.objs.contains_key(o),
    ensures
        m1.kept_in(m3),
{
    lemma_kept_except_of_kept(m1, m2, o);
    lemma_kept_except_trans(m1, m2, m3, o);
}


} // verus!
