//! The evaluator: a stack machine that turns each line of code into runtime
//! values and executes it.
//!
//! The evaluator runs one step at a time. A step that needs the outside
//! world (printing, files, standard input) stops with a request; the caller
//! performs it and hands the reply back with `Eval::resume`.

use vstd::prelude::*;
use crate::memory::{
    Memory, MemHandle, MemoryFull, MemoryModel, Primitive, PrimModel, Value, ValueModel, Obj,
    handles_ok, handles_kept, fresh, disjoint, lemma_handles_ok_kept, lemma_handles_push,
    lemma_handles_split, lemma_handles_join, lemma_released_rest, lemma_kept_handles,
    lemma_changed_handles, lemma_handles_kept_trans, lemma_added_kept, lemma_added_fresh,
    lemma_kept_of_collected,
};
use crate::reader::{ReaderPosition, position_unknown};
use crate::text::{int_model, int_to_string};
use crate::globals::{Builtin, Outcome, call_builtin, builtin_spec, io_done, finish_io, returns_fresh, builtin_keeps, touches_files};

verus! {

/// An error of evaluation.
#[derive(Debug, Clone)]
pub struct Error {
    pub message: String,
}

/// What a builtin hands back: nothing, a value, or a line of values to be
/// executed in its place.
pub enum BuiltinReturn {
    Empty,
    Value(MemHandle),
    Push(Vec<MemHandle>),
}

/// The handles a builtin hands back.
pub open spec fn return_handles(r: BuiltinReturn) -> Seq<MemHandle> {
    match r {
        BuiltinReturn::Empty => Seq::empty(),
        BuiltinReturn::Value(h) => seq![h],
        BuiltinReturn::Push(v) => v@,
    }
}

/// The error for a heap that is full even after a collection.
pub fn memory_full_error() -> (e: Error)
    ensures
        e.message@ == "Memory 100% full even after GC. Bailing"@,
{
    Error { message: "Memory 100% full even after GC. Bailing".to_owned() }
}

/// The error for a state the evaluator never gets into.
pub fn internal_error() -> (e: Error)
    ensures
        e.message@ == "Interpreter internal error"@,
{
    Error { message: "Interpreter internal error".to_owned() }
}

/// One level of the evaluation stack: whether its value is wanted by the
/// level below, the saved scope to restore when it ends, the code it runs,
/// which line of that code it is on (none for a single expression), and
/// the values computed so far for that line.
pub struct Frame {
    pub want_return: bool,
    pub scope_restore: Option<MemHandle>,
    pub fun: Option<MemHandle>,
    pub line: Option<usize>,
    pub prepare: Vec<MemHandle>,
}

/// `b` is the stack `a` with, at most, values added to the line its top
/// frame prepares: every frame keeps its code, line, scope and whether its
/// value is wanted, and the frames below the top are unchanged.
pub open spec fn frames_kept(a: Seq<Frame>, b: Seq<Frame>) -> bool {
    &&& a.len() == b.len()
    &&& forall|k: int| 0 <= k < a.len() - 1 ==> #[trigger] b[k] == a[k]
    &&& a.len() > 0 ==> b.last().fun == a.last().fun && b.last().line == a.last().line
        && b.last().want_return == a.last().want_return && b.last().scope_restore == a.last().scope_restore
}

pub open spec fn opt_handles(o: Option<MemHandle>) -> Seq<MemHandle> {
    match o {
        Some(h) => seq![h],
        None => Seq::empty(),
    }
}

/// The handles a frame holds.
pub open spec fn frame_handles(f: Frame) -> Seq<MemHandle> {
    opt_handles(f.scope_restore) + opt_handles(f.fun) + f.prepare@
}

/// The handles the frames of a stack hold, bottom first.
pub open spec fn held(s: Seq<Frame>) -> Seq<MemHandle>
    decreases s.len(),
{
    if s.len() == 0 {
        Seq::empty()
    } else {
        held(s.drop_last()) + frame_handles(s.last())
    }
}

pub proof fn lemma_held_push(s: Seq<Frame>, f: Frame)
    ensures
        held(s.push(f)) == held(s) + frame_handles(f),
{
    assert(s.push(f).drop_last() =~= s);
}

/// Three lists of usable handles may be put in another order.
pub proof fn lemma_handles_swap(m: MemoryModel, g: MemHandle, a: Seq<MemHandle>, b: Seq<MemHandle>, c: Seq<MemHandle>)
    requires
        handles_ok(m, g, a + b + c),
    ensures
        handles_ok(m, g, a + c + b),
{
    lemma_handles_split(m, g, a + b, c);
    lemma_handles_split(m, g, a, b);
    assert(disjoint(a, c)) by {
        assert forall|i: int, j: int| 0 <= i < a.len() && 0 <= j < c.len() implies #[trigger] a[i].idx != #[trigger] c[j].idx by {
            assert((a + b)[i] == a[i]);
        }
    }
    lemma_handles_join(m, g, a, c);
    assert(disjoint(a + c, b)) by {
        assert forall|i: int, j: int| 0 <= i < (a + c).len() && 0 <= j < b.len() implies #[trigger] (a + c)[i].idx != #[trigger] b[j].idx by {
            if i < a.len() {
                assert((a + c)[i] == a[i]);
            } else {
                assert((a + c)[i] == c[i - a.len()]);
                assert((a + b)[a.len() + j] == b[j]);
            }
        }
    }
    lemma_handles_join(m, g, a + c, b);
}

/// Handles made since `m0` join those usable in `m0`.
pub proof fn lemma_handles_append_fresh(m0: MemoryModel, m1: MemoryModel, g: MemHandle, a: Seq<MemHandle>, b: Seq<MemHandle>)
    requires
        handles_ok(m0, g, a),
        handles_kept(m0, m1),
        handles_ok(m1, g, b),
        forall|i: int| 0 <= i < b.len() ==> fresh(m0, #[trigger] b[i]),
    ensures
        handles_ok(m1, g, a + b),
{
    lemma_handles_ok_kept(m0, m1, g, a);
    assert(disjoint(a, b)) by {
        assert forall|i: int, j: int| 0 <= i < a.len() && 0 <= j < b.len() implies #[trigger] a[i].idx != #[trigger] b[j].idx by {
            assert(m0.live(a[i]));
            assert(fresh(m0, b[j]));
        }
    }
    lemma_handles_join(m1, g, a, b);
}

/// How a position reads in a message: the source's tag, line and column,
/// or a note that it is unknown.
pub open spec fn position_text(tags: Seq<Seq<char>>, p: ReaderPosition) -> Seq<char> {
    if p == position_unknown() || p.source >= tags.len() {
        "[position unknown]"@
    } else {
        tags[p.source as int] + " line "@ + int_model(p.line as int) + " column "@ + int_model(p.column as int)
    }
}

pub open spec fn tags_model(tags: Seq<String>) -> Seq<Seq<char>> {
    Seq::new(tags.len(), |i: int| tags[i]@)
}

/// The text of a position, as `position_text` gives it.
pub fn position_string_of(tags: &Vec<String>, p: ReaderPosition) -> (r: String)
    ensures
        r@ == position_text(tags_model(tags@), p),
{
    if (p.source == 1 && p.line == 0 && p.column == 0) || p.source as usize >= tags.len() {
        "[position unknown]".to_owned()
    } else {
        let mut r = tags[p.source as usize].clone();
        r.append(" line ");
        r.append(int_to_string(p.line as i64).as_str());
        r.append(" column ");
        r.append(int_to_string(p.column as i64).as_str());
        r
    }
}

/// The message `text` after the position of `h`, as errors are reported.
pub open spec fn located(tags: Seq<Seq<char>>, p: ReaderPosition, text: Seq<char>) -> Seq<char> {
    position_text(tags, p) + ": "@ + text
}

/// A request for the outside world.
pub enum IoRequest {
    /// Write these texts to the output file, or to standard output.
    Print(Vec<String>),
    /// Flush the output file, or standard output.
    Flush,
    /// Whether a file exists at the path.
    FileExists(String),
    /// Read from the file at the path from now on; from standard input for none.
    FileIn(Option<String>),
    /// Write to the file at the path from now on; to standard output for none.
    FileOut { path: Option<String>, create: bool, truncate: bool },
    /// The next line of input, without its end.
    ReadLine,
    /// All the rest of the input.
    ReadAll,
}

/// What the outside world answered.
pub enum IoReply {
    /// It was done.
    Done,
    /// The answer to `FileExists`.
    Exists(bool),
    /// The answer to `ReadLine`: none at the end of the input.
    Line(Option<String>),
    /// The answer to `ReadAll`.
    Text(String),
    /// It failed, with this description.
    Failed(String),
}

/// The result of a step.
pub enum Step {
    /// More steps are to come.
    Running,
    /// The program ended.
    Finished,
    /// The program stopped with an error.
    Failed(Error),
    /// The program waits for the outside world; call `Eval::resume`.
    Io(IoRequest),
}


/// A builtin call waiting for the outside world.
pub struct Pending {
    pub call: Builtin,
    pub returning: bool,
    pub restore: Option<MemHandle>,
    pub fun: Option<MemHandle>,
    pub tmp: Vec<MemHandle>,
}

/// The evaluator's state: the heap, the names of the sources, the stack.
pub struct Eval {
    pub memory: Memory,
    pub source_tag: Vec<String>,
    stack: Vec<Frame>,
    pub file_allow: bool,
    /// The top frame is a line to execute at once (handed back by a builtin).
    ready: bool,
    pending: Option<Pending>,
}

pub open spec fn pending_handles(p: Option<Pending>) -> Seq<MemHandle> {
    match p {
        Some(q) => q.tmp@,
        None => Seq::empty(),
    }
}

impl Eval {
    /// The heap is consistent, and every handle the evaluator holds names an
    /// object and is held once.
    pub closed spec fn inv(&self) -> bool {
        &&& self.memory.wf()
        &&& handles_ok(self.memory@, self.memory.globals_handle(), held(self.stack@) + pending_handles(self.pending))
        &&& self.pending matches Some(p) ==> (p.restore matches Some(h) ==> p.tmp@.contains(h))
            && (p.fun matches Some(h) ==> p.tmp@.contains(h))
    }

    /// `tmp` holds handles of the evaluator besides those of its stack.
    closed spec fn owned_ok(&self, tmp: Seq<MemHandle>) -> bool {
        &&& self.memory.wf()
        &&& handles_ok(self.memory@, self.memory.globals_handle(), held(self.stack@) + tmp)
    }

    proof fn lemma_tmp_live(&self, tmp: Seq<MemHandle>, k: int)
        requires
            self.owned_ok(tmp),
            0 <= k < tmp.len(),
        ensures
            self.memory@.live(tmp[k]),
            tmp[k].idx != self.memory.globals_handle().idx,
    {
        let all = held(self.stack@) + tmp;
        assert(all[held(self.stack@).len() + k] == tmp[k]);
    }

    proof fn lemma_tmp_contains(&self, tmp: Seq<MemHandle>, h: MemHandle)
        requires
            self.owned_ok(tmp),
            tmp.contains(h),
        ensures
            self.memory@.live(h),
            h.idx != self.memory.globals_handle().idx,
    {
        let k = choose|k: int| 0 <= k < tmp.len() && tmp[k] == h;
        self.lemma_tmp_live(tmp, k);
    }

    /// Records a handle made by the last change of the heap.
    proof fn lemma_own_new(&self, prev: Eval, tmp: Seq<MemHandle>, r: MemHandle)
        requires
            prev.owned_ok(tmp),
            self.memory.wf(),
            self.stack == prev.stack,
            self.memory.globals_handle() == prev.memory.globals_handle(),
            handles_kept(prev.memory@, self.memory@),
            self.memory@.live(r),
            fresh(prev.memory@, r),
        ensures
            self.owned_ok(tmp.push(r)),
    {
        prev.memory.lemma_globals();
        lemma_handles_push(prev.memory@, self.memory@, prev.memory.globals_handle(), held(prev.stack@) + tmp, r);
        assert((held(prev.stack@) + tmp).push(r) =~= held(prev.stack@) + tmp.push(r));
    }

    /// Keeps the record after a change of the heap that makes no handle.
    proof fn lemma_own_kept(&self, prev: Eval, tmp: Seq<MemHandle>)
        requires
            prev.owned_ok(tmp),
            self.memory.wf(),
            self.stack == prev.stack,
            self.memory.globals_handle() == prev.memory.globals_handle(),
            handles_kept(prev.memory@, self.memory@),
        ensures
            self.owned_ok(tmp),
    {
        lemma_handles_ok_kept(prev.memory@, self.memory@, prev.memory.globals_handle(), held(prev.stack@) + tmp);
    }
}

impl Eval {
    /// Only the heap changed, and it kept the globals handle.
    pub closed spec fn rest_same(&self, prev: Eval) -> bool {
        &&& self.stack == prev.stack
        &&& self.source_tag == prev.source_tag
        &&& self.file_allow == prev.file_allow
        &&& self.ready == prev.ready
        &&& self.pending == prev.pending
        &&& self.memory.globals_handle() == prev.memory.globals_handle()
    }

    /// A new handle to what `h` names.
    fn m_copy(&mut self, h: MemHandle, Ghost(t): Ghost<Seq<MemHandle>>) -> (r: MemHandle)
        requires
            old(self).owned_ok(t),
            old(self).memory@.live(h),
        ensures
            final(self).owned_ok(t.push(r)),
            final(self).rest_same(*old(self)),
            handles_kept(old(self).memory@, final(self).memory@),
            final(self).memory@.obj(r) == old(self).memory@.obj(h),
            final(self).memory@.objs == old(self).memory@.objs,
            final(self).memory@.next == old(self).memory@.next,
    {
        let ghost prev = *self;
        let r = self.memory.handle_copy(h);
        proof {
            lemma_kept_handles(prev.memory@, self.memory@);
            self.lemma_own_new(prev, t, r);
        }
        r
    }

    /// A new handle to element `idx` of the array `h`, if it has one.
    fn m_array_get(&mut self, h: MemHandle, idx: usize, Ghost(t): Ghost<Seq<MemHandle>>) -> (r: Option<MemHandle>)
        requires
            old(self).owned_ok(t),
            old(self).memory@.live(h),
            old(self).memory@.cell(h) is Array,
        ensures
            final(self).owned_ok(match r { Some(e) => t.push(e), None => t }),
            final(self).rest_same(*old(self)),
            handles_kept(old(self).memory@, final(self).memory@),
            final(self).memory@.objs == old(self).memory@.objs,
            final(self).memory@.next == old(self).memory@.next,
            r is Some <==> idx < old(self).memory.elems(h).len(),
            r matches Some(e) ==> final(self).memory@.obj(e) == old(self).memory.elems(h)[idx as int],
    {
        let ghost prev = *self;
        proof {
            prev.memory.lemma_ok();
        }
        let r = self.memory.array_get(h, idx);
        proof {
            match r {
                Some(e) => {
                    crate::memory::lemma_handed_out_kept(prev.memory@, self.memory@, e, prev.memory.elems(h)[idx as int]);
                    lemma_kept_handles(prev.memory@, self.memory@);
                    self.lemma_own_new(prev, t, e);
                },
                None => {},
            }
        }
        r
    }

    /// A new handle to what the dictionary `h` binds the key to, if anything.
    fn m_dict_get(&mut self, h: MemHandle, key: &Primitive, Ghost(t): Ghost<Seq<MemHandle>>) -> (r: Option<MemHandle>)
        requires
            old(self).owned_ok(t),
            old(self).memory@.live(h),
            old(self).memory@.cell(h) is Dict,
        ensures
            final(self).owned_ok(match r { Some(e) => t.push(e), None => t }),
            final(self).rest_same(*old(self)),
            handles_kept(old(self).memory@, final(self).memory@),
            final(self).memory@.objs == old(self).memory@.objs,
            final(self).memory@.next == old(self).memory@.next,
            r is Some <==> crate::memory::dict_lookup(old(self).memory.entries(h), key.model()) is Some,
            r matches Some(e) ==> final(self).memory@.obj(e)
                == crate::memory::dict_lookup(old(self).memory.entries(h), key.model()).unwrap(),
    {
        let ghost prev = *self;
        proof {
            prev.memory.lemma_ok();
        }
        let r = self.memory.dict_get(h, key);
        proof {
            match r {
                Some(e) => {
                    let o = crate::memory::dict_lookup(prev.memory.entries(h), key.model()).unwrap();
                    crate::memory::lemma_handed_out_kept(prev.memory@, self.memory@, e, o);
                    lemma_kept_handles(prev.memory@, self.memory@);
                    self.lemma_own_new(prev, t, e);
                },
                None => {},
            }
        }
        r
    }

    /// A new handle to what the quote `h` quotes.
    fn m_quote_get(&mut self, h: MemHandle, Ghost(t): Ghost<Seq<MemHandle>>) -> (r: MemHandle)
        requires
            old(self).owned_ok(t),
            old(self).memory@.live(h),
            old(self).memory@.cell(h) is Quote,
        ensures
            final(self).owned_ok(t.push(r)),
            final(self).rest_same(*old(self)),
            handles_kept(old(self).memory@, final(self).memory@),
            final(self).memory@.objs == old(self).memory@.objs,
            final(self).memory@.next == old(self).memory@.next,
            final(self).memory@.obj(r) == old(self).memory@.cell(h)->Quote_0,
    {
        let ghost prev = *self;
        proof {
            prev.memory.lemma_ok();
        }
        let r = self.memory.quote_get(h);
        proof {
            crate::memory::lemma_handed_out_kept(prev.memory@, self.memory@, r, prev.memory@.cell(h)->Quote_0);
            lemma_kept_handles(prev.memory@, self.memory@);
            self.lemma_own_new(prev, t, r);
        }
        r
    }

    /// A new nil.
    fn m_nil(&mut self, Ghost(t): Ghost<Seq<MemHandle>>) -> (r: Result<MemHandle, Error>)
        requires
            old(self).owned_ok(t),
        ensures
            final(self).owned_ok(match r { Ok(e) => t.push(e), Err(_) => t }),
            final(self).rest_same(*old(self)),
            handles_kept(old(self).memory@, final(self).memory@),
            r matches Ok(e) ==> final(self).memory@.cell(e) == Obj::Prim(PrimModel::Nil),
            r is Err ==> final(self).memory.full(),
            old(self).memory@.kept_in(final(self).memory@),
    {
        let ghost prev = *self;
        proof {
            prev.memory.lemma_ok();
        }
        match self.memory.nil() {
            Ok(e) => {
                proof {
                    lemma_added_kept(prev.memory@, self.memory@, e, Obj::Prim(PrimModel::Nil));
                    lemma_added_fresh(prev.memory@, prev.memory@, self.memory@, e, Obj::Prim(PrimModel::Nil));
                    lemma_kept_handles(prev.memory@, self.memory@);
                    self.lemma_own_new(prev, t, e);
                }
                Ok(e)
            },
            Err(_) => {
                proof {
                    lemma_kept_of_collected(prev.memory@, self.memory@);
                    lemma_kept_handles(prev.memory@, self.memory@);
                    self.lemma_own_kept(prev, t);
                }
                Err(memory_full_error())
            },
        }
    }

    /// A new empty dictionary.
    fn m_dict_new(&mut self, Ghost(t): Ghost<Seq<MemHandle>>) -> (r: Result<MemHandle, Error>)
        requires
            old(self).owned_ok(t),
        ensures
            final(self).owned_ok(match r { Ok(e) => t.push(e), Err(_) => t }),
            final(self).rest_same(*old(self)),
            handles_kept(old(self).memory@, final(self).memory@),
            r matches Ok(e) ==> final(self).memory@.cell(e) == Obj::Dict(Seq::empty())
                && !old(self).memory@.objs.contains_key(final(self).memory@.obj(e)),
            old(self).memory@.kept_in(final(self).memory@),
            r is Err ==> final(self).memory.full(),
    {
        let ghost prev = *self;
        proof {
            prev.memory.lemma_ok();
        }
        match self.memory.dict_new() {
            Ok(e) => {
                proof {
                    lemma_added_kept(prev.memory@, self.memory@, e, Obj::Dict(Seq::empty()));
                    lemma_added_fresh(prev.memory@, prev.memory@, self.memory@, e, Obj::Dict(Seq::empty()));
                    lemma_kept_handles(prev.memory@, self.memory@);
                    self.lemma_own_new(prev, t, e);
                }
                Ok(e)
            },
            Err(_) => {
                proof {
                    lemma_kept_of_collected(prev.memory@, self.memory@);
                    lemma_kept_handles(prev.memory@, self.memory@);
                    self.lemma_own_kept(prev, t);
                }
                Err(memory_full_error())
            },
        }
    }

    /// A new array of what the handles name.
    fn m_array_of(&mut self, hs: &[MemHandle], Ghost(t): Ghost<Seq<MemHandle>>) -> (r: Result<MemHandle, Error>)
        requires
            old(self).owned_ok(t),
            forall|i: int| 0 <= i < hs@.len() ==> old(self).memory@.live(#[trigger] hs@[i]),
        ensures
            final(self).owned_ok(match r { Ok(e) => t.push(e), Err(_) => t }),
            final(self).rest_same(*old(self)),
            handles_kept(old(self).memory@, final(self).memory@),
            r matches Ok(e) ==> final(self).memory@.cell(e) == Obj::Array(
                Seq::new(hs@.len(), |i: int| old(self).memory@.obj(hs@[i])), position_unknown())
                && !old(self).memory@.objs.contains_key(final(self).memory@.obj(e)),
            old(self).memory@.kept_in(final(self).memory@),
            r is Err ==> final(self).memory.full(),
    {
        let ghost prev = *self;
        proof {
            prev.memory.lemma_ok();
        }
        match self.memory.array_from_handles(hs) {
            Ok(e) => {
                let ghost obj = Obj::Array(Seq::new(hs@.len(), |i: int| prev.memory@.obj(hs@[i])), position_unknown());
                proof {
                    lemma_added_kept(prev.memory@, self.memory@, e, obj);
                    lemma_added_fresh(prev.memory@, prev.memory@, self.memory@, e, obj);
                    lemma_kept_handles(prev.memory@, self.memory@);
                    self.lemma_own_new(prev, t, e);
                }
                Ok(e)
            },
            Err(_) => {
                proof {
                    lemma_kept_of_collected(prev.memory@, self.memory@);
                    lemma_kept_handles(prev.memory@, self.memory@);
                    self.lemma_own_kept(prev, t);
                }
                Err(memory_full_error())
            },
        }
    }

    /// The parts of the function `h`, with new handles to them.
    fn m_fun_unpack(&mut self, h: MemHandle, Ghost(t): Ghost<Seq<MemHandle>>) -> (r: crate::memory::Fun)
        requires
            old(self).owned_ok(t),
            old(self).memory@.live(h),
            old(self).memory@.cell(h) is Fun,
        ensures
            final(self).owned_ok(t.push(r.args).push(r.locals).push(r.body)),
            final(self).rest_same(*old(self)),
            handles_kept(old(self).memory@, final(self).memory@),
            final(self).memory@.objs == old(self).memory@.objs,
            final(self).memory@.next == old(self).memory@.next,
            crate::memory::name_model(r.name) == old(self).memory@.cell(h)->Fun_0,
            final(self).memory@.obj(r.args) == old(self).memory@.cell(h)->Fun_1,
            final(self).memory@.obj(r.locals) == old(self).memory@.cell(h)->Fun_2,
            final(self).memory@.obj(r.body) == old(self).memory@.cell(h)->Fun_3,
    {
        let ghost prev = *self;
        let r = self.memory.fun_unpack(h);
        proof {
            prev.memory.lemma_globals();
            lemma_kept_handles(prev.memory@, self.memory@);
            let g = prev.memory.globals_handle();
            let a = held(prev.stack@) + t;
            lemma_handles_ok_kept(prev.memory@, self.memory@, g, a);
            let m = self.memory@;
            assert(handles_ok(m, g, a.push(r.args).push(r.locals).push(r.body))) by {
                let b = a.push(r.args).push(r.locals).push(r.body);
                assert forall|i: int| 0 <= i < b.len() implies m.live(#[trigger] b[i]) && b[i].idx != g.idx by {
                    if i < a.len() {
                        assert(b[i] == a[i]);
                    } else {
                        assert(prev.memory@.live(g));
                    }
                }
                assert forall|i: int, j: int| 0 <= i < j < b.len() implies #[trigger] b[i].idx != #[trigger] b[j].idx by {
                    if j < a.len() {
                        assert(b[i] == a[i] && b[j] == a[j]);
                    } else if i < a.len() {
                        assert(b[i] == a[i]);
                        assert(prev.memory@.live(a[i]));
                    }
                }
            }
            assert(a.push(r.args).push(r.locals).push(r.body) =~= held(prev.stack@) + t.push(r.args).push(r.locals).push(r.body));
        }
        r
    }

    /// Binds the key in the dictionary `h` to what `dst` names.
    fn m_dict_set(&mut self, h: MemHandle, key: Primitive, dst: MemHandle, Ghost(t): Ghost<Seq<MemHandle>>)
        requires
            old(self).owned_ok(t),
            old(self).memory@.live(h),
            old(self).memory@.live(dst),
            old(self).memory@.cell(h) is Dict,
        ensures
            final(self).owned_ok(t),
            final(self).rest_same(*old(self)),
            handles_kept(old(self).memory@, final(self).memory@),
            old(self).memory@.changed(final(self).memory@, old(self).memory@.obj(h),
                Obj::Dict(crate::memory::dict_insert(old(self).memory.entries(h), key.model(), old(self).memory@.obj(dst)))),
    {
        let ghost prev = *self;
        let ghost km = key.model();
        self.memory.dict_set(h, key, dst);
        proof {
            prev.memory.lemma_ok();
            lemma_changed_handles(prev.memory@, self.memory@, prev.memory@.obj(h),
                Obj::Dict(crate::memory::dict_insert(prev.memory.entries(h), km, prev.memory@.obj(dst))));
            self.lemma_own_kept(prev, t);
        }
    }

    /// Unbinds the key in the dictionary `h`.
    fn m_dict_del(&mut self, h: MemHandle, key: &Primitive, Ghost(t): Ghost<Seq<MemHandle>>)
        requires
            old(self).owned_ok(t),
            old(self).memory@.live(h),
            old(self).memory@.cell(h) is Dict,
        ensures
            final(self).owned_ok(t),
            final(self).rest_same(*old(self)),
            handles_kept(old(self).memory@, final(self).memory@),
            old(self).memory@.changed(final(self).memory@, old(self).memory@.obj(h),
                Obj::Dict(crate::memory::dict_remove(old(self).memory.entries(h), key.model()))),
    {
        let ghost prev = *self;
        self.memory.dict_del(h, key);
        proof {
            prev.memory.lemma_ok();
            lemma_changed_handles(prev.memory@, self.memory@, prev.memory@.obj(h),
                Obj::Dict(crate::memory::dict_remove(prev.memory.entries(h), key.model())));
            self.lemma_own_kept(prev, t);
        }
    }

    /// Binds the key in the dictionary `h` to a new hole.
    fn m_dict_set_hole(&mut self, h: MemHandle, key: Primitive, Ghost(t): Ghost<Seq<MemHandle>>) -> (r: Result<(), Error>)
        requires
            old(self).owned_ok(t),
            old(self).memory@.live(h),
            old(self).memory@.cell(h) is Dict,
        ensures
            final(self).owned_ok(t),
            final(self).rest_same(*old(self)),
            handles_kept(old(self).memory@, final(self).memory@),
            forall|o: nat| #[trigger] final(self).memory@.objs.contains_key(o) && old(self).memory@.objs.contains_key(o)
                && o != old(self).memory@.obj(h) ==> final(self).memory@.objs[o] == old(self).memory@.objs[o],
            kept_but(old(self).memory@, final(self).memory@, old(self).memory@.obj(h), old(self).memory@.obj(h)),
            r is Ok ==> ({
                let d = final(self).memory.entries(h);
                let x = crate::memory::dict_lookup(d, key.model()).unwrap();
                &&& final(self).memory@.cell(h) is Dict
                &&& crate::memory::has_key(d, key.model())
                &&& d == crate::memory::dict_insert(old(self).memory.entries(h), key.model(), x)
                &&& final(self).memory@.objs.contains_key(x)
                &&& final(self).memory@.objs[x] is Hole
            }),
            r is Err ==> final(self).memory.full(),
    {
        let ghost prev = *self;
        let ghost km = key.model();
        proof {
            prev.memory.lemma_dict_keys(h);
        }
        let r = self.memory.dict_set_hole(h, key);
        proof {
            prev.memory.lemma_ok();
            assert(handles_kept(prev.memory@, self.memory@));
            self.lemma_own_kept(prev, t);
            if r is Ok {
                let x = prev.memory@.next;
                crate::memory::lemma_dict_read_after_write(prev.memory.entries(h), km, x, km);
                assert(self.memory@.obj(h) == prev.memory@.obj(h));
            }
        }
        match r {
            Ok(()) => Ok(()),
            Err(_) => Err(memory_full_error()),
        }
    }

    /// Gives up the handles of `tmp`, the evaluator's besides its stack's.
    fn m_release(&mut self, tmp: &Vec<MemHandle>)
        requires
            old(self).owned_ok(tmp@),
        ensures
            final(self).owned_ok(Seq::empty()),
            final(self).rest_same(*old(self)),
            final(self).memory@.objs == old(self).memory@.objs,
            forall|i: int| 0 <= i < held(old(self).stack@).len()
                ==> final(self).memory@.handles[#[trigger] held(old(self).stack@)[i].idx as int]
                    == old(self).memory@.handles[held(old(self).stack@)[i].idx as int],
            final(self).memory@.handles[old(self).memory.globals_handle().idx as int]
                == old(self).memory@.handles[old(self).memory.globals_handle().idx as int],
            final(self).memory.full() == old(self).memory.full(),
            final(self).memory@.handles.len() == old(self).memory@.handles.len(),
    {
        let ghost prev = *self;
        let ghost g = self.memory.globals_handle();
        proof {
            lemma_handles_split(prev.memory@, g, held(prev.stack@), tmp@);
            prev.memory.lemma_globals();
        }
        self.memory.release_all(tmp);
        proof {
            lemma_released_rest(prev.memory@, self.memory@, g, held(prev.stack@), tmp@);
            assert(held(self.stack@) + Seq::<MemHandle>::empty() =~= held(self.stack@));
        }
    }
}

impl Eval {
    /// Takes the top frame off the stack; its handles join `tmp`.
    fn pop_frame(&mut self, tmp: &mut Vec<MemHandle>) -> (r: Option<Frame>)
        requires
            old(self).owned_ok(old(tmp)@),
        ensures
            final(self).memory == old(self).memory,
            final(self).source_tag == old(self).source_tag,
            final(self).file_allow == old(self).file_allow,
            final(self).ready == old(self).ready,
            final(self).pending == old(self).pending,
            old(self).stack@.len() == 0 ==> r is None && final(self).stack@ == old(self).stack@ && final(tmp)@ == old(tmp)@,
            old(self).stack@.len() > 0 ==> r == Some(old(self).stack@.last())
                && final(self).stack@ == old(self).stack@.drop_last()
                && final(tmp)@ == old(tmp)@ + frame_handles(old(self).stack@.last()),
            final(self).owned_ok(final(tmp)@),
    {
        let ghost s0 = self.stack@;
        match self.stack.pop() {
            None => None,
            Some(f) => {
                let ghost t0 = tmp@;
                let ghost g = self.memory.globals_handle();
                proof {
                    assert(s0 =~= self.stack@.push(f));
                    lemma_held_push(self.stack@, f);
                    assert(held(s0) + t0 =~= held(self.stack@) + frame_handles(f) + t0);
                    lemma_handles_swap(self.memory@, g, held(self.stack@), frame_handles(f), t0);
                    assert(held(self.stack@) + t0 + frame_handles(f) =~= held(self.stack@) + (t0 + frame_handles(f)));
                }
                match f.scope_restore {
                    Some(h) => tmp.push(h),
                    None => {},
                }
                match f.fun {
                    Some(h) => tmp.push(h),
                    None => {},
                }
                let ghost t1 = tmp@;
                proof {
                    assert(t1 =~= t0 + opt_handles(f.scope_restore) + opt_handles(f.fun));
                }
                let mut i: usize = 0;
                while i < f.prepare.len()
                    invariant
                        i <= f.prepare@.len(),
                        tmp@ == t1 + f.prepare@.take(i as int),
                    decreases f.prepare@.len() - i,
                {
                    tmp.push(f.prepare[i]);
                    i = i + 1;
                    assert(tmp@ =~= t1 + f.prepare@.take(i as int));
                }
                proof {
                    assert(f.prepare@.take(f.prepare@.len() as int) =~= f.prepare@);
                    assert(tmp@ =~= t0 + frame_handles(f));
                }
                Some(f)
            },
        }
    }

    /// Makes a frame of new handles to what the given ones name, and puts
    /// it on the stack.
    fn push_frame(&mut self, want_return: bool, sr: Option<MemHandle>, fun: Option<MemHandle>, line: Option<usize>,
        prepare: &[MemHandle], Ghost(t): Ghost<Seq<MemHandle>>)
        requires
            old(self).owned_ok(t),
            sr matches Some(h) ==> old(self).memory@.live(h),
            fun matches Some(h) ==> old(self).memory@.live(h),
            forall|i: int| 0 <= i < prepare@.len() ==> old(self).memory@.live(#[trigger] prepare@[i]),
        ensures
            final(self).owned_ok(t),
            final(self).source_tag == old(self).source_tag,
            final(self).file_allow == old(self).file_allow,
            final(self).ready == old(self).ready,
            final(self).pending == old(self).pending,
            final(self).memory.globals_handle() == old(self).memory.globals_handle(),
            final(self).stack@.len() == old(self).stack@.len() + 1,
            final(self).stack@.drop_last() == old(self).stack@,
            final(self).stack@.last().want_return == want_return,
            final(self).stack@.last().line == line,
            final(self).stack@.last().scope_restore is Some == sr is Some,
            final(self).stack@.last().fun is Some == fun is Some,
            fun matches Some(h) ==> final(self).stack@.last().fun matches Some(x)
                && final(self).memory@.live(x) && final(self).memory@.obj(x) == old(self).memory@.obj(h),
            final(self).stack@.last().prepare@.len() == prepare@.len(),
            handles_kept(old(self).memory@, final(self).memory@),
            final(self).memory@.objs == old(self).memory@.objs,
    {
        let ghost m0 = self.memory@;
        let ghost g = self.memory.globals_handle();
        let c_sr = match sr {
            Some(h) => {
                let ghost e = t;
                let c = self.m_copy(h, Ghost(e));
                Some(c)
            },
            None => None,
        };
        let ghost t1 = t + opt_handles(c_sr);
        let ghost m1 = self.memory@;
        proof {
            assert(t1 =~= (match c_sr { Some(c) => t.push(c), None => t }));
            old(self).memory.lemma_ok();
            lemma_handles_kept_refl(m0);
        }
        let c_fun = match fun {
            Some(h) => {
                proof {
                    lemma_handles_kept_self(m0, self.memory@, h);
                }
                let c = self.m_copy(h, Ghost(t1));
                proof {
                    lemma_handles_kept_trans(m0, m1, self.memory@);
                }
                Some(c)
            },
            None => None,
        };
        let ghost t2 = t1 + opt_handles(c_fun);
        let ghost m2 = self.memory@;
        proof {
            assert(t2 =~= (match c_fun { Some(c) => t1.push(c), None => t1 }));
            self.memory.lemma_ok();
            lemma_handles_kept_refl(m2);
            match c_fun {
                Some(c) => {
                    assert(t2[t2.len() - 1] == c);
                    self.lemma_tmp_live(t2, t2.len() - 1);
                },
                None => {},
            }
        }
        let mut p: Vec<MemHandle> = Vec::new();
        let mut i: usize = 0;
        while i < prepare.len()
            invariant
                i <= prepare@.len(),
                p@.len() == i,
                self.owned_ok(t2 + p@),
                self.stack == old(self).stack,
                self.source_tag == old(self).source_tag,
                self.file_allow == old(self).file_allow,
                self.ready == old(self).ready,
                self.pending == old(self).pending,
                self.memory.globals_handle() == g,
                handles_kept(m0, self.memory@),
                handles_kept(m2, self.memory@),
                self.memory@.objs == m0.objs,
                c_fun matches Some(c) ==> m2.live(c) && m2.obj(c) == m0.obj(fun.unwrap()),
                forall|k: int| 0 <= k < prepare@.len() ==> m0.live(#[trigger] prepare@[k]),
            decreases prepare@.len() - i,
        {
            let ghost m1 = self.memory@;
            proof {
                lemma_handles_kept_self(m0, m1, prepare@[i as int]);
            }
            let c = self.m_copy(prepare[i], Ghost(t2 + p@));
            proof {
                assert((t2 + p@).push(c) =~= t2 + p@.push(c));
                lemma_handles_kept_trans(m0, m1, self.memory@);
            }
            proof {
                lemma_handles_kept_trans(m2, m1, self.memory@);
            }
            p.push(c);
            i = i + 1;
        }
        proof {
            match c_fun {
                Some(c) => crate::memory::lemma_kept_live_h(m2, self.memory@, c),
                None => {},
            }
        }
        let f = Frame { want_return, scope_restore: c_sr, fun: c_fun, line, prepare: p };
        let ghost s0 = self.stack@;
        proof {
            assert(frame_handles(f) =~= opt_handles(c_sr) + opt_handles(c_fun) + p@);
            assert(held(s0) + (t2 + p@) =~= held(s0) + t + frame_handles(f));
            lemma_handles_swap(self.memory@, g, held(s0), t, frame_handles(f));
        }
        self.stack.push(f);
        proof {
            lemma_held_push(s0, f);
            assert(self.stack@.drop_last() =~= s0);
        }
    }

    /// Appends the value `r` to the line being prepared in the top frame.
    fn give_parent(&mut self, r: MemHandle, Ghost(t): Ghost<Seq<MemHandle>>) -> (ok: bool)
        requires
            old(self).owned_ok(t.push(r)),
        ensures
            ok ==> final(self).owned_ok(t),
            !ok ==> final(self).owned_ok(t.push(r)),
            final(self).memory == old(self).memory,
            final(self).source_tag == old(self).source_tag,
            final(self).file_allow == old(self).file_allow,
            final(self).ready == old(self).ready,
            final(self).pending == old(self).pending,
            final(self).stack@.len() == old(self).stack@.len(),
            ok == (old(self).stack@.len() > 0),
            ok ==> final(self).stack@.drop_last() == old(self).stack@.drop_last()
                && final(self).stack@.last().fun == old(self).stack@.last().fun
                && final(self).stack@.last().line == old(self).stack@.last().line
                && final(self).stack@.last().want_return == old(self).stack@.last().want_return
                && final(self).stack@.last().scope_restore == old(self).stack@.last().scope_restore
                && final(self).stack@.last().prepare@ == old(self).stack@.last().prepare@.push(r),
    {
        let ghost s0 = self.stack@;
        let ghost g = self.memory.globals_handle();
        match self.stack.pop() {
            None => false,
            Some(f) => {
                let ghost rest = self.stack@;
                let mut f = f;
                let ghost f0 = f;
                f.prepare.push(r);
                proof {
                    assert(s0 =~= rest.push(f0));
                    lemma_held_push(rest, f0);
                    lemma_held_push(rest, f);
                    assert(frame_handles(f) =~= frame_handles(f0).push(r));
                    assert(held(s0) + t.push(r) =~= (held(rest) + frame_handles(f0)) + t + seq![r]);
                    lemma_handles_swap(self.memory@, g, held(rest) + frame_handles(f0), t, seq![r]);
                    assert((held(rest) + frame_handles(f0)) + seq![r] + t =~= held(rest.push(f)) + t);
                }
                self.stack.push(f);
                proof {
                    assert(self.stack@.drop_last() =~= rest);
                }
                true
            },
        }
    }
}

pub proof fn lemma_handles_kept_refl(m: MemoryModel)
    requires
        m.ok(),
    ensures
        handles_kept(m, m),
{
}

/// A handle of a heap that keeps its handle entries stays usable.
pub proof fn lemma_handles_kept_self(m0: MemoryModel, m1: MemoryModel, h: MemHandle)
    requires
        handles_kept(m0, m1),
        m0.live(h),
    ensures
        m1.live(h),
        m1.obj(h) == m0.obj(h),
{
    assert(m0.handles[h.idx as int] is Some);
}

/// `a` is where `b` started.
pub open spec fn prefix(a: Seq<MemHandle>, b: Seq<MemHandle>) -> bool {
    a.len() <= b.len() && b.subrange(0, a.len() as int) =~= a
}

pub proof fn lemma_prefix_contains(a: Seq<MemHandle>, b: Seq<MemHandle>, h: MemHandle)
    requires
        prefix(a, b),
        a.contains(h),
    ensures
        b.contains(h),
{
    let k = choose|k: int| 0 <= k < a.len() && a[k] == h;
    assert(b.subrange(0, a.len() as int)[k] == h);
}

pub proof fn lemma_prefix_trans(a: Seq<MemHandle>, b: Seq<MemHandle>, c: Seq<MemHandle>)
    requires
        prefix(a, b),
        prefix(b, c),
    ensures
        prefix(a, c),
{
    assert forall|i: int| 0 <= i < a.len() implies c.subrange(0, a.len() as int)[i] == a[i] by {
        assert(c.subrange(0, b.len() as int)[i] == b[i]);
        assert(b.subrange(0, a.len() as int)[i] == a[i]);
    }
}

pub proof fn lemma_prefix_push(a: Seq<MemHandle>, h: MemHandle)
    ensures
        prefix(a, a.push(h)),
        a.push(h).contains(h),
{
    assert(a.push(h)[a.len() as int] == h);
}

impl Eval {
    /// Binds `key` in the globals to what `h` names, first saving in the
    /// scope `sr` what it was bound to (a hole for nothing), unless `sr`
    /// already has it saved.
    fn swap_in(&mut self, sr: MemHandle, key: Primitive, h: MemHandle, tmp: &mut Vec<MemHandle>) -> (r: Result<(), Error>)
        requires
            old(self).owned_ok(old(tmp)@),
            old(tmp)@.contains(sr),
            old(tmp)@.contains(h),
        ensures
            final(self).owned_ok(final(tmp)@),
            prefix(old(tmp)@, final(tmp)@),
            final(self).rest_same(*old(self)),
            handles_kept(old(self).memory@, final(self).memory@),
            r is Ok ==> ({
                let k = key.model();
                let gl = old(self).memory.globals_handle();
                let g0 = old(self).memory.entries(gl);
                let s0 = old(self).memory.entries(sr);
                let s1 = final(self).memory.entries(sr);
                &&& old(self).memory@.cell(sr) is Dict
                &&& final(self).memory@.cell(sr) is Dict
                &&& final(self).memory.entries(gl) == crate::memory::dict_insert(g0, k, old(self).memory@.obj(h))
                &&& crate::memory::has_key(s0, k) ==> s1 == s0
                &&& !crate::memory::has_key(s0, k) ==> crate::memory::has_key(s1, k)
                    && s1 == crate::memory::dict_insert(s0, k, crate::memory::dict_lookup(s1, k).unwrap())
                    && saved_binding(final(self).memory@.objs, crate::memory::dict_lookup(s1, k).unwrap(),
                        crate::memory::dict_lookup(g0, k))
            }),
            old(self).memory@.cell(sr) is Dict
                && old(self).memory@.obj(sr) != old(self).memory@.obj(old(self).memory.globals_handle())
                ==> r is Ok || final(self).memory.full(),
            kept_but(old(self).memory@, final(self).memory@, old(self).memory@.obj(old(self).memory.globals_handle()),
                old(self).memory@.obj(sr)),
    {
        let g = self.memory.globals();
        proof {
            self.memory.lemma_globals();
        }
        let ghost e0 = *self;
        let ghost km = key.model();
        let ghost t0 = tmp@;
        let old_h = self.m_dict_get(g, &key, Ghost(tmp@));
        match old_h {
            Some(o) => {
                tmp.push(o);
                proof {
                    lemma_prefix_push(t0, o);
                }
            },
            None => {
                proof {
                    assert(tmp@ =~= t0);
                }
            },
        }
        proof {
            lemma_prefix_contains(t0, tmp@, sr);
            lemma_prefix_contains(t0, tmp@, h);
            self.lemma_tmp_contains(tmp@, sr);
            self.lemma_tmp_contains(tmp@, h);
            self.memory.lemma_globals();
            e0.lemma_tmp_contains(t0, sr);
            e0.lemma_tmp_contains(t0, h);
            crate::memory::lemma_kept_live_h(e0.memory@, self.memory@, sr);
            crate::memory::lemma_kept_live_h(e0.memory@, self.memory@, h);
        }
        match self.memory.value(sr) {
            Value::Dict => {},
            _ => return Err(internal_error()),
        }
        if self.memory.same_object(sr, g) {
            return Err(internal_error());
        }
        let saved = self.memory.dict_has(sr, &key);
        let ghost e1 = *self;
        let ghost g0 = e0.memory.entries(g);
        let ghost s0 = e0.memory.entries(sr);
        proof {
            assert(self.memory.entries(g) == g0);
            assert(self.memory.entries(sr) == s0);
            self.memory.lemma_dict_keys(sr);
        }
        self.m_dict_set(g, key.duplicate(), h, Ghost(tmp@));
        let ghost e2 = *self;
        proof {
            crate::memory::lemma_kept_live_h(e1.memory@, self.memory@, sr);
            crate::memory::lemma_kept_live_h(e1.memory@, self.memory@, h);
            assert(self.memory.entries(g) == crate::memory::dict_insert(g0, km, e0.memory@.obj(h)));
            assert(self.memory.entries(sr) == s0);
            assert(self.memory@.cell(sr) is Dict);
        }
        if !saved {
            proof {
                self.lemma_tmp_contains(tmp@, sr);
            }
            match self.memory.value(sr) {
                Value::Dict => {},
                _ => return Err(internal_error()),
            }
            match old_h {
                Some(o) => {
                    proof {
                        assert(tmp@.last() == o);
                        self.lemma_tmp_live(tmp@, tmp@.len() - 1);
                        crate::memory::lemma_dict_read_after_write(s0, km, e2.memory@.obj(o), km);
                    }
                    self.m_dict_set(sr, key, o, Ghost(tmp@));
                    proof {
                        assert(self.memory@.obj(g) == e2.memory@.obj(g));
                        assert(self.memory.entries(g) == e2.memory.entries(g));
                    }
                },
                None => {
                    let ghost e3 = *self;
                    let rh = self.m_dict_set_hole(sr, key, Ghost(tmp@));
                    proof {
                        e0.memory.lemma_ok();
                        lemma_kept_but_trans(e0.memory@, e3.memory@, self.memory@, e0.memory@.obj(g), e0.memory@.obj(sr));
                    }
                    rh?;
                    proof {
                        crate::memory::lemma_kept_live_h(e2.memory@, self.memory@, g);
                        assert(self.memory.entries(g) == e2.memory.entries(g));
                    }
                },
            }
        }
        Ok(())
    }

    /// Puts back into the globals what the scope `sr` saved: each key saved
    /// with a hole is unbound, each other key bound to what was saved.
    fn restore_scope(&mut self, sr: MemHandle, tmp: &mut Vec<MemHandle>) -> (r: Result<(), Error>)
        requires
            old(self).owned_ok(old(tmp)@),
            old(tmp)@.contains(sr),
        ensures
            final(self).owned_ok(final(tmp)@),
            prefix(old(tmp)@, final(tmp)@),
            final(self).rest_same(*old(self)),
            r is Ok <==> old(self).memory@.cell(sr) is Dict
                && old(self).memory@.obj(sr) != old(self).memory@.obj(old(self).memory.globals_handle()),
            r is Ok ==> old(self).memory@.cell(sr) is Dict
                && final(self).memory.entries(final(self).memory.globals_handle()) == restore_model(
                    old(self).memory.entries(old(self).memory.globals_handle()), old(self).memory.entries(sr),
                    old(self).memory@.objs),
            handles_kept(old(self).memory@, final(self).memory@),
    {
        proof {
            self.lemma_tmp_contains(tmp@, sr);
            self.memory.lemma_globals();
            self.memory.lemma_ok();
            lemma_handles_kept_refl(self.memory@);
        }
        match self.memory.value(sr) {
            Value::Dict => {},
            _ => return Err(internal_error()),
        }
        let g = self.memory.globals();
        if self.memory.same_object(sr, g) {
            return Err(internal_error());
        }
        let keys = self.memory.dict_keys(sr);
        let ghost t0 = tmp@;
        let ghost e0 = *self;
        let ghost s0 = e0.memory.entries(sr);
        let ghost g0 = e0.memory.entries(g);
        let ghost objs0 = e0.memory@.objs;
        let ghost og = e0.memory@.obj(g);
        proof {
            self.memory.lemma_dict_keys(sr);
            assert(s0.take(0) =~= Seq::<(PrimModel, nat)>::empty());
        }
        let mut i: usize = 0;
        while i < keys.len()
            invariant
                self.owned_ok(tmp@),
                prefix(t0, tmp@),
                t0.contains(sr),
                t0 == old(tmp)@,
                e0 == *old(self),
                self.rest_same(e0),
                g == self.memory.globals_handle(),
                i <= keys@.len(),
                keys@.len() == s0.len(),
                forall|j: int| 0 <= j < keys@.len() ==> #[trigger] keys@[j].model() == s0[j].0,
                crate::memory::distinct_keys(s0),
                self.memory@.live(sr),
                self.memory@.obj(sr) == e0.memory@.obj(sr),
                self.memory@.obj(g) == og,
                og != e0.memory@.obj(sr),
                self.memory@.cell(sr) == Obj::Dict(s0),
                self.memory@.cell(g) is Dict,
                self.memory.entries(g) == restore_model(g0, s0.take(i as int), objs0),
                objs0 == old(self).memory@.objs,
                g0 == old(self).memory.entries(old(self).memory.globals_handle()),
                s0 == old(self).memory.entries(sr),
                forall|o: nat| #[trigger] self.memory@.objs.contains_key(o) && o != og
                    ==> objs0.contains_key(o) && self.memory@.objs[o] == objs0[o],
                objs0.contains_key(og) && objs0[og] is Dict,
                handles_kept(e0.memory@, self.memory@),
            decreases keys@.len() - i,
        {
            let ghost t1 = tmp@;
            let ghost e1 = *self;
            proof {
                lemma_prefix_contains(t0, tmp@, sr);
                self.lemma_tmp_contains(tmp@, sr);
                self.memory.lemma_globals();
            }
            match self.memory.value(sr) {
                Value::Dict => {},
                _ => return Err(internal_error()),
            }
            let key = keys[i].duplicate();
            let ghost k = s0[i as int].0;
            let ghost sv = s0[i as int].1;
            proof {
                crate::memory::lemma_key_index(s0, k, i as int);
                assert(s0.take(i + 1).drop_last() =~= s0.take(i as int));
                assert(s0.take(i + 1).last() == s0[i as int]);
            }
            match self.m_dict_get(sr, &key, Ghost(tmp@)) {
                Some(v) => {
                    tmp.push(v);
                    proof {
                        lemma_prefix_push(t1, v);
                        lemma_prefix_trans(t0, t1, tmp@);
                        self.lemma_tmp_live(tmp@, tmp@.len() - 1);
                        self.memory.lemma_globals();
                        assert(self.memory@.obj(v) == sv);
                        self.memory.lemma_live_cell(v);
                        assert(self.memory@.objs.contains_key(sv));
                        if sv != og {
                            assert(self.memory@.objs[sv] == objs0[sv]);
                        }
                    }
                    if self.memory.is_hole(v) {
                        self.m_dict_del(g, &key, Ghost(tmp@));
                    } else {
                        self.m_dict_set(g, key, v, Ghost(tmp@));
                    }
                    proof {
                        crate::memory::lemma_kept_live_h(e1.memory@, self.memory@, sr);
                        assert(self.memory@.cell(sr) == Obj::Dict(s0));
                        lemma_handles_kept_trans(e0.memory@, e1.memory@, self.memory@);
                    }
                },
                None => {
                    proof {
                        assert(false);
                    }
                },
            }
            i = i + 1;
        }
        proof {
            assert(s0.take(keys@.len() as int) =~= s0);
        }
        Ok(())
    }
}

/// What a scope saved for a key records of the key's binding before: the
/// object it was bound to, or a hole where it was unbound.
pub open spec fn saved_binding(objs: Map<nat, Obj>, x: nat, before: Option<nat>) -> bool {
    match before {
        Some(o) => x == o,
        None => objs.contains_key(x) && objs[x] is Hole,
    }
}

/// The globals `g` after restoring the scope `s`: each saved key in turn is
/// unbound where it saved a hole, and bound to the saved object otherwise.
pub open spec fn restore_model(g: Seq<(PrimModel, nat)>, s: Seq<(PrimModel, nat)>, objs: Map<nat, Obj>) -> Seq<(PrimModel, nat)>
    decreases s.len(),
{
    if s.len() == 0 {
        g
    } else {
        let g1 = restore_model(g, s.drop_last(), objs);
        let k = s.last().0;
        let x = s.last().1;
        if objs.contains_key(x) && objs[x] is Hole {
            crate::memory::dict_remove(g1, k)
        } else {
            crate::memory::dict_insert(g1, k, x)
        }
    }
}

/// Restoring a scope puts back each key that it saved, bound to the saved
/// object or unbound where it saved a hole; every other key keeps its
/// binding.
pub proof fn lemma_restore_lookup(g: Seq<(PrimModel, nat)>, s: Seq<(PrimModel, nat)>, objs: Map<nat, Obj>, k: PrimModel)
    requires
        crate::memory::distinct_keys(g),
        crate::memory::distinct_keys(s),
    ensures
        crate::memory::distinct_keys(restore_model(g, s, objs)),
        crate::memory::dict_lookup(restore_model(g, s, objs), k) == (match crate::memory::dict_lookup(s, k) {
            Some(x) => if objs.contains_key(x) && objs[x] is Hole { None } else { Some(x) },
            None => crate::memory::dict_lookup(g, k),
        }),
    decreases s.len(),
{
    if s.len() > 0 {
        let s1 = s.drop_last();
        let n = s.len() - 1;
        let kl = s.last().0;
        let x = s.last().1;
        assert(crate::memory::distinct_keys(s1)) by {
            assert forall|a: int, b: int| 0 <= a < s1.len() && 0 <= b < s1.len() && a != b implies #[trigger] s1[a].0 != #[trigger] s1[b].0 by {
                assert(s1[a] == s[a] && s1[b] == s[b]);
            }
        }
        lemma_restore_lookup(g, s1, objs, k);
        let g1 = restore_model(g, s1, objs);
        if objs.contains_key(x) && objs[x] is Hole {
            crate::memory::lemma_dict_delete(g1, kl, k);
        } else {
            crate::memory::lemma_dict_read_after_write(g1, kl, x, k);
        }
        crate::memory::lemma_key_index(s, kl, n);
        if k != kl {
            if crate::memory::has_key(s, k) {
                let j = crate::memory::key_index(s, k);
                assert(j != n);
                assert(s1[j] == s[j]);
                crate::memory::lemma_key_index(s1, k, j);
            } else {
                assert(!crate::memory::has_key(s1, k)) by {
                    if crate::memory::has_key(s1, k) {
                        let j = crate::memory::key_index(s1, k);
                        assert(s[j] == s1[j]);
                    }
                }
            }
        }
    }
}

/// Returning from a call gives each key the binding it had before the call:
/// where the call's scope saved for `k` its binding in the globals `g0` (the
/// object, or a hole where `k` was unbound), restoring the scope into
/// whatever the globals `g1` became gives `k` its binding in `g0` again.
/// (A global bound to a hole would come back unbound; the evaluator binds no
/// global to a hole.)
pub proof fn lemma_scope_round_trip(g0: Seq<(PrimModel, nat)>, g1: Seq<(PrimModel, nat)>, s: Seq<(PrimModel, nat)>,
    objs: Map<nat, Obj>, k: PrimModel)
    requires
        crate::memory::distinct_keys(g1),
        crate::memory::distinct_keys(s),
        crate::memory::has_key(s, k),
        saved_binding(objs, crate::memory::dict_lookup(s, k).unwrap(), crate::memory::dict_lookup(g0, k)),
        crate::memory::dict_lookup(g0, k) matches Some(o) ==> !(objs.contains_key(o) && objs[o] is Hole),
    ensures
        crate::memory::dict_lookup(restore_model(g1, s, objs), k) == crate::memory::dict_lookup(g0, k),
{
    lemma_restore_lookup(g1, s, objs, k);
}

impl Eval {
    /// The handle of the code that the top frame runs, if any, names an object.
    proof fn lemma_top_fun_live(&self, t: Seq<MemHandle>)
        requires
            self.owned_ok(t),
            self.stack@.len() > 0,
        ensures
            self.stack@.last().fun matches Some(h) ==> self.memory@.live(h),
    {
        let s = self.stack@;
        let f = s.last();
        assert(held(s) == held(s.drop_last()) + frame_handles(f));
        let all = held(s) + t;
        let base: int = held(s.drop_last()).len() as int + opt_handles(f.scope_restore).len() as int;
        match f.fun {
            Some(h) => {
                assert(frame_handles(f)[opt_handles(f.scope_restore).len() as int] == h);
                assert(all[base] == h);
            },
            None => {},
        }
    }

    /// The code handle of the top frame is none of the handles of `t`.
    proof fn lemma_top_fun_apart(&self, t: Seq<MemHandle>, h: MemHandle)
        requires
            self.owned_ok(t),
            self.stack@.len() > 0,
            t.contains(h),
        ensures
            self.stack@.last().fun != Some(h),
    {
        let s = self.stack@;
        let f = s.last();
        assert(held(s) == held(s.drop_last()) + frame_handles(f));
        let all = held(s) + t;
        let base: int = held(s.drop_last()).len() as int + opt_handles(f.scope_restore).len() as int;
        let k = choose|k: int| 0 <= k < t.len() && t[k] == h;
        match f.fun {
            Some(x) => {
                assert(frame_handles(f)[opt_handles(f.scope_restore).len() as int] == x);
                assert(all[base] == x);
                assert(all[held(s).len() + k] == h);
                assert(base < held(s).len() + k);
            },
            None => {},
        }
    }

    /// An error whose message is `text` after the position of the code `fun`
    /// runs, or of the code the top frame runs where `fun` is none.
    fn located_error(&self, fun: Option<MemHandle>, text: &String, Ghost(t): Ghost<Seq<MemHandle>>) -> (e: Error)
        requires
            self.owned_ok(t),
            fun matches Some(h) ==> self.memory@.live(h),
        ensures
            fun matches Some(h) ==> e.message@ == located(tags_model(self.source_tag@),
                if self.memory@.cell(h) is Array { self.memory.pos(h) } else { position_unknown() }, text@),
    {
        let h = match fun {
            Some(h) => Some(h),
            None => {
                if self.stack.len() == 0 {
                    None
                } else {
                    proof {
                        self.lemma_top_fun_live(t);
                    }
                    self.stack[self.stack.len() - 1].fun
                }
            },
        };
        let pos = match h {
            Some(h) => self.memory.array_get_position(h),
            None => crate::reader::position_unknown_exec(),
        };
        let mut message = position_string_of(&self.source_tag, pos);
        message.append(": ");
        message.append(text.as_str());
        Error { message }
    }

    /// Ends the execution of a line: restores the saved scope, if any, hands
    /// the line's value to the line below, if it is wanted, and gives up the
    /// handles of `tmp`.
    #[verifier::rlimit(60)]
    #[verifier::spinoff_prover]
    fn finish(&mut self, restore: Option<MemHandle>, returned: Option<MemHandle>, tmp: Vec<MemHandle>) -> (r: Step)
        requires
            old(self).owned_ok(tmp@),
            old(self).pending is None,
            restore matches Some(h) ==> tmp@.contains(h),
            returned matches Some(h) ==> tmp@.contains(h),
        ensures
            final(self).inv(),
            final(self).pending is None,
            !(r is Io),
            final(self).file_allow == old(self).file_allow,
            frames_kept(old(self).stack@, final(self).stack@),
            returned is None ==> final(self).stack == old(self).stack,
            restore is None ==> r is Running,
            r is Running || r is Failed,
            restore matches Some(sr) ==> (r is Running <==> restorable(old(self).memory@, old(self).memory.globals_handle(), sr)),
            restore matches Some(sr) ==> (r is Running ==> final(self).memory.entries(old(self).memory.globals_handle())
                == restore_model(old(self).memory.entries(old(self).memory.globals_handle()), old(self).memory.entries(sr),
                    old(self).memory@.objs)),
            returned matches Some(h) ==> (r is Running && old(self).stack@.len() > 0
                ==> gave_parent(old(self).stack@, final(self).stack@, final(self).memory@, old(self).memory@.obj(h))),
            final(self).memory.globals_handle() == old(self).memory.globals_handle(),
            restore is None ==> final(self).memory.entries(old(self).memory.globals_handle())
                == old(self).memory.entries(old(self).memory.globals_handle()),
            returned is None && restore is None ==> final(self).memory@.objs == old(self).memory@.objs
                && final(self).memory@.handles.len() == old(self).memory@.handles.len()
                && forall|i: int| 0 <= i < held(old(self).stack@).len()
                    ==> final(self).memory@.handles[#[trigger] held(old(self).stack@)[i].idx as int]
                        == old(self).memory@.handles[held(old(self).stack@)[i].idx as int],
    {
        let mut tmp = tmp;
        let ghost t_in = tmp@;
        let ghost m_in = self.memory@;
        let ghost g = self.memory.globals_handle();
        proof {
            self.memory.lemma_ok();
            lemma_handles_kept_refl(self.memory@);
            self.memory.lemma_globals();
            match returned {
                Some(r0) => self.lemma_tmp_contains(tmp@, r0),
                None => {},
            }
        }
        match restore {
            Some(sr) => {
                match self.restore_scope(sr, &mut tmp) {
                    Ok(()) => {},
                    Err(e) => {
                        self.m_release(&tmp);
                        proof { self.lemma_inv_of_owned(); }
                        return Step::Failed(e);
                    },
                }
            },
            None => {},
        }
        let ghost m_mid = self.memory@;
        let ghost mut gave: Option<MemHandle> = None;
        proof {
            if restore is Some {
                assert(handles_kept(m_in, m_mid));
            }
            match returned {
                Some(r0) => lemma_handles_kept_self(m_in, m_mid, r0),
                None => {},
            }
            lemma_handles_kept_self(m_in, m_mid, g);
        }
        match returned {
            Some(r0) => {
                proof {
                    if restore is Some {
                        lemma_prefix_contains(t_in, tmp@, r0);
                    }
                    self.lemma_tmp_contains(tmp@, r0);
                }
                let r = self.m_copy(r0, Ghost(tmp@));
                proof {
                    lemma_handles_kept_self(m_mid, self.memory@, g);
                    self.lemma_tmp_live(tmp@.push(r), tmp@.len() as int);
                    gave = Some(r);
                }
                let ghost s1 = self.stack@;
                if !self.give_parent(r, Ghost(tmp@)) {
                    tmp.push(r);
                }
                proof {
                    assert forall|k: int| 0 <= k < s1.len() - 1 implies #[trigger] self.stack@[k] == s1[k] by {
                        assert(self.stack@.drop_last()[k] == s1.drop_last()[k]);
                    }
                }
            },
            None => {},
        }
        let ghost m_pre = self.memory@;
        let ghost s_pre = self.stack@;
        self.m_release(&tmp);
        proof {
            assert(self.memory@.handles[g.idx as int] == m_pre.handles[g.idx as int]);
            if restore is None {
                assert(m_mid == m_in);
                assert(m_pre.handles[g.idx as int] == m_in.handles[g.idx as int]);
                assert(m_pre.objs == m_in.objs);
            }
            self.lemma_inv_of_owned();
            if returned is Some && old(self).stack@.len() > 0 {
                let n = s_pre.len() as int;
                let j = s_pre.last().prepare@.len() - 1;
                lemma_held_prepare(s_pre, n - 1, j);
                let q = choose|q: int| 0 <= q < held(s_pre).len() && held(s_pre)[q] == s_pre[n - 1].prepare@[j];
                assert(self.memory@.handles[held(s_pre)[q].idx as int] == m_pre.handles[held(s_pre)[q].idx as int]);
                assert(gave matches Some(x) && s_pre.last().prepare@.last() == x && m_pre.live(x)
                    && m_pre.obj(x) == m_in.obj(returned.unwrap()));
                assert(self.stack@ == s_pre);
                assert(s_pre.len() == old(self).stack@.len());
                assert(s_pre.drop_last() == old(self).stack@.drop_last());
                assert(s_pre.last().prepare@.drop_last() == old(self).stack@.last().prepare@);
                assert(self.memory@.live(s_pre.last().prepare@.last()));
                assert(self.memory@.obj(s_pre.last().prepare@.last()) == m_in.obj(returned.unwrap()));
            }
        }
        Step::Running
    }

    /// The code handle of the top frame of `sp`, among the handles the stack
    /// holds, names in `self` what it named in `m`, where every handle the
    /// stack holds is kept.
    proof fn lemma_fun_kept(&self, sp: Seq<Frame>, m: MemoryModel, q: int)
        requires
            0 <= q < held(sp).len(),
            sp.len() > 0,
            sp.last().fun is Some,
            held(sp)[q] == sp.last().fun.unwrap(),
            m.live(sp.last().fun.unwrap()),
            self.memory@.objs == m.objs,
            self.memory@.handles.len() == m.handles.len(),
            forall|i: int| 0 <= i < held(sp).len()
                ==> self.memory@.handles[#[trigger] held(sp)[i].idx as int] == m.handles[held(sp)[i].idx as int],
        ensures
            self.memory@.live(sp.last().fun.unwrap()),
            self.memory@.obj(sp.last().fun.unwrap()) == m.obj(sp.last().fun.unwrap()),
    {
        assert(self.memory@.handles[held(sp)[q].idx as int] == m.handles[held(sp)[q].idx as int]);
    }

    proof fn lemma_inv_of_owned(&self)
        requires
            self.owned_ok(Seq::empty()),
            self.pending is None,
        ensures
            self.inv(),
    {
        assert(held(self.stack@) + Seq::<MemHandle>::empty() =~= held(self.stack@) + pending_handles(self.pending));
    }

    /// Gives up the handles of `tmp` and stops with the error.
    fn fail_with(&mut self, tmp: &Vec<MemHandle>, e: Error) -> (r: Step)
        requires
            old(self).owned_ok(tmp@),
            old(self).pending is None,
        ensures
            final(self).inv(),
            final(self).stack == old(self).stack,
            final(self).pending == old(self).pending,
            r is Failed,
            r == Step::Failed(e),
            final(self).file_allow == old(self).file_allow,
            final(self).memory.full() == old(self).memory.full(),
            final(self).memory.globals_handle() == old(self).memory.globals_handle(),
            final(self).memory.entries(old(self).memory.globals_handle())
                == old(self).memory.entries(old(self).memory.globals_handle()),
    {
        self.m_release(tmp);
        proof { self.lemma_inv_of_owned(); }
        Step::Failed(e)
    }

    /// Goes on from what a builtin came to.
    fn finish_builtin(&mut self, res: Result<BuiltinReturn, Error>, returning: bool, restore: Option<MemHandle>,
        fun: Option<MemHandle>, tmp: Vec<MemHandle>) -> (r: Step)
        requires
            old(self).owned_ok(tmp@),
            old(self).pending is None,
            res matches Ok(ret) ==> old(self).owned_ok(tmp@ + return_handles(ret)),
            restore matches Some(h) ==> tmp@.contains(h),
            fun matches Some(h) ==> tmp@.contains(h),
        ensures
            final(self).inv(),
            final(self).pending is None,
            !(r is Io),
            final(self).file_allow == old(self).file_allow,
            frames_kept(old(self).stack@, final(self).stack@) || (final(self).stack@.len() == old(self).stack@.len() + 1
                && final(self).stack@.drop_last() == old(self).stack@),
            !returning ==> final(self).stack == old(self).stack || (final(self).stack@.len() == old(self).stack@.len() + 1
                && final(self).stack@.drop_last() == old(self).stack@),
            final(self).stack@.len() == old(self).stack@.len() + 1 ==> final(self).stack@.last().fun is None,
            res is Err ==> r is Failed,
            res == Ok::<BuiltinReturn, Error>(BuiltinReturn::Empty) && !returning && restore is None
                ==> r is Running && final(self).stack == old(self).stack,
            res matches Ok(ret) ==> came_to(ret, returning, restore, old(self).memory@, old(self).memory.globals_handle(),
                old(self).stack@, final(self).memory, final(self).stack@, r),
    {
        let mut tmp = tmp;
        match res {
            Err(e) => {
                proof {
                    match fun {
                        Some(h) => self.lemma_tmp_contains(tmp@, h),
                        None => {},
                    }
                }
                let err = self.located_error(fun, &e.message, Ghost(tmp@));
                self.fail_with(&tmp, err)
            },
            Ok(BuiltinReturn::Empty) => {
                if returning {
                    let t0 = Ghost(tmp@);
                    let ghost m_b = self.memory@;
                    proof {
                        match restore {
                            Some(x) => self.lemma_tmp_contains(tmp@, x),
                            None => {},
                        }
                        self.memory.lemma_globals();
                    }
                    match self.m_nil(t0) {
                        Ok(h) => {
                            proof {
                                match restore {
                                    Some(x) => {
                                        assert(self.memory@.handles[x.idx as int] == m_b.handles[x.idx as int]);
                                        assert(self.memory@.handles[old(self).memory.globals_handle().idx as int]
                                            == m_b.handles[old(self).memory.globals_handle().idx as int]);
                                        assert(restorable(self.memory@, old(self).memory.globals_handle(), x)
                                            == restorable(m_b, old(self).memory.globals_handle(), x));
                                    },
                                    None => {},
                                }
                            }
                            tmp.push(h);
                            proof {
                                lemma_prefix_push(t0@, h);
                                match restore {
                                    Some(x) => lemma_prefix_contains(t0@, tmp@, x),
                                    None => {},
                                }
                            }
                            self.finish(restore, Some(h), tmp)
                        },
                        Err(e) => self.fail_with(&tmp, e),
                    }
                } else {
                    self.finish(restore, None, tmp)
                }
            },
            Ok(BuiltinReturn::Value(h)) => {
                let ghost t0 = tmp@;
                tmp.push(h);
                proof {
                    assert(tmp@ =~= t0 + seq![h]);
                    lemma_prefix_push(t0, h);
                    match restore {
                        Some(x) => lemma_prefix_contains(t0, tmp@, x),
                        None => {},
                    }
                }
                if returning {
                    self.finish(restore, Some(h), tmp)
                } else {
                    self.finish(restore, None, tmp)
                }
            },
            Ok(BuiltinReturn::Push(hs)) => {
                let ghost t0 = tmp@;
                let mut i: usize = 0;
                while i < hs.len()
                    invariant
                        i <= hs@.len(),
                        tmp@ == t0 + hs@.take(i as int),
                    decreases hs@.len() - i,
                {
                    tmp.push(hs[i]);
                    i = i + 1;
                    assert(tmp@ =~= t0 + hs@.take(i as int));
                }
                proof {
                    assert(hs@.take(hs@.len() as int) =~= hs@);
                    assert forall|k: int| 0 <= k < hs@.len() implies self.memory@.live(#[trigger] hs@[k]) by {
                        self.lemma_tmp_live(tmp@, t0.len() + k);
                        assert(tmp@[t0.len() + k] == hs@[k]);
                    }
                    match restore {
                        Some(x) => {
                            assert(prefix(t0, tmp@));
                            lemma_prefix_contains(t0, tmp@, x);
                            self.lemma_tmp_contains(tmp@, x);
                        },
                        None => {},
                    }
                }
                self.push_frame(returning, restore, None, None, hs.as_slice(), Ghost(tmp@));
                self.ready = true;
                self.fail_free_release(&tmp)
            },
        }
    }

    /// Gives up the handles of `tmp`; the evaluation goes on.
    fn fail_free_release(&mut self, tmp: &Vec<MemHandle>) -> (r: Step)
        requires
            old(self).owned_ok(tmp@),
            old(self).pending is None,
        ensures
            final(self).inv(),
            r is Running,
            final(self).pending is None,
            final(self).file_allow == old(self).file_allow,
            final(self).stack == old(self).stack,
            final(self).memory@.objs == old(self).memory@.objs,
            forall|i: int| 0 <= i < held(old(self).stack@).len()
                ==> final(self).memory@.handles[#[trigger] held(old(self).stack@)[i].idx as int]
                    == old(self).memory@.handles[held(old(self).stack@)[i].idx as int],
    {
        self.m_release(tmp);
        proof { self.lemma_inv_of_owned(); }
        Step::Running
    }
}

impl Eval {
    /// Calls the function `car` on the arguments `cdr`: binds its locals,
    /// its arguments and its name in the globals, saving what they were in
    /// the scope `restore` (a new one where there is none), and puts a frame
    /// on the stack that runs its body and restores the scope when it ends.
    /// A function with none of these runs its body in the caller's scope.
    fn call_fun(&mut self, car: MemHandle, cdr: &Vec<MemHandle>, returning: bool, restore: Option<MemHandle>,
        tmp: &mut Vec<MemHandle>) -> (r: Result<(), Error>)
        requires
            old(self).owned_ok(old(tmp)@),
            old(self).pending is None,
            old(tmp)@.contains(car),
            forall|i: int| 0 <= i < cdr@.len() ==> old(tmp)@.contains(#[trigger] cdr@[i]),
            restore matches Some(h) ==> old(tmp)@.contains(h),
            old(self).memory@.live(car),
            old(self).memory@.cell(car) is Fun,
        ensures
            final(self).owned_ok(final(tmp)@),
            final(self).pending is None,
            final(self).file_allow == old(self).file_allow,
            r is Ok ==> prefix(old(tmp)@, final(tmp)@),
            r is Err ==> final(self).stack == old(self).stack,
            r is Ok ==> final(self).stack@.len() == old(self).stack@.len() + 1
                && final(self).stack@.drop_last() == old(self).stack@
                && final(self).stack@.last().want_return == returning
                && final(self).stack@.last().line == Some(0usize)
                && final(self).stack@.last().prepare@.len() == 0
                && final(self).stack@.last().scope_restore is Some == (restore is Some
                    || !(old(self).memory@.cell(car)->Fun_0 is None
                        && crate::memory::obj_value(old(self).memory@.objs[old(self).memory@.cell(car)->Fun_1])
                            == ValueModel::Primitive(PrimModel::Nil)
                        && crate::memory::obj_value(old(self).memory@.objs[old(self).memory@.cell(car)->Fun_2])
                            == ValueModel::Primitive(PrimModel::Nil)))
                && (final(self).stack@.last().fun matches Some(b) && final(self).memory@.live(b)
                    && final(self).memory@.obj(b) == old(self).memory@.cell(car)->Fun_3),
            call_made(old(self).memory, car, handle_objs(old(self).memory@, cdr@), restore, final(self).memory, r is Ok),
            final(self).memory.globals_handle() == old(self).memory.globals_handle(),
    {
        let ghost t0 = tmp@;
        let ghost e0 = *self;
        let ghost m = old(self).memory@;
        let ghost g = old(self).memory.globals_handle();
        let ghost og = m.obj(g);
        let ghost f = m.cell(car);
        let ghost args = handle_objs(old(self).memory@, cdr@);
        let ghost la = locals_of(m.objs, f->Fun_2);
        let ghost ps = params_of(m.objs, f->Fun_1);
        let ghost fine = call_fine(old(self).memory, car, args, restore);
        let ghost g0 = old(self).memory.entries(g);
        proof {
            old(self).memory.lemma_ok();
            old(self).memory.lemma_closed();
            old(self).memory.lemma_globals();
            lemma_handles_kept_refl(m);
            match restore {
                Some(x) => old(self).lemma_tmp_contains(old(tmp)@, x),
                None => {},
            }
            assert forall|i: int| 0 <= i < cdr@.len() implies m.live(#[trigger] cdr@[i]) by {
                old(self).lemma_tmp_contains(old(tmp)@, cdr@[i]);
            }
        }
        let fun = self.m_fun_unpack(car, Ghost(tmp@));
        tmp.push(fun.args);
        tmp.push(fun.locals);
        tmp.push(fun.body);
        let ghost t1 = tmp@;
        let ghost mu = self.memory@;
        proof {
            self.memory.lemma_ok();
            lemma_handles_kept_refl(mu);
            assert(e0.memory@.cell(car) == old(self).memory@.cell(car));
            assert(t1 =~= t0.push(fun.args).push(fun.locals).push(fun.body));
            assert(prefix(t0, t1));
            assert(t1[t1.len() - 3] == fun.args && t1[t1.len() - 2] == fun.locals && t1[t1.len() - 1] == fun.body);
            assert(t1.contains(fun.args) && t1.contains(fun.locals) && t1.contains(fun.body));
            lemma_prefix_contains(t0, t1, car);
            self.lemma_tmp_contains(t1, fun.args);
            self.lemma_tmp_contains(t1, fun.locals);
            self.lemma_tmp_contains(t1, fun.body);
            assert(kept_but(m, mu, og, og));
        }
        let no_name = fun.name.is_none();
        let no_args = match self.memory.value(fun.args) {
            Value::Primitive(Primitive::Nil) => true,
            _ => false,
        };
        let no_locals = match self.memory.value(fun.locals) {
            Value::Primitive(Primitive::Nil) => true,
            _ => false,
        };
        if no_name && no_args && no_locals {
            proof {
                match restore {
                    Some(x) => {
                        lemma_prefix_contains(t0, t1, x);
                        self.lemma_tmp_contains(t1, x);
                    },
                    None => {},
                }
            }
            let ghost mb = self.memory@;
            self.push_frame(returning, restore, Some(fun.body), Some(0), &[], Ghost(tmp@));
            proof {
                let bs = Seq::<(PrimModel, nat)>::empty();
                assert(la.len() == 0);
                assert(ps.len() == 0);
                assert(call_bindings(m.objs, f, m.obj(car), args, bs));
                lemma_handles_kept_self(mb, self.memory@, g);
                assert(self.memory.entries(g) == insert_all(g0, bs));
            }
            return Ok(());
        }
        let sr = match restore {
            Some(x) => {
                proof {
                    lemma_prefix_contains(t0, t1, x);
                }
                x
            },
            None => {
                let ghost md = self.memory@;
                let rd = self.m_dict_new(Ghost(tmp@));
                proof {
                    lemma_kept_but_trans(m, md, self.memory@, og, og);
                }
                let d = rd?;
                tmp.push(d);
                proof {
                    lemma_prefix_push(t1, d);
                }
                d
            },
        };
        let ghost t2 = tmp@;
        let ghost osr = self.memory@.obj(sr);
        let ghost mut bs: Seq<(PrimModel, nat)> = Seq::empty();
        proof {
            assert(prefix(t0, t2)) by {
                lemma_prefix_trans(t0, t1, t2);
            }
            assert(t2.contains(sr));
            lemma_prefix_contains(t1, t2, fun.args);
            lemma_prefix_contains(t1, t2, fun.locals);
            lemma_prefix_contains(t1, t2, fun.body);
            if restore is None {
                lemma_handles_kept_trans(mu, mu, self.memory@);
            }
            lemma_handles_kept_trans(m, mu, self.memory@);
            lemma_handles_kept_self(m, self.memory@, g);
            self.lemma_tmp_contains(t2, sr);
            if fine {
                if restore is Some {
                    lemma_handles_kept_self(m, self.memory@, sr);
                }
            }
            assert(kept_but(m, self.memory@, og, osr));
            assert(m.objs.contains_key(m.obj(car)));
            assert(m.objs.contains_key(f->Fun_1) && m.objs.contains_key(f->Fun_2));
            assert(m.objs[og] is Dict);
            assert(fine ==> (m.objs.contains_key(osr) ==> m.objs[osr] is Dict));
            assert(fine ==> f->Fun_2 != osr || !(m.objs[f->Fun_2] is Dict));
        }
        if !no_locals {
            proof {
                self.lemma_tmp_contains(tmp@, fun.locals);
            }
            match self.memory.value(fun.locals) {
                Value::Dict => {},
                _ => return Err(internal_error()),
            }
            proof {
                self.memory.lemma_dict_keys(fun.locals);
                lemma_handles_kept_self(mu, self.memory@, fun.locals);
            }
            let keys = self.memory.dict_keys(fun.locals);
            let mut i: usize = 0;
            while i < keys.len()
                invariant
                    self.file_allow == old(self).file_allow,
                    self.owned_ok(tmp@),
                    self.pending is None,
                    self.stack == old(self).stack,
                    handles_kept(mu, self.memory@),
                    handles_kept(m, self.memory@),
                    mu.live(fun.body) && mu.obj(fun.body) == old(self).memory@.cell(car)->Fun_3,
                    prefix(t2, tmp@),
                    t2.contains(sr) && t2.contains(fun.locals),
                    i <= keys@.len(),
                    m == old(self).memory@,
                    m.ok(),
                    fine == call_fine(old(self).memory, car, args, restore),
                    args == handle_objs(old(self).memory@, cdr@),
                    g == old(self).memory.globals_handle(),
                    f == m.cell(car),
                    la == locals_of(m.objs, f->Fun_2),
                    ps == params_of(m.objs, f->Fun_1),
                    g0 == old(self).memory.entries(g),
                    self.memory.globals_handle() == g,
                    self.memory@.live(sr),
                    self.memory@.obj(sr) == osr,
                    fine ==> self.memory@.cell(sr) is Dict && osr != og,
                    kept_but(m, self.memory@, og, osr),
                    mu.obj(fun.locals) == f->Fun_2,
                    mu.live(fun.locals),
                    m.objs.contains_key(f->Fun_1) && m.objs.contains_key(f->Fun_2),
                    m.objs[og] is Dict,
                    fine ==> (m.objs.contains_key(osr) ==> m.objs[osr] is Dict),
                    fine ==> (m.objs[f->Fun_2] is Dict ==> f->Fun_2 != og && f->Fun_2 != osr),
                    fine ==> fun_callable(m.objs, f, args.len() as int),
                    og == m.obj(g) && m.live(g),
                    m.closed(),
                    fine ==> m.objs[f->Fun_2] is Dict,
                    fine ==> la == self.memory.entries(fun.locals) && keys@.len() == la.len()
                        && crate::memory::distinct_keys(la)
                        && (forall|k: int| 0 <= k < keys@.len() ==> #[trigger] keys@[k].model() == la[k].0),
                    fine ==> bs.len() == i && (forall|k: int| 0 <= k < i ==> bs[k] == la[k])
                        && self.memory.entries(g) == insert_all(g0, bs),
                decreases keys@.len() - i,
            {
                let ghost t3 = tmp@;
                let ghost m3 = self.memory@;
                proof {
                    lemma_prefix_contains(t2, t3, fun.locals);
                    lemma_prefix_contains(t2, t3, sr);
                    self.lemma_tmp_contains(t3, fun.locals);
                    self.lemma_tmp_contains(t3, sr);
                    lemma_handles_kept_self(mu, self.memory@, fun.locals);
                    lemma_handles_kept_self(m, self.memory@, g);
                    if fine {
                        assert(self.memory@.cell(fun.locals) == m.objs[f->Fun_2]);
                        assert(self.memory@.value(fun.locals) == ValueModel::Dict);
                    }
                }
                match self.memory.value(fun.locals) {
                    Value::Dict => {},
                    _ => {
                        assert(!fine);
                        return Err(internal_error());
                    },
                }
                let key = keys[i].duplicate();
                proof {
                    if fine {
                        crate::memory::lemma_key_index(la, key.model(), i as int);
                    }
                }
                let v = match self.m_dict_get(fun.locals, &key, Ghost(tmp@)) {
                    Some(v) => v,
                    None => {
                        proof {
                            if fine {
                                assert(m3.cell(fun.locals) == m.objs[f->Fun_2]);
                                assert(crate::memory::has_key(la, key.model()));
                            }
                            assert(!fine);
                        }
                        return Err(internal_error());
                    },
                };
                tmp.push(v);
                proof {
                    lemma_prefix_push(t3, v);
                    lemma_prefix_contains(t3, tmp@, sr);
                }
                let ghost t4 = tmp@;
                let ghost m4 = self.memory@;
                proof {
                    lemma_handles_kept_trans(m, m3, m4);
                    lemma_handles_kept_self(m, m4, g);
                    lemma_handles_kept_self(m3, m4, sr);
                    assert(fine ==> m4.cell(sr) is Dict && m4.obj(sr) != m4.obj(g));
                }
                let rs = self.swap_in(sr, key, v, tmp);
                proof {
                    lemma_prefix_trans(t3, t4, tmp@);
                    lemma_prefix_trans(t2, t3, tmp@);
                    lemma_kept_but_trans(m, m4, self.memory@, og, osr);
                    lemma_handles_kept_trans(mu, m4, self.memory@);
                    lemma_handles_kept_trans(m, m4, self.memory@);
                    lemma_handles_kept_self(m4, self.memory@, sr);
                    if fine && rs is Ok {
                        let nb = bs.push(la[i as int]);
                        assert(nb.drop_last() =~= bs);
                        bs = nb;
                    }
                }
                rs?;
                i = i + 1;
            }
        }
        proof {
            if fine {
                if no_locals {
                    assert(mu.cell(fun.locals) == m.objs[f->Fun_2]);
                    assert(la.len() == 0);
                }
                assert(bs.len() == la.len());
                assert(forall|k: int| 0 <= k < la.len() ==> bs[k] == la[k]);
                assert(self.memory.entries(g) == insert_all(g0, bs));
            }
        }
        if !no_args {
            let ghost t5 = tmp@;
            proof {
                lemma_prefix_contains(t2, t5, fun.args);
                self.lemma_tmp_contains(t5, fun.args);
                lemma_handles_kept_self(mu, self.memory@, fun.args);
                if fine {
                    assert(m.objs[f->Fun_1] is Array);
                    assert(self.memory@.cell(fun.args) == m.objs[f->Fun_1]);
                }
            }
            let n = match self.memory.value(fun.args) {
                Value::Array => self.memory.array_len(fun.args),
                _ => return Err(internal_error()),
            };
            let mut idx: usize = 0;
            while idx < n
                invariant
                    self.file_allow == old(self).file_allow,
                    self.owned_ok(tmp@),
                    self.pending is None,
                    self.stack == old(self).stack,
                    handles_kept(mu, self.memory@),
                    handles_kept(m, self.memory@),
                    mu.live(fun.body) && mu.obj(fun.body) == old(self).memory@.cell(car)->Fun_3,
                    prefix(t5, tmp@),
                    t5.contains(sr) && t5.contains(fun.args) && t5.contains(car),
                    forall|i: int| 0 <= i < cdr@.len() ==> t5.contains(#[trigger] cdr@[i]),
                    forall|i: int| 0 <= i < cdr@.len() ==> m.live(#[trigger] cdr@[i]),
                    idx <= n,
                    m == old(self).memory@,
                    m.ok(),
                    fine == call_fine(old(self).memory, car, args, restore),
                    args == handle_objs(old(self).memory@, cdr@),
                    g == old(self).memory.globals_handle(),
                    f == m.cell(car),
                    la == locals_of(m.objs, f->Fun_2),
                    ps == params_of(m.objs, f->Fun_1),
                    g0 == old(self).memory.entries(g),
                    m.closed(),
                    self.memory.globals_handle() == g,
                    self.memory@.live(sr),
                    self.memory@.obj(sr) == osr,
                    fine ==> self.memory@.cell(sr) is Dict && osr != og,
                    kept_but(m, self.memory@, og, osr),
                    mu.obj(fun.args) == f->Fun_1,
                    mu.live(fun.args),
                    m.objs.contains_key(f->Fun_1) && m.objs.contains_key(f->Fun_2),
                    m.objs[og] is Dict,
                    fine ==> (m.objs.contains_key(osr) ==> m.objs[osr] is Dict),
                    fine ==> (m.objs[f->Fun_2] is Dict ==> f->Fun_2 != og && f->Fun_2 != osr),
                    fine ==> fun_callable(m.objs, f, args.len() as int),
                    og == m.obj(g) && m.live(g),
                    m.closed(),
                    fine ==> n == ps.len() && m.objs[f->Fun_1] is Array,
                    fine ==> bs.len() == la.len() + idx
                        && (forall|k: int| 0 <= k < la.len() ==> bs[k] == la[k])
                        && (forall|k: int| 0 <= k < idx ==> #[trigger] param_binding(m.objs, ps[k], k, args, bs[la.len() + k]))
                        && self.memory.entries(g) == insert_all(g0, bs),
                decreases n - idx,
            {
                let ghost t6 = tmp@;
                proof {
                    lemma_prefix_contains(t5, t6, fun.args);
                    lemma_prefix_contains(t5, t6, sr);
                    self.lemma_tmp_contains(t6, fun.args);
                    self.lemma_tmp_contains(t6, sr);
                    lemma_handles_kept_self(mu, self.memory@, fun.args);
                    if fine {
                        assert(self.memory@.cell(fun.args) == m.objs[f->Fun_1]);
                    }
                }
                match self.memory.value(fun.args) {
                    Value::Array => {},
                    _ => return Err(internal_error()),
                }
                let ghost ma = self.memory@;
                proof {
                    lemma_handles_kept_self(mu, ma, fun.args);
                    lemma_handles_kept_self(m, ma, g);
                    if fine {
                        assert(ma.cell(fun.args) == m.objs[f->Fun_1]);
                        assert(m.objs.contains_key(ps[idx as int]));
                    }
                }
                let pair = match self.m_array_get(fun.args, idx, Ghost(tmp@)) {
                    Some(p) => p,
                    None => return Err(internal_error()),
                };
                tmp.push(pair);
                let ghost pobj = ps[idx as int];
                proof {
                    lemma_prefix_push(t6, pair);
                    lemma_prefix_trans(t5, t6, tmp@);
                    self.lemma_tmp_contains(tmp@, pair);
                    lemma_handles_kept_trans(m, ma, self.memory@);
                    if fine {
                        assert(param_ok(m.objs, ps[idx as int], idx as int, args.len() as int));
                        assert(self.memory@.obj(pair) == pobj);
                        assert(m.objs.contains_key(pobj));
                        assert(self.memory@.cell(pair) == m.objs[pobj]);
                    }
                }
                let ghost t7 = tmp@;
                match self.memory.value(pair) {
                    Value::Array => {
                        let ghost mp = self.memory@;
                        let name = match self.m_array_get(pair, 0, Ghost(tmp@)) {
                            Some(x) => x,
                            None => return Err(internal_error()),
                        };
                        tmp.push(name);
                        proof {
                            lemma_prefix_push(t7, name);
                            self.lemma_tmp_contains(tmp@, name);
                            lemma_prefix_contains(t7, tmp@, pair);
                            self.lemma_tmp_contains(tmp@, pair);
                            lemma_handles_kept_trans(m, mp, self.memory@);
                            if fine {
                                let pe = m.objs[pobj]->Array_0;
                                assert(self.memory@.obj(name) == pe[0]);
                                assert(m.objs.contains_key(pe[0]));
                                assert(self.memory@.cell(name) == m.objs[pe[0]]);
                            }
                        }
                        let key = match self.memory.value(name) {
                            Value::Primitive(Primitive::String(s)) => Primitive::String(s),
                            _ => return Err(internal_error()),
                        };
                        let ghost t8 = tmp@;
                        let ghost mv = self.memory@;
                        let v = if idx < cdr.len() {
                            proof {
                                lemma_prefix_contains(t5, t8, cdr@[idx as int]);
                                self.memory.lemma_ok();
                                lemma_handles_kept_refl(self.memory@);
                            }
                            cdr[idx]
                        } else {
                            match self.memory.value(pair) {
                                Value::Array => {},
                                _ => return Err(internal_error()),
                            }
                            let d = match self.m_array_get(pair, 1, Ghost(tmp@)) {
                                Some(d) => d,
                                None => return Err(internal_error()),
                            };
                            tmp.push(d);
                            proof {
                                lemma_prefix_push(t8, d);
                            }
                            d
                        };
                        proof {
                            assert(prefix(t8, tmp@));
                            lemma_prefix_trans(t5, t6, t7);
                            lemma_prefix_trans(t5, t7, t8);
                            lemma_prefix_trans(t5, t8, tmp@);
                            lemma_prefix_contains(t5, tmp@, sr);
                            if idx < cdr.len() {
                                lemma_prefix_contains(t8, tmp@, v);
                            }
                            lemma_handles_kept_trans(m, mv, self.memory@);
                            if fine && idx < cdr.len() {
                                lemma_handles_kept_self(m, self.memory@, cdr@[idx as int]);
                                assert(self.memory@.obj(v) == args[idx as int]);
                            }
                        }
                        let ghost t9 = tmp@;
                        let ghost m9 = self.memory@;
                        proof {
                            lemma_handles_kept_self(m, m9, g);
                            lemma_handles_kept_self(ma, m9, sr);
                        }
                        let ghost kb = (key.model(), self.memory@.obj(v));
                        let rs = self.swap_in(sr, key, v, tmp);
                        proof {
                            lemma_prefix_trans(t5, t9, tmp@);
                            lemma_kept_but_trans(m, m9, self.memory@, og, osr);
                            lemma_handles_kept_trans(mu, m9, self.memory@);
                            lemma_handles_kept_trans(m, m9, self.memory@);
                            lemma_handles_kept_self(m9, self.memory@, sr);
                            if fine && rs is Ok {
                                assert(param_binding(m.objs, ps[idx as int], idx as int, args, kb));
                                let nb = bs.push(kb);
                                assert(nb.drop_last() =~= bs);
                                assert forall|k: int| 0 <= k < idx + 1 implies #[trigger] param_binding(m.objs, ps[k], k, args, nb[la.len() + k]) by {
                                    if k < idx {
                                        assert(nb[la.len() + k] == bs[la.len() + k]);
                                    }
                                }
                                bs = nb;
                            }
                        }
                        rs?;
                    },
                    Value::Primitive(Primitive::String(s)) => {
                        let ghost ks = Primitive::String(s).model();
                        let start = if idx < cdr.len() { idx } else { cdr.len() };
                        let mut rest: Vec<MemHandle> = Vec::new();
                        let mut j: usize = start;
                        while j < cdr.len()
                            invariant
                                self.file_allow == old(self).file_allow,
                                start <= j <= cdr@.len(),
                                rest@.len() == j - start,
                                forall|k: int| 0 <= k < rest@.len() ==> #[trigger] rest@[k] == cdr@[start + k],
                            decreases cdr@.len() - j,
                        {
                            rest.push(cdr[j]);
                            j = j + 1;
                        }
                        proof {
                            assert forall|k: int| 0 <= k < rest@.len() implies self.memory@.live(#[trigger] rest@[k]) by {
                                assert(rest@[k] == cdr@[start + k]);
                                lemma_prefix_contains(t5, tmp@, cdr@[start + k]);
                                self.lemma_tmp_contains(tmp@, cdr@[start + k]);
                            }
                        }
                        let ghost mr = self.memory@;
                        let ra = self.m_array_of(rest.as_slice(), Ghost(tmp@));
                        proof {
                            lemma_kept_but_trans(m, mr, self.memory@, og, osr);
                            lemma_handles_kept_trans(m, mr, self.memory@);
                            lemma_handles_kept_trans(mu, mr, self.memory@);
                            lemma_handles_kept_self(mr, self.memory@, sr);
                        }
                        let a = ra?;
                        tmp.push(a);
                        proof {
                            lemma_prefix_push(t7, a);
                            lemma_prefix_trans(t5, t7, tmp@);
                            lemma_prefix_contains(t5, tmp@, sr);
                        }
                        let ghost t10 = tmp@;
                        let ghost m10 = self.memory@;
                        proof {
                            lemma_handles_kept_self(m, m10, g);
                            lemma_handles_kept_self(ma, m10, sr);
                        }
                        let ghost kb = (ks, self.memory@.obj(a));
                        let rs = self.swap_in(sr, Primitive::String(s), a, tmp);
                        proof {
                            lemma_prefix_trans(t5, t10, tmp@);
                            lemma_kept_but_trans(m, m10, self.memory@, og, osr);
                            lemma_handles_kept_trans(mu, m10, self.memory@);
                            lemma_handles_kept_trans(m, m10, self.memory@);
                            lemma_handles_kept_self(m10, self.memory@, sr);
                            if fine && rs is Ok {
                                assert(param_binding(m.objs, ps[idx as int], idx as int, args, kb));
                                let nb = bs.push(kb);
                                assert(nb.drop_last() =~= bs);
                                assert forall|k: int| 0 <= k < idx + 1 implies #[trigger] param_binding(m.objs, ps[k], k, args, nb[la.len() + k]) by {
                                    if k < idx {
                                        assert(nb[la.len() + k] == bs[la.len() + k]);
                                    }
                                }
                                bs = nb;
                            }
                        }
                        rs?;
                    },
                    _ => return Err(internal_error()),
                }
                idx = idx + 1;
            }
        }
        let ghost t11 = tmp@;
        proof {
            if fine {
                if no_args {
                    assert(mu.cell(fun.args) == m.objs[f->Fun_1]);
                    assert(ps.len() == 0);
                }
                assert(bs.len() == la.len() + ps.len());
                assert(forall|k: int| 0 <= k < ps.len() ==> #[trigger] param_binding(m.objs, ps[k], k, args, bs[la.len() + k]));
                assert(self.memory.entries(g) == insert_all(g0, bs));
            }
            assert(prefix(t2, t11));
            lemma_prefix_contains(t2, t11, sr);
            lemma_prefix_contains(t2, t11, fun.body);
            lemma_prefix_trans(t0, t2, t11);
            lemma_prefix_contains(t0, t11, car);
            self.lemma_tmp_contains(t11, sr);
            self.lemma_tmp_contains(t11, car);
            lemma_handles_kept_self(m, self.memory@, car);
            if fine {
                assert(bs.len() == la.len() + ps.len());
            }
        }
        let ghost m11 = self.memory@;
        proof {
            lemma_handles_kept_self(m, m11, g);
        }
        match fun.name {
            Some(name) => {
                let ghost kb = (PrimModel::Str(name@), self.memory@.obj(car));
                let rs = self.swap_in(sr, Primitive::String(name), car, tmp);
                proof {
                    lemma_kept_but_trans(m, m11, self.memory@, og, osr);
                    lemma_handles_kept_trans(m, m11, self.memory@);
                    if fine && rs is Ok {
                        let nb = bs.push(kb);
                        assert(nb.drop_last() =~= bs);
                        assert forall|k: int| 0 <= k < ps.len() implies #[trigger] param_binding(m.objs, ps[k], k, args, nb[la.len() + k]) by {
                            assert(nb[la.len() + k] == bs[la.len() + k]);
                        }
                        bs = nb;
                    }
                }
                rs?;
            },
            None => {},
        }
        proof {
            lemma_prefix_trans(t0, t11, tmp@);
            lemma_prefix_contains(t11, tmp@, sr);
            lemma_prefix_contains(t11, tmp@, fun.body);
            self.lemma_tmp_contains(tmp@, sr);
            self.lemma_tmp_contains(tmp@, fun.body);
        }
        let ghost mb = self.memory@;
        self.push_frame(returning, Some(sr), Some(fun.body), Some(0), &[], Ghost(tmp@));
        proof {
            lemma_handles_kept_self(mb, self.memory@, g);
            if fine {
                assert(call_bindings(m.objs, f, m.obj(car), args, bs));
            }
        }
        Ok(())
    }
}

/// After the top frame of `s0` ran a line that was not its last: the
/// frame goes on with its next line, nothing prepared, and at most one frame
/// (for a call) stands above it; the frames below are unchanged.
pub open spec fn went_to_next_line(s0: Seq<Frame>, b: Seq<Frame>) -> bool {
    let n = s0.len() as int;
    &&& b.len() == n || b.len() == n + 1
    &&& forall|k: int| 0 <= k < n - 1 ==> #[trigger] b[k] == s0[k]
    &&& s0.last().line matches Some(l) && b[n - 1].line == Some((l + 1) as usize)
    &&& b[n - 1].want_return == s0.last().want_return
    &&& (b[n - 1].fun is Some) == (s0.last().fun is Some)
    &&& (b[n - 1].scope_restore is Some) == (s0.last().scope_restore is Some)
    &&& b[n - 1].prepare@.len() == 0
}

/// After the top frame of `s0` ran its last line: the frame is gone, and at
/// most one frame (for a call made from that line) stands in its place;
/// the frame below keeps its code, line and scope (it may have been handed
/// the value), and the frames under it are unchanged.
pub open spec fn left_frame(s0: Seq<Frame>, b: Seq<Frame>) -> bool {
    let n = s0.len() as int;
    &&& b.len() == n - 1 || b.len() == n
    &&& forall|k: int| 0 <= k < n - 2 ==> #[trigger] b[k] == s0[k]
    &&& n >= 2 ==> b[n - 2].fun == s0[n - 2].fun && b[n - 2].line == s0[n - 2].line
        && b[n - 2].want_return == s0[n - 2].want_return && b[n - 2].scope_restore == s0[n - 2].scope_restore
}

/// The stack `s1` once the top frame of `s0` is taken off to run its line,
/// and put back on its next line where that is not its last.
pub open spec fn exec_base(s0: Seq<Frame>, s1: Seq<Frame>, last: bool) -> bool {
    if last {
        s1 == s0.drop_last()
    } else {
        &&& s1.len() == s0.len()
        &&& s1.drop_last() == s0.drop_last()
        &&& s0.last().line matches Some(l) && s1.last().line == Some((l + 1) as usize)
        &&& s1.last().want_return == s0.last().want_return
        &&& (s1.last().fun is Some) == (s0.last().fun is Some)
        &&& (s1.last().scope_restore is Some) == (s0.last().scope_restore is Some)
        &&& s1.last().prepare@.len() == 0
    }
}

/// What running the line leaves, from what the rest of the step did to `s1`.
proof fn lemma_exec_result(s0: Seq<Frame>, s1: Seq<Frame>, b: Seq<Frame>, last: bool)
    requires
        s0.len() > 0,
        exec_base(s0, s1, last),
        (frames_kept(s1, b) && (!last ==> b == s1)) || (b.len() == s1.len() + 1 && b.drop_last() == s1),
    ensures
        !last ==> went_to_next_line(s0, b),
        last ==> left_frame(s0, b),
{
    let n = s0.len() as int;
    if b.len() == s1.len() + 1 && b.drop_last() == s1 {
        assert forall|k: int| 0 <= k < s1.len() implies #[trigger] b[k] == s1[k] by {
            assert(b.drop_last()[k] == b[k]);
        }
    }
    assert forall|k: int| 0 <= k < n - 1 implies #[trigger] s1[k] == s0[k] by {
        if !last {
            assert(s1.drop_last()[k] == s1[k]);
        }
        assert(s0.drop_last()[k] == s0[k]);
    }
}

/// A call in the line the top frame of `s0` prepares is to run first: a
/// frame for it (whose value is wanted) stands on top of that frame, which
/// keeps its code, line and scope and may have been handed more values.
pub open spec fn called_into(s0: Seq<Frame>, b: Seq<Frame>) -> bool {
    let n = s0.len() as int;
    &&& b.len() == n + 1
    &&& frames_kept(s0, b.drop_last())
    &&& b[n].line is None
    &&& b[n].want_return
    &&& b[n].fun is Some
    &&& b[n].scope_restore is None
    &&& b[n].prepare@.len() == 0
}

/// The items of the line that frame `f` runs in the heap `m`: line `l` of
/// its code, or the code itself where it runs a single expression.
pub open spec fn line_items(m: MemoryModel, f: Frame) -> Seq<nat> {
    let code = m.cell(f.fun.unwrap())->Array_0;
    match f.line {
        Some(l) => m.objs[code[l as int]]->Array_0,
        None => code,
    }
}

/// The reply to builtin `b`, which waited with heap `m` and stack `s0`, is
/// handed to it: it comes to `res` in heap `m1` (as `io_done` says), and the
/// evaluator `e1` and step `r` follow from that as after any builtin.
pub open spec fn resumed(m: Memory, s0: Seq<Frame>, b: Builtin, returning: bool, restore: Option<MemHandle>,
    reply: IoReply, m1: Memory, res: Result<BuiltinReturn, Error>, e1: Eval, r: Step) -> bool {
    &&& io_done(b, reply, m, m1, res)
    &&& res is Err ==> r is Failed
    &&& res matches Ok(ret) ==> came_to(ret, returning, restore, m1@, m.globals_handle(), s0, e1.heap(), e1.frames(), r)
}

/// The reply is the plain acknowledgement that the outside work of builtin
/// `b` is done, with nothing to give back.
pub open spec fn reply_done(b: Builtin, reply: IoReply) -> bool {
    match (b, reply) {
        (Builtin::Print, IoReply::Done) | (Builtin::Flush, IoReply::Done) | (Builtin::FileIn, IoReply::Done)
            | (Builtin::FileOut, IoReply::Done) | (Builtin::ReadLine, IoReply::Line(None)) => true,
        _ => false,
    }
}

/// The builtin that the values prepared by frame `f` start with, if any.
pub open spec fn line_builtin(m: MemoryModel, f: Frame) -> Option<Builtin> {
    if f.prepare@.len() >= 1 {
        match m.cell(f.prepare@[0]) {
            Obj::Prim(PrimModel::Builtin(b)) => Some(b),
            _ => None,
        }
    } else {
        None
    }
}

/// Every item of the line that frame `f` prepares that has no value yet has
/// one to take: none is a call or an unbound name.
pub open spec fn line_complete(m: MemoryModel, g: MemHandle, f: Frame) -> bool {
    &&& on_a_line(m, f)
    &&& f.prepare@.len() <= line_items(m, f).len()
    &&& forall|i: int| f.prepare@.len() <= i < line_items(m, f).len() ==> #[trigger] word_result(m, g, line_items(m, f)[i]) is Some
}

/// The objects of the values of the whole line that frame `f` prepares:
/// those it has, then what each remaining item evaluates to.
pub open spec fn line_objs(m: MemoryModel, g: MemHandle, f: Frame) -> Seq<nat> {
    Seq::new(line_items(m, f).len(), |i: int|
        if i < f.prepare@.len() { m.obj(f.prepare@[i]) } else { word_result(m, g, line_items(m, f)[i]).unwrap() })
}

/// The first of the objects `objs` is a builtin.
pub open spec fn starts_with_builtin(m: MemoryModel, objs: Seq<nat>) -> bool {
    objs.len() >= 1 && m.objs[objs[0]] is Prim && m.objs[objs[0]]->Prim_0 is Builtin
}

/// The step prepared the rest of the line of the top frame of `s0` (heap
/// `mem`), giving heap `mid` (with the same objects) and stack `sp` whose
/// top frame holds values naming `line_objs`, and then ran that line as
/// `ran_line` says.
pub open spec fn ran_prepared(mem: Memory, s0: Seq<Frame>, tags: Seq<String>, file_allow: bool, last: bool,
    mid: Memory, sp: Seq<Frame>, m0: Memory, m1: Memory, out: Outcome, s1: Seq<Frame>, e1: Eval, r: Step) -> bool {
    &&& prepared(mem, s0, mid, sp)
    &&& ran_line(mid, sp, tags, file_allow, last, m0, m1, out, s1, e1, r)
}

/// The step prepared the rest of the line of the top frame of `s0` (heap
/// `mem`), as `prepared` says, and then ran the line, which starts with code
/// or a function, as `ran_call` says.
pub open spec fn called_prepared(mem: Memory, s0: Seq<Frame>, last: bool, mid: Memory, sp: Seq<Frame>,
    s1: Seq<Frame>, e1: Eval, r: Step) -> bool {
    &&& prepared(mem, s0, mid, sp)
    &&& ran_call(mid, sp, last, s1, e1, r)
}

/// Preparing the rest of the line of the top frame of `s0` in heap `mem`
/// gave heap `mid` (with the same objects) and stack `sp`, whose top frame
/// is the same frame holding values that name `line_objs`.
pub open spec fn prepared(mem: Memory, s0: Seq<Frame>, mid: Memory, sp: Seq<Frame>) -> bool {
    let f = s0.last();
    let objs = line_objs(mem@, mem.globals_handle(), f);
    &&& mid@.objs == mem@.objs
    &&& mid.globals_handle() == mem.globals_handle()
    &&& sp.len() == s0.len()
    &&& sp.drop_last() == s0.drop_last()
    &&& sp.last().fun == f.fun && sp.last().line == f.line
    &&& sp.last().want_return == f.want_return && sp.last().scope_restore == f.scope_restore
    &&& sp.last().prepare@.len() == objs.len()
    &&& forall|i: int| 0 <= i < objs.len() ==> mid@.live(#[trigger] sp.last().prepare@[i]) && mid@.obj(sp.last().prepare@[i]) == objs[i]
}

/// The first of the objects `objs` is code (an array) or a function.
pub open spec fn starts_with_call(m: MemoryModel, objs: Seq<nat>) -> bool {
    objs.len() >= 1 && (m.objs[objs[0]] is Array || m.objs[objs[0]] is Fun)
}

/// Frame `f` is on a line of its code that is a lone word (not an array),
/// with nothing prepared, and the word has a value to take.
pub open spec fn lone_value(m: MemoryModel, g: MemHandle, f: Frame) -> bool {
    let code = m.cell(f.fun.unwrap())->Array_0;
    &&& f.fun is Some
    &&& m.cell(f.fun.unwrap()) is Array
    &&& f.line matches Some(l) && l < code.len() && !(m.objs[code[l as int]] is Array)
        && word_result(m, g, code[l as int]) is Some
    &&& f.prepare@.len() == 0
}

/// The step took the value of the lone word that the top frame of `s0`
/// (heap `mem`) is on, giving heap `mid` (same objects) and stack `sp`
/// whose top frame holds that value alone, and then ran the line as
/// `ran_value` says.
pub open spec fn took_value(mem: Memory, s0: Seq<Frame>, last: bool, mid: Memory, sp: Seq<Frame>,
    s1: Seq<Frame>, e1: Eval, r: Step) -> bool {
    let f = s0.last();
    let g = mem.globals_handle();
    let code = mem@.cell(f.fun.unwrap())->Array_0;
    &&& mid@.objs == mem@.objs
    &&& mid.globals_handle() == g
    &&& sp.len() == s0.len()
    &&& sp.drop_last() == s0.drop_last()
    &&& sp.last().fun == f.fun && sp.last().line == f.line
    &&& sp.last().want_return == f.want_return && sp.last().scope_restore == f.scope_restore
    &&& sp.last().prepare@.len() == 1
    &&& mid@.live(sp.last().prepare@[0])
    &&& Some(mid@.obj(sp.last().prepare@[0])) == word_result(mem@, g, code[f.line.unwrap() as int])
    &&& ran_value(mid, sp, last, s1, e1, r)
}

/// Running a line of the top frame of `s0`, in heap `mem`, that is a lone
/// value: the frame is taken off (and put back on its next line unless
/// `returning_in`), giving stack `s1`. Where the frame ends, its saved scope
/// is put back (the step fails only where that cannot be done) and, where
/// its value is wanted, the first value it prepared goes to the frame
/// below; otherwise nothing else happens.
pub open spec fn ran_value(mem: Memory, s0: Seq<Frame>, returning_in: bool, s1: Seq<Frame>, e1: Eval, r: Step) -> bool {
    let f = s0.last();
    let returning = returning_in && f.want_return;
    let g = mem.globals_handle();
    &&& exec_base(s0, s1, returning_in)
    &&& r is Running || r is Failed
    &&& returning_in ==> (f.scope_restore matches Some(sr) ==> (r is Running <==> restorable(mem@, g, sr))
        && (r is Running ==> e1.heap().entries(g) == restore_model(mem@.cell(g)->Dict_0, mem@.cell(sr)->Dict_0, mem@.objs)))
    &&& !(returning_in && f.scope_restore is Some) ==> r is Running
    &&& returning && r is Running && s1.len() > 0 ==> gave_parent(s1, e1.frames(), e1.heap()@, mem@.obj(f.prepare@[0]))
    &&& !returning && r is Running ==> e1.frames() == s1
}

/// Running the line the top frame of `s0` prepared, in heap `mem`, where it
/// starts with code (an array, a block) or a function: the frame is taken
/// off (and put back on its next line unless `returning_in`), giving stack
/// `s1`, and a frame is put on top of that which runs the code (the block
/// itself, or the function's body) from its first line, with nothing
/// prepared, handing its value down where the line's frame was to; the
/// saved scope of the line's frame, where it ends, goes with it. For a
/// function the step may fail instead (binding its arguments).
pub open spec fn ran_call(mem: Memory, s0: Seq<Frame>, returning_in: bool, s1: Seq<Frame>, e1: Eval, r: Step) -> bool {
    let f = s0.last();
    let head = mem@.cell(f.prepare@[0]);
    let s2 = e1.frames();
    &&& exec_base(s0, s1, returning_in)
    &&& r is Running || r is Failed
    &&& head is Array ==> r is Running
    &&& r is Running ==> s2.len() == s1.len() + 1 && s2.drop_last() == s1
        && s2.last().line == Some(0usize) && s2.last().prepare@.len() == 0
        && s2.last().want_return == (returning_in && f.want_return)
        && s2.last().fun is Some && e1.heap()@.live(s2.last().fun.unwrap())
        && e1.heap()@.obj(s2.last().fun.unwrap()) == (if head is Array { mem@.obj(f.prepare@[0]) } else { head->Fun_3 })
        && (head is Array ==> (s2.last().scope_restore is Some) == (returning_in && f.scope_restore is Some))
    &&& head is Fun ==> call_made(mem, f.prepare@[0], handle_objs(mem@, f.prepare@.drop_first()),
        if returning_in { f.scope_restore } else { None }, e1.heap(), r is Running)
}

/// What a call makes of heap `mc` it makes of heap `mem`, which holds the
/// same objects and names them by the same handles; and what it leaves in
/// heap `m1` it leaves in a heap `e1m` with the same globals.
pub proof fn lemma_call_made_moved(mem: Memory, mc: Memory, car: MemHandle, args: Seq<nat>, restore: Option<MemHandle>,
    m1: Memory, e1m: Memory, ok: bool)
    requires
        call_made(mc, car, args, restore, m1, ok),
        mc@.objs == mem@.objs,
        handles_kept(mem@, mc@),
        mem@.live(car),
        mem.globals_handle() == mc.globals_handle(),
        mem@.live(mem.globals_handle()),
        restore matches Some(x) ==> mem@.live(x),
        e1m.entries(mem.globals_handle()) == m1.entries(mem.globals_handle()),
        !ok ==> e1m.full() == m1.full(),
    ensures
        call_made(mem, car, args, restore, e1m, ok),
{
    let g = mem.globals_handle();
    assert(mc@.handles[car.idx as int] == mem@.handles[car.idx as int]);
    assert(mc@.handles[g.idx as int] == mem@.handles[g.idx as int]);
    match restore {
        Some(x) => assert(mc@.handles[x.idx as int] == mem@.handles[x.idx as int]),
        None => {},
    }
    assert(call_fine(mem, car, args, restore) == call_fine(mc, car, args, restore));
    assert(mem.entries(g) == mc.entries(g));
    if ok && call_fine(mem, car, args, restore) {
        let bs = choose|bs: Seq<(PrimModel, nat)>| #[trigger] call_bindings(mc@.objs, mc@.cell(car), mc@.obj(car), args, bs)
            && m1.entries(g) == insert_all(mc.entries(g), bs);
        assert(call_bindings(mem@.objs, mem@.cell(car), mem@.obj(car), args, bs));
    }
}

/// Running the line the top frame of `s0` prepared, in heap `mem`, where it
/// starts with a builtin: the frame is taken off (and put back on its next
/// line unless `returning_in`), giving stack `s1`; the builtin is called on
/// the other values, from heap `m0` (which holds the same objects and
/// handles as `mem`) to `m1`, and comes to `out`; the evaluator `e1` and
/// step `r` follow from that.
pub open spec fn ran_line(mem: Memory, s0: Seq<Frame>, tags: Seq<String>, file_allow: bool, returning_in: bool,
    m0: Memory, m1: Memory, out: Outcome, s1: Seq<Frame>, e1: Eval, r: Step) -> bool {
    let f = s0.last();
    let b = line_builtin(mem@, f).unwrap();
    let returning = returning_in && f.want_return;
    let restore = if returning_in { f.scope_restore } else { None };
    let g = mem.globals_handle();
    &&& m0.wf()
    &&& m0@.objs == mem@.objs
    &&& handles_kept(mem@, m0@)
    &&& m0.globals_handle() == g
    &&& exec_base(s0, s1, returning_in)
    &&& builtin_spec(b, tags, file_allow, m0, m1, f.prepare@.drop_first(), out)
    &&& match out {
        Outcome::Io(req) => r == Step::Io(req) && e1.is_waiting() && e1.waiting_for() == b
            && e1.waiting_returns() == returning && e1.waiting_restores() == (restore is Some)
            && e1.frames() == s1,
        Outcome::Done(Err(_)) => r is Failed,
        Outcome::Done(Ok(ret)) => came_to(ret, returning, restore, m1@, g, s1, e1.heap(), e1.frames(), r),
    }
}

/// Where a builtin that ran from heap `m` (globals `g`) on the top frame's
/// line, with stack `s0` left below, handed back `ret`, the evaluator comes
/// to heap `m1`, stack `s1` and step `r`: it fails only where the saved
/// scope `restore` cannot be put back or the heap is full; the scope is put
/// back (where no new nil was made for the value first); a value goes to the
/// frame below where it is wanted; a frame handed
/// back runs next on the values handed back.
pub open spec fn came_to(ret: BuiltinReturn, returning: bool, restore: Option<MemHandle>, m: MemoryModel, g: MemHandle,
    s0: Seq<Frame>, m1: Memory, s1: Seq<Frame>, r: Step) -> bool {
    &&& r is Running || r is Failed
    &&& r is Failed ==> (restore matches Some(sr) && !restorable(m, g, sr)) || (returning && ret is Empty && m1.full())
    &&& restore matches Some(sr) ==> (r is Running && !(ret is Push) && !(returning && ret is Empty) ==> m1.entries(g)
        == restore_model(m.cell(g)->Dict_0, m.cell(sr)->Dict_0, m.objs))
    &&& ret matches BuiltinReturn::Value(h) ==> (returning && r is Running && s0.len() > 0
        ==> gave_parent(s0, s1, m1@, m.obj(h)))
    &&& ret is Empty && returning && r is Running && s0.len() > 0 ==> s1.len() == s0.len()
        && s1.drop_last() == s0.drop_last() && s1.last().prepare@.drop_last() == s0.last().prepare@
    &&& !returning && !(ret is Push) && r is Running ==> s1 == s0
    &&& ret matches BuiltinReturn::Push(hs) ==> r is Running && s1.len() == s0.len() + 1 && s1.drop_last() == s0
        && s1.last().want_return == returning && s1.last().fun is None && s1.last().line is None
        && (s1.last().scope_restore is Some) == (restore is Some)
        && s1.last().prepare@.len() == hs@.len()
}

/// The dictionary entries `d` with each pair of `bs` bound in turn, a later
/// binding of a key replacing an earlier one.
pub open spec fn insert_all(d: Seq<(PrimModel, nat)>, bs: Seq<(PrimModel, nat)>) -> Seq<(PrimModel, nat)>
    decreases bs.len(),
{
    if bs.len() == 0 {
        d
    } else {
        crate::memory::dict_insert(insert_all(d, bs.drop_last()), bs.last().0, bs.last().1)
    }
}

/// The objects the handles `hs` name.
pub open spec fn handle_objs(m: MemoryModel, hs: Seq<MemHandle>) -> Seq<nat> {
    Seq::new(hs.len(), |i: int| m.obj(hs[i]))
}

/// The locals of a function: the entries of its locals dictionary, or none.
pub open spec fn locals_of(objs: Map<nat, Obj>, o: nat) -> Seq<(PrimModel, nat)> {
    if objs[o] is Dict { objs[o]->Dict_0 } else { Seq::empty() }
}

/// The parameters of a function: the elements of its parameter array, or
/// none.
pub open spec fn params_of(objs: Map<nat, Obj>, o: nat) -> Seq<nat> {
    if objs[o] is Array { objs[o]->Array_0 } else { Seq::empty() }
}

/// Parameter object `p`, the `i`-th of a function called with `n`
/// arguments, is a pair whose first element is a name (with a second, the
/// default, where no argument is given for it), or a name alone, which takes
/// the arguments from its place on.
pub open spec fn param_ok(objs: Map<nat, Obj>, p: nat, i: int, n: int) -> bool {
    ||| (objs[p] is Array && objs[p]->Array_0.len() >= 1
        && objs[objs[p]->Array_0[0]] is Prim && objs[objs[p]->Array_0[0]]->Prim_0 is Str
        && (i >= n ==> objs[p]->Array_0.len() >= 2))
    ||| (objs[p] is Prim && objs[p]->Prim_0 is Str)
}

/// Function object `f` can be called with `n` arguments in heap `m`: its
/// parameters are nil or an array of well-formed parameters, its locals nil
/// or a dictionary.
pub open spec fn fun_callable(objs: Map<nat, Obj>, f: Obj, n: int) -> bool {
    &&& (crate::memory::obj_value(objs[f->Fun_1]) == ValueModel::Primitive(PrimModel::Nil) || objs[f->Fun_1] is Array)
    &&& forall|i: int| 0 <= i < params_of(objs, f->Fun_1).len() ==> param_ok(objs, #[trigger] params_of(objs, f->Fun_1)[i], i, n)
    &&& (crate::memory::obj_value(objs[f->Fun_2]) == ValueModel::Primitive(PrimModel::Nil) || objs[f->Fun_2] is Dict)
}

/// Binding `b` is what the `i`-th parameter `p` takes from the arguments
/// `args`: a pair's name bound to the `i`-th argument, or to the pair's
/// default where there are fewer arguments (arguments past the parameters
/// are left out); a lone name is bound too (the array of the remaining
/// arguments it takes is not described here).
pub open spec fn param_binding(objs: Map<nat, Obj>, p: nat, i: int, args: Seq<nat>, b: (PrimModel, nat)) -> bool {
    if objs[p] is Array {
        let pe = objs[p]->Array_0;
        b == (objs[pe[0]]->Prim_0, if i < args.len() { args[i] } else { pe[1] })
    } else {
        b.0 == objs[p]->Prim_0
    }
}

/// The bindings, in order, that calling function object `f` (the object
/// `car`) on argument objects `args` makes in the globals: its locals, then
/// its parameters, then its own name bound to the function.
pub open spec fn call_bindings(objs: Map<nat, Obj>, f: Obj, car: nat, args: Seq<nat>, bs: Seq<(PrimModel, nat)>) -> bool {
    let la = locals_of(objs, f->Fun_2);
    let ps = params_of(objs, f->Fun_1);
    let nm: int = if f->Fun_0 is Some { 1 } else { 0 };
    &&& bs.len() == la.len() + ps.len() + nm
    &&& forall|i: int| 0 <= i < la.len() ==> bs[i] == la[i]
    &&& forall|i: int| 0 <= i < ps.len() ==> #[trigger] param_binding(objs, ps[i], i, args, bs[la.len() + i])
    &&& (f->Fun_0 matches Some(s) ==> bs[bs.len() - 1] == (PrimModel::Str(s), car))
}

/// The function's locals dictionary is neither the globals nor the scope
/// that saves what the call replaces.
pub open spec fn locals_apart(m: MemoryModel, f: Obj, g: MemHandle, restore: Option<MemHandle>) -> bool {
    m.objs[f->Fun_2] is Dict ==> f->Fun_2 != m.obj(g) && (restore matches Some(x) ==> f->Fun_2 != m.obj(x))
}

/// Function `car` can be called on argument objects `args` in heap `m`,
/// saving what it replaces into scope `restore` (or a new one).
pub open spec fn call_fine(m: Memory, car: MemHandle, args: Seq<nat>, restore: Option<MemHandle>) -> bool {
    let mm = m@;
    let g = m.globals_handle();
    let f = mm.cell(car);
    &&& fun_callable(mm.objs, f, args.len() as int)
    &&& locals_apart(mm, f, g, restore)
    &&& restore matches Some(x) ==> restorable(mm, g, x)
}

/// Calling function `car` on argument objects `args`, saving into scope
/// `restore` (or a new one), from heap `m` to heap `m1`: where it went well
/// (`ok`), the globals are the old ones with the call's bindings made in
/// turn; it fails only on a function that cannot be called so, a saved
/// scope that cannot take the bindings, or a full heap.
pub open spec fn call_made(m: Memory, car: MemHandle, args: Seq<nat>, restore: Option<MemHandle>, m1: Memory, ok: bool) -> bool {
    let mm = m@;
    let g = m.globals_handle();
    let f = mm.cell(car);
    let fine = call_fine(m, car, args, restore);
    &&& ok && fine ==> exists|bs: Seq<(PrimModel, nat)>| #[trigger] call_bindings(mm.objs, f, mm.obj(car), args, bs)
        && m1.entries(g) == insert_all(m.entries(g), bs)
    &&& !ok ==> !fine || m1.full()
}

/// From heap `m0` to heap `m1`, only objects `a` and `b` may have changed:
/// every other object still there is as it was, and objects made since are
/// new identities.
pub open spec fn kept_but(m0: MemoryModel, m1: MemoryModel, a: nat, b: nat) -> bool {
    &&& m1.next >= m0.next
    &&& forall|o: nat| #[trigger] m1.objs.contains_key(o) ==> m0.objs.contains_key(o) || o >= m0.next
    &&& forall|o: nat| #[trigger] m1.objs.contains_key(o) && m0.objs.contains_key(o) && o != a && o != b
        ==> m1.objs[o] == m0.objs[o]
}

/// Changing only `a` and `b` twice is changing only them.
pub proof fn lemma_kept_but_trans(m0: MemoryModel, m1: MemoryModel, m2: MemoryModel, a: nat, b: nat)
    requires
        m0.ok(),
        kept_but(m0, m1, a, b),
        kept_but(m1, m2, a, b),
    ensures
        kept_but(m0, m2, a, b),
{
}

/// The saved scope `sr` can be put back: it is a dictionary other than the
/// globals.
pub open spec fn restorable(m: MemoryModel, g: MemHandle, sr: MemHandle) -> bool {
    m.cell(sr) is Dict && m.obj(sr) != m.obj(g)
}

/// Stack `s1` is `s0` with one more value, naming object `o` in heap `m1`,
/// for the line its top frame prepares.
pub open spec fn gave_parent(s0: Seq<Frame>, s1: Seq<Frame>, m1: MemoryModel, o: nat) -> bool {
    let p1 = s1.last().prepare@;
    &&& s1.len() == s0.len()
    &&& s1.drop_last() == s0.drop_last()
    &&& s1.last().fun == s0.last().fun
    &&& s1.last().line == s0.last().line
    &&& s1.last().want_return == s0.last().want_return
    &&& s1.last().scope_restore == s0.last().scope_restore
    &&& p1.len() == s0.last().prepare@.len() + 1
    &&& p1.drop_last() == s0.last().prepare@
    &&& m1.live(p1.last())
    &&& m1.obj(p1.last()) == o
}

/// What a word of a line evaluates to, in heap `m` whose globals are `g`:
/// the object a name is bound to, the object a quote quotes, or the word
/// itself. A call (an array) and an unbound name have none.
pub open spec fn word_result(m: MemoryModel, g: MemHandle, o: nat) -> Option<nat> {
    match m.objs[o] {
        Obj::Prim(PrimModel::Str(name)) => crate::memory::dict_lookup(m.cell(g)->Dict_0, PrimModel::Str(name)),
        Obj::Quote(t) => Some(t),
        Obj::Array(_, _) => None,
        _ => Some(o),
    }
}

/// The error for the unbound name that object `o` is, in code object `fun`
/// read from the sources named `tags`: where the code was read, then the
/// name.
pub open spec fn unbound_text(tags: Seq<String>, m: MemoryModel, fun: nat, o: nat) -> Seq<char> {
    located(tags_model(tags), if m.objs[fun] is Array { m.objs[fun]->Array_1 } else { position_unknown() },
        "Unrecognized variable: "@ + m.objs[o]->Prim_0->Str_0)
}

/// The word is a name that the globals `g` do not bind.
pub open spec fn unbound_word(m: MemoryModel, g: MemHandle, o: nat) -> bool {
    m.objs[o] is Prim && m.objs[o]->Prim_0 is Str && word_result(m, g, o) is None
}

/// Frame `f` runs code (an array) and is on one of its lines, which is an
/// array of items.
pub open spec fn on_a_line(m: MemoryModel, f: Frame) -> bool {
    &&& f.fun is Some
    &&& m.cell(f.fun.unwrap()) is Array
    &&& (f.line matches Some(l) ==> l < m.cell(f.fun.unwrap())->Array_0.len()
        && m.objs[m.cell(f.fun.unwrap())->Array_0[l as int]] is Array)
}

/// The first item of the line that frame `f` prepares with no value yet is
/// a name that the globals `g` do not bind.
pub open spec fn next_item_unbound(m: MemoryModel, g: MemHandle, f: Frame) -> bool {
    &&& on_a_line(m, f)
    &&& f.prepare@.len() < line_items(m, f).len()
    &&& unbound_word(m, g, line_items(m, f)[f.prepare@.len() as int])
}

/// Item `j` of the line that frame `f` prepares is a call (an array), and
/// every item before it that has no value yet has one to take.
pub open spec fn call_at(m: MemoryModel, g: MemHandle, f: Frame, j: int) -> bool {
    &&& on_a_line(m, f)
    &&& f.prepare@.len() <= j < line_items(m, f).len()
    &&& m.objs[line_items(m, f)[j]] is Array
    &&& forall|i: int| f.prepare@.len() <= i < j ==> #[trigger] word_result(m, g, line_items(m, f)[i]) is Some
}

/// A call met while the top frame of `s0` prepares its line, in heap `m0`
/// with globals `g`: the values are prepared left to right (the frame keeps
/// those it had, and each new one, after them, is what the item at its
/// place evaluates to), the new frame runs the first item of the line that
/// has no value yet, and no object of the heap changed.
pub open spec fn called_in_order(m0: MemoryModel, g: MemHandle, s0: Seq<Frame>, m1: MemoryModel, b: Seq<Frame>) -> bool {
    let n = s0.len() as int;
    let p0 = s0.last().prepare@;
    let p1 = b[n - 1].prepare@;
    &&& called_into(s0, b)
    &&& forall|j: int| p0.len() <= j < p1.len() ==> m1.live(#[trigger] p1[j])
        && word_result(m0, g, line_items(m0, s0.last())[j]) == Some(m1.obj(p1[j]))
    &&& m1.objs == m0.objs
    &&& p0.len() <= p1.len() < line_items(m0, s0.last()).len()
    &&& p1.subrange(0, p0.len() as int) == p0
    &&& m1.live(b[n].fun.unwrap())
    &&& m1.obj(b[n].fun.unwrap()) == line_items(m0, s0.last())[p1.len() as int]
}

/// The code a frame runs is among the handles the stack holds.
proof fn lemma_held_top_fun(s: Seq<Frame>)
    requires
        s.len() > 0,
        s.last().fun is Some,
    ensures
        exists|i: int| 0 <= i < held(s).len() && held(s)[i] == s.last().fun.unwrap(),
{
    let f = s.last();
    let k: int = held(s.drop_last()).len() as int + opt_handles(f.scope_restore).len() as int;
    assert(frame_handles(f)[opt_handles(f.scope_restore).len() as int] == f.fun.unwrap());
    assert(held(s)[k] == f.fun.unwrap());
}

/// A value that frame `s[k]` holds is among the handles the stack holds.
proof fn lemma_held_prepare(s: Seq<Frame>, k: int, j: int)
    requires
        0 <= k < s.len(),
        0 <= j < s[k].prepare@.len(),
    ensures
        exists|i: int| 0 <= i < held(s).len() && held(s)[i] == s[k].prepare@[j],
    decreases s.len(),
{
    let f = s.last();
    let hd = held(s.drop_last());
    assert(held(s) == hd + frame_handles(f));
    if k == s.len() - 1 {
        let off: int = opt_handles(f.scope_restore).len() as int + opt_handles(f.fun).len() as int;
        assert(frame_handles(f)[off + j] == f.prepare@[j]);
        assert(held(s)[hd.len() + off + j] == f.prepare@[j]);
    } else {
        assert(s.drop_last()[k] == s[k]);
        lemma_held_prepare(s.drop_last(), k, j);
        let i = choose|i: int| 0 <= i < hd.len() && hd[i] == s.drop_last()[k].prepare@[j];
        assert(held(s)[i] == hd[i]);
    }
}

/// Handing values to the top frame twice is handing it values.
proof fn lemma_frames_kept_trans(a: Seq<Frame>, b: Seq<Frame>, c: Seq<Frame>)
    requires
        frames_kept(a, b),
        frames_kept(b, c),
    ensures
        frames_kept(a, c),
{
    assert forall|k: int| 0 <= k < a.len() - 1 implies #[trigger] c[k] == a[k] by {
        assert(b[k] == a[k]);
    }
}

/// A stack keeps its frames.
proof fn lemma_frames_kept_refl(a: Seq<Frame>)
    ensures
        frames_kept(a, a),
{
}

/// Handing a value to the top frame keeps the frames.
proof fn lemma_frames_kept_give(a: Seq<Frame>, b: Seq<Frame>)
    requires
        a.len() == b.len(),
        a.len() > 0,
        b.drop_last() == a.drop_last(),
        b.last().fun == a.last().fun,
        b.last().line == a.last().line,
        b.last().want_return == a.last().want_return,
        b.last().scope_restore == a.last().scope_restore,
    ensures
        frames_kept(a, b),
{
    assert forall|k: int| 0 <= k < a.len() - 1 implies #[trigger] b[k] == a[k] by {
        assert(b.drop_last()[k] == b[k]);
        assert(a.drop_last()[k] == a[k]);
    }
}

/// Preparing only handed the top frame more values, so what running its line
/// did to the stack holds of the stack before as well.
proof fn lemma_prepared_then(s0: Seq<Frame>, s1: Seq<Frame>, b: Seq<Frame>, last: bool)
    requires
        s0.len() > 0,
        frames_kept(s0, s1),
        !last ==> went_to_next_line(s1, b),
        last ==> left_frame(s1, b),
    ensures
        !last ==> went_to_next_line(s0, b),
        last ==> left_frame(s0, b),
{
    let n = s0.len() as int;
    assert forall|k: int| 0 <= k < n - 1 implies #[trigger] b[k] == s0[k] || last by {
        if !last {
            assert(s1[k] == s0[k]);
        }
    }
    if last {
        assert forall|k: int| 0 <= k < n - 2 implies #[trigger] b[k] == s0[k] by {
            assert(s1[k] == s0[k]);
        }
        if n >= 2 {
            assert(s1[n - 2] == s0[n - 2]);
        }
    }
}

impl Eval {
    /// Executes the line prepared in the top frame. Where `execute` is
    /// false the line was a lone value, which is its own value. Where
    /// `returning` is false the frame goes on with its next line.
    #[verifier::rlimit(100)]
    #[verifier::spinoff_prover]
    fn execute_top(&mut self, execute: bool, returning_in: bool) -> (r: Step)
        requires
            old(self).owned_ok(Seq::empty()),
            old(self).pending is None,
        ensures
            final(self).inv(),
            (r is Io) == (final(self).pending is Some),
            r matches Step::Io(req) && touches_files(req) ==> old(self).file_allow,
            final(self).file_allow == old(self).file_allow,
            !(r is Failed) ==> old(self).stack@.len() > 0,
            !(r is Failed) && !returning_in ==> went_to_next_line(old(self).stack@, final(self).stack@),
            !(r is Failed) && returning_in ==> left_frame(old(self).stack@, final(self).stack@),
            !(r is Failed) && returning_in && old(self).stack@.last().fun is Some
                && final(self).stack@.len() == old(self).stack@.len()
                ==> final(self).stack@.last().fun != old(self).stack@.last().fun,
            execute && old(self).stack@.len() > 0 && line_builtin(old(self).memory@, old(self).stack@.last()) is Some
                && (returning_in || (old(self).stack@.last().line matches Some(n) && n < usize::MAX))
                ==> exists|m0: Memory, m1: Memory, out: Outcome, s1: Seq<Frame>|
                    #![trigger builtin_spec(line_builtin(old(self).memory@, old(self).stack@.last()).unwrap(),
                        old(self).source_tag@, old(self).file_allow, m0, m1, old(self).stack@.last().prepare@.drop_first(), out),
                        exec_base(old(self).stack@, s1, returning_in)]
                    ran_line(old(self).memory, old(self).stack@, old(self).source_tag@, old(self).file_allow, returning_in,
                        m0, m1, out, s1, *final(self), r),
            execute && old(self).stack@.len() > 0 && old(self).stack@.last().prepare@.len() >= 1
                && (old(self).memory@.cell(old(self).stack@.last().prepare@[0]) is Array
                    || old(self).memory@.cell(old(self).stack@.last().prepare@[0]) is Fun)
                && (returning_in || (old(self).stack@.last().line matches Some(n) && n < usize::MAX))
                ==> exists|s1: Seq<Frame>| #[trigger] ran_call(old(self).memory, old(self).stack@, returning_in, s1, *final(self), r),
            !execute && old(self).stack@.len() > 0
                && (returning_in || (old(self).stack@.last().line matches Some(n) && n < usize::MAX))
                && (returning_in && old(self).stack@.last().want_return ==> old(self).stack@.last().prepare@.len() >= 1)
                ==> exists|s1: Seq<Frame>| #[trigger] ran_value(old(self).memory, old(self).stack@, returning_in, s1, *final(self), r),
    {
        let mut tmp: Vec<MemHandle> = Vec::new();
        let f = match self.pop_frame(&mut tmp) {
            Some(f) => f,
            None => return self.fail_with(&tmp, internal_error()),
        };
        let ghost t0 = tmp@;
        proof {
            assert(t0 =~= Seq::<MemHandle>::empty() + frame_handles(f));
            let base = opt_handles(f.scope_restore).len() + opt_handles(f.fun).len();
            assert forall|k: int| 0 <= k < f.prepare@.len() implies t0.contains(#[trigger] f.prepare@[k]) by {
                assert(t0[base + k] == f.prepare@[k]);
            }
            match f.scope_restore {
                Some(h) => assert(t0[0] == h),
                None => {},
            }
            match f.fun {
                Some(h) => assert(t0[opt_handles(f.scope_restore).len() as int] == h),
                None => {},
            }
        }
        let mut restore: Option<MemHandle> = None;
        if returning_in {
            restore = f.scope_restore;
        } else {
            let n = match f.line {
                Some(n) => n,
                None => return self.fail_with(&tmp, internal_error()),
            };
            if n == usize::MAX {
                return self.fail_with(&tmp, internal_error());
            }
            proof {
                match f.scope_restore {
                    Some(h) => self.lemma_tmp_contains(tmp@, h),
                    None => {},
                }
                match f.fun {
                    Some(h) => self.lemma_tmp_contains(tmp@, h),
                    None => {},
                }
            }
            self.push_frame(f.want_return, f.scope_restore, f.fun, Some(n + 1), &[], Ghost(tmp@));
        }
        let ghost s1 = self.stack@;
        proof {
            assert(f == old(self).stack@.last());
            assert(exec_base(old(self).stack@, s1, returning_in));
        }
        let returning = returning_in && f.want_return;
        if !execute {
            if returning {
                if f.prepare.len() >= 1 {
                    let r = self.finish(restore, Some(f.prepare[0]), tmp);
                    proof {
                        lemma_exec_result(old(self).stack@, s1, self.stack@, returning_in);
                        assert(ran_value(old(self).memory, old(self).stack@, returning_in, s1, *self, r));
                    }
                    return r;
                } else {
                    return self.fail_with(&tmp, internal_error());
                }
            }
            let r = self.finish(restore, None, tmp);
            proof {
                lemma_exec_result(old(self).stack@, s1, self.stack@, returning_in);
                assert(ran_value(old(self).memory, old(self).stack@, returning_in, s1, *self, r));
            }
            return r;
        }
        if f.prepare.len() == 0 {
            if returning {
                let ghost t1 = tmp@;
                match self.m_nil(Ghost(tmp@)) {
                    Ok(h) => {
                        tmp.push(h);
                        proof {
                            lemma_prefix_push(t1, h);
                            match restore {
                                Some(x) => lemma_prefix_contains(t1, tmp@, x),
                                None => {},
                            }
                        }
                        {
                    let r = self.finish(restore, Some(h), tmp);
                    proof { lemma_exec_result(old(self).stack@, s1, self.stack@, returning_in); }
                    return r;
                }
                    },
                    Err(e) => return self.fail_with(&tmp, e),
                }
            }
            {
                    let r = self.finish(restore, None, tmp);
                    proof { lemma_exec_result(old(self).stack@, s1, self.stack@, returning_in); }
                    return r;
                }
        }
        let car = f.prepare[0];
        let mut cdr: Vec<MemHandle> = Vec::new();
        let mut i: usize = 1;
        while i < f.prepare.len()
            invariant
                1 <= i <= f.prepare@.len(),
                cdr@.len() == i - 1,
                forall|k: int| 0 <= k < cdr@.len() ==> #[trigger] cdr@[k] == f.prepare@[k + 1],
            decreases f.prepare@.len() - i,
        {
            cdr.push(f.prepare[i]);
            i = i + 1;
        }
        proof {
            assert forall|k: int| 0 <= k < cdr@.len() implies tmp@.contains(#[trigger] cdr@[k]) by {
                assert(cdr@[k] == f.prepare@[k + 1]);
            }
            assert(tmp@.contains(car));
            self.lemma_tmp_contains(tmp@, car);
            assert forall|k: int| 0 <= k < cdr@.len() implies self.memory@.live(#[trigger] cdr@[k]) by {
                self.lemma_tmp_contains(tmp@, cdr@[k]);
            }
        }
        let v = self.memory.value(car);
        proof {
            old(self).memory.lemma_ok();
            let s0 = old(self).stack@;
            lemma_held_prepare(s0, s0.len() - 1, 0);
            let q = choose|q: int| 0 <= q < held(s0).len() && held(s0)[q] == s0[s0.len() - 1].prepare@[0];
            assert((held(s0) + Seq::<MemHandle>::empty())[q] == held(s0)[q]);
            assert(old(self).memory@.live(car));
            assert(handles_kept(old(self).memory@, self.memory@));
            lemma_handles_kept_self(old(self).memory@, self.memory@, car);
            assert(self.memory@.cell(car) == old(self).memory@.cell(car));
        }
        match v {
            Value::Primitive(Primitive::Builtin(b)) => {
                let ghost m0 = self.memory;
                let ghost e0 = *self;
                proof {
                    assert(cdr@ =~= f.prepare@.drop_first());
                    old(self).memory.lemma_ok();
                    lemma_handles_kept_refl(old(self).memory@);
                    assert(handles_kept(old(self).memory@, m0@));
                }
                let outcome = call_builtin(&mut self.memory, &self.source_tag, self.file_allow, b, cdr.as_slice());
                proof {
                    assert(builtin_spec(b, self.source_tag@, self.file_allow, m0, self.memory, cdr@, outcome));
                    assert(self.source_tag@ == old(self).source_tag@);
                    assert(b == line_builtin(old(self).memory@, old(self).stack@.last()).unwrap());
                    let g = m0.globals_handle();
                    lemma_handles_ok_kept(m0@, self.memory@, g, held(self.stack@) + tmp@);
                    match outcome {
                        Outcome::Done(Ok(ref ret)) => {
                            lemma_handles_append_fresh(m0@, self.memory@, g, held(self.stack@) + tmp@, return_handles(*ret));
                            assert(held(self.stack@) + tmp@ + return_handles(*ret) =~= held(self.stack@) + (tmp@ + return_handles(*ret)));
                        },
                        _ => {},
                    }
                }
                match outcome {
                    Outcome::Io(req) => {
                        self.pending = Some(Pending { call: b, returning, restore, fun: f.fun, tmp });
                        proof {
                            lemma_exec_result(old(self).stack@, s1, self.stack@, returning_in);
                            assert(ran_line(old(self).memory, old(self).stack@, old(self).source_tag@, old(self).file_allow,
                                returning_in, m0, self.memory, outcome, s1, *self, Step::Io(req)));
                        }
                        return Step::Io(req);
                    },
                    Outcome::Done(res) => {
                        let ghost m1 = self.memory;
                        let r = self.finish_builtin(res, returning, restore, f.fun, tmp);
                        proof {
                            lemma_exec_result(old(self).stack@, s1, self.stack@, returning_in);
                            assert(ran_line(old(self).memory, old(self).stack@, old(self).source_tag@, old(self).file_allow,
                                returning_in, m0, m1, outcome, s1, *self, r));
                        }
                        return r;
                    },
                }
            },
            Value::Array => {
                proof {
                    match restore {
                        Some(h) => self.lemma_tmp_contains(tmp@, h),
                        None => {},
                    }
                }
                let ghost mb = self.memory@;
                self.push_frame(returning, restore, Some(car), Some(0), &[], Ghost(tmp@));
                let ghost sp = self.stack@;
                let ghost mp = self.memory@;
                proof {
                    match f.fun {
                        Some(x) => {
                            assert(tmp@.contains(x));
                            self.lemma_top_fun_apart(tmp@, x);
                        },
                        None => {},
                    }
                }
                {
                    let r = self.finish(None, None, tmp);
                    proof {
                        lemma_exec_result(old(self).stack@, s1, self.stack@, returning_in);
                        lemma_held_top_fun(sp);
                        let q = choose|q: int| 0 <= q < held(sp).len() && held(sp)[q] == sp.last().fun.unwrap();
                        self.lemma_fun_kept(sp, mp, q);
                        assert(ran_call(old(self).memory, old(self).stack@, returning_in, s1, *self, r));
                    }
                    return r;
                }
            },
            Value::Fun => {
                let ghost mc = self.memory;
                proof {
                    assert(cdr@ =~= f.prepare@.drop_first());
                    old(self).memory.lemma_globals();
                    assert forall|k: int| 0 <= k < cdr@.len() implies old(self).memory@.live(#[trigger] cdr@[k]) by {
                        let s0 = old(self).stack@;
                        lemma_held_prepare(s0, s0.len() - 1, k + 1);
                        let q = choose|q: int| 0 <= q < held(s0).len() && held(s0)[q] == s0[s0.len() - 1].prepare@[k + 1];
                        assert((held(s0) + Seq::<MemHandle>::empty())[q] == held(s0)[q]);
                    }
                    assert(handle_objs(mc@, cdr@) =~= handle_objs(old(self).memory@, cdr@)) by {
                        assert forall|k: int| 0 <= k < cdr@.len() implies mc@.obj(cdr@[k]) == old(self).memory@.obj(cdr@[k]) by {
                            lemma_handles_kept_self(old(self).memory@, mc@, cdr@[k]);
                        }
                    }
                    match restore {
                        Some(x) => {
                            let s0 = old(self).stack@;
                            assert(held(s0) == held(s0.drop_last()) + frame_handles(s0.last()));
                            assert(frame_handles(s0.last())[0] == x);
                            assert((held(s0) + Seq::<MemHandle>::empty())[held(s0.drop_last()).len() as int] == x);
                        },
                        None => {},
                    }
                }
                let rc = self.call_fun(car, &cdr, returning, restore, &mut tmp);
                let ghost m1c = self.memory;
                match rc {
                    Ok(()) => {
                        let ghost sp = self.stack@;
                        let ghost mp = self.memory@;
                        proof {
                            match f.fun {
                                Some(x) => {
                                    assert(tmp@.contains(x));
                                    self.lemma_top_fun_apart(tmp@, x);
                                },
                                None => {},
                            }
                        }
                        let r = self.finish(None, None, tmp);
                        proof {
                            lemma_exec_result(old(self).stack@, s1, self.stack@, returning_in);
                            lemma_held_top_fun(sp);
                            let q = choose|q: int| 0 <= q < held(sp).len() && held(sp)[q] == sp.last().fun.unwrap();
                            self.lemma_fun_kept(sp, mp, q);
                            lemma_call_made_moved(old(self).memory, mc, car, handle_objs(old(self).memory@, cdr@), restore,
                                m1c, self.memory, true);
                            assert(ran_call(old(self).memory, old(self).stack@, returning_in, s1, *self, r));
                        }
                        return r;
                    },
                    Err(e) => {
                        let r = self.fail_with(&tmp, e);
                        proof {
                            lemma_call_made_moved(old(self).memory, mc, car, handle_objs(old(self).memory@, cdr@), restore,
                                m1c, self.memory, false);
                            assert(ran_call(old(self).memory, old(self).stack@, returning_in, s1, *self, r));
                        }
                        return r;
                    },
                }
            },
            _ => {
                proof {
                    match f.fun {
                        Some(h) => self.lemma_tmp_contains(tmp@, h),
                        None => {},
                    }
                }
                let mut text = "Tried to execute non-function: ".to_owned();
                text.append(v.debug_text().as_str());
                let err = self.located_error(f.fun, &text, Ghost(tmp@));
                return self.fail_with(&tmp, err);
            },
        }
    }
}

impl Eval {
    /// The value of a word of a line: what the globals bind a name to, what
    /// a quote quotes, the word itself for anything else. For a call (an
    /// array) there is none: it is to be run first.
    fn word_value(&mut self, item: MemHandle, fun: MemHandle, tmp: &mut Vec<MemHandle>) -> (r: Result<Option<MemHandle>, Step>)
        requires
            old(self).owned_ok(old(tmp)@),
            old(self).pending is None,
            old(self).memory@.live(item),
            old(self).memory@.live(fun),
        ensures
            final(self).pending is None,
            final(self).stack == old(self).stack,
            final(self).file_allow == old(self).file_allow,
            r matches Err(st) ==> st is Failed,
            r matches Ok(Some(v)) ==> final(self).owned_ok(final(tmp)@.push(v)) && final(tmp)@ == old(tmp)@,
            r matches Ok(None) ==> final(self).owned_ok(final(tmp)@) && final(tmp)@ == old(tmp)@
                && old(self).memory@.cell(item) is Array && final(self).memory == old(self).memory,
            r is Ok ==> final(self).memory@.objs == old(self).memory@.objs
                && handles_kept(old(self).memory@, final(self).memory@)
                && final(self).memory.globals_handle() == old(self).memory.globals_handle()
                && final(self).source_tag == old(self).source_tag,
            r matches Ok(Some(v)) ==> word_result(old(self).memory@, old(self).memory.globals_handle(),
                old(self).memory@.obj(item)) == Some(final(self).memory@.obj(v)) && final(self).memory@.live(v),
            r matches Ok(None) ==> word_result(old(self).memory@, old(self).memory.globals_handle(),
                old(self).memory@.obj(item)) is None,
            r is Err <==> unbound_word(old(self).memory@, old(self).memory.globals_handle(), old(self).memory@.obj(item)),
            r matches Err(st) ==> (st matches Step::Failed(e) && e.message@ == unbound_text(old(self).source_tag@,
                old(self).memory@, old(self).memory@.obj(fun), old(self).memory@.obj(item))),
            r is Err ==> final(self).inv(),
    {
        proof {
            old(self).memory.lemma_ok();
            lemma_handles_kept_refl(old(self).memory@);
        }
        let r = match self.memory.value(item) {
            Value::Primitive(Primitive::String(name)) => {
                let g = self.memory.globals();
                proof {
                    self.memory.lemma_globals();
                }
                let key = Primitive::String(name);
                assert(key.model() == old(self).memory@.cell(item)->Prim_0);
                match self.m_dict_get(g, &key, Ghost(tmp@)) {
                    Some(x) => Ok(Some(x)),
                    None => {
                        let mut text = "Unrecognized variable: ".to_owned();
                        proof {
                            reveal_strlit("Unrecognized variable: ");
                        }
                        match key {
                            Primitive::String(n) => text.append(n.as_str()),
                            _ => {},
                        }
                        proof {
                            lemma_handles_kept_self(old(self).memory@, self.memory@, fun);
                        }
                        let err = self.located_error(Some(fun), &text, Ghost(tmp@));
                        proof {
                            assert(text@ == "Unrecognized variable: "@ + old(self).memory@.cell(item)->Prim_0->Str_0);
                            assert(self.memory@.cell(fun) == old(self).memory@.cell(fun));
                            assert(self.source_tag == old(self).source_tag);
                        }
                        Err(self.fail_with(tmp, err))
                    },
                }
            },
            Value::Quote => Ok(Some(self.m_quote_get(item, Ghost(tmp@)))),
            Value::Array => Ok(None),
            _ => Ok(Some(self.m_copy(item, Ghost(tmp@)))),
        };
        proof {
            match r {
                Ok(Some(v)) => {
                    self.lemma_tmp_live(tmp@.push(v), tmp@.len() as int);
                },
                _ => {},
            }
        }
        r
    }

    /// The top frame is on the last line of its code (or runs a line handed
    /// back by a builtin).
    spec fn on_last_line(&self) -> bool {
        let f = self.stack@.last();
        match f.line {
            None => true,
            Some(l) => f.fun matches Some(h) && l + 1 >= self.memory.elems(h).len(),
        }
    }

    /// Turns the next words of the line that the top frame is on into
    /// values, in order. A call among them puts a frame for it on the stack;
    /// a line whose values are all there is executed.
    fn prepare_step(&mut self) -> (r: Step)
        requires
            old(self).owned_ok(Seq::empty()),
            old(self).pending is None,
            old(self).stack@.len() > 0,
        ensures
            final(self).inv(),
            (r is Io) == (final(self).pending is Some),
            r matches Step::Io(req) && touches_files(req) ==> old(self).file_allow,
            final(self).file_allow == old(self).file_allow,
            next_item_unbound(old(self).memory@, old(self).memory.globals_handle(), old(self).stack@.last()) ==> r is Failed,
            next_item_unbound(old(self).memory@, old(self).memory.globals_handle(), old(self).stack@.last())
                ==> (r matches Step::Failed(e) && e.message@ == unbound_text(old(self).source_tag@, old(self).memory@,
                    old(self).memory@.obj(old(self).stack@.last().fun.unwrap()),
                    line_items(old(self).memory@, old(self).stack@.last())[old(self).stack@.last().prepare@.len() as int])),
            line_complete(old(self).memory@, old(self).memory.globals_handle(), old(self).stack@.last())
                && starts_with_builtin(old(self).memory@, line_objs(old(self).memory@, old(self).memory.globals_handle(), old(self).stack@.last()))
                ==> exists|mid: Memory, sp: Seq<Frame>, m0: Memory, m1: Memory, out: Outcome, s1: Seq<Frame>|
                    #[trigger] ran_prepared(old(self).memory, old(self).stack@, old(self).source_tag@, old(self).file_allow,
                        old(self).on_last_line(), mid, sp, m0, m1, out, s1, *final(self), r),
            line_complete(old(self).memory@, old(self).memory.globals_handle(), old(self).stack@.last())
                && starts_with_call(old(self).memory@, line_objs(old(self).memory@, old(self).memory.globals_handle(), old(self).stack@.last()))
                ==> exists|mid: Memory, sp: Seq<Frame>, s1: Seq<Frame>|
                    #[trigger] called_prepared(old(self).memory, old(self).stack@, old(self).on_last_line(), mid, sp, s1, *final(self), r),
            lone_value(old(self).memory@, old(self).memory.globals_handle(), old(self).stack@.last())
                ==> exists|mid: Memory, sp: Seq<Frame>, s1: Seq<Frame>|
                    #[trigger] took_value(old(self).memory, old(self).stack@, old(self).on_last_line(), mid, sp, s1, *final(self), r),
            forall|j: int| call_at(old(self).memory@, old(self).memory.globals_handle(), old(self).stack@.last(), j)
                ==> r is Running && final(self).stack@.len() == old(self).stack@.len() + 1
                    && final(self).stack@[old(self).stack@.len() - 1].prepare@.len() == j,
            !(r is Failed) ==> called_in_order(old(self).memory@, old(self).memory.globals_handle(), old(self).stack@,
                final(self).memory@, final(self).stack@)
                || (!old(self).on_last_line() && went_to_next_line(old(self).stack@, final(self).stack@))
                || (old(self).on_last_line() && left_frame(old(self).stack@, final(self).stack@)
                    && (final(self).stack@.len() == old(self).stack@.len()
                        ==> final(self).stack@.last().fun != old(self).stack@.last().fun)),
    {
        let mut tmp: Vec<MemHandle> = Vec::new();
        let top = self.stack.len() - 1;
        let fun = match self.stack[top].fun {
            Some(h) => h,
            None => return self.fail_with(&tmp, internal_error()),
        };
        let line_num = self.stack[top].line;
        proof {
            self.lemma_top_fun_live(tmp@);
        }
        match self.memory.value(fun) {
            Value::Array => {},
            _ => return self.fail_with(&tmp, internal_error()),
        }
        let fun_len = self.memory.array_len(fun);
        let (line, line_len, is_final) = match line_num {
            Some(n) => {
                if fun_len == 0 {
                    let text = "Executing empty function".to_owned();
                    let err = self.located_error(Some(fun), &text, Ghost(tmp@));
                    return self.fail_with(&tmp, err);
                }
                let l = match self.m_array_get(fun, n, Ghost(tmp@)) {
                    Some(l) => l,
                    None => return self.fail_with(&tmp, internal_error()),
                };
                tmp.push(l);
                proof {
                    self.lemma_tmp_live(tmp@, 0);
                }
                let len = match self.memory.value(l) {
                    Value::Array => Some(self.memory.array_len(l)),
                    _ => None,
                };
                (l, len, n >= fun_len - 1)
            },
            None => (fun, Some(fun_len), true),
        };
        let ghost t0 = tmp@;
        proof {
            assert(is_final == old(self).on_last_line());
            assert(self.stack == old(self).stack);
            lemma_frames_kept_refl(old(self).stack@);
            if line_num is Some {
                assert(t0[0] == line);
            }
        }
        match line_len {
            None => {
                proof {
                    self.lemma_tmp_live(tmp@, 0);
                    self.lemma_top_fun_live(tmp@);
                    assert(!next_item_unbound(old(self).memory@, old(self).memory.globals_handle(), old(self).stack@.last()));
                    assert(!on_a_line(old(self).memory@, old(self).stack@.last()));
                }
                let ghost mw = self.memory@;
                let ghost hyp = lone_value(old(self).memory@, old(self).memory.globals_handle(), old(self).stack@.last());
                proof {
                    if hyp {
                        old(self).memory.lemma_globals();
                        assert(old(self).memory@.live(fun));
                        lemma_handles_kept_self(old(self).memory@, mw, fun);
                        lemma_handles_kept_self(old(self).memory@, mw, old(self).memory.globals_handle());
                        assert(mw.obj(line) == old(self).memory.elems(fun)[line_num.unwrap() as int]);
                        assert(mw.handles[old(self).memory.globals_handle().idx as int]
                            == old(self).memory@.handles[old(self).memory.globals_handle().idx as int]);
                        let c = old(self).memory.elems(fun)[line_num.unwrap() as int];
                        assert(word_result(mw, old(self).memory.globals_handle(), mw.obj(line)) == word_result(old(self).memory@,
                            old(self).memory.globals_handle(), c));
                        assert(!unbound_word(mw, old(self).memory.globals_handle(), mw.obj(line)));
                    }
                }
                match self.word_value(line, fun, &mut tmp) {
                    Err(st) => st,
                    Ok(None) => self.fail_with(&tmp, internal_error()),
                    Ok(Some(v)) => {
                        let ghost sa = self.stack@;
                        if !self.give_parent(v, Ghost(tmp@)) {
                            tmp.push(v);
                            return self.fail_with(&tmp, internal_error());
                        }
                        proof {
                            lemma_frames_kept_give(sa, self.stack@);
                        }
                        let ghost m_pre = self.memory@;
                        let ghost s_pre = self.stack@;
                        self.m_release(&tmp);
                        let ghost s1 = self.stack@;
                        let ghost mid = self.memory;
                        proof {
                            if hyp {
                                let n = s_pre.len() as int;
                                lemma_held_prepare(s_pre, n - 1, 0);
                                let q = choose|q: int| 0 <= q < held(s_pre).len() && held(s_pre)[q] == s_pre[n - 1].prepare@[0];
                                assert(mid@.handles[held(s_pre)[q].idx as int] == m_pre.handles[held(s_pre)[q].idx as int]);
                                assert(s1.drop_last() =~= old(self).stack@.drop_last());
                            }
                        }
                        let r = self.execute_top(false, is_final);
                        proof {
                            if !(r is Failed) {
                                lemma_prepared_then(old(self).stack@, s1, self.stack@, is_final);
                            }
                            if hyp {
                                let w = choose|s1x: Seq<Frame>| ran_value(mid, s1, is_final, s1x, *self, r);
                                assert(took_value(old(self).memory, old(self).stack@, old(self).on_last_line(), mid, s1, w, *self, r));
                            }
                        }
                        r
                    },
                }
            },
            Some(len) => {
                let ghost s_len = self.stack@.len();
                let ghost below = self.stack@.drop_last();
                let ghost p0 = old(self).stack@.last().prepare@;
                let ghost g0 = old(self).memory.globals_handle();
                let ghost items = line_items(old(self).memory@, old(self).stack@.last());
                proof {
                    assert(old(self).memory@.live(fun));
                    old(self).memory.lemma_globals();
                    old(self).memory.lemma_ok();
                    if line_num is None {
                        lemma_handles_kept_refl(old(self).memory@);
                    }
                    if line_num is Some {
                        assert(t0.contains(line));
                        self.lemma_tmp_contains(tmp@, line);
                    } else {
                        self.lemma_top_fun_live(tmp@);
                    }
                    assert(self.memory.elems(line) == line_items(old(self).memory@, old(self).stack@.last()));
                    assert(!lone_value(old(self).memory@, old(self).memory.globals_handle(), old(self).stack@.last()));
                }
                let mut call: Option<MemHandle> = None;
                loop
                    invariant
                        self.file_allow == old(self).file_allow,
                        self.owned_ok(tmp@),
                        self.pending is None,
                        self.stack@.len() == s_len,
                        s_len > 0,
                        top == s_len - 1,
                        self.stack@.last().fun == Some(fun),
                        prefix(t0, tmp@),
                        line_num is Some ==> t0.len() >= 1 && t0[0] == line,
                        line_num is None ==> line == fun,
                        call matches Some(c) ==> tmp@.contains(c),
                        frames_kept(old(self).stack@, self.stack@),
                        old(self).stack@.len() == s_len,
                        is_final == old(self).on_last_line(),
                        self.memory@.objs == old(self).memory@.objs,
                        self.memory@.live(line),
                        self.memory.elems(line) == line_items(old(self).memory@, old(self).stack@.last()),
                        len == self.memory.elems(line).len(),
                        p0 == old(self).stack@.last().prepare@,
                        self.stack@.last().prepare@.len() >= p0.len(),
                        self.stack@.last().prepare@.subrange(0, p0.len() as int) == p0,
                        g0 == old(self).memory.globals_handle(),
                        self.memory.globals_handle() == g0,
                        next_item_unbound(old(self).memory@, g0, old(self).stack@.last())
                            ==> call is None && self.stack@.last().prepare@.len() == p0.len(),
                        self.memory@.cell(line) is Array,
                        self.source_tag == old(self).source_tag,
                        old(self).memory@.live(fun),
                        !lone_value(old(self).memory@, g0, old(self).stack@.last()),
                        line_complete(old(self).memory@, g0, old(self).stack@.last())
                            ==> call is None && self.stack@.last().prepare@.len() <= len,
                        forall|j: int| call_at(old(self).memory@, g0, old(self).stack@.last(), j)
                            ==> self.stack@.last().prepare@.len() <= j
                                && (call is Some ==> self.stack@.last().prepare@.len() == j),
                        old(self).memory@.live(g0),
                        items == line_items(old(self).memory@, old(self).stack@.last()),
                        handles_kept(old(self).memory@, self.memory@),
                        forall|j: int| p0.len() <= j < self.stack@.last().prepare@.len()
                            ==> self.memory@.live(#[trigger] self.stack@.last().prepare@[j])
                                && word_result(old(self).memory@, g0, items[j]) == Some(self.memory@.obj(self.stack@.last().prepare@[j])),
                        call matches Some(c) ==> self.memory@.live(c) && self.stack@.last().prepare@.len() < len
                            && self.memory@.obj(c) == self.memory.elems(line)[self.stack@.last().prepare@.len() as int],
                    ensures
                        call is Some || self.stack@.last().prepare@.len() >= len,
                    decreases len - self.stack@.last().prepare@.len(), (if call is None { 1int } else { 0int }),
                {
                    if call.is_some() {
                        break;
                    }
                    let k = self.stack[top].prepare.len();
                    if k >= len {
                        break;
                    }
                    let ghost t1 = tmp@;
                    proof {
                        self.lemma_top_fun_live(tmp@);
                        if line_num is Some {
                            assert(t0.contains(line));
                            lemma_prefix_contains(t0, tmp@, line);
                            self.lemma_tmp_contains(tmp@, line);
                        }
                    }
                    match self.memory.value(line) {
                        Value::Array => {},
                        _ => return self.fail_with(&tmp, internal_error()),
                    }
                    let ghost ma = self.memory@;
                    let it = match self.m_array_get(line, k, Ghost(tmp@)) {
                        Some(it) => it,
                        None => return self.fail_with(&tmp, internal_error()),
                    };
                    proof {
                        lemma_handles_kept_self(ma, self.memory@, line);
                        lemma_handles_kept_trans(old(self).memory@, ma, self.memory@);
                        assert forall|j: int| p0.len() <= j < self.stack@.last().prepare@.len()
                            implies self.memory@.live(#[trigger] self.stack@.last().prepare@[j])
                                && self.memory@.obj(self.stack@.last().prepare@[j]) == ma.obj(self.stack@.last().prepare@[j]) by {
                            lemma_handles_kept_self(ma, self.memory@, self.stack@.last().prepare@[j]);
                        }
                    }
                    tmp.push(it);
                    proof {
                        lemma_prefix_push(t1, it);
                        lemma_prefix_trans(t0, t1, tmp@);
                        self.lemma_tmp_contains(tmp@, it);
                        self.lemma_top_fun_live(tmp@);
                    }
                    let ghost t2 = tmp@;
                    let ghost mw = self.memory@;
                    proof {
                        self.lemma_tmp_contains(tmp@, it);
                        assert(mw.handles[g0.idx as int] == old(self).memory@.handles[g0.idx as int]);
                        assert(word_result(mw, g0, mw.obj(it)) == word_result(old(self).memory@, g0, items[k as int]));
                        assert(unbound_word(mw, g0, mw.obj(it)) == unbound_word(old(self).memory@, g0, items[k as int]));
                    }
                    proof {
                        self.lemma_top_fun_live(tmp@);
                        lemma_handles_kept_self(old(self).memory@, mw, fun);
                    }
                    match self.word_value(it, fun, &mut tmp) {
                        Err(st) => {
                            proof {
                                assert(mw.obj(fun) == old(self).memory@.obj(old(self).stack@.last().fun.unwrap()));
                            }
                            return st;
                        },
                        Ok(None) => {
                            call = Some(it);
                        },
                        Ok(Some(v)) => {
                            proof {
                                lemma_handles_kept_self(mw, self.memory@, line);
                                lemma_handles_kept_trans(old(self).memory@, mw, self.memory@);
                                assert forall|j: int| p0.len() <= j < self.stack@.last().prepare@.len()
                                    implies self.memory@.live(#[trigger] self.stack@.last().prepare@[j])
                                        && self.memory@.obj(self.stack@.last().prepare@[j]) == mw.obj(self.stack@.last().prepare@[j]) by {
                                    lemma_handles_kept_self(mw, self.memory@, self.stack@.last().prepare@[j]);
                                }
                                assert(mw.handles[g0.idx as int] == old(self).memory@.handles[g0.idx as int]);
                                assert(word_result(mw, g0, mw.obj(it)) == word_result(old(self).memory@, g0, items[k as int]));
                            }
                            let ghost sa = self.stack@;
                            if !self.give_parent(v, Ghost(tmp@)) {
                                tmp.push(v);
                                return self.fail_with(&tmp, internal_error());
                            }
                            proof {
                                lemma_frames_kept_give(sa, self.stack@);
                                lemma_frames_kept_trans(old(self).stack@, sa, self.stack@);
                                assert(self.stack@.last().prepare@.subrange(0, p0.len() as int)
                                    =~= sa.last().prepare@.subrange(0, p0.len() as int));
                            }
                        },
                    }
                }
                match call {
                    Some(c) => {
                        proof {
                            self.lemma_tmp_contains(tmp@, c);
                        }
                        let ghost sa = self.stack@;
                        let ghost mc = self.memory@;
                        self.push_frame(true, None, Some(c), None, &[], Ghost(tmp@));
                        let ghost mp = self.memory@;
                        let ghost sp = self.stack@;
                        let r = self.fail_free_release(&tmp);
                        proof {
                            assert(self.stack@.drop_last() == sa);
                            lemma_held_top_fun(sp);
                            let i = choose|i: int| 0 <= i < held(sp).len() && held(sp)[i] == sp.last().fun.unwrap();
                            assert(self.memory@.handles[held(sp)[i].idx as int] == mp.handles[held(sp)[i].idx as int]);
                            assert(sa.last() == self.stack@[s_len - 1]);
                            assert(sp[s_len - 1] == sa.last());
                            assert forall|j: int| p0.len() <= j < sa.last().prepare@.len()
                                implies self.memory@.live(#[trigger] sa.last().prepare@[j])
                                    && self.memory@.obj(sa.last().prepare@[j]) == mc.obj(sa.last().prepare@[j]) by {
                                lemma_handles_kept_self(mc, mp, sa.last().prepare@[j]);
                                lemma_held_prepare(sp, s_len - 1, j);
                                let q = choose|q: int| 0 <= q < held(sp).len() && held(sp)[q] == sp[s_len - 1].prepare@[j];
                                assert(self.memory@.handles[held(sp)[q].idx as int] == mp.handles[held(sp)[q].idx as int]);
                            }
                        }
                        r
                    },
                    None => {
                        let ghost m_pre = self.memory@;
                        let ghost s_pre = self.stack@;
                        self.m_release(&tmp);
                        let ghost s1 = self.stack@;
                        let ghost mid = self.memory;
                        let ghost hyp0 = line_complete(old(self).memory@, g0, old(self).stack@.last());
                        let ghost hyp = hyp0
                            && starts_with_builtin(old(self).memory@, line_objs(old(self).memory@, g0, old(self).stack@.last()));
                        let ghost hypc = hyp0
                            && starts_with_call(old(self).memory@, line_objs(old(self).memory@, g0, old(self).stack@.last()));
                        proof {
                            if hyp0 && line_objs(old(self).memory@, g0, old(self).stack@.last()).len() >= 1 {
                                let objs = line_objs(old(self).memory@, g0, old(self).stack@.last());
                                let pl = s1.last().prepare@;
                                let n = s1.len() as int;
                                assert(pl.len() == objs.len());
                                assert forall|i: int| 0 <= i < objs.len() implies mid@.live(#[trigger] pl[i]) && mid@.obj(pl[i]) == objs[i] by {
                                    lemma_held_prepare(s_pre, n - 1, i);
                                    let q = choose|q: int| 0 <= q < held(s_pre).len() && held(s_pre)[q] == s_pre[n - 1].prepare@[i];
                                    assert(mid@.handles[held(s_pre)[q].idx as int] == m_pre.handles[held(s_pre)[q].idx as int]);
                                    if i < p0.len() {
                                        assert(pl[i] == pl.subrange(0, p0.len() as int)[i]);
                                        assert(pl[i] == p0[i]);
                                        let s0 = old(self).stack@;
                                        lemma_held_prepare(s0, n - 1, i);
                                        let q0 = choose|q: int| 0 <= q < held(s0).len() && held(s0)[q] == s0[n - 1].prepare@[i];
                                        assert((held(s0) + Seq::<MemHandle>::empty())[q0] == held(s0)[q0]);
                                        lemma_handles_kept_self(old(self).memory@, m_pre, pl[i]);
                                    }
                                }
                                assert(s1.drop_last() =~= old(self).stack@.drop_last()) by {
                                    assert forall|k: int| 0 <= k < n - 1 implies s1.drop_last()[k] == old(self).stack@.drop_last()[k] by {
                                        assert(s1[k] == old(self).stack@[k]);
                                    }
                                }
                                assert(prepared(old(self).memory, old(self).stack@, mid, s1));
                                assert(hyp ==> line_builtin(mid@, s1.last()) is Some);
                                assert(hypc ==> s1.last().prepare@.len() >= 1 && (mid@.cell(s1.last().prepare@[0]) is Array
                                    || mid@.cell(s1.last().prepare@[0]) is Fun));
                            }
                        }
                        let r = self.execute_top(true, is_final);
                        proof {
                            if !(r is Failed) {
                                lemma_prepared_then(old(self).stack@, s1, self.stack@, is_final);
                            }
                            if hyp {
                                let (w0, w1, w2, w3) = choose|m0: Memory, m1: Memory, out: Outcome, s1x: Seq<Frame>|
                                    ran_line(mid, s1, old(self).source_tag@, old(self).file_allow, is_final, m0, m1, out, s1x, *self, r);
                                assert(ran_prepared(old(self).memory, old(self).stack@, old(self).source_tag@, old(self).file_allow,
                                    old(self).on_last_line(), mid, s1, w0, w1, w2, w3, *self, r));
                            }
                            if hypc {
                                let w = choose|s1x: Seq<Frame>| ran_call(mid, s1, is_final, s1x, *self, r);
                                assert(called_prepared(old(self).memory, old(self).stack@, old(self).on_last_line(), mid, s1, w, *self, r));
                            }
                        }
                        r
                    },
                }
            },
        }
    }
}

/// Where the code `h` was read, as `position_text` writes it.
pub fn position_string(memory: &Memory, source_tag: &Vec<String>, h: MemHandle) -> (r: String)
    requires
        memory.wf(),
        memory@.live(h),
    ensures
        r@ == position_text(tags_model(source_tag@),
            if memory@.cell(h) is Array { memory.pos(h) } else { position_unknown() }),
{
    position_string_of(source_tag, memory.array_get_position(h))
}

impl Eval {
    /// An evaluator that runs the program `root`: the lines of the array
    /// it names, in order. An empty program has nothing to run.
    pub fn new(memory: Memory, root: MemHandle, source_tag: Vec<String>, file_allow: bool) -> (e: Eval)
        requires
            memory.wf(),
            memory@.live(root),
            root.idx != memory.globals_handle().idx,
        ensures
            e.inv(),
            e.heap() == memory,
            e.is_done() == (memory@.cell(root) is Array && memory.elems(root).len() == 0),
            e.files_allowed() == file_allow,
            !e.is_waiting(),
    {
        let empty = match memory.value(root) {
            Value::Array => memory.array_len(root) == 0,
            _ => false,
        };
        let mut stack: Vec<Frame> = Vec::new();
        if !empty {
            stack.push(Frame { want_return: false, scope_restore: None, fun: Some(root), line: Some(0), prepare: Vec::new() });
        }
        let e = Eval { memory, source_tag, stack, file_allow, ready: false, pending: None };
        proof {
            if !empty {
                let f = e.stack@[0];
                assert(e.stack@ =~= Seq::<Frame>::empty().push(f));
                lemma_held_push(Seq::empty(), f);
                assert(held(Seq::<Frame>::empty()) =~= Seq::<MemHandle>::empty());
                assert(frame_handles(f) =~= seq![root]);
                assert(held(e.stack@) + pending_handles(e.pending) =~= seq![root]);
            } else {
                assert(held(e.stack@) + pending_handles(e.pending) =~= Seq::<MemHandle>::empty());
            }
        }
        e
    }

    /// The heap the evaluator works on.
    pub closed spec fn heap(&self) -> Memory {
        self.memory
    }

    /// The names of the sources.
    pub closed spec fn tags(&self) -> Seq<String> {
        self.source_tag@
    }

    /// A builtin waits for the outside world's reply.
    pub closed spec fn is_waiting(&self) -> bool {
        self.pending is Some
    }

    /// Whether the program may use the file system.
    pub closed spec fn files_allowed(&self) -> bool {
        self.file_allow
    }

    /// The frames of the stack, bottom first.
    pub closed spec fn frames(&self) -> Seq<Frame> {
        self.stack@
    }

    /// The top frame holds a line a builtin handed back, to run at once.
    pub closed spec fn runs_handed_line(&self) -> bool {
        self.ready
    }

    /// The top frame is on the last line of its code (or runs a line handed
    /// back by a builtin).
    pub closed spec fn at_last_line(&self) -> bool {
        self.on_last_line()
    }

    /// The builtin whose outside work the evaluator waits for.
    pub closed spec fn waiting_for(&self) -> Builtin {
        self.pending.unwrap().call
    }

    /// The value of the builtin it waits for ends the frame that called it.
    pub closed spec fn waiting_returns(&self) -> bool {
        self.pending.unwrap().returning
    }

    /// The saved scope to be restored once the builtin it waits for is done.
    pub closed spec fn waiting_restore(&self) -> Option<MemHandle> {
        self.pending.unwrap().restore
    }

    /// A saved scope is to be restored once the builtin it waits for is done.
    pub closed spec fn waiting_restores(&self) -> bool {
        self.pending.unwrap().restore is Some
    }

    /// Nothing is left to run.
    pub closed spec fn is_done(&self) -> bool {
        self.stack@.len() == 0 && self.pending is None
    }

    /// Where the code `h` was read, as `position_text` writes it.
    pub fn position_string(&self, h: MemHandle) -> (r: String)
        requires
            self.heap().wf(),
            self.heap()@.live(h),
        ensures
            r@ == position_text(tags_model(self.tags()),
                if self.heap()@.cell(h) is Array { self.heap().pos(h) } else { position_unknown() }),
    {
        position_string(&self.memory, &self.source_tag, h)
    }

    proof fn lemma_owned_of_inv(&self)
        requires
            self.inv(),
            self.pending is None,
        ensures
            self.owned_ok(Seq::empty()),
    {
        assert(held(self.stack@) + Seq::<MemHandle>::empty() =~= held(self.stack@) + pending_handles(self.pending));
    }

    /// Runs one step of the program: prepares or executes the line that the
    /// top frame is on. A step that needs the outside world stops with its
    /// request; nothing else runs until `resume` brings the reply.
    pub fn step(&mut self) -> (r: Step)
        requires
            old(self).inv(),
        ensures
            final(self).inv(),
            r is Finished <==> old(self).is_done(),
            old(self).is_waiting() ==> r is Failed && *final(self) == *old(self),
            !old(self).is_waiting() ==> (r is Io) == final(self).is_waiting(),
            r matches Step::Io(req) && touches_files(req) ==> old(self).files_allowed(),
            final(self).files_allowed() == old(self).files_allowed(),
            !old(self).is_waiting() && !old(self).is_done() && !old(self).runs_handed_line()
                && next_item_unbound(old(self).heap()@, old(self).heap().globals_handle(), old(self).frames().last())
                ==> (r matches Step::Failed(e) && e.message@ == unbound_text(old(self).tags(), old(self).heap()@,
                    old(self).heap()@.obj(old(self).frames().last().fun.unwrap()),
                    line_items(old(self).heap()@, old(self).frames().last())[old(self).frames().last().prepare@.len() as int])),
            !old(self).is_waiting() && !old(self).is_done() && !old(self).runs_handed_line()
                && line_complete(old(self).heap()@, old(self).heap().globals_handle(), old(self).frames().last())
                && starts_with_builtin(old(self).heap()@, line_objs(old(self).heap()@, old(self).heap().globals_handle(), old(self).frames().last()))
                ==> exists|mid: Memory, sp: Seq<Frame>, m0: Memory, m1: Memory, out: Outcome, s1: Seq<Frame>|
                    #[trigger] ran_prepared(old(self).heap(), old(self).frames(), old(self).tags(), old(self).files_allowed(),
                        old(self).at_last_line(), mid, sp, m0, m1, out, s1, *final(self), r),
            !old(self).is_waiting() && !old(self).is_done() && old(self).runs_handed_line()
                && line_builtin(old(self).heap()@, old(self).frames().last()) is Some
                ==> exists|m0: Memory, m1: Memory, out: Outcome, s1: Seq<Frame>|
                    #[trigger] ran_line(old(self).heap(), old(self).frames(), old(self).tags(), old(self).files_allowed(), true,
                        m0, m1, out, s1, *final(self), r),
            !old(self).is_waiting() && !old(self).is_done() && !old(self).runs_handed_line()
                && line_complete(old(self).heap()@, old(self).heap().globals_handle(), old(self).frames().last())
                && starts_with_call(old(self).heap()@, line_objs(old(self).heap()@, old(self).heap().globals_handle(), old(self).frames().last()))
                ==> exists|mid: Memory, sp: Seq<Frame>, s1: Seq<Frame>|
                    #[trigger] called_prepared(old(self).heap(), old(self).frames(), old(self).at_last_line(), mid, sp, s1, *final(self), r),
            !old(self).is_waiting() && !old(self).is_done() && !old(self).runs_handed_line()
                && lone_value(old(self).heap()@, old(self).heap().globals_handle(), old(self).frames().last())
                ==> exists|mid: Memory, sp: Seq<Frame>, s1: Seq<Frame>|
                    #[trigger] took_value(old(self).heap(), old(self).frames(), old(self).at_last_line(), mid, sp, s1, *final(self), r),
            !old(self).is_waiting() && !old(self).is_done() && old(self).runs_handed_line()
                && old(self).frames().last().prepare@.len() >= 1
                && (old(self).heap()@.cell(old(self).frames().last().prepare@[0]) is Array
                    || old(self).heap()@.cell(old(self).frames().last().prepare@[0]) is Fun)
                ==> exists|s1: Seq<Frame>| #[trigger] ran_call(old(self).heap(), old(self).frames(), true, s1, *final(self), r),
            forall|j: int| !old(self).is_waiting() && !old(self).is_done() && !old(self).runs_handed_line()
                && call_at(old(self).heap()@, old(self).heap().globals_handle(), old(self).frames().last(), j)
                ==> r is Running && final(self).frames().len() == old(self).frames().len() + 1
                    && final(self).frames()[old(self).frames().len() - 1].prepare@.len() == j,
            !old(self).is_waiting() && !old(self).is_done() && !(r is Failed) ==> if old(self).runs_handed_line() {
                left_frame(old(self).frames(), final(self).frames())
            } else {
                called_in_order(old(self).heap()@, old(self).heap().globals_handle(), old(self).frames(),
                    final(self).heap()@, final(self).frames())
                    || (!old(self).at_last_line() && went_to_next_line(old(self).frames(), final(self).frames()))
                    || (old(self).at_last_line() && left_frame(old(self).frames(), final(self).frames())
                        && (final(self).frames().len() == old(self).frames().len()
                            ==> final(self).frames().last().fun != old(self).frames().last().fun))
            },
    {
        if self.pending.is_some() {
            return Step::Failed(internal_error());
        }
        proof {
            self.lemma_owned_of_inv();
        }
        if self.stack.len() == 0 {
            return Step::Finished;
        }
        let r = if self.ready {
            self.ready = false;
            self.execute_top(true, true)
        } else {
            self.prepare_step()
        };
        proof {
            if old(self).ready && line_builtin(old(self).memory@, old(self).stack@.last()) is Some {
                let (w0, w1, w2, w3) = choose|m0: Memory, m1: Memory, out: Outcome, s1: Seq<Frame>|
                    ran_line(old(self).memory, old(self).stack@, old(self).source_tag@, old(self).file_allow, true, m0, m1, out, s1, *self, r);
                assert(ran_line(old(self).memory, old(self).stack@, old(self).source_tag@, old(self).file_allow, true, w0, w1, w2, w3, *self, r));
                assert(!(r is Finished));
                assert(ran_line(old(self).heap(), old(self).frames(), old(self).tags(), old(self).files_allowed(), true,
                    w0, w1, w2, w3, *self, r));
            }
            if !old(self).ready && line_complete(old(self).memory@, old(self).memory.globals_handle(), old(self).stack@.last())
                && starts_with_builtin(old(self).memory@, line_objs(old(self).memory@, old(self).memory.globals_handle(), old(self).stack@.last())) {
                let (w0, w1, w2, w3, w4, w5) = choose|mid: Memory, sp: Seq<Frame>, m0: Memory, m1: Memory, out: Outcome, s1: Seq<Frame>|
                    ran_prepared(old(self).memory, old(self).stack@, old(self).source_tag@, old(self).file_allow,
                        old(self).on_last_line(), mid, sp, m0, m1, out, s1, *self, r);
                assert(ran_prepared(old(self).memory, old(self).stack@, old(self).source_tag@, old(self).file_allow,
                    old(self).on_last_line(), w0, w1, w2, w3, w4, w5, *self, r));
                assert(!(r is Finished));
                assert(ran_prepared(old(self).heap(), old(self).frames(), old(self).tags(), old(self).files_allowed(),
                    old(self).at_last_line(), w0, w1, w2, w3, w4, w5, *self, r));
            }
            if old(self).ready && old(self).stack@.last().prepare@.len() >= 1
                && (old(self).memory@.cell(old(self).stack@.last().prepare@[0]) is Array
                    || old(self).memory@.cell(old(self).stack@.last().prepare@[0]) is Fun) {
                let w = choose|s1: Seq<Frame>| ran_call(old(self).memory, old(self).stack@, true, s1, *self, r);
                assert(ran_call(old(self).heap(), old(self).frames(), true, w, *self, r));
                assert(!(r is Finished));
            }
            if !old(self).ready && line_complete(old(self).memory@, old(self).memory.globals_handle(), old(self).stack@.last())
                && starts_with_call(old(self).memory@, line_objs(old(self).memory@, old(self).memory.globals_handle(), old(self).stack@.last())) {
                let (w0, w1, w2) = choose|mid: Memory, sp: Seq<Frame>, s1: Seq<Frame>|
                    called_prepared(old(self).memory, old(self).stack@, old(self).on_last_line(), mid, sp, s1, *self, r);
                assert(called_prepared(old(self).heap(), old(self).frames(), old(self).at_last_line(), w0, w1, w2, *self, r));
                assert(!(r is Finished));
            }
            if !old(self).ready && lone_value(old(self).memory@, old(self).memory.globals_handle(), old(self).stack@.last()) {
                let (w0, w1, w2) = choose|mid: Memory, sp: Seq<Frame>, s1: Seq<Frame>|
                    took_value(old(self).memory, old(self).stack@, old(self).on_last_line(), mid, sp, s1, *self, r);
                assert(took_value(old(self).heap(), old(self).frames(), old(self).at_last_line(), w0, w1, w2, *self, r));
                assert(!(r is Finished));
            }
        }
        match r {
            Step::Finished => Step::Failed(internal_error()),
            r => r,
        }
    }

    /// Hands the outside world's reply to the builtin that asked for it, and
    /// goes on from its result as `step` would.
    pub fn resume(&mut self, reply: IoReply) -> (r: Step)
        requires
            old(self).inv(),
        ensures
            final(self).inv(),
            !old(self).is_waiting() ==> r is Failed && *final(self) == *old(self),
            !(r is Finished),
            !(r is Io) && !final(self).is_waiting(),
            final(self).files_allowed() == old(self).files_allowed(),
            old(self).is_waiting() ==> frames_kept(old(self).frames(), final(self).frames())
                || (final(self).frames().len() == old(self).frames().len() + 1
                    && final(self).frames().drop_last() == old(self).frames()),
            old(self).is_waiting() && reply is Failed ==> r is Failed,
            old(self).is_waiting() ==> exists|m1: Memory, res: Result<BuiltinReturn, Error>|
                #[trigger] resumed(old(self).heap(), old(self).frames(), old(self).waiting_for(), old(self).waiting_returns(),
                    old(self).waiting_restore(), reply, m1, res, *final(self), r),
            old(self).is_waiting() && reply_done(old(self).waiting_for(), reply) && !old(self).waiting_returns()
                && !old(self).waiting_restores() ==> r is Running && final(self).frames() == old(self).frames(),
    {
        let p = match self.pending.take() {
            Some(p) => p,
            None => return Step::Failed(internal_error()),
        };
        let ghost m0 = self.memory;
        proof {
            assert(held(self.stack@) + p.tmp@ == held(old(self).stack@) + pending_handles(old(self).pending));
            assert(self.owned_ok(p.tmp@));
        }
        let res = finish_io(&mut self.memory, p.call, reply);
        proof {
            let g = m0.globals_handle();
            lemma_handles_ok_kept(m0@, self.memory@, g, held(self.stack@) + p.tmp@);
            match res {
                Ok(ref ret) => {
                    lemma_handles_append_fresh(m0@, self.memory@, g, held(self.stack@) + p.tmp@, return_handles(*ret));
                    assert(held(self.stack@) + p.tmp@ + return_handles(*ret) =~= held(self.stack@) + (p.tmp@ + return_handles(*ret)));
                },
                _ => {},
            }
        }
        let ghost m1 = self.memory;
        let ghost res_g = res;
        let r = self.finish_builtin(res, p.returning, p.restore, p.fun, p.tmp);
        proof {
            assert(resumed(old(self).heap(), old(self).frames(), old(self).waiting_for(), old(self).waiting_returns(),
                old(self).waiting_restore(), reply, m1, res_g, *self, r));
            assert(!(r is Finished));
        }
        match r {
            Step::Finished => Step::Failed(internal_error()),
            r => r,
        }
    }
}
} // verus!
