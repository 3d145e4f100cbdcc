//! Heap operations for builtins that make temporary handles: each new
//! handle joins a list that the builtin gives up when it is done, all but
//! the ones it hands back.

use vstd::prelude::*;
use crate::eval::{BuiltinReturn, Error, return_handles, lemma_handles_kept_refl, lemma_handles_swap};
use crate::globals::returns_fresh;
use crate::memory::{
    Memory, MemHandle, MemoryModel, Primitive, PrimModel, Value, ValueModel, Obj, Fun, handles_ok, handles_kept,
    fresh, value_obj, lemma_handles_push, lemma_handles_ok_kept, lemma_kept_handles, lemma_changed_handles,
    lemma_handles_kept_trans, lemma_released_rest, lemma_handles_split, dict_insert, dict_remove, dict_lookup,
    dict_merge, name_model,
};
use crate::reader::ReaderPosition;

verus! {

/// The temporary handles `t` are usable in `m`, and new since `m0`; `m`
/// keeps every handle of `m0`.
pub open spec fn scratch_ok(m0: MemoryModel, m: MemoryModel, g: MemHandle, t: Seq<MemHandle>) -> bool {
    &&& handles_ok(m, g, t)
    &&& forall|k: int| 0 <= k < t.len() ==> fresh(m0, #[trigger] t[k])
    &&& handles_kept(m0, m)
    &&& m0.live(g)
}

/// A builtin's temporaries start empty.
pub proof fn lemma_scratch_start(m: &Memory)
    requires
        m.wf(),
    ensures
        scratch_ok(m@, m@, m.globals_handle(), Seq::empty()),
{
    m.lemma_ok();
    m.lemma_globals();
    lemma_handles_kept_refl(m@);
}

/// A handle made by the last change joins the temporaries.
pub proof fn lemma_scratch_push(m0: MemoryModel, m1: MemoryModel, m2: MemoryModel, g: MemHandle, t: Seq<MemHandle>, r: MemHandle)
    requires
        scratch_ok(m0, m1, g, t),
        handles_kept(m1, m2),
        m2.live(r),
        fresh(m1, r),
    ensures
        scratch_ok(m0, m2, g, t.push(r)),
{
    assert(m1.live(g)) by {
        assert(m0.handles[g.idx as int] is Some);
    }
    lemma_handles_push(m1, m2, g, t, r);
    lemma_handles_kept_trans(m0, m1, m2);
    assert forall|k: int| 0 <= k < t.push(r).len() implies fresh(m0, #[trigger] t.push(r)[k]) by {
        if k < t.len() {
            assert(t.push(r)[k] == t[k]);
        } else {
            if r.idx < m0.handles.len() && m0.handles[r.idx as int] is Some {
                assert(m1.handles[r.idx as int] is Some);
            }
        }
    }
}

/// The temporaries stay usable after a change that makes no handle.
pub proof fn lemma_scratch_kept(m0: MemoryModel, m1: MemoryModel, m2: MemoryModel, g: MemHandle, t: Seq<MemHandle>)
    requires
        scratch_ok(m0, m1, g, t),
        handles_kept(m1, m2),
    ensures
        scratch_ok(m0, m2, g, t),
{
    lemma_handles_ok_kept(m1, m2, g, t);
    lemma_handles_kept_trans(m0, m1, m2);
}

/// A temporary names an object.
pub proof fn lemma_scratch_live(m0: MemoryModel, m: MemoryModel, g: MemHandle, t: Seq<MemHandle>, k: int)
    requires
        scratch_ok(m0, m, g, t),
        0 <= k < t.len(),
    ensures
        m.live(t[k]),
{
}

/// A handle of the heap the builtin started with names the same object.
pub proof fn lemma_scratch_old(m0: MemoryModel, m: MemoryModel, g: MemHandle, t: Seq<MemHandle>, h: MemHandle)
    requires
        scratch_ok(m0, m, g, t),
        m0.live(h),
    ensures
        m.live(h),
        m.obj(h) == m0.obj(h),
{
    assert(m0.handles[h.idx as int] is Some);
}

/// A new handle to what `h` names.
pub fn s_copy(memory: &mut Memory, h: MemHandle, Ghost(m0): Ghost<MemoryModel>, Ghost(t): Ghost<Seq<MemHandle>>) -> (r: MemHandle)
    requires
        old(memory).wf(),
        scratch_ok(m0, old(memory)@, old(memory).globals_handle(), t),
        old(memory)@.live(h),
    ensures
        final(memory).wf(),
        old(memory)@.kept_in(final(memory)@),
        final(memory).globals_handle() == old(memory).globals_handle(),
        scratch_ok(m0, final(memory)@, old(memory).globals_handle(), t.push(r)),
        final(memory)@.objs == old(memory)@.objs,
        final(memory)@.obj(r) == old(memory)@.obj(h),
{
    let r = memory.handle_copy(h);
    proof {
        lemma_kept_handles(old(memory)@, memory@);
        lemma_scratch_push(m0, old(memory)@, memory@, old(memory).globals_handle(), t, r);
    }
    r
}

/// A new object for the value.
pub fn s_make(memory: &mut Memory, v: Value, Ghost(m0): Ghost<MemoryModel>, Ghost(t): Ghost<Seq<MemHandle>>) -> (r: Result<MemHandle, Error>)
    requires
        old(memory).wf(),
        scratch_ok(m0, old(memory)@, old(memory).globals_handle(), t),
    ensures
        final(memory).wf(),
        old(memory)@.kept_in(final(memory)@),
        final(memory).globals_handle() == old(memory).globals_handle(),
        scratch_ok(m0, final(memory)@, old(memory).globals_handle(), match r { Ok(h) => t.push(h), Err(_) => t }),
        r matches Ok(h) ==> value_obj(final(memory)@, final(memory)@.obj(h), v.model())
            && final(memory)@.objs.contains_key(final(memory)@.obj(h))
            && !old(memory)@.objs.contains_key(final(memory)@.obj(h)),
        r matches Err(e) ==> crate::globals::out_of_memory(e) && final(memory).full(),
{
    let ghost vm = v.model();
    let r = crate::globals::make(memory, v);
    proof {
        match r {
            Ok(h) => lemma_scratch_push(m0, old(memory)@, memory@, old(memory).globals_handle(), t, h),
            Err(_) => lemma_scratch_kept(m0, old(memory)@, memory@, old(memory).globals_handle(), t),
        }
    }
    r
}

/// A new handle to element `idx` of the array `h`, if it has one.
pub fn s_array_get(memory: &mut Memory, h: MemHandle, idx: usize, Ghost(m0): Ghost<MemoryModel>, Ghost(t): Ghost<Seq<MemHandle>>) -> (r: Option<MemHandle>)
    requires
        old(memory).wf(),
        scratch_ok(m0, old(memory)@, old(memory).globals_handle(), t),
        old(memory)@.live(h),
        old(memory)@.cell(h) is Array,
    ensures
        final(memory).wf(),
        old(memory)@.kept_in(final(memory)@),
        final(memory).globals_handle() == old(memory).globals_handle(),
        scratch_ok(m0, final(memory)@, old(memory).globals_handle(), match r { Some(e) => t.push(e), None => t }),
        final(memory)@.objs == old(memory)@.objs,
        r is Some <==> idx < old(memory).elems(h).len(),
        r matches Some(e) ==> final(memory)@.obj(e) == old(memory).elems(h)[idx as int],
{
    proof {
        old(memory).lemma_ok();
    }
    let r = memory.array_get(h, idx);
    proof {
        match r {
            Some(e) => {
                crate::memory::lemma_handed_out_kept(old(memory)@, memory@, e, old(memory).elems(h)[idx as int]);
                lemma_kept_handles(old(memory)@, memory@);
                lemma_scratch_push(m0, old(memory)@, memory@, old(memory).globals_handle(), t, e);
            },
            None => {},
        }
    }
    r
}

/// A new handle to what the dictionary `h` binds the key to, if anything.
pub fn s_dict_get(memory: &mut Memory, h: MemHandle, key: &Primitive, Ghost(m0): Ghost<MemoryModel>, Ghost(t): Ghost<Seq<MemHandle>>) -> (r: Option<MemHandle>)
    requires
        old(memory).wf(),
        scratch_ok(m0, old(memory)@, old(memory).globals_handle(), t),
        old(memory)@.live(h),
        old(memory)@.cell(h) is Dict,
    ensures
        final(memory).wf(),
        old(memory)@.kept_in(final(memory)@),
        final(memory).globals_handle() == old(memory).globals_handle(),
        scratch_ok(m0, final(memory)@, old(memory).globals_handle(), match r { Some(e) => t.push(e), None => t }),
        final(memory)@.objs == old(memory)@.objs,
        r is Some <==> dict_lookup(old(memory).entries(h), key.model()) is Some,
        r matches Some(e) ==> final(memory)@.obj(e) == dict_lookup(old(memory).entries(h), key.model()).unwrap(),
{
    proof {
        old(memory).lemma_ok();
    }
    let r = memory.dict_get(h, key);
    proof {
        match r {
            Some(e) => {
                let o = dict_lookup(old(memory).entries(h), key.model()).unwrap();
                crate::memory::lemma_handed_out_kept(old(memory)@, memory@, e, o);
                lemma_kept_handles(old(memory)@, memory@);
                lemma_scratch_push(m0, old(memory)@, memory@, old(memory).globals_handle(), t, e);
            },
            None => {},
        }
    }
    r
}

/// A new handle to what the quote `h` quotes.
pub fn s_quote_get(memory: &mut Memory, h: MemHandle, Ghost(m0): Ghost<MemoryModel>, Ghost(t): Ghost<Seq<MemHandle>>) -> (r: MemHandle)
    requires
        old(memory).wf(),
        scratch_ok(m0, old(memory)@, old(memory).globals_handle(), t),
        old(memory)@.live(h),
        old(memory)@.cell(h) is Quote,
    ensures
        final(memory).wf(),
        old(memory)@.kept_in(final(memory)@),
        final(memory).globals_handle() == old(memory).globals_handle(),
        scratch_ok(m0, final(memory)@, old(memory).globals_handle(), t.push(r)),
        final(memory)@.objs == old(memory)@.objs,
        final(memory)@.obj(r) == old(memory)@.cell(h)->Quote_0,
{
    proof {
        old(memory).lemma_ok();
    }
    let r = memory.quote_get(h);
    proof {
        crate::memory::lemma_handed_out_kept(old(memory)@, memory@, r, old(memory)@.cell(h)->Quote_0);
        lemma_kept_handles(old(memory)@, memory@);
        lemma_scratch_push(m0, old(memory)@, memory@, old(memory).globals_handle(), t, r);
    }
    r
}

/// A new array, at the position, of what the handles name.
pub fn s_array_of(memory: &mut Memory, pos: ReaderPosition, hs: &[MemHandle], Ghost(m0): Ghost<MemoryModel>, Ghost(t): Ghost<Seq<MemHandle>>) -> (r: Result<MemHandle, Error>)
    requires
        old(memory).wf(),
        scratch_ok(m0, old(memory)@, old(memory).globals_handle(), t),
        forall|i: int| 0 <= i < hs@.len() ==> old(memory)@.live(#[trigger] hs@[i]),
    ensures
        final(memory).wf(),
        old(memory)@.kept_in(final(memory)@),
        final(memory).globals_handle() == old(memory).globals_handle(),
        scratch_ok(m0, final(memory)@, old(memory).globals_handle(), match r { Ok(h) => t.push(h), Err(_) => t }),
        r matches Ok(h) ==> final(memory)@.cell(h) == Obj::Array(Seq::new(hs@.len(), |i: int| old(memory)@.obj(hs@[i])), pos)
            && !old(memory)@.objs.contains_key(final(memory)@.obj(h)),
        r matches Err(e) ==> crate::globals::out_of_memory(e) && final(memory).full(),
{
    proof {
        old(memory).lemma_ok();
    }
    match memory.array_from_handles_at(pos, hs) {
        Ok(h) => {
            let ghost obj = Obj::Array(Seq::new(hs@.len(), |i: int| old(memory)@.obj(hs@[i])), pos);
            proof {
                crate::memory::lemma_added_kept(old(memory)@, memory@, h, obj);
                crate::memory::lemma_added_fresh(old(memory)@, old(memory)@, memory@, h, obj);
                lemma_kept_handles(old(memory)@, memory@);
                lemma_scratch_push(m0, old(memory)@, memory@, old(memory).globals_handle(), t, h);
            }
            Ok(h)
        },
        Err(_) => {
            proof {
                crate::memory::lemma_kept_of_collected(old(memory)@, memory@);
                lemma_kept_handles(old(memory)@, memory@);
                lemma_scratch_kept(m0, old(memory)@, memory@, old(memory).globals_handle(), t);
            }
            Err(crate::eval::memory_full_error())
        },
    }
}

/// A new empty dictionary.
pub fn s_dict_new(memory: &mut Memory, Ghost(m0): Ghost<MemoryModel>, Ghost(t): Ghost<Seq<MemHandle>>) -> (r: Result<MemHandle, Error>)
    requires
        old(memory).wf(),
        scratch_ok(m0, old(memory)@, old(memory).globals_handle(), t),
    ensures
        final(memory).wf(),
        old(memory)@.kept_in(final(memory)@),
        final(memory).globals_handle() == old(memory).globals_handle(),
        scratch_ok(m0, final(memory)@, old(memory).globals_handle(), match r { Ok(h) => t.push(h), Err(_) => t }),
        r matches Ok(h) ==> final(memory)@.cell(h) == Obj::Dict(Seq::empty())
            && !old(memory)@.objs.contains_key(final(memory)@.obj(h)),
        r matches Err(e) ==> crate::globals::out_of_memory(e) && final(memory).full(),
{
    proof {
        old(memory).lemma_ok();
    }
    match memory.dict_new() {
        Ok(h) => {
            proof {
                crate::memory::lemma_added_kept(old(memory)@, memory@, h, Obj::Dict(Seq::empty()));
                crate::memory::lemma_added_fresh(old(memory)@, old(memory)@, memory@, h, Obj::Dict(Seq::empty()));
                lemma_kept_handles(old(memory)@, memory@);
                lemma_scratch_push(m0, old(memory)@, memory@, old(memory).globals_handle(), t, h);
            }
            Ok(h)
        },
        Err(_) => {
            proof {
                crate::memory::lemma_kept_of_collected(old(memory)@, memory@);
                lemma_kept_handles(old(memory)@, memory@);
                lemma_scratch_kept(m0, old(memory)@, memory@, old(memory).globals_handle(), t);
            }
            Err(crate::eval::memory_full_error())
        },
    }
}

/// A new quote of what `h` names.
pub fn s_quote_new(memory: &mut Memory, h: MemHandle, Ghost(m0): Ghost<MemoryModel>, Ghost(t): Ghost<Seq<MemHandle>>) -> (r: Result<MemHandle, Error>)
    requires
        old(memory).wf(),
        scratch_ok(m0, old(memory)@, old(memory).globals_handle(), t),
        old(memory)@.live(h),
    ensures
        final(memory).wf(),
        old(memory)@.kept_in(final(memory)@),
        final(memory).globals_handle() == old(memory).globals_handle(),
        scratch_ok(m0, final(memory)@, old(memory).globals_handle(), match r { Ok(q) => t.push(q), Err(_) => t }),
        r matches Ok(q) ==> final(memory)@.cell(q) == Obj::Quote(old(memory)@.obj(h)),
        r matches Err(e) ==> crate::globals::out_of_memory(e) && final(memory).full(),
{
    proof {
        old(memory).lemma_ok();
    }
    match memory.quote_new(h) {
        Ok(q) => {
            let ghost obj = Obj::Quote(old(memory)@.obj(h));
            proof {
                crate::memory::lemma_added_kept(old(memory)@, memory@, q, obj);
                crate::memory::lemma_added_fresh(old(memory)@, old(memory)@, memory@, q, obj);
                lemma_kept_handles(old(memory)@, memory@);
                lemma_scratch_push(m0, old(memory)@, memory@, old(memory).globals_handle(), t, q);
            }
            Ok(q)
        },
        Err(_) => {
            proof {
                crate::memory::lemma_kept_of_collected(old(memory)@, memory@);
                lemma_kept_handles(old(memory)@, memory@);
                lemma_scratch_kept(m0, old(memory)@, memory@, old(memory).globals_handle(), t);
            }
            Err(crate::eval::memory_full_error())
        },
    }
}

/// A new copy of the array, dictionary or quote `h`: an object equal to it.
pub fn s_clone(memory: &mut Memory, h: MemHandle, Ghost(m0): Ghost<MemoryModel>, Ghost(t): Ghost<Seq<MemHandle>>) -> (r: Result<MemHandle, Error>)
    requires
        old(memory).wf(),
        scratch_ok(m0, old(memory)@, old(memory).globals_handle(), t),
        old(memory)@.live(h),
        old(memory)@.cell(h) is Array || old(memory)@.cell(h) is Dict || old(memory)@.cell(h) is Quote,
    ensures
        final(memory).wf(),
        old(memory)@.kept_in(final(memory)@),
        final(memory).globals_handle() == old(memory).globals_handle(),
        scratch_ok(m0, final(memory)@, old(memory).globals_handle(), match r { Ok(q) => t.push(q), Err(_) => t }),
        r matches Ok(q) ==> final(memory)@.cell(q) == old(memory)@.cell(h)
            && !old(memory)@.objs.contains_key(final(memory)@.obj(q)),
        r matches Err(e) ==> crate::globals::out_of_memory(e) && final(memory).full(),
{
    proof {
        old(memory).lemma_ok();
    }
    let r = match memory.value(h) {
        Value::Quote => memory.quote_clone(h),
        Value::Array => memory.array_clone(h),
        _ => memory.dict_clone(h),
    };
    match r {
        Ok(q) => {
            proof {
                if old(memory)@.cell(h) is Quote {
                    lemma_kept_handles(old(memory)@, memory@);
                } else {
                    crate::memory::lemma_added_kept(old(memory)@, memory@, q, old(memory)@.cell(h));
                    crate::memory::lemma_added_fresh(old(memory)@, old(memory)@, memory@, q, old(memory)@.cell(h));
                    lemma_kept_handles(old(memory)@, memory@);
                }
                lemma_scratch_push(m0, old(memory)@, memory@, old(memory).globals_handle(), t, q);
            }
            Ok(q)
        },
        Err(_) => {
            proof {
                if !(old(memory)@.cell(h) is Quote) {
                    crate::memory::lemma_kept_of_collected(old(memory)@, memory@);
                }
                lemma_kept_handles(old(memory)@, memory@);
                lemma_scratch_kept(m0, old(memory)@, memory@, old(memory).globals_handle(), t);
            }
            Err(crate::eval::memory_full_error())
        },
    }
}


/// Binds the key in the dictionary `h` to what `dst` names.
pub fn s_dict_set(memory: &mut Memory, h: MemHandle, key: Primitive, dst: MemHandle, Ghost(m0): Ghost<MemoryModel>, Ghost(t): Ghost<Seq<MemHandle>>)
    requires
        old(memory).wf(),
        scratch_ok(m0, old(memory)@, old(memory).globals_handle(), t),
        old(memory)@.live(h),
        old(memory)@.live(dst),
        old(memory)@.cell(h) is Dict,
    ensures
        final(memory).wf(),
        final(memory).globals_handle() == old(memory).globals_handle(),
        scratch_ok(m0, final(memory)@, old(memory).globals_handle(), t),
        old(memory)@.changed(final(memory)@, old(memory)@.obj(h),
            Obj::Dict(dict_insert(old(memory).entries(h), key.model(), old(memory)@.obj(dst)))),
{
    let ghost km = key.model();
    memory.dict_set(h, key, dst);
    proof {
        old(memory).lemma_ok();
        lemma_changed_handles(old(memory)@, memory@, old(memory)@.obj(h),
            Obj::Dict(dict_insert(old(memory).entries(h), km, old(memory)@.obj(dst))));
        lemma_scratch_kept(m0, old(memory)@, memory@, old(memory).globals_handle(), t);
    }
}

/// Unbinds the key in the dictionary `h`.
pub fn s_dict_del(memory: &mut Memory, h: MemHandle, key: &Primitive, Ghost(m0): Ghost<MemoryModel>, Ghost(t): Ghost<Seq<MemHandle>>)
    requires
        old(memory).wf(),
        scratch_ok(m0, old(memory)@, old(memory).globals_handle(), t),
        old(memory)@.live(h),
        old(memory)@.cell(h) is Dict,
    ensures
        final(memory).wf(),
        final(memory).globals_handle() == old(memory).globals_handle(),
        scratch_ok(m0, final(memory)@, old(memory).globals_handle(), t),
        old(memory)@.changed(final(memory)@, old(memory)@.obj(h),
            Obj::Dict(dict_remove(old(memory).entries(h), key.model()))),
{
    memory.dict_del(h, key);
    proof {
        old(memory).lemma_ok();
        lemma_changed_handles(old(memory)@, memory@, old(memory)@.obj(h),
            Obj::Dict(dict_remove(old(memory).entries(h), key.model())));
        lemma_scratch_kept(m0, old(memory)@, memory@, old(memory).globals_handle(), t);
    }
}

/// Replaces element `idx` of the array `h` with what `dst` names.
pub fn s_array_set(memory: &mut Memory, h: MemHandle, idx: usize, dst: MemHandle, Ghost(m0): Ghost<MemoryModel>, Ghost(t): Ghost<Seq<MemHandle>>)
    requires
        old(memory).wf(),
        scratch_ok(m0, old(memory)@, old(memory).globals_handle(), t),
        old(memory)@.live(h),
        old(memory)@.live(dst),
        old(memory)@.cell(h) is Array,
        idx < old(memory).elems(h).len(),
    ensures
        final(memory).wf(),
        final(memory).globals_handle() == old(memory).globals_handle(),
        scratch_ok(m0, final(memory)@, old(memory).globals_handle(), t),
        old(memory)@.changed(final(memory)@, old(memory)@.obj(h),
            Obj::Array(old(memory).elems(h).update(idx as int, old(memory)@.obj(dst)), old(memory).pos(h))),
{
    memory.array_set(h, idx, dst);
    proof {
        old(memory).lemma_ok();
        lemma_changed_handles(old(memory)@, memory@, old(memory)@.obj(h),
            Obj::Array(old(memory).elems(h).update(idx as int, old(memory)@.obj(dst)), old(memory).pos(h)));
        lemma_scratch_kept(m0, old(memory)@, memory@, old(memory).globals_handle(), t);
    }
}

/// Appends what `dst` names to the array `h`.
pub fn s_array_push(memory: &mut Memory, h: MemHandle, dst: MemHandle, Ghost(m0): Ghost<MemoryModel>, Ghost(t): Ghost<Seq<MemHandle>>)
    requires
        old(memory).wf(),
        scratch_ok(m0, old(memory)@, old(memory).globals_handle(), t),
        old(memory)@.live(h),
        old(memory)@.live(dst),
        old(memory)@.cell(h) is Array,
    ensures
        final(memory).wf(),
        final(memory).globals_handle() == old(memory).globals_handle(),
        scratch_ok(m0, final(memory)@, old(memory).globals_handle(), t),
        old(memory)@.changed(final(memory)@, old(memory)@.obj(h),
            Obj::Array(old(memory).elems(h).push(old(memory)@.obj(dst)), old(memory).pos(h))),
{
    memory.array_push(h, dst);
    proof {
        old(memory).lemma_ok();
        lemma_changed_handles(old(memory)@, memory@, old(memory)@.obj(h),
            Obj::Array(old(memory).elems(h).push(old(memory)@.obj(dst)), old(memory).pos(h)));
        lemma_scratch_kept(m0, old(memory)@, memory@, old(memory).globals_handle(), t);
    }
}

/// The handles a result hands back.
pub open spec fn result_handles(r: Result<BuiltinReturn, Error>) -> Seq<MemHandle> {
    match r {
        Ok(ret) => return_handles(ret),
        Err(_) => Seq::empty(),
    }
}

/// Gives up the temporaries, and hands back the result.
pub fn s_finish(memory: &mut Memory, tmp: &Vec<MemHandle>, res: Result<BuiltinReturn, Error>, Ghost(m0): Ghost<MemoryModel>) -> (r: Result<BuiltinReturn, Error>)
    requires
        old(memory).wf(),
        scratch_ok(m0, old(memory)@, old(memory).globals_handle(), tmp@ + result_handles(res)),
    ensures
        final(memory).wf(),
        final(memory).globals_handle() == old(memory).globals_handle(),
        handles_kept(m0, final(memory)@),
        returns_fresh(m0, final(memory)@, old(memory).globals_handle(), r),
        final(memory)@.objs == old(memory)@.objs,
        final(memory)@.next == old(memory)@.next,
        final(memory).full() == old(memory).full(),
        forall|i: int| 0 <= i < result_handles(res).len() ==>
            final(memory)@.handles[#[trigger] result_handles(res)[i].idx as int] == old(memory)@.handles[result_handles(res)[i].idx as int],
        r == res,
{
    let ghost g = old(memory).globals_handle();
    let ghost rh = result_handles(res);
    proof {
        assert(Seq::<MemHandle>::empty() + tmp@ + rh =~= tmp@ + rh);
        lemma_handles_swap(old(memory)@, g, Seq::empty(), tmp@, rh);
        assert(Seq::<MemHandle>::empty() + rh + tmp@ =~= rh + tmp@);
        assert(m0.handles[g.idx as int] is Some);
        lemma_handles_split(old(memory)@, g, tmp@, rh);
    }
    memory.release_all(tmp);
    proof {
        lemma_released_rest(old(memory)@, memory@, g, rh, tmp@);
        let all = tmp@ + rh;
        assert forall|i: int| 0 <= i < m0.handles.len() && #[trigger] m0.handles[i] is Some
            implies memory@.handles[i] == m0.handles[i] && memory@.objs.contains_key(m0.handles[i].unwrap()) by {
            assert(old(memory)@.handles[i] == m0.handles[i]);
            assert forall|k: int| 0 <= k < tmp@.len() implies tmp@[k].idx != i by {
                assert(all[k] == tmp@[k]);
                assert(fresh(m0, all[k]));
            }
        }
        assert forall|i: int| 0 <= i < rh.len() implies fresh(m0, #[trigger] rh[i]) by {
            assert(all[tmp@.len() + i] == rh[i]);
        }
        assert forall|i: int| 0 <= i < rh.len() implies memory@.handles[#[trigger] rh[i].idx as int] == old(memory)@.handles[rh[i].idx as int] by {
            assert(all[tmp@.len() + i] == rh[i]);
            assert forall|k: int| 0 <= k < tmp@.len() implies tmp@[k].idx != rh[i].idx by {
                assert(all[k] == tmp@[k]);
            }
        }
    }
    res
}

/// The parts of the function `h`, with new handles to them.
pub fn s_fun_unpack(memory: &mut Memory, h: MemHandle, Ghost(m0): Ghost<MemoryModel>, Ghost(t): Ghost<Seq<MemHandle>>) -> (r: Fun)
    requires
        old(memory).wf(),
        scratch_ok(m0, old(memory)@, old(memory).globals_handle(), t),
        old(memory)@.live(h),
        old(memory)@.cell(h) is Fun,
    ensures
        final(memory).wf(),
        old(memory)@.kept_in(final(memory)@),
        final(memory).globals_handle() == old(memory).globals_handle(),
        scratch_ok(m0, final(memory)@, old(memory).globals_handle(), t.push(r.args).push(r.locals).push(r.body)),
        final(memory)@.objs == old(memory)@.objs,
        name_model(r.name) == old(memory)@.cell(h)->Fun_0,
        final(memory)@.obj(r.args) == old(memory)@.cell(h)->Fun_1,
        final(memory)@.obj(r.locals) == old(memory)@.cell(h)->Fun_2,
        final(memory)@.obj(r.body) == old(memory)@.cell(h)->Fun_3,
{
    let r = memory.fun_unpack(h);
    proof {
        let g = old(memory).globals_handle();
        let m1 = old(memory)@;
        let m2 = memory@;
        lemma_kept_handles(m1, m2);
        lemma_handles_ok_kept(m1, m2, g, t);
        lemma_handles_kept_trans(m0, m1, m2);
        assert(m1.live(g)) by {
            assert(m0.handles[g.idx as int] is Some);
        }
        let b = t.push(r.args).push(r.locals).push(r.body);
        assert forall|i: int| 0 <= i < b.len() implies m2.live(#[trigger] b[i]) && b[i].idx != g.idx by {
            if i < t.len() {
                assert(b[i] == t[i]);
            }
        }
        assert forall|i: int, j: int| 0 <= i < j < b.len() implies #[trigger] b[i].idx != #[trigger] b[j].idx by {
            if j < t.len() {
                assert(b[i] == t[i] && b[j] == t[j]);
            } else if i < t.len() {
                assert(b[i] == t[i]);
                assert(m1.live(t[i]));
            }
        }
        assert forall|k: int| 0 <= k < b.len() implies fresh(m0, #[trigger] b[k]) by {
            if k < t.len() {
                assert(b[k] == t[k]);
            } else {
                if b[k].idx < m0.handles.len() && m0.handles[b[k].idx as int] is Some {
                    assert(m1.handles[b[k].idx as int] is Some);
                }
            }
        }
    }
    r
}

/// A new function object.
pub fn s_fun_new(memory: &mut Memory, f: Fun, Ghost(m0): Ghost<MemoryModel>, Ghost(t): Ghost<Seq<MemHandle>>) -> (r: Result<MemHandle, Error>)
    requires
        old(memory).wf(),
        scratch_ok(m0, old(memory)@, old(memory).globals_handle(), t),
        old(memory)@.live(f.args),
        old(memory)@.live(f.locals),
        old(memory)@.live(f.body),
    ensures
        final(memory).wf(),
        old(memory)@.kept_in(final(memory)@),
        final(memory).globals_handle() == old(memory).globals_handle(),
        scratch_ok(m0, final(memory)@, old(memory).globals_handle(), match r { Ok(h) => t.push(h), Err(_) => t }),
        r matches Ok(h) ==> final(memory)@.cell(h) == Obj::Fun(name_model(f.name), old(memory)@.obj(f.args),
            old(memory)@.obj(f.locals), old(memory)@.obj(f.body)),
        r matches Err(e) ==> crate::globals::out_of_memory(e) && final(memory).full(),
{
    proof {
        old(memory).lemma_ok();
    }
    let ghost obj = Obj::Fun(name_model(f.name), old(memory)@.obj(f.args), old(memory)@.obj(f.locals), old(memory)@.obj(f.body));
    match memory.fun_new(f) {
        Ok(h) => {
            proof {
                crate::memory::lemma_added_kept(old(memory)@, memory@, h, obj);
                crate::memory::lemma_added_fresh(old(memory)@, old(memory)@, memory@, h, obj);
                lemma_kept_handles(old(memory)@, memory@);
                lemma_scratch_push(m0, old(memory)@, memory@, old(memory).globals_handle(), t, h);
            }
            Ok(h)
        },
        Err(_) => {
            proof {
                crate::memory::lemma_kept_of_collected(old(memory)@, memory@);
                lemma_kept_handles(old(memory)@, memory@);
                lemma_scratch_kept(m0, old(memory)@, memory@, old(memory).globals_handle(), t);
            }
            Err(crate::eval::memory_full_error())
        },
    }
}

/// Binds in the dictionary `dst` every key of the dictionary `src`.
pub fn s_dict_pull(memory: &mut Memory, dst: MemHandle, src: MemHandle, Ghost(m0): Ghost<MemoryModel>, Ghost(t): Ghost<Seq<MemHandle>>)
    requires
        old(memory).wf(),
        scratch_ok(m0, old(memory)@, old(memory).globals_handle(), t),
        old(memory)@.live(dst),
        old(memory)@.live(src),
        old(memory)@.cell(dst) is Dict,
        old(memory)@.cell(src) is Dict,
    ensures
        final(memory).wf(),
        final(memory).globals_handle() == old(memory).globals_handle(),
        scratch_ok(m0, final(memory)@, old(memory).globals_handle(), t),
        old(memory)@.obj(dst) != old(memory)@.obj(src) ==> old(memory)@.changed(final(memory)@, old(memory)@.obj(dst),
            Obj::Dict(dict_merge(old(memory).entries(dst), old(memory).entries(src)))),
        old(memory)@.obj(dst) == old(memory)@.obj(src) ==> final(memory)@ == old(memory)@,
{
    memory.dict_pull(dst, src);
    proof {
        old(memory).lemma_ok();
        if old(memory)@.obj(dst) != old(memory)@.obj(src) {
            lemma_changed_handles(old(memory)@, memory@, old(memory)@.obj(dst),
                Obj::Dict(dict_merge(old(memory).entries(dst), old(memory).entries(src))));
        } else {
            lemma_handles_kept_refl(old(memory)@);
        }
        lemma_scratch_kept(m0, old(memory)@, memory@, old(memory).globals_handle(), t);
    }
}
} // verus!
