//! The built-in methods on pointers, lists, pools, cells and strings.

use vstd::prelude::*;
use vstd::string::*;
use vstd::utf8::*;

use crate::diag::Span;
use crate::literal::{found_at, is_at, slice_of};
use crate::machine::{advanced, pool_views, Machine, PoolSlot, PoolSlotView, RcCellView, State};
use crate::semantics::{more_strong, more_weak, nth, raises, stops, unit, val, Ev};
use crate::shadow::{base_addr, base_of, PtrVal, NO_MEMORY};
use crate::strs::{
    all_text, characters, count, count_from, find, find_from, is_boundary, lines, lines_from, lower,
    lower_text, pieces, repeat, repeated, replace, replaced, rfind, rfind_to, sliceable,
    law_slice_is_text, lemma_stripped_text, split, trim, trimmed, upper, upper_text, words,
    words_from,
};
use crate::text::str_eq;
use crate::value::{
    byte_views, bytes_of, done_result, err_tag, flow_result, refuse, refused, str_value, tagged,
    trap, trapped, vals, Flow, FlowView, Stop, StopView, Value, ValueView,
};

verus! {

pub const NOT_POINTER: &'static str = "pointer op on a non-pointer";

pub const NO_ADDRESS: &'static str = "with_addr without an address";

pub const NO_EXPOSED: &'static str = "with_exposed without an address";

pub const NO_POINTER_METHOD: &'static str = "this pointer method";

pub const NOT_LIST: &'static str = "List method on a non-list";

pub const TEMPORARY_LIST: &'static str = "mutating a temporary List (a `bytes()` view is read-only)";

pub const GET_NO_INDEX: &'static str = "List.get without an index";

pub const GET_NO_INT: &'static str = "List.get with a non-int index";

pub const NO_LIST_METHOD: &'static str = "this List method";

pub const TEMPORARY_POOL: &'static str = "Pool method on a temporary";

pub const NOT_POOL: &'static str = "Pool method on a non-pool";

pub const NO_POOL_METHOD: &'static str = "this Pool method";

pub const INIT_NO_HANDLE: &'static str = "pool.init without a handle";

pub const INIT_NO_VALUE: &'static str = "pool.init without a value";

pub const INIT_OTHER: &'static str = "pool.init with a non-handle";

pub const REMOVE_NO_HANDLE: &'static str = "pool.remove without a handle";

pub const REMOVE_OTHER: &'static str = "pool.remove with a non-handle";

pub const ALIVE_NO_HANDLE: &'static str = "pool.alive without a handle";

pub const ALIVE_OTHER: &'static str = "pool.alive with a non-handle";

pub const TEMPORARY_CELL: &'static str = "cell method on a temporary";

pub const NOT_CELL: &'static str = "cell method on a non-cell";

pub const NOT_WEAK: &'static str = "weak method on a non-weak";

pub const NO_CELL_METHOD: &'static str = "this cell method";

pub const NO_WEAK_METHOD: &'static str = "this weak method";

pub const NOT_STR: &'static str = "str method on a non-str";

pub const NO_STR_METHOD: &'static str = "this `str` method in checked execution";

pub const STR_NO_RANGE: &'static str = "str.get without a range";

pub const NO_STARTS: &'static str = "starts_with without a str needle";

pub const NO_ENDS: &'static str = "ends_with without a str needle";

pub const NO_CONTAINS: &'static str = "contains without a str needle";

pub const NO_FIND: &'static str = "find without a str needle";

pub const NO_COUNT: &'static str = "count without a str needle";

pub const NO_SPLIT: &'static str = "split without a str separator";

pub const NO_STRIP: &'static str = "strip without a str needle";

pub const NO_REPEAT: &'static str = "repeat without a count";

pub const NO_REPLACE: &'static str = "replace without str arguments";

/// The argument at a position.
pub fn arg_at(vs: &Vec<Value>, i: usize) -> (r: Value)
    ensures
        r@ == nth(vals(vs@), i as int),
{
    if i < vs.len() {
        assert(vals(vs@)[i as int] == vs@[i as int]@);
        vs[i].duplicate()
    } else {
        Value::Uninit
    }
}

// -------------------------------------------------------------- pointers --

/// Provenance operations on a raw pointer.
#[verifier::opaque]
pub open spec fn pointer_method<'t>(
    m: State<'t>,
    method: Seq<char>,
    p: PtrVal,
    args: Seq<ValueView>,
    at: Span,
) -> Ev<'t> {
    if method == "is_null"@ {
        val(m, ValueView::Bool(p.addr == 0))
    } else if method == "addr"@ {
        val(m, ValueView::Int(p.addr as i64))
    } else if method == "expose"@ {
        val(m.with_shadow(m.sh.expose(p)), ValueView::Int(p.addr as i64))
    } else if method == "with_addr"@ {
        match nth(args, 0) {
            ValueView::Int(n) => val(
                m,
                ValueView::Ptr(
                    match p.alloc {
                        Some(a) => PtrVal {
                            offset: (n - base_addr(a as int)) as i64,
                            addr: n as u64,
                            ..p
                        },
                        None => PtrVal { alloc: None, tag: 0, offset: 0, addr: n as u64 },
                    },
                ),
            ),
            _ => stops(m, refused(NO_ADDRESS@, at)),
        }
    } else if method == "with_exposed"@ {
        match nth(args, 0) {
            ValueView::Int(n) => {
                let (sh, q) = m.sh.resolve(n as u64, at);
                val(m.with_shadow(sh), ValueView::Ptr(q))
            },
            _ => stops(m, refused(NO_EXPOSED@, at)),
        }
    } else {
        stops(m, refused(NO_POINTER_METHOD@, at))
    }
}

impl<'t> Machine<'t> {
    #[verifier::truncate]
    #[verifier::spinoff_prover]
    pub fn pointer_method(&mut self, method: &str, p: PtrVal, args: &Vec<Value>, at: Span) -> (r: Result<
        Flow,
        Stop,
    >)
        requires
            old(self).inv(),
        ensures
            advanced(*old(self), *final(self)),
            (final(self)@, flow_result(r)) == pointer_method(
                old(self)@,
                method@,
                p,
                vals(args@),
                at,
            ),
    {
        proof {
            reveal(pointer_method);
        }
        let ghost was = self@;
        proof {
            reveal(Machine::inv);
        }
        if str_eq(method, "is_null") {
            Ok(Flow::Val(Value::Bool(p.addr == 0)))
        } else if str_eq(method, "addr") {
            Ok(Flow::Val(Value::Int(p.addr as i64)))
        } else if str_eq(method, "expose") {
            self.sh.expose(p);
            assert(self@ =~= was.with_shadow(was.sh.expose(p)));
            Ok(Flow::Val(Value::Int(p.addr as i64)))
        } else if str_eq(method, "with_addr") {
            match arg_at(args, 0) {
                Value::Int(n) => {
                    let q = match p.alloc {
                        Some(a) => {
                            let base = base_of(a);
                            PtrVal {
                                alloc: p.alloc,
                                tag: p.tag,
                                offset: (n as i128 - base as i128) as i64,
                                addr: n as u64,
                            }
                        },
                        None => PtrVal { alloc: None, tag: 0, offset: 0, addr: n as u64 },
                    };
                    Ok(Flow::Val(Value::Ptr(q)))
                },
                _ => Err(refuse(NO_ADDRESS, at)),
            }
        } else if str_eq(method, "with_exposed") {
            match arg_at(args, 0) {
                Value::Int(n) => {
                    let q = self.sh.resolve_exposed(n as u64, at);
                    assert(self@ =~= was.with_shadow(was.sh.resolve(n as u64, at).0));
                    Ok(Flow::Val(Value::Ptr(q)))
                },
                _ => Err(refuse(NO_EXPOSED, at)),
            }
        } else {
            Err(refuse(NO_POINTER_METHOD, at))
        }
    }
}

// ------------------------------------------------------------------ lists --

pub open spec fn mutates_list(method: Seq<char>) -> bool {
    method == "push"@ || method == "pop"@ || method == "clear"@
}

pub fn is_list_mutator(method: &str) -> (r: bool)
    ensures
        r == mutates_list(method@),
{
    str_eq(method, "push") || str_eq(method, "pop") || str_eq(method, "clear")
}

pub open spec fn list_pushed<'t>(m: State<'t>, id: usize, v: ValueView) -> State<'t> {
    if id < m.lists.len() {
        m.set_list(id as int, m.lists[id as int].push(v))
    } else {
        m
    }
}

/// A recoverable read: a miss is a row, not a trap.
#[verifier::opaque]
pub open spec fn list_get<'t>(m: State<'t>, id: usize, i: ValueView, at: Span) -> Ev<'t> {
    match i {
        ValueView::Int(n) => if id < m.lists.len() && 0 <= n < m.lists[id as int].len() {
            val(m, m.lists[id as int][n as int])
        } else {
            raises(m, "none"@)
        },
        _ => stops(m, refused(GET_NO_INT@, at)),
    }
}

/// The list methods without arguments.
#[verifier::opaque]
pub open spec fn list_method<'t>(m: State<'t>, method: Seq<char>, id: usize, at: Span) -> Ev<'t> {
    if id >= m.lists.len() {
        stops(m, refused(NO_LIST_METHOD@, at))
    } else {
        let l = m.lists[id as int];
        if method == "len"@ || method == "count"@ {
            val(m, ValueView::Int(l.len() as i64))
        } else if method == "is_empty"@ {
            val(m, ValueView::Bool(l.len() == 0))
        } else if method == "pop"@ {
            if l.len() == 0 {
                raises(m, "none"@)
            } else {
                val(m.set_list(id as int, l.drop_last()), l.last())
            }
        } else if method == "first"@ {
            if l.len() == 0 {
                raises(m, "none"@)
            } else {
                val(m, l[0])
            }
        } else if method == "last"@ {
            if l.len() == 0 {
                raises(m, "none"@)
            } else {
                val(m, l.last())
            }
        } else if method == "clear"@ {
            unit(m.set_list(id as int, Seq::empty()))
        } else {
            stops(m, refused(NO_LIST_METHOD@, at))
        }
    }
}

/// A row error flow.
pub fn raised(tag: &str) -> (r: Flow)
    ensures
        r@ == FlowView::Raise(tagged(tag@), false),
{
    Flow::Raise(err_tag(tag), false)
}

impl<'t> Machine<'t> {
    pub fn list_push(&mut self, id: usize, v: Value)
        requires
            old(self).inv(),
        ensures
            advanced(*old(self), *final(self)),
            final(self)@ == list_pushed(old(self)@, id, v@),
    {
        let ghost was = self@;
        let ghost vv = v@;
        if id < self.lists.len() {
            assert(was.lists[id as int] == vals(self.lists@[id as int]@));
            self.lists[id].push(v);
            proof {
                assert(vals(self.lists@[id as int]@) =~= was.lists[id as int].push(vv));
                assert(self@.lists =~= list_pushed(was, id, vv).lists);
                assert(self@ =~= list_pushed(was, id, vv));
                reveal(Machine::inv);
            }
        }
    }

    pub fn list_get(&self, id: usize, i: &Value, at: Span) -> (r: Result<Flow, Stop>)
        ensures
            (self@, flow_result(r)) == list_get(self@, id, i@, at),
    {
        proof {
            reveal(list_get);
        }
        match i {
            Value::Int(n) => {
                if id < self.lists.len() {
                    assert(self@.lists[id as int] == vals(self.lists@[id as int]@));
                    if 0 <= *n && (*n as u64) < self.lists[id].len() as u64 {
                        return Ok(Flow::Val(self.lists[id][*n as usize].duplicate()));
                    }
                }
                Ok(raised("none"))
            },
            _ => Err(refuse(GET_NO_INT, at)),
        }
    }

    #[verifier::truncate]
    #[verifier::spinoff_prover]
    pub fn list_method(&mut self, method: &str, id: usize, at: Span) -> (r: Result<Flow, Stop>)
        requires
            old(self).inv(),
        ensures
            advanced(*old(self), *final(self)),
            (final(self)@, flow_result(r)) == list_method(old(self)@, method@, id, at),
    {
        proof {
            reveal(list_method);
        }
        let ghost was = self@;
        if id >= self.lists.len() {
            return Err(refuse(NO_LIST_METHOD, at));
        }
        let ghost l = was.lists[id as int];
        assert(l == vals(self.lists@[id as int]@));
        let n: usize = self.lists[id].len();
        if str_eq(method, "len") || str_eq(method, "count") {
            Ok(Flow::Val(Value::Int(n as i64)))
        } else if str_eq(method, "is_empty") {
            Ok(Flow::Val(Value::Bool(n == 0)))
        } else if str_eq(method, "pop") {
            match self.lists[id].pop() {
                Some(v) => {
                    proof {
                        assert(vals(self.lists@[id as int]@) =~= l.drop_last());
                        assert(self@.lists =~= was.set_list(id as int, l.drop_last()).lists);
                        assert(self@ =~= was.set_list(id as int, l.drop_last()));
                        reveal(Machine::inv);
                    }
                    Ok(Flow::Val(v))
                },
                None => {
                    proof {
                        assert(self@.lists =~= was.lists);
                        assert(self@ =~= was);
                        reveal(Machine::inv);
                    }
                    Ok(raised("none"))
                },
            }
        } else if str_eq(method, "first") {
            if n == 0 {
                Ok(raised("none"))
            } else {
                Ok(Flow::Val(self.lists[id][0].duplicate()))
            }
        } else if str_eq(method, "last") {
            if n == 0 {
                Ok(raised("none"))
            } else {
                Ok(Flow::Val(self.lists[id][n - 1].duplicate()))
            }
        } else if str_eq(method, "clear") {
            self.lists[id].clear();
            proof {
                assert(vals(self.lists@[id as int]@) =~= Seq::empty());
                assert(self@.lists =~= was.set_list(id as int, Seq::empty()).lists);
                assert(self@ =~= was.set_list(id as int, Seq::empty()));
                reveal(Machine::inv);
            }
            Ok(Flow::Val(Value::Unit))
        } else {
            Err(refuse(NO_LIST_METHOD, at))
        }
    }
}

/// What is pushed last is popped first.
pub proof fn law_push_pop<'t>(m: State<'t>, id: usize, v: ValueView, at: Span)
    requires
        id < m.lists.len(),
    ensures
        ({
            let (m1, r) = list_method(list_pushed(m, id, v), "pop"@, id, at);
            m1 =~= m && r == Ok::<FlowView, StopView>(FlowView::Val(v))
        }),
{
    reveal(list_method);
    reveal_strlit("pop");
    reveal_strlit("len");
    reveal_strlit("count");
    reveal_strlit("is_empty");
    let p = list_pushed(m, id, v);
    assert("pop"@.len() == 3 && "len"@.len() == 3);
    assert("pop"@[0] == 'p' && "len"@[0] == 'l');
    assert("count"@.len() == 5);
    assert("is_empty"@.len() == 8);
    assert(p.lists[id as int].drop_last() =~= m.lists[id as int]);
    assert(p.set_list(id as int, p.lists[id as int].drop_last()).lists =~= m.lists);
}

// ------------------------------------------------------------------ pools --

/// How many arguments a pool method evaluates.
pub open spec fn pool_needs(method: Seq<char>) -> nat {
    if method == "init"@ {
        2
    } else if method == "remove"@ || method == "alive"@ {
        1
    } else {
        0
    }
}

pub fn pool_arity(method: &str) -> (r: usize)
    ensures
        r == pool_needs(method@),
{
    if str_eq(method, "init") {
        2
    } else if str_eq(method, "remove") || str_eq(method, "alive") {
        1
    } else {
        0
    }
}

/// What a pool method misses with that many arguments.
pub open spec fn pool_missing(method: Seq<char>, have: nat) -> Seq<char> {
    if method == "init"@ {
        if have == 0 {
            INIT_NO_HANDLE@
        } else {
            INIT_NO_VALUE@
        }
    } else if method == "remove"@ {
        REMOVE_NO_HANDLE@
    } else {
        ALIVE_NO_HANDLE@
    }
}

pub fn pool_misses(method: &str, have: usize) -> (r: &'static str)
    ensures
        r@ == pool_missing(method@, have as nat),
{
    if str_eq(method, "init") {
        if have == 0 {
            INIT_NO_HANDLE
        } else {
            INIT_NO_VALUE
        }
    } else if str_eq(method, "remove") {
        REMOVE_NO_HANDLE
    } else {
        ALIVE_NO_HANDLE
    }
}

/// How many of the first `n` slots are live.
pub open spec fn live_slots(p: Seq<PoolSlotView>, n: nat) -> nat
    decreases n,
{
    if n == 0 {
        0
    } else {
        live_slots(p, (n - 1) as nat) + (if p[n - 1].live {
            1nat
        } else {
            0nat
        })
    }
}

/// A removed slot: dead, its generation grown, so every extant handle is
/// stale.
pub open spec fn removed_slot(s: PoolSlotView) -> PoolSlotView {
    PoolSlotView {
        generation: if s.generation < i64::MAX {
            (s.generation + 1) as i64
        } else {
            s.generation
        },
        live: false,
        value: ValueView::Uninit,
    }
}

#[verifier::opaque]
pub open spec fn pool_method<'t>(
    m: State<'t>,
    method: Seq<char>,
    id: usize,
    args: Seq<ValueView>,
    at: Span,
) -> Ev<'t> {
    if id >= m.pools.len() {
        stops(m, refused(NO_POOL_METHOD@, at))
    } else if method == "reserve"@ {
        match m.charged(32) {
            (m1, Err(s)) => (m1, Err(s)),
            (m1, Ok(_)) => val(
                m1.set_pool(
                    id as int,
                    m.pools[id as int].push(
                        PoolSlotView { generation: 0, live: true, value: ValueView::Uninit },
                    ),
                ),
                ValueView::Handle { index: m.pools[id as int].len() as usize, generation: 0 },
            ),
        }
    } else if method == "init"@ {
        match nth(args, 0) {
            ValueView::Handle { index, generation } => if m.stale(id as int, index, generation) {
                stops(m, trapped("stale-handle"@, "mem.shared.handle.2"@, at))
            } else {
                unit(m.fill_pool(id, index, nth(args, 1)))
            },
            _ => stops(m, refused(INIT_OTHER@, at)),
        }
    } else if method == "remove"@ {
        match nth(args, 0) {
            ValueView::Handle { index, generation } => if m.stale(id as int, index, generation) {
                stops(m, trapped("stale-handle"@, "mem.shared.handle.2"@, at))
            } else {
                unit(
                    m.set_pool(
                        id as int,
                        m.pools[id as int].update(
                            index as int,
                            removed_slot(m.pools[id as int][index as int]),
                        ),
                    ),
                )
            },
            _ => stops(m, refused(REMOVE_OTHER@, at)),
        }
    } else if method == "len"@ {
        val(m, ValueView::Int(live_slots(m.pools[id as int], m.pools[id as int].len()) as i64))
    } else if method == "is_empty"@ {
        val(m, ValueView::Bool(live_slots(m.pools[id as int], m.pools[id as int].len()) == 0))
    } else if method == "alive"@ {
        match nth(args, 0) {
            ValueView::Handle { index, generation } => val(
                m,
                ValueView::Bool(!m.stale(id as int, index, generation)),
            ),
            _ => stops(m, refused(ALIVE_OTHER@, at)),
        }
    } else {
        stops(m, refused(NO_POOL_METHOD@, at))
    }
}

fn count_live(p: &Vec<PoolSlot>) -> (r: usize)
    ensures
        r == live_slots(pool_views(p@), p@.len()),
{
    let mut c: usize = 0;
    let mut i: usize = 0;
    while i < p.len()
        invariant
            i <= p@.len(),
            c <= i,
            c == live_slots(pool_views(p@), i as nat),
        decreases p.len() - i,
    {
        assert(pool_views(p@)[i as int] == p@[i as int]@);
        if p[i].live {
            c = c + 1;
        }
        i = i + 1;
    }
    c
}

impl<'t> Machine<'t> {
    fn set_slot(&mut self, id: usize, index: usize, s: PoolSlot)
        requires
            old(self).inv(),
            id < old(self)@.pools.len(),
            index < old(self)@.pools[id as int].len(),
        ensures
            advanced(*old(self), *final(self)),
            final(self)@ == old(self)@.set_pool(
                id as int,
                old(self)@.pools[id as int].update(index as int, s@),
            ),
    {
        let ghost was = self@;
        let ghost sv = s@;
        assert(was.pools[id as int] == pool_views(self.pools@[id as int]@));
        self.pools[id].set(index, s);
        proof {
            let want = was.set_pool(id as int, was.pools[id as int].update(index as int, sv));
            assert(pool_views(self.pools@[id as int]@) =~= want.pools[id as int]);
            assert(self@.pools =~= want.pools);
            assert(self@ =~= want);
            reveal(Machine::inv);
        }
    }

    #[verifier::truncate]
    #[verifier::spinoff_prover]
    pub fn pool_method(&mut self, method: &str, id: usize, args: &Vec<Value>, at: Span) -> (r: Result<
        Flow,
        Stop,
    >)
        requires
            old(self).inv(),
        ensures
            advanced(*old(self), *final(self)),
            (final(self)@, flow_result(r)) == pool_method(
                old(self)@,
                method@,
                id,
                vals(args@),
                at,
            ),
    {
        proof {
            reveal(pool_method);
        }
        let ghost was = self@;
        if id >= self.pools.len() {
            return Err(refuse(NO_POOL_METHOD, at));
        }
        assert(was.pools[id as int] == pool_views(self.pools@[id as int]@));
        if str_eq(method, "reserve") {
            match self.charge_mem(32) {
                Err(s) => return Err(s),
                Ok(_) => {},
            }
            let ghost mid = self@;
            let index: usize = self.pools[id].len();
            self.pools[id].push(PoolSlot { generation: 0, live: true, value: Value::Uninit });
            proof {
                let slot = PoolSlotView { generation: 0, live: true, value: ValueView::Uninit };
                let want = mid.set_pool(id as int, mid.pools[id as int].push(slot));
                assert(pool_views(self.pools@[id as int]@)[index as int] =~= slot);
                assert(pool_views(self.pools@[id as int]@) =~= want.pools[id as int]);
                assert(self@.pools =~= want.pools);
                assert(self@ =~= want);
                reveal(Machine::inv);
            }
            Ok(Flow::Val(Value::Handle { index, generation: 0 }))
        } else if str_eq(method, "init") {
            match arg_at(args, 0) {
                Value::Handle { index, generation } => {
                    if self.is_stale(id, index, generation) {
                        return Err(trap("stale-handle", "mem.shared.handle.2", at));
                    }
                    let v = arg_at(args, 1);
                    self.fill_pool(id, index, v);
                    Ok(Flow::Val(Value::Unit))
                },
                _ => Err(refuse(INIT_OTHER, at)),
            }
        } else if str_eq(method, "remove") {
            match arg_at(args, 0) {
                Value::Handle { index, generation } => {
                    if self.is_stale(id, index, generation) {
                        return Err(trap("stale-handle", "mem.shared.handle.2", at));
                    }
                    let old_gen: i64 = self.pools[id][index].generation;
                    let next: i64 = if old_gen < i64::MAX {
                        old_gen + 1
                    } else {
                        old_gen
                    };
                    let s = PoolSlot { generation: next, live: false, value: Value::Uninit };
                    assert(s@ =~= removed_slot(was.pools[id as int][index as int]));
                    self.set_slot(id, index, s);
                    Ok(Flow::Val(Value::Unit))
                },
                _ => Err(refuse(REMOVE_OTHER, at)),
            }
        } else if str_eq(method, "len") {
            Ok(Flow::Val(Value::Int(count_live(&self.pools[id]) as i64)))
        } else if str_eq(method, "is_empty") {
            Ok(Flow::Val(Value::Bool(count_live(&self.pools[id]) == 0)))
        } else if str_eq(method, "alive") {
            match arg_at(args, 0) {
                Value::Handle { index, generation } => {
                    let stale = self.is_stale(id, index, generation);
                    Ok(Flow::Val(Value::Bool(!stale)))
                },
                _ => Err(refuse(ALIVE_OTHER, at)),
            }
        } else {
            Err(refuse(NO_POOL_METHOD, at))
        }
    }
}

/// A slot that is not live.
pub open spec fn dead_slot(m: State<'_>, pool: int, index: usize) -> bool {
    0 <= pool < m.pools.len() && index < m.pools[pool].len() && !m.pools[pool][index as int].live
}

/// A dead slot is never live again: no method of any pool revives it, and
/// neither does a write through a handle.
pub proof fn law_dead_slot_stays_dead<'t>(
    m: State<'t>,
    method: Seq<char>,
    id: usize,
    args: Seq<ValueView>,
    at: Span,
    pool: int,
    index: usize,
    other: usize,
    v: ValueView,
)
    requires
        dead_slot(m, pool, index),
    ensures
        dead_slot(pool_method(m, method, id, args, at).0, pool, index),
        dead_slot(m.fill_pool(id, other, v), pool, index),
{
    reveal(pool_method);
}

/// One method call on a pool.
pub struct PoolCall {
    pub method: Seq<char>,
    pub id: usize,
    pub args: Seq<ValueView>,
    pub at: Span,
}

/// The state after the first `n` calls.
pub open spec fn after_calls<'t>(m: State<'t>, calls: Seq<PoolCall>, n: nat) -> State<'t>
    decreases n,
{
    if n == 0 {
        m
    } else {
        let c = calls[n - 1];
        pool_method(after_calls(m, calls, (n - 1) as nat), c.method, c.id, c.args, c.at).0
    }
}

proof fn lemma_dead_after<'t>(m: State<'t>, calls: Seq<PoolCall>, n: nat, pool: int, index: usize)
    requires
        dead_slot(m, pool, index),
    ensures
        dead_slot(after_calls(m, calls, n), pool, index),
    decreases n,
{
    if n > 0 {
        lemma_dead_after(m, calls, (n - 1) as nat, pool, index);
        let c = calls[n - 1];
        law_dead_slot_stays_dead(
            after_calls(m, calls, (n - 1) as nat),
            c.method,
            c.id,
            c.args,
            c.at,
            pool,
            index,
            0,
            ValueView::Uninit,
        );
    }
}

proof fn lemma_one_less(s: Seq<PoolSlotView>, n: nat, i: int, x: PoolSlotView)
    requires
        n <= s.len(),
        0 <= i < s.len(),
        s[i].live,
        !x.live,
    ensures
        live_slots(s.update(i, x), n) == live_slots(s, n) - (if i < n {
            1int
        } else {
            0
        }),
    decreases n,
{
    if n > 0 {
        lemma_one_less(s, (n - 1) as nat, i, x);
    }
}

/// A removed handle is stale for ever: whatever is called on the pools
/// afterwards, the handle is not alive, and filling or removing through it
/// traps and changes nothing. The removal takes one live slot and leaves
/// every other handle as it was.
pub proof fn law_removed_is_stale<'t>(
    m: State<'t>,
    id: usize,
    index: usize,
    generation: i64,
    at: Span,
    calls: Seq<PoolCall>,
    v: ValueView,
    other: usize,
    kept: i64,
)
    requires
        id < m.pools.len(),
        !m.stale(id as int, index, generation),
        other != index,
    ensures
        ({
            let h = ValueView::Handle { index, generation };
            let trap = trapped("stale-handle"@, "mem.shared.handle.2"@, at);
            let (m1, removed) = pool_method(m, "remove"@, id, seq![h], at);
            let m2 = after_calls(m1, calls, calls.len());
            &&& removed == Ok::<FlowView, StopView>(FlowView::Val(ValueView::Unit))
            &&& m2.stale(id as int, index, generation)
            &&& pool_method(m2, "alive"@, id, seq![h], at) == val(m2, ValueView::Bool(false))
            &&& pool_method(m2, "init"@, id, seq![h, v], at) == stops(m2, trap)
            &&& pool_method(m2, "remove"@, id, seq![h], at) == stops(m2, trap)
            &&& live_slots(m1.pools[id as int], m1.pools[id as int].len()) == live_slots(
                m.pools[id as int],
                m.pools[id as int].len(),
            ) - 1
            &&& m1.stale(id as int, other, kept) == m.stale(id as int, other, kept)
        }),
{
    reveal(pool_method);
    lemma_method_names();
    let h = ValueView::Handle { index, generation };
    let m1 = pool_method(m, "remove"@, id, seq![h], at).0;
    let slots = m.pools[id as int];
    lemma_one_less(slots, slots.len(), index as int, removed_slot(slots[index as int]));
    lemma_dead_after(m1, calls, calls.len(), id as int, index);
}

/// Through a handle to a dead slot nothing is alive, filled or removed.
pub proof fn lemma_dead_handle<'t>(
    m: State<'t>,
    id: usize,
    index: usize,
    generation: i64,
    args: Seq<ValueView>,
    at: Span,
)
    ensures
        dead_slot(m, id as int, index) && nth(args, 0) == (ValueView::Handle { index, generation })
            ==> {
            let trap = trapped("stale-handle"@, "mem.shared.handle.2"@, at);
            &&& pool_method(m, "alive"@, id, args, at) == val(m, ValueView::Bool(false))
            &&& pool_method(m, "init"@, id, args, at) == stops(m, trap)
            &&& pool_method(m, "remove"@, id, args, at) == stops(m, trap)
        },
{
    reveal(pool_method);
    lemma_method_names();
}

proof fn lemma_method_names()
    ensures
        "remove"@.len() == 6,
        "reserve"@.len() == 7,
        "init"@.len() == 4,
        "len"@.len() == 3,
        "is_empty"@.len() == 8,
        "alive"@.len() == 5,
{
    reveal_strlit("remove");
    reveal_strlit("reserve");
    reveal_strlit("init");
    reveal_strlit("len");
    reveal_strlit("is_empty");
    reveal_strlit("alive");
}

// ------------------------------------------------------------------ cells --

/// The cell methods: `clone` and `downgrade` count references, `upgrade`
/// answers only while a strong one remains.
#[verifier::opaque]
pub open spec fn cell_method<'t>(
    m: State<'t>,
    method: Seq<char>,
    weak: bool,
    v: ValueView,
    at: Span,
) -> Ev<'t> {
    if weak {
        match v {
            ValueView::Weak(c) => if c >= m.cells.len() || method != "upgrade"@ {
                stops(m, refused(NO_WEAK_METHOD@, at))
            } else if m.cells[c as int].strong > 0 {
                val(more_strong(m, c), ValueView::Shared(c))
            } else {
                raises(m, "gone"@)
            },
            _ => stops(m, refused(NOT_WEAK@, at)),
        }
    } else {
        match v {
            ValueView::Shared(c) => if method == "clone"@ {
                val(more_strong(m, c), ValueView::Shared(c))
            } else if method == "downgrade"@ {
                val(more_weak(m, c), ValueView::Weak(c))
            } else {
                stops(m, refused(NO_CELL_METHOD@, at))
            },
            _ => stops(m, refused(NOT_CELL@, at)),
        }
    }
}

impl<'t> Machine<'t> {
    /// Set a cell's counts.
    pub fn set_counts(&mut self, c: usize, strong: u32, weak: u32)
        requires
            old(self).inv(),
            c < old(self)@.cells.len(),
        ensures
            advanced(*old(self), *final(self)),
            final(self)@ == old(self)@.set_cell(
                c as int,
                RcCellView { strong, weak, ..old(self)@.cells[c as int] },
            ),
    {
        let ghost was = self@;
        assert(was.cells[c as int] == self.cells@[c as int]@);
        self.cells[c].strong = strong;
        self.cells[c].weak = weak;
        proof {
            let want = was.set_cell(
                c as int,
                RcCellView { strong, weak, ..was.cells[c as int] },
            );
            assert(self@.cells =~= want.cells);
            assert(self@ =~= want);
            reveal(Machine::inv);
        }
    }

    pub fn more_strong(&mut self, c: usize)
        requires
            old(self).inv(),
        ensures
            advanced(*old(self), *final(self)),
            final(self)@ == more_strong(old(self)@, c),
    {
        if c < self.cells.len() {
            assert(self@.cells[c as int] == self.cells@[c as int]@);
            let s: u32 = self.cells[c].strong;
            let w: u32 = self.cells[c].weak;
            if s < u32::MAX {
                self.set_counts(c, s + 1, w);
            }
        }
    }

    pub fn more_weak(&mut self, c: usize)
        requires
            old(self).inv(),
        ensures
            advanced(*old(self), *final(self)),
            final(self)@ == more_weak(old(self)@, c),
    {
        if c < self.cells.len() {
            assert(self@.cells[c as int] == self.cells@[c as int]@);
            let s: u32 = self.cells[c].strong;
            let w: u32 = self.cells[c].weak;
            if w < u32::MAX {
                self.set_counts(c, s, w + 1);
            }
        }
    }

    pub fn cell_method(&mut self, method: &str, weak: bool, v: &Value, at: Span) -> (r: Result<
        Flow,
        Stop,
    >)
        requires
            old(self).inv(),
        ensures
            advanced(*old(self), *final(self)),
            (final(self)@, flow_result(r)) == cell_method(old(self)@, method@, weak, v@, at),
    {
        proof {
            reveal(cell_method);
        }
        if weak {
            match v {
                Value::Weak(c) => {
                    if *c >= self.cells.len() || !str_eq(method, "upgrade") {
                        return Err(refuse(NO_WEAK_METHOD, at));
                    }
                    assert(self@.cells[*c as int] == self.cells@[*c as int]@);
                    if self.cells[*c].strong > 0 {
                        self.more_strong(*c);
                        Ok(Flow::Val(Value::Shared(*c)))
                    } else {
                        Ok(raised("gone"))
                    }
                },
                _ => Err(refuse(NOT_WEAK, at)),
            }
        } else {
            match v {
                Value::Shared(c) => if str_eq(method, "clone") {
                    self.more_strong(*c);
                    Ok(Flow::Val(Value::Shared(*c)))
                } else if str_eq(method, "downgrade") {
                    self.more_weak(*c);
                    Ok(Flow::Val(Value::Weak(*c)))
                } else {
                    Err(refuse(NO_CELL_METHOD, at))
                },
                _ => Err(refuse(NOT_CELL, at)),
            }
        }
    }
}

// ---------------------------------------------------------------- strings --

/// A fresh list of values, charged.
pub open spec fn make_list<'t>(m: State<'t>, items: Seq<ValueView>) -> Ev<'t> {
    match m.charged(16 * items.len() + 16) {
        (m1, Err(s)) => (m1, Err(s)),
        (m1, Ok(_)) => val(m1.new_list(items), m1.next_list()),
    }
}

pub open spec fn strs_of(v: Seq<Seq<u8>>) -> Seq<ValueView> {
    Seq::new(v.len(), |i: int| ValueView::Str(v[i]))
}

pub open spec fn ints_of(b: Seq<u8>) -> Seq<ValueView> {
    Seq::new(b.len(), |i: int| ValueView::Int(b[i] as i64))
}

pub open spec fn chars_as(s: Seq<char>, n: nat) -> Seq<ValueView>
    decreases n,
{
    if n == 0 {
        Seq::empty()
    } else {
        chars_as(s, (n - 1) as nat).push(ValueView::Char(s[n - 1]))
    }
}

/// A position or the miss row.
pub open spec fn found<'t>(m: State<'t>, o: Option<int>) -> Ev<'t> {
    match o {
        Some(i) => val(m, ValueView::Int(i as i64)),
        None => raises(m, "none"@),
    }
}

/// The string methods with a string argument.
pub open spec fn needle_method<'t>(
    m: State<'t>,
    method: Seq<char>,
    s: Seq<u8>,
    args: Seq<ValueView>,
    at: Span,
) -> Ev<'t> {
    match nth(args, 0) {
        ValueView::Str(n) => if method == "starts_with"@ {
            val(m, ValueView::Bool(found_at(s, n, 0)))
        } else if method == "ends_with"@ {
            val(m, ValueView::Bool(found_at(s, n, s.len() - n.len())))
        } else if method == "contains"@ {
            val(m, ValueView::Bool(find_from(s, n, 0) is Some))
        } else if method == "find"@ {
            found(m, find_from(s, n, 0))
        } else if method == "rfind"@ {
            found(m, rfind_to(s, n, s.len() as int))
        } else if method == "count"@ {
            val(m, ValueView::Int(count_from(s, n, 0) as i64))
        } else if method == "split"@ {
            make_list(m, strs_of(pieces(s, n, 0, 0)))
        } else if method == "strip_prefix"@ {
            if found_at(s, n, 0) {
                val(m, ValueView::Str(s.subrange(n.len() as int, s.len() as int)))
            } else {
                raises(m, "none"@)
            }
        } else if method == "strip_suffix"@ {
            if found_at(s, n, s.len() - n.len()) {
                val(m, ValueView::Str(s.subrange(0, s.len() - n.len())))
            } else {
                raises(m, "none"@)
            }
        } else {
            match nth(args, 1) {
                ValueView::Str(to) => if n.len() == 0 {
                    val(m, ValueView::Str(s))
                } else {
                    match m.charged(s.len() + 16) {
                        (m1, Err(x)) => (m1, Err(x)),
                        (m1, Ok(_)) => val(m1, ValueView::Str(replaced(s, n, to, 0))),
                    }
                },
                _ => stops(m, refused(NO_REPLACE@, at)),
            }
        },
        _ => stops(m, refused(needle_missing(method), at)),
    }
}

pub open spec fn needle_missing(method: Seq<char>) -> Seq<char> {
    if method == "starts_with"@ {
        NO_STARTS@
    } else if method == "ends_with"@ {
        NO_ENDS@
    } else if method == "contains"@ {
        NO_CONTAINS@
    } else if method == "find"@ || method == "rfind"@ {
        NO_FIND@
    } else if method == "count"@ {
        NO_COUNT@
    } else if method == "split"@ {
        NO_SPLIT@
    } else if method == "strip_prefix"@ || method == "strip_suffix"@ {
        NO_STRIP@
    } else {
        NO_REPLACE@
    }
}

pub open spec fn takes_needle(method: Seq<char>) -> bool {
    method == "starts_with"@ || method == "ends_with"@ || method == "contains"@ || method
        == "find"@ || method == "rfind"@ || method == "count"@ || method == "split"@ || method
        == "strip_prefix"@ || method == "strip_suffix"@ || method == "replace"@
}

/// The built-in string surface: byte offsets out, misses are rows.
#[verifier::opaque]
pub open spec fn str_method<'t>(
    m: State<'t>,
    method: Seq<char>,
    s: Seq<u8>,
    args: Seq<ValueView>,
    at: Span,
) -> Ev<'t> {
    if takes_needle(method) {
        needle_method(m, method, s, args, at)
    } else if method == "is_empty"@ {
        val(m, ValueView::Bool(s.len() == 0))
    } else if method == "get"@ {
        match nth(args, 0) {
            ValueView::Range { start, end } => if sliceable(s, start as int, end as int) {
                val(m, ValueView::Str(s.subrange(start as int, end as int)))
            } else {
                raises(m, "none"@)
            },
            _ => stops(m, refused(STR_NO_RANGE@, at)),
        }
    } else if method == "bytes"@ {
        make_list(m, ints_of(s))
    } else if method == "chars"@ {
        make_list(m, chars_as(decode_utf8(s), decode_utf8(s).len()))
    } else if method == "words"@ {
        make_list(m, strs_of(words_from(decode_utf8(s), 0)))
    } else if method == "lines"@ {
        make_list(m, strs_of(lines_from(s, 0)))
    } else if method == "trim"@ {
        val(m, ValueView::Str(encode_utf8(trimmed(decode_utf8(s), true, true))))
    } else if method == "trim_start"@ {
        val(m, ValueView::Str(encode_utf8(trimmed(decode_utf8(s), true, false))))
    } else if method == "trim_end"@ {
        val(m, ValueView::Str(encode_utf8(trimmed(decode_utf8(s), false, true))))
    } else if method == "lower"@ {
        val(m, ValueView::Str(encode_utf8(lower_text(decode_utf8(s)))))
    } else if method == "upper"@ {
        val(m, ValueView::Str(encode_utf8(upper_text(decode_utf8(s)))))
    } else if method == "repeat"@ {
        match nth(args, 0) {
            ValueView::Int(n) => if n < 0 {
                stops(m, trapped("assert"@, "mem.str.repeat"@, at))
            } else {
                match m.charged((s.len() * n + 16) as nat) {
                    (m1, Err(x)) => (m1, Err(x)),
                    (m1, Ok(_)) => val(m1, ValueView::Str(repeated(s, n as nat))),
                }
            },
            _ => stops(m, refused(NO_REPEAT@, at)),
        }
    } else {
        stops(m, refused(NO_STR_METHOD@, at))
    }
}

pub fn str_values(v: &Vec<Vec<u8>>) -> (r: Vec<Value>)
    requires
        all_text(byte_views(v@)),
    ensures
        vals(r@) == strs_of(byte_views(v@)),
{
    let mut out: Vec<Value> = Vec::new();
    let mut i: usize = 0;
    while i < v.len()
        invariant
            i <= v@.len(),
            out@.len() == i,
            all_text(byte_views(v@)),
            forall|k: int| 0 <= k < i ==> (#[trigger] out@[k])@ == ValueView::Str(v@[k]@),
        decreases v.len() - i,
    {
        assert(byte_views(v@)[i as int] == v@[i as int]@);
        out.push(str_value(&v[i]));
        i = i + 1;
    }
    assert(vals(out@) =~= strs_of(byte_views(v@)));
    out
}

pub fn int_values(b: &Vec<u8>) -> (r: Vec<Value>)
    ensures
        vals(r@) == ints_of(b@),
{
    let mut out: Vec<Value> = Vec::new();
    let mut i: usize = 0;
    while i < b.len()
        invariant
            i <= b@.len(),
            out@.len() == i,
            forall|k: int| 0 <= k < i ==> (#[trigger] out@[k])@ == ValueView::Int(b@[k] as i64),
        decreases b.len() - i,
    {
        out.push(Value::Int(b[i] as i64));
        i = i + 1;
    }
    assert(vals(out@) =~= ints_of(b@));
    out
}

pub fn char_val(c: char) -> (r: Value)
    ensures
        r@ == ValueView::Char(c),
{
    Value::Char(c)
}

fn char_values(s: &Vec<char>) -> (r: Vec<Value>)
    ensures
        vals(r@) == chars_as(s@, s@.len()),
{
    let mut out: Vec<Value> = Vec::new();
    let mut i: usize = 0;
    assert(vals(out@) =~= Seq::empty());
    while i < s.len()
        invariant
            i <= s@.len(),
            vals(out@) == chars_as(s@, i as nat),
        decreases s.len() - i,
    {
        let ghost before = vals(out@);
        let c = char_val(s[i]);
        out.push(c);
        assert(vals(out@) =~= before.push(c@));
        i = i + 1;
    }
    out
}

fn misses_needle(method: &str) -> (r: &'static str)
    ensures
        r@ == needle_missing(method@),
{
    if str_eq(method, "starts_with") {
        NO_STARTS
    } else if str_eq(method, "ends_with") {
        NO_ENDS
    } else if str_eq(method, "contains") {
        NO_CONTAINS
    } else if str_eq(method, "find") || str_eq(method, "rfind") {
        NO_FIND
    } else if str_eq(method, "count") {
        NO_COUNT
    } else if str_eq(method, "split") {
        NO_SPLIT
    } else if str_eq(method, "strip_prefix") || str_eq(method, "strip_suffix") {
        NO_STRIP
    } else {
        NO_REPLACE
    }
}

fn wants_needle(method: &str) -> (r: bool)
    ensures
        r == takes_needle(method@),
{
    str_eq(method, "starts_with") || str_eq(method, "ends_with") || str_eq(method, "contains")
        || str_eq(method, "find") || str_eq(method, "rfind") || str_eq(method, "count") || str_eq(
        method,
        "split",
    ) || str_eq(method, "strip_prefix") || str_eq(method, "strip_suffix") || str_eq(
        method,
        "replace",
    )
}

fn suffix_at(s: &Vec<u8>, n: &Vec<u8>) -> (r: bool)
    ensures
        r == found_at(s@, n@, s@.len() - n@.len()),
{
    if n.len() > s.len() {
        false
    } else {
        is_at(s, n, s.len() - n.len())
    }
}

impl<'t> Machine<'t> {
    /// Charge a size that may exceed a word.
    pub fn charge_wide(&mut self, bytes: u128) -> (r: Result<(), Stop>)
        requires
            old(self).inv(),
        ensures
            advanced(*old(self), *final(self)),
            (final(self)@, done_result(r)) == old(self)@.charged(bytes as nat),
    {
        let ghost was = self@;
        if bytes <= 0xffff_ffff_ffff_ffff {
            self.charge_mem(bytes as u64)
        } else {
            self.sh.mem_used = u64::MAX;
            proof {
                assert(self.sh@ =~= was.sh.charged(bytes as nat));
                assert(self@ =~= was.charged(bytes as nat).0);
                reveal(Machine::inv);
            }
            Err(Stop::Budget(NO_MEMORY))
        }
    }

    pub fn make_list(&mut self, items: Vec<Value>) -> (r: Result<Flow, Stop>)
        requires
            old(self).inv(),
        ensures
            advanced(*old(self), *final(self)),
            (final(self)@, flow_result(r)) == make_list(old(self)@, vals(items@)),
    {
        let n: usize = items.len();
        match self.charge_wide(16 * (n as u128) + 16) {
            Err(s) => return Err(s),
            Ok(_) => {},
        }
        let v = self.new_list(items);
        Ok(Flow::Val(v))
    }

    #[verifier::truncate]
    #[verifier::spinoff_prover]
    fn needle_method(&mut self, method: &str, s: &Vec<u8>, args: &Vec<Value>, at: Span) -> (r: Result<
        Flow,
        Stop,
    >)
        requires
            old(self).inv(),
            valid_utf8(s@),
        ensures
            advanced(*old(self), *final(self)),
            (final(self)@, flow_result(r)) == needle_method(
                old(self)@,
                method@,
                s@,
                vals(args@),
                at,
            ),
    {
        broadcast use encode_utf8_valid_utf8;

        let n = match arg_at(args, 0) {
            Value::Str(n) => bytes_of(n.as_str()),
            _ => return Err(refuse(misses_needle(method), at)),
        };
        proof {
            lemma_stripped_text(s@, n@);
        }
        if str_eq(method, "starts_with") {
            Ok(Flow::Val(Value::Bool(is_at(s, &n, 0))))
        } else if str_eq(method, "ends_with") {
            Ok(Flow::Val(Value::Bool(suffix_at(s, &n))))
        } else if str_eq(method, "contains") {
            Ok(Flow::Val(Value::Bool(find(s, &n, 0).is_some())))
        } else if str_eq(method, "find") {
            match find(s, &n, 0) {
                Some(i) => Ok(Flow::Val(Value::Int(i as i64))),
                None => Ok(raised("none")),
            }
        } else if str_eq(method, "rfind") {
            match rfind(s, &n) {
                Some(i) => Ok(Flow::Val(Value::Int(i as i64))),
                None => Ok(raised("none")),
            }
        } else if str_eq(method, "count") {
            Ok(Flow::Val(Value::Int(count(s, &n) as i64)))
        } else if str_eq(method, "split") {
            let p = split(s, &n);
            self.make_list(str_values(&p))
        } else if str_eq(method, "strip_prefix") {
            if is_at(s, &n, 0) {
                Ok(Flow::Val(str_value(&slice_of(s, n.len(), s.len()))))
            } else {
                Ok(raised("none"))
            }
        } else if str_eq(method, "strip_suffix") {
            if suffix_at(s, &n) {
                Ok(Flow::Val(str_value(&slice_of(s, 0, s.len() - n.len()))))
            } else {
                Ok(raised("none"))
            }
        } else {
            let to = match arg_at(args, 1) {
                Value::Str(t) => bytes_of(t.as_str()),
                _ => return Err(refuse(NO_REPLACE, at)),
            };
            if n.len() == 0 {
                return Ok(Flow::Val(str_value(s)));
            }
            match self.charge_wide(s.len() as u128 + 16) {
                Err(x) => return Err(x),
                Ok(_) => {},
            }
            Ok(Flow::Val(str_value(&replace(s, &n, &to))))
        }
    }

    #[verifier::spinoff_prover]
    pub fn str_method(&mut self, method: &str, s: &Vec<u8>, args: &Vec<Value>, at: Span) -> (r: Result<
        Flow,
        Stop,
    >)
        requires
            old(self).inv(),
            valid_utf8(s@),
        ensures
            advanced(*old(self), *final(self)),
            (final(self)@, flow_result(r)) == str_method(old(self)@, method@, s@, vals(args@), at),
    {
        proof {
            reveal(str_method);
        }
        if wants_needle(method) {
            return self.needle_method(method, s, args, at);
        }
        if str_eq(method, "is_empty") {
            Ok(Flow::Val(Value::Bool(s.len() == 0)))
        } else if str_eq(method, "get") {
            match arg_at(args, 0) {
                Value::Range { start, end } => {
                    let n: usize = s.len();
                    if 0 <= start && start <= end && (end as u64) <= n as u64 {
                        let a: usize = start as usize;
                        let z: usize = end as usize;
                        if is_boundary(s, a) && is_boundary(s, z) {
                            proof {
                                law_slice_is_text(s@, a as int, z as int);
                            }
                            return Ok(Flow::Val(str_value(&slice_of(s, a, z))));
                        }
                    }
                    Ok(raised("none"))
                },
                _ => Err(refuse(STR_NO_RANGE, at)),
            }
        } else if str_eq(method, "bytes") {
            self.make_list(int_values(s))
        } else if str_eq(method, "chars") {
            let cs = characters(s);
            self.make_list(char_values(&cs))
        } else if str_eq(method, "words") {
            let p = words(s);
            self.make_list(str_values(&p))
        } else if str_eq(method, "lines") {
            let p = lines(s);
            self.make_list(str_values(&p))
        } else if str_eq(method, "trim") {
            Ok(Flow::Val(str_value(&trim(s, true, true))))
        } else if str_eq(method, "trim_start") {
            Ok(Flow::Val(str_value(&trim(s, true, false))))
        } else if str_eq(method, "trim_end") {
            Ok(Flow::Val(str_value(&trim(s, false, true))))
        } else if str_eq(method, "lower") {
            Ok(Flow::Val(str_value(&lower(s))))
        } else if str_eq(method, "upper") {
            Ok(Flow::Val(str_value(&upper(s))))
        } else if str_eq(method, "repeat") {
            match arg_at(args, 0) {
                Value::Int(n) => {
                    if n < 0 {
                        return Err(trap("assert", "mem.str.repeat", at));
                    }
                    let len: usize = s.len();
                    assert(len * n <= 0x1_0000_0000_0000_0000 * 0x1_0000_0000_0000_0000 - 0x1_0000_0000_0000_0000)
                        by (nonlinear_arith)
                        requires
                            0 <= len <= 0xffff_ffff_ffff_ffff,
                            0 <= n <= 0x7fff_ffff_ffff_ffff,
                    ;
                    match self.charge_wide((len as u128) * (n as u128) + 16) {
                        Err(x) => return Err(x),
                        Ok(_) => {},
                    }
                    Ok(Flow::Val(str_value(&repeat(s, n as u64))))
                },
                _ => Err(refuse(NO_REPEAT, at)),
            }
        } else {
            Err(refuse(NO_STR_METHOD, at))
        }
    }
}

} // verus!
