//! The machine's heap steps: copies, raw memory, the modelled C set and
//! the rendering of strings.

use vstd::prelude::*;
use vstd::string::*;
use vstd::utf8::*;

use crate::arith::le_number;
use crate::ast::FormatSpec;
use crate::diag::Span;
use crate::literal::{
    BACKSLASH, CLOSE_BRACE, OPEN_BRACE, decode_codepoint_escape, decode_escapes, dedent_multiline,
    extend, multiline, multiline_body, push_char, raw_str_inner, slice_of, unescaped,
};
use crate::machine::{
    Machine, NO_DEPTH, NO_FIELD, PoolSlot, State, advanced, field_of, field_value, pool_views,
};
use crate::methods::arg_at;
use crate::runbase::{opt_body, opt_kind_ref};
use crate::semantics::{
    BAD_FREE, BAD_REPLY, BAD_SPEC, COMPUTED_SPEC, DOOR_OPERANDS, FALSE_DOOR, FALSE_NOALIAS,
    HOLES_IN_LINES, NO_BRIDGE, NO_C, NO_FREE, NO_MEMBER, NO_MEMCPY, NO_MEMSET, NO_PAYLOAD, NO_SIZE,
    SPEC_OF_OTHER, UNRULED_SPEC, alloc_span, apply_spec, assume_values, backing, bridge, c_alloc,
    c_call, c_size, clash, copy_all, copy_fields, deep_copy, door_holds, door_values, element,
    exposed, fill_bytes, first_clash, format_request, hole_at, nth, pointers, project, raw_read,
    raw_write, rebuilt, show_value, spec_text, stops, string_value, ub, unit,
};
use crate::shadow::{NO_MEMORY, PtrVal, REGION_BACKING, base_of};
use crate::strs::{is_text, text_of};
use crate::text::{chars_of, lit, str_eq, string_of};
use crate::types::TyKind;
use crate::value::{
    Flow, FlowView, HostOp, Reply, Request, Stop, StopView, Value, ValueView, bytes_of, copy_bytes,
    done_result, flow_result, format_value, lemma_named, named_vals, refuse, refused, vals,
    value_result,
};
use crate::verdict::{UbFinding, UbRow};

verus! {

// ---------------------------------------------------------------- copies --

impl<'t> Machine<'t> {
    /// Duplicate a value: containers are copied, cells shared.
    #[verifier::spinoff_prover]
    pub fn deep_copy(&mut self, v: &Value, fuel: u128) -> (r: Result<Value, Stop>)
        requires
            old(self).inv(),
        ensures
            advanced(*old(self), *final(self)),
            (final(self)@, value_result(r)) == deep_copy(old(self)@, v@, fuel as nat),
        decreases fuel, v, 0nat,
    {
        let ghost was = self@;
        match v {
            Value::List(id) => {
                let id: usize = *id;
                if fuel == 0 {
                    return Err(Stop::Budget(NO_DEPTH));
                }
                if id >= self.lists.len() {
                    return Ok(Value::List(id));
                }
                let items = Value::duplicate_all(&self.lists[id]);
                assert(was.lists[id as int] == vals(items@));
                match self.copy_all(&items, fuel - 1) {
                    Err(s) => Err(s),
                    Ok(out) => Ok(self.new_list(out)),
                }
            },
            Value::Pool(id) => {
                let id: usize = *id;
                if id >= self.pools.len() {
                    return Ok(Value::Pool(id));
                }
                let p = copy_pool(&self.pools[id]);
                let n: usize = self.pools.len();
                self.pools.push(p);
                proof {
                    assert(was.pools[id as int] == pool_views(p@));
                    assert(self@.pools =~= was.pools.push(was.pools[id as int]));
                    assert(self@ =~= State { pools: was.pools.push(was.pools[id as int]), ..was });
                    reveal(Machine::inv);
                }
                Ok(Value::Pool(n))
            },
            Value::Struct(fs) => {
                proof {
                    lemma_named(*fs);
                }
                match self.copy_fields(fs, fuel) {
                    Err(s) => Err(s),
                    Ok(out) => {
                        proof {
                            lemma_named(out);
                        }
                        Ok(Value::Struct(out))
                    },
                }
            },
            Value::Shared(c) => {
                self.more_strong(*c);
                Ok(Value::Shared(*c))
            },
            _ => Ok(v.duplicate()),
        }
    }

    fn copy_all(&mut self, vs: &Vec<Value>, fuel: u128) -> (r: Result<Vec<Value>, Stop>)
        requires
            old(self).inv(),
        ensures
            advanced(*old(self), *final(self)),
            (final(self)@, vals_result(r)) == copy_all(
                old(self)@,
                vals(vs@),
                fuel as nat,
                0,
                Seq::empty(),
            ),
        decreases fuel, vs, 0nat,
    {
        let ghost start = *self;
        let ghost all = vals(vs@);
        let mut out: Vec<Value> = Vec::new();
        let mut i: usize = 0;
        assert(vals(out@) =~= Seq::empty());
        while i < vs.len()
            invariant
                i <= vs@.len(),
                start == *old(self),
                all == vals(vs@),
                advanced(start, *self),
                copy_all(start@, all, fuel as nat, 0, Seq::empty()) == copy_all(
                    self@,
                    all,
                    fuel as nat,
                    i as nat,
                    vals(out@),
                ),
            decreases vs.len() - i,
        {
            assert(all[i as int] == vs@[i as int]@);
            match self.deep_copy(&vs[i], fuel) {
                Err(s) => return Err(s),
                Ok(v) => {
                    let ghost before = vals(out@);
                    out.push(v);
                    assert(vals(out@) =~= before.push(v@));
                },
            }
            i = i + 1;
        }
        Ok(out)
    }

    fn copy_fields(&mut self, fs: &Vec<(String, Value)>, fuel: u128) -> (r: Result<
        Vec<(String, Value)>,
        Stop,
    >)
        requires
            old(self).inv(),
        ensures
            advanced(*old(self), *final(self)),
            (final(self)@, named_result(r)) == copy_fields(
                old(self)@,
                named_vals(fs@),
                fuel as nat,
                0,
                Seq::empty(),
            ),
        decreases fuel, fs, 0nat,
    {
        let ghost start = *self;
        let ghost all = named_vals(fs@);
        let mut out: Vec<(String, Value)> = Vec::new();
        let mut i: usize = 0;
        assert(named_vals(out@) =~= Seq::empty());
        while i < fs.len()
            invariant
                i <= fs@.len(),
                start == *old(self),
                all == named_vals(fs@),
                advanced(start, *self),
                copy_fields(start@, all, fuel as nat, 0, Seq::empty()) == copy_fields(
                    self@,
                    all,
                    fuel as nat,
                    i as nat,
                    named_vals(out@),
                ),
            decreases fs.len() - i,
        {
            assert(all[i as int] == (fs@[i as int].0@, fs@[i as int].1@));
            match self.deep_copy(&fs[i].1, fuel) {
                Err(s) => return Err(s),
                Ok(v) => {
                    let ghost before = named_vals(out@);
                    let name = fs[i].0.clone();
                    out.push((name, v));
                    assert(named_vals(out@) =~= before.push((fs@[i as int].0@, v@)));
                },
            }
            i = i + 1;
        }
        Ok(out)
    }
}

fn copy_pool(p: &Vec<PoolSlot>) -> (r: Vec<PoolSlot>)
    ensures
        pool_views(r@) == pool_views(p@),
{
    let mut out: Vec<PoolSlot> = Vec::new();
    let mut i: usize = 0;
    while i < p.len()
        invariant
            i <= p@.len(),
            out@.len() == i,
            forall|k: int| 0 <= k < i ==> (#[trigger] out@[k])@ == p@[k]@,
        decreases p.len() - i,
    {
        let s = PoolSlot {
            generation: p[i].generation,
            live: p[i].live,
            value: p[i].value.duplicate(),
        };
        assert(s@ == p@[i as int]@);
        out.push(s);
        i = i + 1;
    }
    assert(pool_views(out@) =~= pool_views(p@));
    out
}

pub open spec fn vals_result(r: Result<Vec<Value>, Stop>) -> Result<Seq<ValueView>, StopView> {
    match r {
        Ok(v) => Ok(vals(v@)),
        Err(s) => Err(s@),
    }
}

pub open spec fn named_result(r: Result<Vec<(String, Value)>, Stop>) -> Result<
    Seq<(Seq<char>, ValueView)>,
    StopView,
> {
    match r {
        Ok(v) => Ok(named_vals(v@)),
        Err(s) => Err(s@),
    }
}

pub open spec fn bytes_result(r: Result<Vec<u8>, Stop>) -> Result<Seq<u8>, StopView> {
    match r {
        Ok(v) => Ok(v@),
        Err(s) => Err(s@),
    }
}

// ------------------------------------------------------------ temporaries --

fn project_field(fs: &Vec<(String, Value)>, field: &str, at: Span) -> (r: Result<Flow, Stop>)
    ensures
        flow_result(r) == (match field_value(named_vals(fs@), field@, 0) {
            Some(k) => Ok(FlowView::Val(named_vals(fs@)[k].1)),
            None => Err(refused(NO_FIELD@, at)),
        }),
{
    match field_of(fs, field) {
        Some(v) => Ok(Flow::Val(v)),
        None => Err(refuse(NO_FIELD, at)),
    }
}

impl<'t> Machine<'t> {
    /// The member of a temporary.
    pub fn project(&self, v: &Value, field: &str, at: Span) -> (r: Result<Flow, Stop>)
        ensures
            (self@, flow_result(r)) == project(self@, v@, field@, at),
    {
        proof {
            reveal(project);
        }
        match v {
            Value::Struct(fs) => {
                proof {
                    lemma_named(*fs);
                }
                project_field(fs, field, at)
            },
            Value::List(id) => if str_eq(field, "len") && *id < self.lists.len() {
                assert(self@.lists[*id as int].len() == self.lists@[*id as int]@.len());
                Ok(Flow::Val(Value::Int(self.lists[*id].len() as i64)))
            } else {
                Err(refuse(NO_MEMBER, at))
            },
            Value::Str(s) => if str_eq(field, "len") {
                Ok(Flow::Val(Value::Int(bytes_of(s.as_str()).len() as i64)))
            } else {
                Err(refuse(NO_MEMBER, at))
            },
            Value::Shared(c) => {
                let c: usize = *c;
                if c >= self.cells.len() {
                    return Err(refuse(NO_MEMBER, at));
                }
                assert(self@.cells[c as int] == self.cells@[c as int]@);
                match &self.cells[c].value {
                    Value::Struct(fs) => {
                        proof {
                            lemma_named(*fs);
                        }
                        project_field(fs, field, at)
                    },
                    _ => Err(refuse(NO_PAYLOAD, at)),
                }
            },
            _ => Err(refuse(NO_MEMBER, at)),
        }
    }
}

// ------------------------------------------------------------ raw memory --

impl<'t> Machine<'t> {
    /// Read bytes through a pointer.
    pub fn raw_read(&mut self, p: PtrVal, len: u64, span: Span, op: &str) -> (r: Result<
        Vec<u8>,
        Stop,
    >)
        requires
            old(self).inv(),
        ensures
            advanced(*old(self), *final(self)),
            (final(self)@, bytes_result(r)) == raw_read(old(self)@, p, len, span, op@),
            r matches Ok(b) ==> b@.len() == len,
    {
        let ghost was = self@;
        proof {
            reveal(Machine::inv);
        }
        match self.sh.raw_read_bytes(p, len, span, op) {
            Err(f) => {
                assert(self@ =~= was);
                Err(Stop::Ub(f))
            },
            Ok(b) => {
                assert(self@ =~= was.with_shadow(was.sh.accessed(p, false)));
                Ok(b)
            },
        }
    }

    /// Write bytes through a pointer.
    pub fn raw_write(&mut self, p: PtrVal, data: &Vec<u8>, span: Span, op: &str) -> (r: Result<
        (),
        Stop,
    >)
        requires
            old(self).inv(),
        ensures
            advanced(*old(self), *final(self)),
            (final(self)@, done_result(r)) == raw_write(old(self)@, p, data@, span, op@),
    {
        let ghost was = self@;
        proof {
            reveal(Machine::inv);
        }
        match self.sh.raw_write_bytes(p, data, span, op) {
            Err(f) => {
                assert(self@ =~= was);
                Err(Stop::Ub(f))
            },
            Ok(_) => {
                assert(self@ =~= was.with_shadow(was.sh.accessed(p, true).written(p, data@)));
                Ok(())
            },
        }
    }

    pub(crate) fn alloc_span(&self, p: PtrVal, otherwise: Span) -> (r: Span)
        ensures
            r == alloc_span(self@, p, otherwise),
    {
        match self.sh.target_of(p) {
            Some(a) => {
                assert(self@.sh.allocs[a as int] == self.sh.allocs@[a as int]@);
                self.sh.allocs[a].span
            },
            None => otherwise,
        }
    }
}

/// The pointer to an element.
#[verifier::truncate]
pub fn element_of(p: PtrVal, idx: i64, size: u64) -> (r: PtrVal)
    requires
        size <= 8,
    ensures
        r == element(p, idx, size),
{
    assert(-0x8000_0000_0000_0000 * 8 <= idx * size <= 0x8000_0000_0000_0000 * 8)
        by (nonlinear_arith)
        requires
            -0x8000_0000_0000_0000 <= idx <= 0x7fff_ffff_ffff_ffff,
            0 <= size <= 8,
    ;
    let by: i128 = (idx as i128) * (size as i128);
    PtrVal {
        alloc: p.alloc,
        tag: p.tag,
        offset: (p.offset as i128 + by) as i64,
        addr: (p.addr as i128 + by) as u64,
    }
}

impl<'t> Machine<'t> {
    /// A region's backing base, allocated on first use.
    fn backing(&mut self, r: usize, span: Span) -> (out: Result<Value, Stop>)
        requires
            old(self).inv(),
        ensures
            advanced(*old(self), *final(self)),
            (final(self)@, value_result(out)) == backing(old(self)@, r, span),
    {
        let ghost was = self@;
        proof {
            reveal(Machine::inv);
        }
        if r >= self.sh.regions.len() {
            return Err(refuse(NO_BRIDGE, span));
        }
        match self.sh.region_backing(r, span) {
            Some(p) => {
                proof {
                    match was.sh.regions[r as int].backing {
                        Some(_) => {
                            assert(self@ =~= was);
                        },
                        None => {
                            assert(self@ =~= was.with_shadow(was.sh.backed(r as int, span)));
                        },
                    }
                }
                Ok(Value::Ptr(p))
            },
            None => {
                assert(self@ =~= was.with_shadow(was.sh.charged(REGION_BACKING as nat)));
                Err(Stop::Budget(NO_MEMORY))
            },
        }
    }

    /// A raw bridge on a value.
    #[verifier::truncate]
    pub fn bridge(&mut self, from: Option<&TyKind>, to: Option<&TyKind>, v: &Value, at: Span) -> (r: Result<
        Flow,
        Stop,
    >)
        requires
            old(self).inv(),
        ensures
            advanced(*old(self), *final(self)),
            (final(self)@, flow_result(r)) == bridge(
                old(self)@,
                opt_kind_ref(from),
                opt_kind_ref(to),
                v@,
                at,
            ),
    {
        proof {
            reveal(bridge);
        }
        let ghost was = self@;
        let to_ptr = match to {
            Some(TyKind::Ptr(_)) => true,
            _ => false,
        };
        match v {
            Value::Ptr(p) => match from {
                Some(TyKind::Ptr(_)) => if to_ptr {
                    Ok(Flow::Val(Value::Ptr(*p)))
                } else {
                    proof {
                        reveal(Machine::inv);
                    }
                    self.sh.expose(*p);
                    assert(self@ =~= was.with_shadow(was.sh.expose(*p)));
                    Ok(Flow::Val(Value::Int(p.addr as i64)))
                },
                _ => Err(refuse(NO_BRIDGE, at)),
            },
            Value::Region(r) => match from {
                Some(TyKind::RegionTy) => match self.backing(*r, at) {
                    Err(s) => Err(s),
                    Ok(x) => Ok(Flow::Val(x)),
                },
                _ => Err(refuse(NO_BRIDGE, at)),
            },
            Value::Int(n) => if to_ptr {
                proof {
                    reveal(Machine::inv);
                }
                let p = self.sh.resolve_exposed(*n as u64, at);
                assert(self@ =~= was.with_shadow(was.sh.resolve(*n as u64, at).0));
                Ok(Flow::Val(Value::Ptr(p)))
            } else {
                Err(refuse(NO_BRIDGE, at))
            },
            _ => Err(refuse(NO_BRIDGE, at)),
        }
    }

    fn clashes(&self, a: PtrVal, b: PtrVal) -> (r: bool)
        ensures
            r == clash(self@, a, b),
    {
        match (a.alloc, b.alloc) {
            (Some(x), Some(y)) => {
                if x != y || x >= self.sh.allocs.len() {
                    return false;
                }
                assert(self@.sh.allocs[x as int] == self.sh.allocs@[x as int]@);
                let size: u64 = self.sh.allocs[x].size;
                (a.offset as i128) < (size as i128) && (b.offset as i128) < (size as i128)
            },
            _ => false,
        }
    }

    fn find_clash(&self, ps: &Vec<PtrVal>) -> (r: Option<usize>)
        ensures
            opt_body(r) == first_clash(self@, ps@, 0, 1),
            r matches Some(i) ==> i < ps@.len() && ps@[i as int].alloc is Some
                && ps@[i as int].alloc->0 < self@.sh.allocs.len(),
    {
        let n: usize = ps.len();
        let mut i: usize = 0;
        while i < n
            invariant
                i <= n,
                n == ps@.len(),
                first_clash(self@, ps@, 0, 1) == first_clash(self@, ps@, i as int, i + 1),
            decreases n - i,
        {
            let mut j: usize = i + 1;
            while j < n
                invariant
                    i < j <= n,
                    n == ps@.len(),
                    first_clash(self@, ps@, 0, 1) == first_clash(self@, ps@, i as int, j as int),
                decreases n - j,
            {
                if self.clashes(ps[i], ps[j]) {
                    return Some(i);
                }
                j = j + 1;
            }
            i = i + 1;
        }
        None
    }

    /// `assume noalias` on evaluated operands.
    pub fn assume_values(&self, vs: &Vec<Value>, span: Span) -> (r: Result<Flow, Stop>)
        ensures
            (self@, flow_result(r)) == assume_values(self@, vals(vs@), span),
    {
        proof {
            reveal(assume_values);
        }
        let ghost all = vals(vs@);
        let mut ps: Vec<PtrVal> = Vec::new();
        let mut i: usize = 0;
        while i < vs.len()
            invariant
                i <= vs@.len(),
                all == vals(vs@),
                ps@ == pointers(all, i as nat),
            decreases vs.len() - i,
        {
            assert(all[i as int] == vs@[i as int]@);
            if let Value::Ptr(p) = &vs[i] {
                ps.push(*p);
            }
            i = i + 1;
        }
        match self.find_clash(&ps) {
            Some(i) => {
                let tag_span = match ps[i].alloc {
                    Some(a) => {
                        assert(self@.sh.allocs[a as int] == self.sh.allocs@[a as int]@);
                        self.sh.allocs[a].span
                    },
                    None => span,
                };
                Err(
                    Stop::Ub(
                        UbFinding { row: UbRow::P5, message: lit(FALSE_NOALIAS), span, tag_span },
                    ),
                )
            },
            None => Ok(Flow::Val(Value::Unit)),
        }
    }

    fn door_claim(&self, r: usize, p: PtrVal, size: u64) -> (ok: bool)
        requires
            self.inv(),
            r < self@.sh.regions.len(),
        ensures
            ok == door_holds(self@, r, p, size),
    {
        match self.sh.target_of(p) {
            Some(a) => {
                assert(self@.sh.allocs[a as int] == self.sh.allocs@[a as int]@);
                let al = &self.sh.allocs[a];
                let off: i128 = p.offset as i128;
                al.live && al.region == r && self.sh.regions[r].live && 0 <= off && off + (
                size as i128) <= (al.size as i128)
            },
            None => false,
        }
    }

    /// The door on evaluated operands.
    pub fn door_values(&mut self, r: &Value, p: &Value, size: u64, at: Span) -> (out: Result<
        Flow,
        Stop,
    >)
        requires
            old(self).inv(),
        ensures
            advanced(*old(self), *final(self)),
            (final(self)@, flow_result(out)) == door_values(old(self)@, r@, p@, size, at),
    {
        proof {
            reveal(door_values);
        }
        match (r, p) {
            (Value::Region(rid), Value::Ptr(ptr)) => {
                let rid: usize = *rid;
                if rid >= self.sh.regions.len() {
                    return Err(refuse(DOOR_OPERANDS, at));
                }
                if !self.door_claim(rid, *ptr, size) {
                    let tag_span = self.sh.regions[rid].span;
                    return Err(
                        Stop::Ub(
                            UbFinding {
                                row: UbRow::P6,
                                message: lit(FALSE_DOOR),
                                span: at,
                                tag_span,
                            },
                        ),
                    );
                }
                match self.raw_read(*ptr, size, at, "the door's borrow") {
                    Err(s) => Err(s),
                    Ok(b) => Ok(Flow::Val(Value::Int(signed_word(le_number(&b))))),
                }
            },
            _ => Err(refuse(DOOR_OPERANDS, at)),
        }
    }
}

#[verifier::truncate]
pub fn signed_word(x: u64) -> (r: i64)
    ensures
        r == x as i64,
{
    x as i64
}

// ------------------------------------------------------------- modelled C --

fn c_request(name: &str, args: &Vec<Value>) -> (r: Option<u64>)
    ensures
        r == c_size(name@, vals(args@)),
{
    match arg_at(args, 0) {
        Value::Int(n) => {
            if n < 0 {
                return None;
            }
            if str_eq(name, "c.calloc") {
                let k: i64 = match arg_at(args, 1) {
                    Value::Int(k) => if k >= 0 {
                        k
                    } else {
                        1
                    },
                    _ => 1,
                };
                assert(0 <= n * k <= 0x8000_0000_0000_0000 * 0x8000_0000_0000_0000)
                    by (nonlinear_arith)
                    requires
                        0 <= n <= 0x7fff_ffff_ffff_ffff,
                        0 <= k <= 0x7fff_ffff_ffff_ffff,
                ;
                let total: u128 = (n as u128) * (k as u128);
                if total > 0xffff_ffff_ffff_ffff {
                    Some(0xffff_ffff_ffff_ffff)
                } else {
                    Some(total as u64)
                }
            } else {
                Some(n as u64)
            }
        },
        _ => None,
    }
}

impl<'t> Machine<'t> {
    fn c_alloc(&mut self, name: &str, args: &Vec<Value>, at: Span) -> (r: Result<Flow, Stop>)
        requires
            old(self).inv(),
        ensures
            advanced(*old(self), *final(self)),
            (final(self)@, flow_result(r)) == c_alloc(old(self)@, name@, vals(args@), at),
    {
        let ghost was = self@;
        let size = match c_request(name, args) {
            Some(s) => s,
            None => return Err(refuse(NO_SIZE, at)),
        };
        let n: usize = self.ambient.len();
        if n == 0 || self.ambient[n - 1] >= self.sh.regions.len() {
            return Err(refuse(NO_SIZE, at));
        }
        let region: usize = self.ambient[n - 1];
        proof {
            reveal(Machine::inv);
        }
        let id: usize = self.sh.allocs.len();
        let zeroed = str_eq(name, "c.calloc");
        match self.sh.new_alloc(size, region, true, zeroed, true, at) {
            None => {
                assert(self@ =~= was.with_shadow(was.sh.charged(size as nat)));
                Err(Stop::Budget(NO_MEMORY))
            },
            Some(_) => {
                assert(self@ =~= was.with_shadow(
                    was.sh.charged(size as nat).new_alloc(size, region, true, zeroed, true, at),
                ));
                Ok(
                    Flow::Val(
                        Value::Ptr(
                            PtrVal { alloc: Some(id), tag: 0, offset: 0, addr: base_of(id) },
                        ),
                    ),
                )
            },
        }
    }

    fn expose_all(&mut self, args: &Vec<Value>)
        requires
            old(self).inv(),
        ensures
            advanced(*old(self), *final(self)),
            final(self)@ == old(self)@.with_shadow(
                exposed(old(self)@.sh, vals(args@), args@.len()),
            ),
    {
        let ghost was = self@;
        let ghost start = *self;
        let ghost all = vals(args@);
        let mut i: usize = 0;
        assert(self@ =~= was.with_shadow(exposed(was.sh, all, 0)));
        while i < args.len()
            invariant
                i <= args@.len(),
                all == vals(args@),
                advanced(start, *self),
                self@ == was.with_shadow(exposed(was.sh, all, i as nat)),
            decreases args.len() - i,
        {
            assert(all[i as int] == args@[i as int]@);
            if let Value::Ptr(p) = &args[i] {
                proof {
                    reveal(Machine::inv);
                }
                self.sh.expose(*p);
                assert(self@ =~= was.with_shadow(exposed(was.sh, all, (i + 1) as nat)));
            }
            i = i + 1;
        }
    }

    fn c_release(&mut self, args: &Vec<Value>, at: Span) -> (r: Result<Flow, Stop>)
        requires
            old(self).inv(),
        ensures
            advanced(*old(self), *final(self)),
            (final(self)@, flow_result(r)) == (match nth(vals(args@), 0) {
                ValueView::Ptr(p) => if !old(self)@.sh.can_free(p) {
                    stops(
                        old(self)@,
                        ub(UbRow::L2, BAD_FREE@, at, alloc_span(old(self)@, p, at)),
                    )
                } else {
                    unit(old(self)@.with_shadow(old(self)@.sh.c_free(p)))
                },
                _ => stops(old(self)@, refused(NO_FREE@, at)),
            }),
    {
        let ghost was = self@;
        match arg_at(args, 0) {
            Value::Ptr(p) => {
                if !self.sh.freeable(p) {
                    let tag_span = self.alloc_span(p, at);
                    return Err(
                        Stop::Ub(
                            UbFinding { row: UbRow::L2, message: lit(BAD_FREE), span: at, tag_span },
                        ),
                    );
                }
                proof {
                    reveal(Machine::inv);
                }
                self.sh.c_free(p);
                assert(self@ =~= was.with_shadow(was.sh.c_free(p)));
                Ok(Flow::Val(Value::Unit))
            },
            _ => Err(refuse(NO_FREE, at)),
        }
    }

    /// The modelled C set on evaluated arguments.
    #[verifier::spinoff_prover]
    pub fn c_call(&mut self, name: &str, args: &Vec<Value>, at: Span) -> (r: Result<Flow, Stop>)
        requires
            old(self).inv(),
        ensures
            advanced(*old(self), *final(self)),
            (final(self)@, flow_result(r)) == c_call(old(self)@, name@, vals(args@), at),
    {
        proof {
            reveal(c_call);
        }
        assert(vals(args@).len() == args@.len());
        self.expose_all(args);
        if str_eq(name, "c.malloc") || str_eq(name, "c.calloc") {
            self.c_alloc(name, args, at)
        } else if str_eq(name, "c.free") {
            self.c_release(args, at)
        } else if str_eq(name, "c.memset") {
            let dst = arg_at(args, 0);
            let byte = arg_at(args, 1);
            let len = arg_at(args, 2);
            match (dst, byte, len) {
                (Value::Ptr(p), Value::Int(v), Value::Int(n)) => {
                    if n > 0 && (n as u64) > (usize::MAX as u64) {
                        return Err(refuse(NO_MEMSET, at));
                    }
                    let data = fill_of(v, n);
                    match self.raw_write(p, &data, at, "`c.memset`") {
                        Err(s) => Err(s),
                        Ok(_) => Ok(Flow::Val(Value::Ptr(p))),
                    }
                },
                _ => Err(refuse(NO_MEMSET, at)),
            }
        } else if str_eq(name, "c.memcpy") {
            let to = arg_at(args, 0);
            let from = arg_at(args, 1);
            let count = arg_at(args, 2);
            match (to, from, count) {
                (Value::Ptr(dst), Value::Ptr(src), Value::Int(n)) => {
                    let len: u64 = if n > 0 {
                        n as u64
                    } else {
                        0
                    };
                    match self.raw_read(src, len, at, "`c.memcpy` (source)") {
                        Err(s) => Err(s),
                        Ok(b) => match self.raw_write(dst, &b, at, "`c.memcpy` (destination)") {
                            Err(s) => Err(s),
                            Ok(_) => Ok(Flow::Val(Value::Ptr(dst))),
                        },
                    }
                },
                _ => Err(refuse(NO_MEMCPY, at)),
            }
        } else {
            Err(refuse(NO_C, at))
        }
    }
}

#[verifier::truncate]
fn fill_of(v: i64, n: i64) -> (r: Vec<u8>)
    ensures
        r@ == fill_bytes(v, n),
{
    let b: u8 = ((v as u64) % 256) as u8;
    let mut out: Vec<u8> = Vec::new();
    let mut i: i64 = 0;
    while i < n
        invariant
            0 <= i,
            i <= n || i == 0,
            out@.len() == i,
            b == ((v as u64) % 256) as u8,
            forall|k: int| 0 <= k < i ==> out@[k] == b,
        decreases n - i,
    {
        out.push(b);
        i = i + 1;
    }
    assert(out@ =~= fill_bytes(v, n));
    out
}

// -------------------------------------------------------------- rendering --

impl<'t> Machine<'t> {
    /// A value's rendering; a float's is the host's.
    #[verifier::truncate]
    pub fn show_value(&mut self, v: &Value, at: Span) -> (r: Result<Vec<u8>, Stop>)
        requires
            old(self).inv(),
        ensures
            advanced(*old(self), *final(self)),
            (final(self)@, bytes_result(r)) == show_value(old(self).world(), old(self)@, v@, at),
            r matches Ok(b) ==> valid_utf8(b@),
    {
        match v {
            Value::F64(b) => {
                let q = Request::of(HostOp::ShowFloat).num(*b as i64);
                match self.ask(q) {
                    Err(s) => Err(s),
                    Ok(Reply::Bytes(t)) => if is_text(t) {
                        Ok(copy_bytes(t))
                    } else {
                        Err(refuse(BAD_REPLY, at))
                    },
                    Ok(_) => Err(refuse(BAD_REPLY, at)),
                }
            },
            _ => Ok(format_value(v)),
        }
    }
}

fn spec_tail(s: &str) -> (r: String)
    ensures
        r@ == spec_text(s@),
{
    let cs = chars_of(s);
    let n: usize = cs.len();
    if n > 0 && cs[0] == ':' {
        let r = string_of(&cs, 1, n);
        assert(cs@.subrange(1, n as int) =~= s@.skip(1));
        r
    } else {
        lit(s)
    }
}

#[verifier::truncate]
fn spec_request(v: &Value, spec: Vec<u8>) -> (r: (Request, bool))
    ensures
        (r.0@, r.1) == format_request(v@, spec@),
{
    match v {
        Value::Str(s) => (
            Request::of(HostOp::FormatStr).text(spec).text(bytes_of(s.as_str())),
            true,
        ),
        Value::Char(c) => {
            let mut b: Vec<u8> = Vec::new();
            push_char(&mut b, *c);
            assert(b@ =~= encode_scalar(*c as u32));
            (Request::of(HostOp::FormatStr).text(spec).text(b), true)
        },
        Value::Bool(b) => {
            let n: i64 = if *b {
                1
            } else {
                0
            };
            (Request::of(HostOp::FormatBool).text(spec).num(n), true)
        },
        Value::Int(n) => (Request::of(HostOp::FormatInt).text(spec).num(*n), true),
        Value::F64(x) => (Request::of(HostOp::FormatFloat).text(spec).num(*x as i64), true),
        _ => {
            let none: Vec<u8> = Vec::new();
            assert(none@ =~= Seq::<u8>::empty());
            (Request::of(HostOp::FormatStr).text(spec).text(none), false)
        },
    }
}

impl<'t> Machine<'t> {
    /// A rendering under a format spec.
    pub fn apply_spec(&mut self, spec: &FormatSpec, v: &Value, rendered: Vec<u8>) -> (r: Result<
        Vec<u8>,
        Stop,
    >)
        requires
            old(self).inv(),
        ensures
            advanced(*old(self), *final(self)),
            (final(self)@, bytes_result(r)) == apply_spec(
                old(self).world(),
                old(self)@,
                *spec,
                v@,
                rendered@,
            ),
    {
        proof {
            reveal(apply_spec);
        }
        if spec.computed {
            return Err(refuse(COMPUTED_SPEC, spec.span));
        }
        let tail = spec_tail(spec.text.as_str());
        let (q, primitive) = spec_request(v, bytes_of(tail.as_str()));
        match self.ask(q) {
            Err(s) => Err(s),
            Ok(Reply::NotText) => Err(refuse(BAD_SPEC, spec.span)),
            Ok(Reply::Absent) => Ok(rendered),
            Ok(r) => {
                if !primitive {
                    return Err(refuse(SPEC_OF_OTHER, spec.span));
                }
                match r {
                    Reply::Bytes(b) => Ok(copy_bytes(b)),
                    _ => Err(refuse(UNRULED_SPEC, spec.span)),
                }
            },
        }
    }
}

pub open spec fn hole_views(v: Seq<(u32, u32, Vec<u8>)>) -> Seq<(u32, u32, Seq<u8>)> {
    Seq::new(v.len(), |i: int| (v[i].0, v[i].1, v[i].2@))
}

fn find_hole(hs: &Vec<(u32, u32, Vec<u8>)>, at: usize) -> (r: Option<usize>)
    ensures
        opt_body(r) == hole_at(hole_views(hs@), at as int, 0),
        r matches Some(k) ==> k < hs@.len(),
{
    let mut i: usize = 0;
    while i < hs.len()
        invariant
            i <= hs@.len(),
            hole_at(hole_views(hs@), at as int, 0) == hole_at(
                hole_views(hs@),
                at as int,
                i as int,
            ),
        decreases hs.len() - i,
    {
        assert(hole_views(hs@)[i as int] == (hs@[i as int].0, hs@[i as int].1, hs@[i as int].2@));
        if (hs[i].0 as u64) == (at as u64) {
            return Some(i);
        }
        i = i + 1;
    }
    None
}

/// A string literal rebuilt from `from` on.
#[verifier::spinoff_prover]
fn rebuild(b: &Vec<u8>, hs: &Vec<(u32, u32, Vec<u8>)>, from: usize) -> (r: Vec<u8>)
    ensures
        r@ == rebuilt(b@, hole_views(hs@), from as int),
{
    let ghost hv = hole_views(hs@);
    let ghost want = rebuilt(b@, hv, from as int);
    let n: usize = b.len();
    let mut out: Vec<u8> = Vec::new();
    let mut i: usize = from;
    assert(out@ + rebuilt(b@, hv, i as int) =~= want);
    while i < n
        invariant
            n == b@.len(),
            hv == hole_views(hs@),
            want == rebuilt(b@, hv, from as int),
            out@ + rebuilt(b@, hv, i as int) == want,
        decreases n - i,
    {
        let ghost before = out@;
        match find_hole(hs, i) {
            Some(k) => {
                assert(hv[k as int] == (hs@[k as int].0, hs@[k as int].1, hs@[k as int].2@));
                let hi: u64 = hs[k].1 as u64;
                extend(&mut out, &hs[k].2);
                if (i as u64) < hi && hi <= (n as u64) {
                    i = hi as usize;
                    assert(out@ + rebuilt(b@, hv, i as int) =~= want);
                } else {
                    assert(out@ =~= want);
                    return out;
                }
            },
            None => {
                if b[i] == BACKSLASH && i + 1 < n {
                    match decode_codepoint_escape(b, i) {
                        Some((c, used)) => {
                            push_char(&mut out, c);
                            i = i + used;
                            assert(out@ + rebuilt(b@, hv, i as int) =~= want);
                        },
                        None => {
                            out.push(unescaped(b[i + 1]));
                            i = i + 2;
                            assert(out@ + rebuilt(b@, hv, i as int) =~= want);
                        },
                    }
                } else if (b[i] == OPEN_BRACE || b[i] == CLOSE_BRACE) && i + 1 < n && b[i + 1]
                    == b[i] {
                    out.push(b[i]);
                    i = i + 2;
                    assert(out@ + rebuilt(b@, hv, i as int) =~= want);
                } else {
                    out.push(b[i]);
                    i = i + 1;
                    assert(out@ + rebuilt(b@, hv, i as int) =~= want);
                }
            },
        }
    }
    assert(out@ =~= want);
    out
}

/// A string literal with its holes rendered.
pub fn build_string(b: &Vec<u8>, hs: &Vec<(u32, u32, Vec<u8>)>, at: Span) -> (r: Result<
    Value,
    Stop,
>)
    ensures
        value_result(r) == string_value(b@, hole_views(hs@), at),
{
    proof {
        reveal(string_value);
    }
    if multiline(b) {
        if hs.len() > 0 {
            return Err(refuse(HOLES_IN_LINES, at));
        }
        let inner = multiline_body(b);
        return Ok(Value::Str(text_of(&decode_escapes(&dedent_multiline(&inner)))));
    }
    if let Some(inner) = raw_str_inner(b) {
        return Ok(Value::Str(text_of(&inner)));
    }
    let n: usize = b.len();
    if n >= 2 {
        let cut = slice_of(b, 0, n - 1);
        assert(cut@ =~= b@.take(n - 1));
        Ok(Value::Str(text_of(&rebuild(&cut, hs, 1))))
    } else {
        Ok(Value::Str(text_of(&rebuild(b, hs, 0))))
    }
}

} // verus!
