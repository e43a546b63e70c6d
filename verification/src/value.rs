//! Dynamic values, places, host requests, and how an evaluation ends.
//!
//! Strings are their UTF-8 bytes, floats their bits. A `mut` parameter is
//! an alias of the caller's place.

use vstd::prelude::*;
use vstd::string::*;
use vstd::utf8::*;

use crate::diag::{NotYet, NotYetView, Span};
use crate::strs::text_of;
use crate::shadow::PtrVal;
use crate::text::{dec_i128, decimal_int, lit, str_eq};
use crate::verdict::{FindingView, HostError, TrapInfo, TrapView, UbFinding};

verus! {

// --------------------------------------------------------------- places --

/// One step of a place path, indices resolved.
#[derive(Debug)]
pub enum PStep {
    Field(String),
    ListIdx { index: i64, span: Span },
    PoolIdx { index: usize, generation: i64, span: Span },
}

pub enum PStepView {
    Field(Seq<char>),
    ListIdx { index: i64, span: Span },
    PoolIdx { index: usize, generation: i64, span: Span },
}

impl View for PStep {
    type V = PStepView;

    open spec fn view(&self) -> PStepView {
        match *self {
            PStep::Field(f) => PStepView::Field(f@),
            PStep::ListIdx { index, span } => PStepView::ListIdx { index, span },
            PStep::PoolIdx { index, generation, span } => PStepView::PoolIdx {
                index,
                generation,
                span,
            },
        }
    }
}

pub open spec fn step_views(v: Seq<PStep>) -> Seq<PStepView> {
    Seq::new(v.len(), |i: int| v[i]@)
}

/// A frame's local and a resolved path into it.
#[derive(Debug)]
pub struct Slot {
    pub frame: usize,
    pub local: usize,
    pub path: Vec<PStep>,
}

#[verifier::ext_equal]
pub struct SlotView {
    pub frame: usize,
    pub local: usize,
    pub path: Seq<PStepView>,
}

impl View for Slot {
    type V = SlotView;

    open spec fn view(&self) -> SlotView {
        SlotView { frame: self.frame, local: self.local, path: step_views(self.path@) }
    }
}

impl SlotView {
    pub open spec fn step(self, s: PStepView) -> SlotView {
        SlotView { path: self.path.push(s), ..self }
    }

    /// The place reached from an alias.
    pub open spec fn chained(self, rest: Seq<PStepView>) -> SlotView {
        SlotView { path: self.path + rest, ..self }
    }
}

impl PStep {
    pub fn duplicate(&self) -> (r: PStep)
        ensures
            r@ == self@,
    {
        match self {
            PStep::Field(f) => PStep::Field(f.clone()),
            PStep::ListIdx { index, span } => PStep::ListIdx { index: *index, span: *span },
            PStep::PoolIdx { index, generation, span } => PStep::PoolIdx {
                index: *index,
                generation: *generation,
                span: *span,
            },
        }
    }
}

fn append_steps(out: &mut Vec<PStep>, from: &Vec<PStep>)
    ensures
        step_views(final(out)@) == step_views(old(out)@) + step_views(from@),
{
    let ghost before = step_views(out@);
    let ghost all = step_views(from@);
    let mut i: usize = 0;
    assert(step_views(out@) =~= before + all.take(0));
    while i < from.len()
        invariant
            i <= from.len(),
            all == step_views(from@),
            step_views(out@) == before + all.take(i as int),
        decreases from.len() - i,
    {
        let ghost was = step_views(out@);
        let s = from[i].duplicate();
        let ghost sv = s@;
        out.push(s);
        assert(step_views(out@) =~= was.push(sv));
        i = i + 1;
        assert(step_views(out@) =~= before + all.take(i as int));
    }
    assert(all.take(i as int) =~= all);
}

impl Slot {
    pub fn duplicate(&self) -> (r: Slot)
        ensures
            r@ == self@,
    {
        let mut path: Vec<PStep> = Vec::new();
        append_steps(&mut path, &self.path);
        let r = Slot { frame: self.frame, local: self.local, path };
        assert(r@.path =~= self@.path);
        r
    }

    /// This place, then a rest of a path.
    pub fn chained(&self, rest: &Vec<PStep>) -> (r: Slot)
        ensures
            r@ == self@.chained(step_views(rest@)),
    {
        let mut r = self.duplicate();
        append_steps(&mut r.path, rest);
        r
    }

    pub fn step(&mut self, s: PStep)
        ensures
            final(self)@ == old(self)@.step(s@),
    {
        let ghost was = self@;
        let ghost sv = s@;
        self.path.push(s);
        assert(self@.path =~= was.path.push(sv));
    }
}

// --------------------------------------------------------------- values --

/// A dynamic value. Scalars, strings, ranges, handles, raw pointers and
/// functions copy; everything else moves.
#[derive(Debug)]
pub enum Value {
    Unit,
    Int(i64),
    Bool(bool),
    Char(char),
    /// The bits of a 64-bit float.
    F64(u64),
    /// Text; its bytes are what programs see of it.
    Str(String),
    Range { start: i64, end: i64 },
    Struct(Vec<(String, Value)>),
    /// A function: its body's index.
    Fn(usize),
    /// A trait object: the concrete type's name rides the value.
    Dyn { concrete: String, inner: Box<Value> },
    Enum { variant: String, payload: Vec<Value> },
    List(usize),
    Pool(usize),
    Handle { index: usize, generation: i64 },
    Shared(usize),
    Weak(usize),
    Region(usize),
    Ptr(PtrVal),
    /// An error-channel value: tag and payload.
    ErrTag { tag: String, payload: Vec<Value> },
    /// A `mut` parameter: an alias of the caller's place.
    Ref(Slot),
    Moved,
    Uninit,
}

pub enum ValueView {
    Unit,
    Int(i64),
    Bool(bool),
    Char(char),
    F64(u64),
    Str(Seq<u8>),
    Range { start: i64, end: i64 },
    Struct(Seq<(Seq<char>, ValueView)>),
    Fn(usize),
    Dyn { concrete: Seq<char>, inner: Box<ValueView> },
    Enum { variant: Seq<char>, payload: Seq<ValueView> },
    List(usize),
    Pool(usize),
    Handle { index: usize, generation: i64 },
    Shared(usize),
    Weak(usize),
    Region(usize),
    Ptr(PtrVal),
    ErrTag { tag: Seq<char>, payload: Seq<ValueView> },
    Ref(SlotView),
    Moved,
    Uninit,
}

pub open spec fn value_view(v: Value) -> ValueView
    decreases v, 0nat,
{
    match v {
        Value::Unit => ValueView::Unit,
        Value::Int(n) => ValueView::Int(n),
        Value::Bool(b) => ValueView::Bool(b),
        Value::Char(c) => ValueView::Char(c),
        Value::F64(b) => ValueView::F64(b),
        Value::Str(s) => ValueView::Str(encode_utf8(s@)),
        Value::Range { start, end } => ValueView::Range { start, end },
        Value::Struct(fs) => ValueView::Struct(fields_view(fs, fs@.len())),
        Value::Fn(b) => ValueView::Fn(b),
        Value::Dyn { concrete, inner } => ValueView::Dyn {
            concrete: concrete@,
            inner: Box::new(value_view(*inner)),
        },
        Value::Enum { variant, payload } => ValueView::Enum {
            variant: variant@,
            payload: values_view(payload, payload@.len()),
        },
        Value::List(i) => ValueView::List(i),
        Value::Pool(i) => ValueView::Pool(i),
        Value::Handle { index, generation } => ValueView::Handle { index, generation },
        Value::Shared(i) => ValueView::Shared(i),
        Value::Weak(i) => ValueView::Weak(i),
        Value::Region(i) => ValueView::Region(i),
        Value::Ptr(p) => ValueView::Ptr(p),
        Value::ErrTag { tag, payload } => ValueView::ErrTag {
            tag: tag@,
            payload: values_view(payload, payload@.len()),
        },
        Value::Ref(s) => ValueView::Ref(s@),
        Value::Moved => ValueView::Moved,
        Value::Uninit => ValueView::Uninit,
    }
}

pub open spec fn values_view(v: Vec<Value>, n: nat) -> Seq<ValueView>
    decreases v, n,
{
    if n == 0 || n > v@.len() {
        Seq::empty()
    } else {
        values_view(v, (n - 1) as nat).push(value_view(v[n - 1]))
    }
}

pub open spec fn fields_view(v: Vec<(String, Value)>, n: nat) -> Seq<(Seq<char>, ValueView)>
    decreases v, n,
{
    if n == 0 || n > v@.len() {
        Seq::empty()
    } else {
        fields_view(v, (n - 1) as nat).push((v[n - 1].0@, value_view(v[n - 1].1)))
    }
}

impl View for Value {
    type V = ValueView;

    open spec fn view(&self) -> ValueView {
        value_view(*self)
    }
}

/// Values in order.
pub open spec fn vals(v: Seq<Value>) -> Seq<ValueView> {
    Seq::new(v.len(), |i: int| v[i]@)
}

pub open spec fn named_vals(v: Seq<(String, Value)>) -> Seq<(Seq<char>, ValueView)> {
    Seq::new(v.len(), |i: int| (v[i].0@, v[i].1@))
}

pub proof fn lemma_values(v: Vec<Value>, n: nat)
    requires
        n <= v@.len(),
    ensures
        values_view(v, n).len() == n,
        forall|i: int| 0 <= i < n ==> (#[trigger] values_view(v, n)[i]) == v@[i]@,
    decreases n,
{
    if n > 0 {
        lemma_values(v, (n - 1) as nat);
    }
}

pub proof fn lemma_fields(v: Vec<(String, Value)>, n: nat)
    requires
        n <= v@.len(),
    ensures
        fields_view(v, n).len() == n,
        forall|i: int|
            0 <= i < n ==> (#[trigger] fields_view(v, n)[i]) == (v@[i].0@, v@[i].1@),
    decreases n,
{
    if n > 0 {
        lemma_fields(v, (n - 1) as nat);
    }
}

/// The values a vector holds are its values in order.
pub broadcast proof fn lemma_vals(v: Vec<Value>)
    ensures
        #[trigger] values_view(v, v@.len()) == vals(v@),
{
    lemma_values(v, v@.len());
    assert(values_view(v, v@.len()) =~= vals(v@));
}

pub broadcast proof fn lemma_named(v: Vec<(String, Value)>)
    ensures
        #[trigger] fields_view(v, v@.len()) == named_vals(v@),
{
    lemma_fields(v, v@.len());
    assert(fields_view(v, v@.len()) =~= named_vals(v@));
}

impl ValueView {
    pub open spec fn copies(self) -> bool {
        match self {
            ValueView::Unit
            | ValueView::Int(_)
            | ValueView::Bool(_)
            | ValueView::Char(_)
            | ValueView::F64(_)
            | ValueView::Str(_)
            | ValueView::Range { .. }
            | ValueView::Handle { .. }
            | ValueView::Ptr(_)
            | ValueView::Fn(_) => true,
            _ => false,
        }
    }
}

/// A row error without a payload.
pub open spec fn tagged(tag: Seq<char>) -> ValueView {
    ValueView::ErrTag { tag, payload: Seq::empty() }
}

pub fn err_tag(tag: &str) -> (r: Value)
    ensures
        r@ == tagged(tag@),
{
    let payload: Vec<Value> = Vec::new();
    proof {
        lemma_vals(payload);
        assert(vals(payload@) =~= Seq::empty());
    }
    Value::ErrTag { tag: lit(tag), payload }
}

pub fn copy_bytes(b: &Vec<u8>) -> (r: Vec<u8>)
    ensures
        r@ == b@,
{
    let mut out: Vec<u8> = Vec::new();
    crate::literal::extend(&mut out, b);
    assert(out@ =~= b@);
    out
}

impl Value {
    pub fn is_copy(&self) -> (r: bool)
        ensures
            r == self@.copies(),
    {
        match self {
            Value::Unit
            | Value::Int(_)
            | Value::Bool(_)
            | Value::Char(_)
            | Value::F64(_)
            | Value::Str(_)
            | Value::Range { .. }
            | Value::Handle { .. }
            | Value::Ptr(_)
            | Value::Fn(_) => true,
            _ => false,
        }
    }

    pub fn duplicate(&self) -> (r: Value)
        ensures
            r@ == self@,
        decreases self, 0nat,
    {
        match self {
            Value::Unit => Value::Unit,
            Value::Int(n) => Value::Int(*n),
            Value::Bool(b) => Value::Bool(*b),
            Value::Char(c) => Value::Char(*c),
            Value::F64(b) => Value::F64(*b),
            Value::Str(s) => Value::Str(s.clone()),
            Value::Range { start, end } => Value::Range { start: *start, end: *end },
            Value::Struct(fs) => Value::Struct(Value::duplicate_fields(fs)),
            Value::Fn(b) => Value::Fn(*b),
            Value::Dyn { concrete, inner } => Value::Dyn {
                concrete: concrete.clone(),
                inner: Box::new(inner.duplicate()),
            },
            Value::Enum { variant, payload } => Value::Enum {
                variant: variant.clone(),
                payload: Value::duplicate_all(payload),
            },
            Value::List(i) => Value::List(*i),
            Value::Pool(i) => Value::Pool(*i),
            Value::Handle { index, generation } => Value::Handle {
                index: *index,
                generation: *generation,
            },
            Value::Shared(i) => Value::Shared(*i),
            Value::Weak(i) => Value::Weak(*i),
            Value::Region(i) => Value::Region(*i),
            Value::Ptr(p) => Value::Ptr(*p),
            Value::ErrTag { tag, payload } => Value::ErrTag {
                tag: tag.clone(),
                payload: Value::duplicate_all(payload),
            },
            Value::Ref(s) => Value::Ref(s.duplicate()),
            Value::Moved => Value::Moved,
            Value::Uninit => Value::Uninit,
        }
    }

    pub fn duplicate_all(v: &Vec<Value>) -> (r: Vec<Value>)
        ensures
            values_view(r, r@.len()) == values_view(*v, v@.len()),
            vals(r@) == vals(v@),
        decreases v, 0nat,
    {
        let mut out: Vec<Value> = Vec::new();
        let mut i: usize = 0;
        while i < v.len()
            invariant
                i <= v.len(),
                out@.len() == i,
                forall|k: int| 0 <= k < i ==> (#[trigger] out@[k])@ == v@[k]@,
            decreases v.len() - i,
        {
            out.push(v[i].duplicate());
            i = i + 1;
        }
        proof {
            assert(vals(out@) =~= vals(v@));
            lemma_vals(out);
            lemma_vals(*v);
        }
        out
    }

    pub fn duplicate_fields(v: &Vec<(String, Value)>) -> (r: Vec<(String, Value)>)
        ensures
            fields_view(r, r@.len()) == fields_view(*v, v@.len()),
            named_vals(r@) == named_vals(v@),
        decreases v, 0nat,
    {
        let mut out: Vec<(String, Value)> = Vec::new();
        let mut i: usize = 0;
        while i < v.len()
            invariant
                i <= v.len(),
                out@.len() == i,
                forall|k: int|
                    0 <= k < i ==> (#[trigger] out@[k]).0@ == v@[k].0@ && out@[k].1@ == v@[k].1@,
            decreases v.len() - i,
        {
            let f = &v[i];
            out.push((f.0.clone(), f.1.duplicate()));
            i = i + 1;
        }
        proof {
            assert(named_vals(out@) =~= named_vals(v@));
            lemma_named(out);
            lemma_named(*v);
        }
        out
    }
}

// ------------------------------------------------------------- equality --

/// A float that is not a number.
pub open spec fn is_nan(b: u64) -> bool {
    b & 0x7fff_ffff_ffff_ffff > 0x7ff0_0000_0000_0000
}

/// Either zero.
pub open spec fn is_zero(b: u64) -> bool {
    b & 0x7fff_ffff_ffff_ffff == 0
}

/// Equality of floats by their bits: a nan equals nothing, the zeros are
/// equal.
pub open spec fn float_eq(a: u64, b: u64) -> bool {
    !is_nan(a) && !is_nan(b) && (a == b || (is_zero(a) && is_zero(b)))
}

/// A float's rank among the numbers: its magnitude, signed.
pub open spec fn float_rank(b: u64) -> int {
    if b & 0x8000_0000_0000_0000 != 0 {
        -((b & 0x7fff_ffff_ffff_ffff) as int)
    } else {
        (b & 0x7fff_ffff_ffff_ffff) as int
    }
}

/// The order of floats by their bits: no order with a nan.
pub open spec fn float_lt(a: u64, b: u64) -> bool {
    !is_nan(a) && !is_nan(b) && float_rank(a) < float_rank(b)
}

pub fn floats_equal(a: u64, b: u64) -> (r: bool)
    ensures
        r == float_eq(a, b),
{
    let nan_a = a & 0x7fff_ffff_ffff_ffff > 0x7ff0_0000_0000_0000;
    let nan_b = b & 0x7fff_ffff_ffff_ffff > 0x7ff0_0000_0000_0000;
    !nan_a && !nan_b && (a == b || (a & 0x7fff_ffff_ffff_ffff == 0 && b & 0x7fff_ffff_ffff_ffff
        == 0))
}

fn rank_of(b: u64) -> (r: i128)
    ensures
        r == float_rank(b),
{
    if b & 0x8000_0000_0000_0000 != 0 {
        -((b & 0x7fff_ffff_ffff_ffff) as i128)
    } else {
        (b & 0x7fff_ffff_ffff_ffff) as i128
    }
}

pub fn float_before(a: u64, b: u64) -> (r: bool)
    ensures
        r == float_lt(a, b),
{
    let nan_a = a & 0x7fff_ffff_ffff_ffff > 0x7ff0_0000_0000_0000;
    let nan_b = b & 0x7fff_ffff_ffff_ffff > 0x7ff0_0000_0000_0000;
    !nan_a && !nan_b && rank_of(a) < rank_of(b)
}

/// Bytes in order, unsigned, the shorter first on a shared prefix.
pub open spec fn bytes_lt(a: Seq<u8>, b: Seq<u8>, i: int) -> bool
    decreases a.len() - i,
{
    if i >= b.len() {
        false
    } else if i >= a.len() {
        true
    } else if a[i] != b[i] {
        a[i] < b[i]
    } else {
        bytes_lt(a, b, i + 1)
    }
}

pub fn bytes_before(a: &Vec<u8>, b: &Vec<u8>) -> (r: bool)
    ensures
        r == bytes_lt(a@, b@, 0),
{
    let mut i: usize = 0;
    while i < a.len() && i < b.len()
        invariant
            i <= a@.len(),
            i <= b@.len(),
            bytes_lt(a@, b@, 0) == bytes_lt(a@, b@, i as int),
        decreases a.len() - i,
    {
        if a[i] != b[i] {
            return a[i] < b[i];
        }
        i = i + 1;
    }
    i < b.len()
}

pub fn bytes_equal(a: &Vec<u8>, b: &Vec<u8>) -> (r: bool)
    ensures
        r == (a@ == b@),
{
    if a.len() != b.len() {
        return false;
    }
    let mut i: usize = 0;
    while i < a.len()
        invariant
            i <= a@.len(),
            a@.len() == b@.len(),
            forall|k: int| 0 <= k < i ==> a@[k] == b@[k],
        decreases a.len() - i,
    {
        if a[i] != b[i] {
            return false;
        }
        i = i + 1;
    }
    assert(a@ =~= b@);
    true
}

/// Every pair of values is equal, from `i` on.
pub open spec fn all_same(a: Seq<ValueView>, b: Seq<ValueView>, n: nat) -> bool
    decreases a, n,
{
    n == 0 || (n <= a.len() && n <= b.len() && same_value(a[n - 1], b[n - 1]) && all_same(
        a,
        b,
        (n - 1) as nat,
    ))
}

/// Equality of values: scalars, strings, handles and pointers by what
/// they hold, enums and errors by tag and payload.
pub open spec fn same_value(a: ValueView, b: ValueView) -> bool
    decreases a, 0nat,
{
    match (a, b) {
        (ValueView::Int(x), ValueView::Int(y)) => x == y,
        (ValueView::F64(x), ValueView::F64(y)) => float_eq(x, y),
        (ValueView::Bool(x), ValueView::Bool(y)) => x == y,
        (ValueView::Str(x), ValueView::Str(y)) => x == y,
        (ValueView::Char(x), ValueView::Char(y)) => x == y,
        (ValueView::Unit, ValueView::Unit) => true,
        (
            ValueView::Handle { index: xi, generation: xg },
            ValueView::Handle { index: yi, generation: yg },
        ) => xi == yi && xg == yg,
        (ValueView::Ptr(x), ValueView::Ptr(y)) => x.addr == y.addr,
        (
            ValueView::Enum { variant: xv, payload: xp },
            ValueView::Enum { variant: yv, payload: yp },
        ) => xv == yv && xp.len() == yp.len() && all_same(xp, yp, xp.len()),
        (
            ValueView::ErrTag { tag: xt, payload: xp },
            ValueView::ErrTag { tag: yt, payload: yp },
        ) => xt == yt && xp.len() == yp.len() && all_same(xp, yp, xp.len()),
        _ => false,
    }
}

pub fn values_equal(a: &Value, b: &Value) -> (r: bool)
    ensures
        r == same_value(a@, b@),
    decreases a, 0nat,
{
    match (a, b) {
        (Value::Int(x), Value::Int(y)) => *x == *y,
        (Value::F64(x), Value::F64(y)) => floats_equal(*x, *y),
        (Value::Bool(x), Value::Bool(y)) => *x == *y,
        (Value::Str(x), Value::Str(y)) => {
            proof {
                encode_utf8_decode_utf8(x@);
                encode_utf8_decode_utf8(y@);
            }
            str_eq(x.as_str(), y.as_str())
        },
        (Value::Char(x), Value::Char(y)) => *x == *y,
        (Value::Unit, Value::Unit) => true,
        (
            Value::Handle { index: xi, generation: xg },
            Value::Handle { index: yi, generation: yg },
        ) => *xi == *yi && *xg == *yg,
        (Value::Ptr(x), Value::Ptr(y)) => x.addr == y.addr,
        (Value::Enum { variant: xv, payload: xp }, Value::Enum { variant: yv, payload: yp }) => {
            proof {
                lemma_vals(*xp);
                lemma_vals(*yp);
            }
            str_eq(xv.as_str(), yv.as_str()) && lists_equal(xp, yp)
        },
        (Value::ErrTag { tag: xt, payload: xp }, Value::ErrTag { tag: yt, payload: yp }) => {
            proof {
                lemma_vals(*xp);
                lemma_vals(*yp);
            }
            str_eq(xt.as_str(), yt.as_str()) && lists_equal(xp, yp)
        },
        _ => false,
    }
}

fn lists_equal(a: &Vec<Value>, b: &Vec<Value>) -> (r: bool)
    ensures
        r == (a@.len() == b@.len() && all_same(vals(a@), vals(b@), a@.len())),
    decreases a, 0nat,
{
    if a.len() != b.len() {
        return false;
    }
    let mut i: usize = 0;
    while i < a.len()
        invariant
            i <= a@.len(),
            a@.len() == b@.len(),
            all_same(vals(a@), vals(b@), i as nat),
        decreases a.len() - i,
    {
        assert(vals(a@)[i as int] == a@[i as int]@);
        assert(vals(b@)[i as int] == b@[i as int]@);
        if !values_equal(&a[i], &b[i]) {
            proof {
                lemma_not_all_same(vals(a@), vals(b@), (i + 1) as nat, a@.len());
            }
            return false;
        }
        i = i + 1;
    }
    true
}

proof fn lemma_not_all_same(a: Seq<ValueView>, b: Seq<ValueView>, m: nat, n: nat)
    requires
        m <= n <= a.len(),
        !all_same(a, b, m),
    ensures
        !all_same(a, b, n),
    decreases n,
{
    if m < n {
        lemma_not_all_same(a, b, m, (n - 1) as nat);
    }
}

/// Equality is symmetric.
pub proof fn law_equality_symmetric(a: ValueView, b: ValueView)
    ensures
        same_value(a, b) == same_value(b, a),
    decreases a,
{
    match (a, b) {
        (ValueView::Enum { payload: xp, .. }, ValueView::Enum { payload: yp, .. }) => {
            if xp.len() == yp.len() {
                lemma_all_symmetric(xp, yp, xp.len());
            }
        },
        (ValueView::ErrTag { payload: xp, .. }, ValueView::ErrTag { payload: yp, .. }) => {
            if xp.len() == yp.len() {
                lemma_all_symmetric(xp, yp, xp.len());
            }
        },
        _ => {},
    }
}

proof fn lemma_all_symmetric(a: Seq<ValueView>, b: Seq<ValueView>, n: nat)
    requires
        n <= a.len(),
        n <= b.len(),
    ensures
        all_same(a, b, n) == all_same(b, a, n),
    decreases a, n,
{
    if n > 0 {
        law_equality_symmetric(a[n - 1], b[n - 1]);
        lemma_all_symmetric(a, b, (n - 1) as nat);
    }
}

// ----------------------------------------------------------- rendering --

/// How a value prints, floats aside.
pub open spec fn shown(v: ValueView) -> Seq<u8> {
    match v {
        ValueView::Int(n) => encode_utf8(decimal_int(n as int)),
        ValueView::Bool(true) => encode_utf8("true"@),
        ValueView::Bool(false) => encode_utf8("false"@),
        ValueView::Str(s) => s,
        ValueView::Char(c) => encode_scalar(c as u32),
        ValueView::Unit => encode_utf8("()"@),
        ValueView::Range { start, end } => encode_utf8(
            decimal_int(start as int) + ".."@ + decimal_int(end as int),
        ),
        ValueView::ErrTag { tag, .. } => encode_utf8("{"@ + tag + "}"@),
        _ => encode_utf8("<value>"@),
    }
}

pub fn bytes_of(s: &str) -> (r: Vec<u8>)
    ensures
        r@ == encode_utf8(s@),
{
    s.as_bytes_vec()
}

/// The text that valid bytes spell, as a value.
pub fn str_value(b: &Vec<u8>) -> (r: Value)
    requires
        valid_utf8(b@),
    ensures
        r@ == ValueView::Str(b@),
{
    proof {
        decode_utf8_encode_utf8(b@);
    }
    Value::Str(text_of(b))
}

proof fn lemma_shown(v: Value)
    ensures
        valid_utf8(shown(v@)),
{
    broadcast use encode_utf8_valid_utf8;

    match v {
        Value::Str(s) => {
            encode_utf8_valid_utf8(s@);
        },
        Value::Char(c) => {
            lemma_char_text(c);
        },
        _ => {},
    }
}

proof fn lemma_char_text(c: char)
    ensures
        valid_utf8(encode_scalar(c as u32)),
{
    assert(seq![c].drop_first() =~= Seq::<char>::empty());
    assert(encode_utf8(Seq::<char>::empty()) =~= Seq::<u8>::empty());
    assert(encode_utf8(seq![c]) =~= encode_scalar(c as u32));
    encode_utf8_valid_utf8(seq![c]);
}

/// How a value prints; a float's rendering is the host's.
pub fn format_value(v: &Value) -> (r: Vec<u8>)
    ensures
        r@ == shown(v@),
        valid_utf8(r@),
{
    proof {
        lemma_shown(*v);
    }
    match v {
        Value::Int(n) => bytes_of(dec_i128(*n as i128).as_str()),
        Value::Bool(b) => if *b {
            bytes_of("true")
        } else {
            bytes_of("false")
        },
        Value::Str(s) => bytes_of(s.as_str()),
        Value::Char(c) => {
            let mut out: Vec<u8> = Vec::new();
            crate::literal::push_char(&mut out, *c);
            assert(out@ =~= encode_scalar(*c as u32));
            out
        },
        Value::Unit => bytes_of("()"),
        Value::Range { start, end } => bytes_of(
            dec_i128(*start as i128).concat("..").concat(
                dec_i128(*end as i128).as_str(),
            ).as_str(),
        ),
        Value::ErrTag { tag, .. } => bytes_of(
            lit("{").concat(tag.as_str()).concat("}").as_str(),
        ),
        _ => bytes_of("<value>"),
    }
}

// ------------------------------------------------------------------- host --

/// What the machine asks of its host.
#[derive(Debug, Clone, Copy, PartialEq, Eq, Structural)]
pub enum HostOp {
    ReadFile,
    WriteFile,
    OpenFile,
    ReadFd,
    WriteFd,
    CloseFd,
    RemoveFile,
    Exists,
    ReadDir,
    CreateDir,
    CreateDirAll,
    RemoveDir,
    RemoveDirAll,
    Rename,
    IsFile,
    IsDir,
    FileSize,
    ModifiedMs,
    Listen,
    Port,
    Accept,
    Connect,
    Receive,
    Send,
    CloseSock,
    Deadline,
    EnvGet,
    EnvVars,
    Cwd,
    Exe,
    Spawn,
    Wait,
    Kill,
    Random,
    NowMs,
    UnixMs,
    SleepMs,
    JsonValid,
    JsonGet,
    JsonType,
    JsonLen,
    FloatAdd,
    FloatSub,
    FloatMul,
    FloatDiv,
    ShowFloat,
    FormatStr,
    FormatBool,
    FormatInt,
    FormatFloat,
}

/// A host operation with its texts and numbers.
#[derive(Debug)]
pub struct Request {
    pub op: HostOp,
    pub texts: Vec<Vec<u8>>,
    pub nums: Vec<i64>,
}

#[verifier::ext_equal]
pub struct RequestView {
    pub op: HostOp,
    pub texts: Seq<Seq<u8>>,
    pub nums: Seq<i64>,
}

pub open spec fn byte_views(v: Seq<Vec<u8>>) -> Seq<Seq<u8>> {
    Seq::new(v.len(), |i: int| v[i]@)
}

impl View for Request {
    type V = RequestView;

    open spec fn view(&self) -> RequestView {
        RequestView { op: self.op, texts: byte_views(self.texts@), nums: self.nums@ }
    }
}

impl RequestView {
    pub open spec fn of(op: HostOp) -> RequestView {
        RequestView { op, texts: Seq::empty(), nums: Seq::empty() }
    }

    pub open spec fn text(self, b: Seq<u8>) -> RequestView {
        RequestView { texts: self.texts.push(b), ..self }
    }

    pub open spec fn num(self, n: i64) -> RequestView {
        RequestView { nums: self.nums.push(n), ..self }
    }
}

impl Request {
    pub fn of(op: HostOp) -> (r: Request)
        ensures
            r@ == RequestView::of(op),
    {
        let r = Request { op, texts: Vec::new(), nums: Vec::new() };
        assert(r@ =~= RequestView::of(op));
        r
    }

    pub fn text(self, b: Vec<u8>) -> (r: Request)
        ensures
            r@ == self@.text(b@),
    {
        let ghost was = self@;
        let ghost bv = b@;
        let mut texts = self.texts;
        texts.push(b);
        let r = Request { op: self.op, texts, nums: self.nums };
        assert(r@ =~= was.text(bv));
        r
    }

    pub fn num(self, n: i64) -> (r: Request)
        ensures
            r@ == self@.num(n),
    {
        let ghost was = self@;
        let mut nums = self.nums;
        nums.push(n);
        let r = Request { op: self.op, texts: self.texts, nums };
        assert(r@ =~= was.num(n));
        r
    }
}

/// What the host answered.
#[derive(Debug)]
pub enum Reply {
    Done,
    Bytes(Vec<u8>),
    Names(Vec<Vec<u8>>),
    Int(i64),
    Flag(bool),
    Failed(HostError),
    /// The answer is no text.
    NotText,
    /// There is no answer.
    Absent,
    /// The request is of the wrong shape.
    BadKind,
}

pub enum ReplyView {
    Done,
    Bytes(Seq<u8>),
    Names(Seq<Seq<u8>>),
    Int(i64),
    Flag(bool),
    Failed(HostError),
    NotText,
    Absent,
    BadKind,
}

impl View for Reply {
    type V = ReplyView;

    open spec fn view(&self) -> ReplyView {
        match *self {
            Reply::Done => ReplyView::Done,
            Reply::Bytes(b) => ReplyView::Bytes(b@),
            Reply::Names(v) => ReplyView::Names(byte_views(v@)),
            Reply::Int(n) => ReplyView::Int(n),
            Reply::Flag(b) => ReplyView::Flag(b),
            Reply::Failed(e) => ReplyView::Failed(e),
            Reply::NotText => ReplyView::NotText,
            Reply::Absent => ReplyView::Absent,
            Reply::BadKind => ReplyView::BadKind,
        }
    }
}

pub open spec fn reply_views(v: Seq<Reply>) -> Seq<ReplyView> {
    Seq::new(v.len(), |i: int| v[i]@)
}

// ---------------------------------------------------------------- endings --

/// Why evaluation stopped (beyond a value).
#[derive(Debug)]
pub enum Stop {
    Trap(TrapInfo),
    Ub(UbFinding),
    Refuse(NotYet),
    Budget(&'static str),
    Exit(u8),
    /// The host has to answer first.
    Ask(Request),
}

pub enum StopView {
    Trap(TrapView),
    Ub(FindingView),
    Refuse(NotYetView),
    Budget(Seq<char>),
    Exit(u8),
    Ask(RequestView),
}

impl View for Stop {
    type V = StopView;

    open spec fn view(&self) -> StopView {
        match *self {
            Stop::Trap(t) => StopView::Trap(t@),
            Stop::Ub(f) => StopView::Ub(f@),
            Stop::Refuse(n) => StopView::Refuse(n@),
            Stop::Budget(b) => StopView::Budget(b@),
            Stop::Exit(c) => StopView::Exit(c),
            Stop::Ask(r) => StopView::Ask(r@),
        }
    }
}

/// Control flow out of an expression. An error carries whether a `?` has
/// explicitly propagated it.
#[derive(Debug)]
pub enum Flow {
    Val(Value),
    Return(Value),
    Raise(Value, bool),
    Break,
    Continue,
}

pub enum FlowView {
    Val(ValueView),
    Return(ValueView),
    Raise(ValueView, bool),
    Break,
    Continue,
}

impl View for Flow {
    type V = FlowView;

    open spec fn view(&self) -> FlowView {
        match *self {
            Flow::Val(v) => FlowView::Val(v@),
            Flow::Return(v) => FlowView::Return(v@),
            Flow::Raise(v, p) => FlowView::Raise(v@, p),
            Flow::Break => FlowView::Break,
            Flow::Continue => FlowView::Continue,
        }
    }
}

pub open spec fn flow_result(r: Result<Flow, Stop>) -> Result<FlowView, StopView> {
    match r {
        Ok(f) => Ok(f@),
        Err(s) => Err(s@),
    }
}

pub open spec fn value_result(r: Result<Value, Stop>) -> Result<ValueView, StopView> {
    match r {
        Ok(v) => Ok(v@),
        Err(s) => Err(s@),
    }
}

pub open spec fn done_result(r: Result<(), Stop>) -> Result<(), StopView> {
    match r {
        Ok(_) => Ok(()),
        Err(s) => Err(s@),
    }
}

pub open spec fn refused(construct: Seq<char>, span: Span) -> StopView {
    StopView::Refuse(NotYetView { construct, span })
}

pub open spec fn trapped(kind: Seq<char>, clause: Seq<char>, span: Span) -> StopView {
    StopView::Trap(TrapView { kind, clause, span })
}

pub fn refuse(construct: &'static str, span: Span) -> (r: Stop)
    ensures
        r@ == refused(construct@, span),
{
    Stop::Refuse(NotYet { construct, span })
}

pub fn trap(kind: &'static str, clause: &'static str, span: Span) -> (r: Stop)
    ensures
        r@ == trapped(kind@, clause@, span),
{
    Stop::Trap(TrapInfo { kind, clause, span })
}

/// Every text in the value is valid.
pub open spec fn texts_valid(v: ValueView) -> bool
    decreases v, 0nat,
{
    match v {
        ValueView::Str(s) => valid_utf8(s),
        ValueView::Struct(fs) => fields_valid(fs, fs.len()),
        ValueView::Dyn { inner, .. } => texts_valid(*inner),
        ValueView::Enum { payload, .. } => all_texts_valid(payload, payload.len()),
        ValueView::ErrTag { payload, .. } => all_texts_valid(payload, payload.len()),
        _ => true,
    }
}

pub open spec fn all_texts_valid(vs: Seq<ValueView>, n: nat) -> bool
    decreases vs, n,
{
    n == 0 || n > vs.len() || (all_texts_valid(vs, (n - 1) as nat) && texts_valid(vs[n - 1]))
}

pub open spec fn fields_valid(fs: Seq<(Seq<char>, ValueView)>, n: nat) -> bool
    decreases fs, n,
{
    n == 0 || n > fs.len() || (fields_valid(fs, (n - 1) as nat) && texts_valid(fs[n - 1].1))
}

/// No value holds a text that is not valid: what a program can hold it can
/// print, and read by characters.
pub proof fn law_values_hold_text(v: Value)
    ensures
        texts_valid(v@),
    decreases v, 0nat,
{
    match v {
        Value::Str(s) => {
            encode_utf8_valid_utf8(s@);
        },
        Value::Struct(fs) => {
            lemma_named(fs);
            lemma_fields_hold_text(fs, fs@.len());
        },
        Value::Dyn { inner, .. } => {
            law_values_hold_text(*inner);
        },
        Value::Enum { payload, .. } => {
            lemma_vals(payload);
            lemma_values_hold_text(payload, payload@.len());
        },
        Value::ErrTag { payload, .. } => {
            lemma_vals(payload);
            lemma_values_hold_text(payload, payload@.len());
        },
        _ => {},
    }
}

proof fn lemma_values_hold_text(v: Vec<Value>, n: nat)
    requires
        n <= v@.len(),
    ensures
        all_texts_valid(vals(v@), n),
    decreases v, n,
{
    if n > 0 {
        lemma_values_hold_text(v, (n - 1) as nat);
        law_values_hold_text(v[n - 1]);
    }
}

proof fn lemma_fields_hold_text(v: Vec<(String, Value)>, n: nat)
    requires
        n <= v@.len(),
    ensures
        fields_valid(named_vals(v@), n),
    decreases v, n,
{
    if n > 0 {
        lemma_fields_hold_text(v, (n - 1) as nat);
        law_values_hold_text(v[n - 1].1);
    }
}

} // verus!
