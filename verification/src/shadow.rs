//! The shadow memory: allocations with per-byte initialization and a tree
//! of tags each, and the regions that own them.
//!
//! Freed memory is never reused and never forgotten: a freed allocation
//! stays in the store, disabled, so a later access is a deterministic
//! finding. One access that is true of several rows reports the first in
//! the order P3, P4, P1/P2, L1; a pointer that addresses nothing is L2.

use vstd::prelude::*;
use vstd::string::*;

use crate::diag::Span;
use crate::text::{dec, dec_i128, decimal, decimal_int, lit};
use crate::verdict::{FindingView, UbFinding, UbRow};

verus! {

pub const ALLOC_STRIDE: u64 = 65536;

pub const REGION_BACKING: u64 = 4096;

pub const NO_MEMORY: &'static str = "shadow-memory budget exhausted";

#[derive(Debug, Clone, Copy, PartialEq, Eq, Structural)]
pub enum TagState {
    Reserved,
    Active,
    Frozen,
    Disabled,
}

#[derive(Debug, Clone, Copy, PartialEq, Eq, Structural)]
pub struct Tag {
    pub parent: Option<u32>,
    pub state: TagState,
    pub protected: u32,
    pub exposed: bool,
    pub origin: Span,
}

#[derive(Debug, Clone, Copy, PartialEq, Eq, Structural)]
pub enum DeadReason {
    CFree,
    RegionFreed,
}

#[derive(Debug)]
pub struct Allocation {
    pub size: u64,
    pub bytes: Vec<u8>,
    pub init: Vec<bool>,
    /// The region that owns it.
    pub region: usize,
    pub from_malloc: bool,
    pub live: bool,
    pub dead: Option<DeadReason>,
    pub tags: Vec<Tag>,
    pub span: Span,
}

#[verifier::ext_equal]
pub struct AllocView {
    pub size: u64,
    pub bytes: Seq<u8>,
    pub init: Seq<bool>,
    pub region: usize,
    pub from_malloc: bool,
    pub live: bool,
    pub dead: Option<DeadReason>,
    pub tags: Seq<Tag>,
    pub span: Span,
}

impl View for Allocation {
    type V = AllocView;

    open spec fn view(&self) -> AllocView {
        AllocView {
            size: self.size,
            bytes: self.bytes@,
            init: self.init@,
            region: self.region,
            from_malloc: self.from_malloc,
            live: self.live,
            dead: self.dead,
            tags: self.tags@,
            span: self.span,
        }
    }
}

/// A raw pointer: an allocation and a tag of it, or nothing.
#[derive(Debug, Clone, Copy, PartialEq, Eq, Structural)]
pub struct PtrVal {
    /// `None`: it addresses no allocation.
    pub alloc: Option<usize>,
    pub tag: u32,
    pub offset: i64,
    /// The absolute address: base plus offset.
    pub addr: u64,
}

#[derive(Debug, Clone, Copy, PartialEq, Eq, Structural)]
pub struct DynRegion {
    pub live: bool,
    pub frozen: bool,
    pub backing: Option<usize>,
    pub span: Span,
}

#[derive(Debug)]
pub struct Shadow {
    pub allocs: Vec<Allocation>,
    pub regions: Vec<DynRegion>,
    pub mem_used: u64,
    pub mem_limit: u64,
}

#[verifier::ext_equal]
pub struct ShadowView {
    pub allocs: Seq<AllocView>,
    pub regions: Seq<DynRegion>,
    pub mem_used: u64,
    pub mem_limit: u64,
}

pub open spec fn alloc_views(v: Seq<Allocation>) -> Seq<AllocView> {
    Seq::new(v.len(), |i: int| v[i]@)
}

impl View for Shadow {
    type V = ShadowView;

    open spec fn view(&self) -> ShadowView {
        ShadowView {
            allocs: alloc_views(self.allocs@),
            regions: self.regions@,
            mem_used: self.mem_used,
            mem_limit: self.mem_limit,
        }
    }
}

/// The address an allocation begins at.
pub open spec fn base_addr(id: int) -> u64 {
    (((id as u64) + 1) * (ALLOC_STRIDE as int)) as u64
}

#[verifier::truncate]
pub fn base_of(id: usize) -> (r: u64)
    ensures
        r == base_addr(id as int),
{
    let n: u128 = (id as u64) as u128 + 1;
    assert(n * 65536 <= 0x1_0000_0000_0000_0000u128 * 65536) by (nonlinear_arith)
        requires
            n <= 0x1_0000_0000_0000_0000u128,
    ;
    (n * 65536) as u64
}

// ------------------------------------------------------------- tag trees --

/// What a resolved address should permit.
#[derive(Debug, Clone, Copy, PartialEq, Eq, Structural)]
pub enum Wish {
    Write,
    Read,
    Any,
}

impl AllocView {
    /// Every byte has its records, and a tag's parent was made before it.
    pub open spec fn wf(self) -> bool {
        &&& self.bytes.len() == self.size
        &&& self.init.len() == self.size
        &&& forall|i: int|
            0 <= i < self.tags.len() ==> ((#[trigger] self.tags[i]).parent matches Some(p) ==> p
                < i)
    }
}

/// `anc` is `t` or an ancestor of it.
pub open spec fn on_path(tags: Seq<Tag>, t: int, anc: int) -> bool
    decreases t,
{
    t == anc || (0 <= t < tags.len() && (tags[t].parent matches Some(p) && p < t && on_path(
        tags,
        p as int,
        anc,
    )))
}

/// The nearest tag on the path from `t` upward that forbids the access.
pub open spec fn blocker(tags: Seq<Tag>, t: int, write: bool) -> Option<int>
    decreases t,
{
    if !(0 <= t < tags.len()) {
        None
    } else if tags[t].state is Disabled || (tags[t].state is Frozen && write) {
        Some(t)
    } else {
        match tags[t].parent {
            Some(p) => if p < t {
                blocker(tags, p as int, write)
            } else {
                None
            },
            None => None,
        }
    }
}

/// A foreign write would invalidate this protected tag.
pub open spec fn guarded(tags: Seq<Tag>, t: int, v: int) -> bool {
    !on_path(tags, t, v) && tags[v].protected > 0 && !(tags[v].state is Disabled)
}

/// The first protected tag a write through `t` would invalidate, from
/// `v` on.
pub open spec fn guard_from(tags: Seq<Tag>, t: int, v: int) -> Option<int>
    decreases tags.len() - v,
{
    if v >= tags.len() {
        None
    } else if guarded(tags, t, v) {
        Some(v)
    } else {
        guard_from(tags, t, v + 1)
    }
}

/// A tag after an access through `t`: a child write activates it, a
/// foreign write disables it, a foreign read freezes it.
pub open spec fn tag_after(tags: Seq<Tag>, t: int, write: bool, v: int) -> Tag {
    if on_path(tags, t, v) {
        if write && tags[v].state is Reserved {
            Tag { state: TagState::Active, ..tags[v] }
        } else {
            tags[v]
        }
    } else if write {
        Tag { state: TagState::Disabled, ..tags[v] }
    } else if tags[v].state is Active {
        Tag { state: TagState::Frozen, ..tags[v] }
    } else {
        tags[v]
    }
}

pub open spec fn tags_after(tags: Seq<Tag>, t: int, write: bool) -> Seq<Tag> {
    Seq::new(tags.len(), |v: int| tag_after(tags, t, write, v))
}

pub open spec fn why_dead(d: Option<DeadReason>) -> Seq<char> {
    match d {
        Some(DeadReason::CFree) => "freed by `c.free`"@,
        Some(DeadReason::RegionFreed) => "its region was freed"@,
        None => "invalidated by a conflicting access"@,
    }
}

fn why_text(d: Option<DeadReason>) -> (r: &'static str)
    ensures
        r@ == why_dead(d),
{
    match d {
        Some(DeadReason::CFree) => "freed by `c.free`",
        Some(DeadReason::RegionFreed) => "its region was freed",
        None => "invalidated by a conflicting access",
    }
}

// ------------------------------------------------------------- accesses --

/// All bytes of the range hold something.
pub open spec fn initialized(init: Seq<bool>, lo: int, len: int) -> bool {
    forall|i: int| lo <= i < lo + len ==> #[trigger] init[i]
}

impl ShadowView {
    pub open spec fn wf(self) -> bool {
        &&& forall|i: int| 0 <= i < self.allocs.len() ==> (#[trigger] self.allocs[i]).wf()
        &&& forall|i: int|
            0 <= i < self.allocs.len() ==> (#[trigger] self.allocs[i]).region < self.regions.len()
    }

    /// The allocation a pointer addresses, with a tag of it.
    pub open spec fn target(self, p: PtrVal) -> Option<int> {
        match p.alloc {
            Some(a) => if a < self.allocs.len() && p.tag < self.allocs[a as int].tags.len() {
                Some(a as int)
            } else {
                None
            },
            None => None,
        }
    }

    pub open spec fn in_bounds(self, a: int, p: PtrVal, len: nat) -> bool {
        0 <= p.offset && p.offset + len <= self.allocs[a].size
    }

    /// What is wrong with an access, in row order.
    pub open spec fn fault(self, p: PtrVal, len: nat, write: bool, span: Span, op: Seq<char>) -> Option<
        FindingView,
    > {
        match self.target(p) {
            None => Some(
                FindingView {
                    row: UbRow::L2,
                    message: op
                        + " through a dangling raw pointer (no live allocation at this address)"@,
                    span,
                    tag_span: span,
                },
            ),
            Some(a) => {
                let al = self.allocs[a];
                if !self.in_bounds(a, p, len) {
                    Some(
                        FindingView {
                            row: UbRow::P3,
                            message: op + " at offset "@ + decimal_int(p.offset as int) + " of a "@
                                + decimal(al.size as nat)
                                + "-byte allocation — outside its bounds"@,
                            span,
                            tag_span: al.span,
                        },
                    )
                } else if !self.regions[al.region as int].live {
                    Some(
                        FindingView {
                            row: UbRow::P4,
                            message: op
                                + " into an allocation whose region was already freed"@,
                            span,
                            tag_span: self.regions[al.region as int].span,
                        },
                    )
                } else if blocker(al.tags, p.tag as int, write) is Some {
                    let b = al.tags[blocker(al.tags, p.tag as int, write)->0];
                    if b.state is Disabled {
                        Some(
                            FindingView {
                                row: UbRow::P1,
                                message: op + " through a Disabled tag ("@ + why_dead(al.dead)
                                    + ")"@,
                                span,
                                tag_span: b.origin,
                            },
                        )
                    } else {
                        Some(
                            FindingView {
                                row: UbRow::P2,
                                message: op + ": write through a Frozen tag"@,
                                span,
                                tag_span: b.origin,
                            },
                        )
                    }
                } else if write && guard_from(al.tags, p.tag as int, 0) is Some {
                    Some(
                        FindingView {
                            row: UbRow::P1,
                            message: op + ": foreign write invalidates a protected tag"@,
                            span,
                            tag_span: al.tags[guard_from(al.tags, p.tag as int, 0)->0].origin,
                        },
                    )
                } else if !write && !initialized(al.init, p.offset as int, len as int) {
                    Some(
                        FindingView {
                            row: UbRow::L1,
                            message: op + " reads uninitialized memory"@,
                            span,
                            tag_span: al.span,
                        },
                    )
                } else {
                    None
                }
            },
        }
    }

    pub open spec fn with_alloc(self, a: int, al: AllocView) -> ShadowView {
        ShadowView { allocs: self.allocs.update(a, al), ..self }
    }

    /// The tags after a permitted access.
    pub open spec fn accessed(self, p: PtrVal, write: bool) -> ShadowView {
        match self.target(p) {
            Some(a) => self.with_alloc(
                a,
                AllocView {
                    tags: tags_after(self.allocs[a].tags, p.tag as int, write),
                    ..self.allocs[a]
                },
            ),
            None => self,
        }
    }

    /// The bytes a pointer addresses.
    pub open spec fn bytes_at(self, p: PtrVal, len: nat) -> Seq<u8> {
        match self.target(p) {
            Some(a) => self.allocs[a].bytes.subrange(p.offset as int, p.offset + len),
            None => Seq::empty(),
        }
    }

    pub open spec fn written(self, p: PtrVal, data: Seq<u8>) -> ShadowView {
        match self.target(p) {
            Some(a) => self.with_alloc(
                a,
                AllocView {
                    bytes: splice(self.allocs[a].bytes, p.offset as int, data),
                    init: splice(
                        self.allocs[a].init,
                        p.offset as int,
                        Seq::new(data.len(), |i: int| true),
                    ),
                    ..self.allocs[a]
                },
            ),
            None => self,
        }
    }
}

/// The sequence with a run replaced.
pub open spec fn splice<T>(s: Seq<T>, at: int, run: Seq<T>) -> Seq<T> {
    Seq::new(
        s.len(),
        |i: int|
            if at <= i < at + run.len() {
                run[i - at]
            } else {
                s[i]
            },
    )
}

pub open spec fn opt_finding(r: Result<(), UbFinding>) -> Option<FindingView> {
    match r {
        Ok(_) => None,
        Err(f) => Some(f@),
    }
}

impl Allocation {
    fn is_path(tags: &Vec<Tag>, anc: u32, t: u32) -> (r: bool)
        requires
            t < tags.len(),
            forall|i: int|
                0 <= i < tags@.len() ==> ((#[trigger] tags@[i]).parent matches Some(p) ==> p < i),
        ensures
            r == on_path(tags@, t as int, anc as int),
    {
        let mut cur: u32 = t;
        loop
            invariant
                cur < tags.len(),
                forall|i: int|
                    0 <= i < tags@.len() ==> ((#[trigger] tags@[i]).parent matches Some(p) ==> p
                        < i),
                on_path(tags@, t as int, anc as int) == on_path(tags@, cur as int, anc as int),
            decreases cur,
        {
            if cur == anc {
                return true;
            }
            match tags[cur as usize].parent {
                Some(p) => {
                    assert(tags@[cur as int].parent == Some(p));
                    cur = p;
                },
                None => return false,
            }
        }
    }

    fn find_blocker(tags: &Vec<Tag>, t: u32, write: bool) -> (r: Option<usize>)
        requires
            t < tags.len(),
            forall|i: int|
                0 <= i < tags@.len() ==> ((#[trigger] tags@[i]).parent matches Some(p) ==> p < i),
        ensures
            match r {
                Some(b) => b < tags.len() && blocker(tags@, t as int, write) == Some(b as int),
                None => blocker(tags@, t as int, write) is None,
            },
    {
        let mut cur: u32 = t;
        loop
            invariant
                cur < tags.len(),
                forall|i: int|
                    0 <= i < tags@.len() ==> ((#[trigger] tags@[i]).parent matches Some(p) ==> p
                        < i),
                blocker(tags@, t as int, write) == blocker(tags@, cur as int, write),
            decreases cur,
        {
            let tag = tags[cur as usize];
            if tag.state == TagState::Disabled || (tag.state == TagState::Frozen && write) {
                return Some(cur as usize);
            }
            match tag.parent {
                Some(p) => {
                    assert(tags@[cur as int].parent == Some(p));
                    cur = p;
                },
                None => return None,
            }
        }
    }

    fn find_guard(tags: &Vec<Tag>, t: u32) -> (r: Option<usize>)
        requires
            t < tags.len(),
            forall|i: int|
                0 <= i < tags@.len() ==> ((#[trigger] tags@[i]).parent matches Some(p) ==> p < i),
        ensures
            match r {
                Some(b) => b < tags.len() && guard_from(tags@, t as int, 0) == Some(b as int),
                None => guard_from(tags@, t as int, 0) is None,
            },
    {
        let mut v: usize = 0;
        while v < tags.len()
            invariant
                v <= tags.len(),
                t < tags.len(),
                forall|i: int|
                    0 <= i < tags@.len() ==> ((#[trigger] tags@[i]).parent matches Some(p) ==> p
                        < i),
                guard_from(tags@, t as int, 0) == guard_from(tags@, t as int, v as int),
            decreases tags.len() - v,
        {
            let tag = tags[v];
            if tag.protected > 0 && tag.state != TagState::Disabled {
                if v > u32::MAX as usize || !Allocation::is_path(tags, v as u32, t) {
                    proof {
                        if v > u32::MAX as usize {
                            lemma_path_bound(tags@, t as int, v as int);
                        }
                    }
                    return Some(v);
                }
            }
            v = v + 1;
        }
        None
    }

    /// The transitions of a permitted access.
    fn transition(&mut self, t: u32, write: bool)
        requires
            old(self)@.wf(),
            t < old(self)@.tags.len(),
        ensures
            final(self)@ == (AllocView {
                tags: tags_after(old(self)@.tags, t as int, write),
                ..old(self)@
            }),
    {
        let ghost was = self@;
        let ghost tags = self.tags@;
        let mut next: Vec<Tag> = Vec::new();
        let mut v: usize = 0;
        while v < self.tags.len()
            invariant
                v <= self.tags.len(),
                self@ == was,
                was.wf(),
                tags == self.tags@,
                was.tags == tags,
                t < tags.len(),
                next@ == tags_after(tags, t as int, write).take(v as int),
            decreases self.tags.len() - v,
        {
            let mut tag = self.tags[v];
            proof {
                if v > u32::MAX as usize {
                    lemma_path_bound(tags, t as int, v as int);
                }
            }
            if v <= u32::MAX as usize && Allocation::is_path(&self.tags, v as u32, t) {
                if write && tag.state == TagState::Reserved {
                    tag.state = TagState::Active;
                }
            } else if write {
                tag.state = TagState::Disabled;
            } else if tag.state == TagState::Active {
                tag.state = TagState::Frozen;
            }
            assert(tag == tag_after(tags, t as int, write, v as int));
            next.push(tag);
            v = v + 1;
            assert(next@ =~= tags_after(tags, t as int, write).take(v as int));
        }
        assert(next@ =~= tags_after(tags, t as int, write));
        self.tags = next;
        assert(self@ =~= (AllocView { tags: tags_after(tags, t as int, write), ..was }));
    }

    /// Replace a run of bytes; they hold something now.
    fn copy_in(&mut self, lo: usize, data: &Vec<u8>)
        requires
            old(self)@.wf(),
            lo + data@.len() <= old(self)@.bytes.len(),
        ensures
            final(self)@ == (AllocView {
                bytes: splice(old(self)@.bytes, lo as int, data@),
                init: splice(
                    old(self)@.init,
                    lo as int,
                    Seq::new(data@.len(), |i: int| true),
                ),
                ..old(self)@
            }),
    {
        let ghost al = self@;
        let n: usize = self.bytes.len();
        let mut i: usize = 0;
        assert(splice(al.bytes, lo as int, data@.take(0)) =~= al.bytes);
        assert(splice(al.init, lo as int, Seq::new(0, |k: int| true)) =~= al.init);
        while i < data.len()
            invariant
                i <= data.len(),
                al.wf(),
                n == al.bytes.len(),
                lo + data@.len() <= n,
                self@ == (AllocView {
                    bytes: splice(al.bytes, lo as int, data@.take(i as int)),
                    init: splice(al.init, lo as int, Seq::new(i as nat, |k: int| true)),
                    ..al
                }),
            decreases data.len() - i,
        {
            self.bytes.set(lo + i, data[i]);
            self.init.set(lo + i, true);
            i = i + 1;
            assert(self@.bytes =~= splice(al.bytes, lo as int, data@.take(i as int)));
            assert(self@.init =~= splice(al.init, lo as int, Seq::new(i as nat, |k: int| true)));
        }
        assert(data@.take(i as int) =~= data@);
    }

    /// Every tag gets one state.
    fn set_states(&mut self, s: TagState, spare_disabled: bool)
        ensures
            final(self)@ == (AllocView {
                tags: with_state(old(self)@.tags, s, spare_disabled),
                ..old(self)@
            }),
    {
        let ghost was = self@;
        let ghost tags = self.tags@;
        let mut next: Vec<Tag> = Vec::new();
        let mut v: usize = 0;
        while v < self.tags.len()
            invariant
                v <= self.tags.len(),
                self@ == was,
                tags == self.tags@,
                next@ == with_state(tags, s, spare_disabled).take(v as int),
            decreases self.tags.len() - v,
        {
            let mut tag = self.tags[v];
            if !(spare_disabled && tag.state == TagState::Disabled) {
                tag.state = s;
            }
            next.push(tag);
            v = v + 1;
            assert(next@ =~= with_state(tags, s, spare_disabled).take(v as int));
        }
        assert(next@ =~= with_state(tags, s, spare_disabled));
        self.tags = next;
        assert(self@ =~= (AllocView { tags: with_state(tags, s, spare_disabled), ..was }));
    }
}

/// Every tag in one state; disabled ones may be spared.
pub open spec fn with_state(tags: Seq<Tag>, s: TagState, spare_disabled: bool) -> Seq<Tag> {
    Seq::new(
        tags.len(),
        |i: int|
            if spare_disabled && tags[i].state is Disabled {
                tags[i]
            } else {
                Tag { state: s, ..tags[i] }
            },
    )
}

/// Only tags made no later stand on a tag's path.
proof fn lemma_path_bound(tags: Seq<Tag>, t: int, v: int)
    requires
        t < v,
    ensures
        !on_path(tags, t, v),
    decreases t,
{
    if 0 <= t < tags.len() {
        if let Some(p) = tags[t].parent {
            if p < t {
                lemma_path_bound(tags, p as int, v);
            }
        }
    }
}

fn range_initialized(init: &Vec<bool>, lo: usize, len: usize) -> (r: bool)
    requires
        lo + len <= init.len(),
    ensures
        r == initialized(init@, lo as int, len as int),
{
    let mut i: usize = 0;
    while i < len
        invariant
            i <= len,
            lo + len <= init.len(),
            forall|k: int| lo <= k < lo + i ==> #[trigger] init@[k],
        decreases len - i,
    {
        if !init[lo + i] {
            assert(!init@[lo + i]);
            return false;
        }
        i = i + 1;
    }
    true
}

fn copy_out(bytes: &Vec<u8>, lo: usize, len: usize) -> (r: Vec<u8>)
    requires
        lo + len <= bytes@.len(),
    ensures
        r@ == bytes@.subrange(lo as int, lo + len),
{
    let n: usize = bytes.len();
    let mut out: Vec<u8> = Vec::new();
    let mut i: usize = 0;
    assert(out@ =~= bytes@.subrange(lo as int, lo + 0));
    while i < len
        invariant
            i <= len,
            n == bytes@.len(),
            lo + len <= n,
            out@ == bytes@.subrange(lo as int, lo + i),
        decreases len - i,
    {
        out.push(bytes[lo + i]);
        i = i + 1;
        assert(out@ =~= bytes@.subrange(lo as int, lo + i));
    }
    out
}

fn finding(row: UbRow, message: String, span: Span, tag_span: Span) -> (r: UbFinding)
    ensures
        r@ == (FindingView { row, message: message@, span, tag_span }),
{
    UbFinding { row, message, span, tag_span }
}

impl Shadow {
    pub fn target_of(&self, p: PtrVal) -> (r: Option<usize>)
        ensures
            match r {
                Some(a) => self@.target(p) == Some(a as int) && a < self.allocs.len() && p.tag
                    < self@.allocs[a as int].tags.len(),
                None => self@.target(p) is None,
            },
    {
        match p.alloc {
            Some(a) => if a < self.allocs.len() {
                assert(self@.allocs[a as int] == self.allocs@[a as int]@);
                if (p.tag as usize) < self.allocs[a].tags.len() {
                    Some(a)
                } else {
                    None
                }
            } else {
                None
            },
            None => None,
        }
    }

    fn check_access(&self, p: PtrVal, len: u64, write: bool, span: Span, op: &str) -> (r: Result<
        (),
        UbFinding,
    >)
        requires
            self@.wf(),
        ensures
            opt_finding(r) == self@.fault(p, len as nat, write, span, op@),
    {
        let a = match self.target_of(p) {
            Some(a) => a,
            None => return Err(
                finding(
                    UbRow::L2,
                    lit(op).concat(
                        " through a dangling raw pointer (no live allocation at this address)",
                    ),
                    span,
                    span,
                ),
            ),
        };
        let al = &self.allocs[a];
        assert(self@.allocs[a as int] == al@);
        assert(al@.wf());
        if p.offset < 0 || (p.offset as u64) > al.size || al.size - (p.offset as u64) < len {
            return Err(
                finding(
                    UbRow::P3,
                    lit(op).concat(" at offset ").concat(
                        dec_i128(p.offset as i128).as_str(),
                    ).concat(" of a ").concat(dec(al.size).as_str()).concat(
                        "-byte allocation — outside its bounds",
                    ),
                    span,
                    al.span,
                ),
            );
        }
        let region = self.regions[al.region];
        if !region.live {
            return Err(
                finding(
                    UbRow::P4,
                    lit(op).concat(" into an allocation whose region was already freed"),
                    span,
                    region.span,
                ),
            );
        }
        if let Some(b) = Allocation::find_blocker(&al.tags, p.tag, write) {
            let tag = al.tags[b];
            if tag.state == TagState::Disabled {
                return Err(
                    finding(
                        UbRow::P1,
                        lit(op).concat(" through a Disabled tag (").concat(
                            why_text(al.dead),
                        ).concat(")"),
                        span,
                        tag.origin,
                    ),
                );
            }
            return Err(
                finding(
                    UbRow::P2,
                    lit(op).concat(": write through a Frozen tag"),
                    span,
                    tag.origin,
                ),
            );
        }
        let n: usize = al.init.len();
        assert(p.offset + len <= n);
        if write {
            if let Some(b) = Allocation::find_guard(&al.tags, p.tag) {
                return Err(
                    finding(
                        UbRow::P1,
                        lit(op).concat(": foreign write invalidates a protected tag"),
                        span,
                        al.tags[b].origin,
                    ),
                );
            }
        } else if !range_initialized(&al.init, p.offset as usize, len as usize) {
            return Err(
                finding(
                    UbRow::L1,
                    lit(op).concat(" reads uninitialized memory"),
                    span,
                    al.span,
                ),
            );
        }
        Ok(())
    }

    /// One access through a pointer: the row-ordered check, then the tag
    /// transitions.
    pub fn mem_access(&mut self, p: PtrVal, len: u64, write: bool, span: Span, op: &str) -> (r: Result<
        (),
        UbFinding,
    >)
        requires
            old(self)@.wf(),
        ensures
            final(self)@.wf(),
            opt_finding(r) == old(self)@.fault(p, len as nat, write, span, op@),
            final(self)@ == (if r is Ok {
                old(self)@.accessed(p, write)
            } else {
                old(self)@
            }),
    {
        let ghost was = self@;
        match self.check_access(p, len, write, span, op) {
            Err(f) => return Err(f),
            Ok(_) => {},
        }
        if let Some(a) = self.target_of(p) {
            assert(was.allocs[a as int] == self.allocs@[a as int]@);
            assert(was.allocs[a as int].wf());
            self.allocs[a].transition(p.tag, write);
            proof {
                assert(self@.allocs =~= was.accessed(p, write).allocs);
                assert(self@ =~= was.accessed(p, write));
                lemma_accessed_wf(was, p, write);
            }
        }
        Ok(())
    }

    /// Read bytes through a pointer.
    pub fn raw_read_bytes(&mut self, p: PtrVal, len: u64, span: Span, op: &str) -> (r: Result<
        Vec<u8>,
        UbFinding,
    >)
        requires
            old(self)@.wf(),
        ensures
            final(self)@.wf(),
            match r {
                Err(f) => old(self)@.fault(p, len as nat, false, span, op@) == Some(f@)
                    && final(self)@ == old(self)@,
                Ok(b) => old(self)@.fault(p, len as nat, false, span, op@) is None && b@
                    == old(self)@.bytes_at(p, len as nat) && b@.len() == len && final(self)@
                    == old(self)@.accessed(p, false),
            },
    {
        let ghost was = self@;
        match self.mem_access(p, len, false, span, op) {
            Err(f) => return Err(f),
            Ok(_) => {},
        }
        let mut out: Vec<u8> = Vec::new();
        if let Some(a) = self.target_of(p) {
            assert(self@.allocs[a as int] == self.allocs@[a as int]@);
            assert(was.allocs[a as int].wf());
            assert(self@.allocs[a as int].bytes == was.allocs[a as int].bytes);
            let n: usize = self.allocs[a].bytes.len();
            assert(p.offset + len <= n);
            out = copy_out(&self.allocs[a].bytes, p.offset as usize, len as usize);
        }
        Ok(out)
    }

    /// Write bytes through a pointer.
    pub fn raw_write_bytes(&mut self, p: PtrVal, data: &Vec<u8>, span: Span, op: &str) -> (r: Result<
        (),
        UbFinding,
    >)
        requires
            old(self)@.wf(),
        ensures
            final(self)@.wf(),
            opt_finding(r) == old(self)@.fault(p, data@.len(), true, span, op@),
            final(self)@ == (if r is Ok {
                old(self)@.accessed(p, true).written(p, data@)
            } else {
                old(self)@
            }),
    {
        let ghost was = self@;
        match self.mem_access(p, data.len() as u64, true, span, op) {
            Err(f) => return Err(f),
            Ok(_) => {},
        }
        let ghost mid = self@;
        if let Some(a) = self.target_of(p) {
            assert(mid.allocs[a as int] == self.allocs@[a as int]@);
            assert(mid.allocs[a as int].wf());
            assert(was.allocs[a as int].wf());
            let n: usize = self.allocs[a].bytes.len();
            assert(p.offset + data.len() <= n);
            self.allocs[a].copy_in(p.offset as usize, data);
            proof {
                assert(self.allocs@[a as int]@ == mid.written(p, data@).allocs[a as int]);
                assert(self@.allocs =~= mid.written(p, data@).allocs);
                assert(self@ =~= mid.written(p, data@));
                assert forall|k: int| 0 <= k < self@.allocs.len() implies (
                #[trigger] self@.allocs[k]).wf() && self@.allocs[k].region < self@.regions.len() by {
                    assert(mid.allocs[k].wf());
                    assert(mid.allocs[k].region < mid.regions.len());
                }
            }
        }
        Ok(())
    }
}

proof fn lemma_accessed_wf(s: ShadowView, p: PtrVal, write: bool)
    requires
        s.wf(),
    ensures
        s.accessed(p, write).wf(),
{
    if let Some(a) = s.target(p) {
        let r = s.accessed(p, write);
        assert forall|i: int| 0 <= i < r.allocs.len() implies (#[trigger] r.allocs[i]).wf() by {
            assert(s.allocs[i].wf());
        }
        assert forall|i: int| 0 <= i < r.allocs.len() implies (#[trigger] r.allocs[i]).region
            < r.regions.len() by {
            assert(s.allocs[i].region < s.regions.len());
        }
    }
}

// ------------------------------------------------------- the operations --

impl ShadowView {
    /// The bytes are within the budget.
    pub open spec fn affords(self, bytes: nat) -> bool {
        self.mem_used + bytes <= self.mem_limit && self.mem_used + bytes <= u64::MAX
    }

    pub open spec fn charged(self, bytes: nat) -> ShadowView {
        ShadowView {
            mem_used: if self.mem_used + bytes <= u64::MAX {
                (self.mem_used + bytes) as u64
            } else {
                u64::MAX
            },
            ..self
        }
    }

    pub open spec fn new_alloc(
        self,
        size: u64,
        region: usize,
        from_malloc: bool,
        zeroed: bool,
        exposed: bool,
        span: Span,
    ) -> ShadowView {
        ShadowView {
            allocs: self.allocs.push(
                AllocView {
                    size,
                    bytes: Seq::new(size as nat, |i: int| 0u8),
                    init: Seq::new(size as nat, |i: int| zeroed),
                    region,
                    from_malloc,
                    live: true,
                    dead: None,
                    tags: seq![
                        Tag {
                            parent: None,
                            state: TagState::Active,
                            protected: 0,
                            exposed,
                            origin: span,
                        },
                    ],
                    span,
                },
            ),
            ..self
        }
    }

    /// The free of a region disables every tag of every live allocation
    /// it owns.
    pub open spec fn free_region(self, r: int) -> ShadowView {
        if 0 <= r < self.regions.len() {
            ShadowView {
                regions: self.regions.update(r, DynRegion { live: false, ..self.regions[r] }),
                allocs: Seq::new(
                    self.allocs.len(),
                    |i: int|
                        if self.allocs[i].region == r && self.allocs[i].live {
                            AllocView {
                                live: false,
                                dead: Some(DeadReason::RegionFreed),
                                tags: with_state(self.allocs[i].tags, TagState::Disabled, false),
                                ..self.allocs[i]
                            }
                        } else {
                            self.allocs[i]
                        },
                ),
                ..self
            }
        } else {
            self
        }
    }

    /// The freeze of a region freezes every tag it owns that is not
    /// disabled.
    pub open spec fn freeze_region(self, r: int) -> ShadowView {
        if 0 <= r < self.regions.len() {
            ShadowView {
                regions: self.regions.update(r, DynRegion { frozen: true, ..self.regions[r] }),
                allocs: Seq::new(
                    self.allocs.len(),
                    |i: int|
                        if self.allocs[i].region == r && self.allocs[i].live {
                            AllocView {
                                tags: with_state(self.allocs[i].tags, TagState::Frozen, true),
                                ..self.allocs[i]
                            }
                        } else {
                            self.allocs[i]
                        },
                ),
                ..self
            }
        } else {
            self
        }
    }

    /// A region's backing block after its first demand.
    pub open spec fn backed(self, r: int, span: Span) -> ShadowView {
        let s = self.charged(REGION_BACKING as nat).new_alloc(
            REGION_BACKING,
            r as usize,
            false,
            true,
            true,
            span,
        );
        let a = self.allocs.len() as int;
        let s1 = if self.regions[r].frozen {
            s.with_alloc(
                a,
                AllocView {
                    tags: with_state(s.allocs[a].tags, TagState::Frozen, false),
                    ..s.allocs[a]
                },
            )
        } else {
            s
        };
        ShadowView {
            regions: s1.regions.update(
                r,
                DynRegion { backing: Some(a as usize), ..s1.regions[r] },
            ),
            ..s1
        }
    }

    /// An exposed tag of an allocation that an address may be resolved
    /// to. Under `Wish::Write` its path permits reads and writes, under
    /// `Wish::Read` reads; under `Wish::Any` nothing more is asked.
    pub open spec fn serves(self, a: int, t: int, wish: Wish) -> bool {
        let al = self.allocs[a];
        &&& t <= u32::MAX
        &&& al.tags[t].exposed
        &&& match wish {
            Wish::Write => self.regions[al.region as int].live && blocker(al.tags, t, true) is None,
            Wish::Read => self.regions[al.region as int].live && blocker(al.tags, t, false) is None,
            Wish::Any => true,
        }
    }

    /// The first tag of the allocation that serves, from `i` on.
    pub open spec fn serving(self, a: int, wish: Wish, i: int) -> Option<int>
        decreases self.allocs[a].tags.len() - i,
    {
        if i >= self.allocs[a].tags.len() {
            None
        } else if self.serves(a, i, wish) {
            Some(i)
        } else {
            self.serving(a, wish, i + 1)
        }
    }

    /// The address lies in the live allocation.
    pub open spec fn holds_addr(self, a: int, addr: u64) -> bool {
        &&& self.allocs[a].live
        &&& base_addr(a) <= addr
        &&& addr - base_addr(a) < self.allocs[a].size
    }

    /// The first allocation with a serving tag that the address lies in,
    /// from `a` on, and that tag.
    pub open spec fn resolved_from(self, a: int, addr: u64, wish: Wish) -> Option<(int, int)>
        decreases self.allocs.len() - a,
    {
        if a >= self.allocs.len() {
            None
        } else if self.holds_addr(a, addr) && self.serving(a, wish, 0) is Some {
            Some((a, self.serving(a, wish, 0)->0))
        } else {
            self.resolved_from(a + 1, addr, wish)
        }
    }

    /// The angelic choice: a tag through which a defined execution can go
    /// on, where one exists. One that permits writes comes before one that
    /// permits reads alone, and that before any exposed tag.
    pub open spec fn resolved(self, addr: u64) -> Option<(int, int)> {
        match self.resolved_from(0, addr, Wish::Write) {
            Some(x) => Some(x),
            None => match self.resolved_from(0, addr, Wish::Read) {
                Some(x) => Some(x),
                None => self.resolved_from(0, addr, Wish::Any),
            },
        }
    }

    /// A child of the chosen tag.
    pub open spec fn child_tag(self, a: int, e: int, span: Span) -> Tag {
        Tag {
            parent: Some(e as u32),
            state: if self.allocs[a].tags[e].state is Frozen {
                TagState::Frozen
            } else {
                TagState::Active
            },
            protected: 0,
            exposed: false,
            origin: span,
        }
    }

    pub open spec fn with_tag(self, a: int, t: Tag) -> ShadowView {
        self.with_alloc(
            a,
            AllocView { tags: self.allocs[a].tags.push(t), ..self.allocs[a] },
        )
    }

    /// Resolve an integer address among live allocations with an exposed
    /// tag; a defined execution is chosen if one exists.
    pub open spec fn resolve(self, addr: u64, span: Span) -> (ShadowView, PtrVal) {
        match self.resolved(addr) {
            Some((a, e)) => (
                self.with_tag(a, self.child_tag(a, e, span)),
                PtrVal {
                    alloc: Some(a as usize),
                    tag: self.allocs[a].tags.len() as u32,
                    offset: (addr - base_addr(a)) as i64,
                    addr,
                },
            ),
            None => (self, PtrVal { alloc: None, tag: 0, offset: 0, addr }),
        }
    }

    /// The pointer's tag is exposed.
    pub open spec fn expose(self, p: PtrVal) -> ShadowView {
        match self.target(p) {
            Some(a) => {
                let tags = self.allocs[a].tags;
                self.with_alloc(
                    a,
                    AllocView {
                        tags: tags.update(
                            p.tag as int,
                            Tag { exposed: true, ..tags[p.tag as int] },
                        ),
                        ..self.allocs[a]
                    },
                )
            },
            None => self,
        }
    }

    /// A child tag for a pointer passed on. A Frozen one is protected until
    /// it is released.
    pub open spec fn retag(self, p: PtrVal, state: TagState, span: Span) -> (ShadowView, PtrVal) {
        match self.target(p) {
            Some(a) => (
                self.with_tag(
                    a,
                    Tag {
                        parent: Some(p.tag),
                        state,
                        protected: if state is Frozen {
                            1
                        } else {
                            0
                        },
                        exposed: false,
                        origin: span,
                    },
                ),
                PtrVal { tag: self.allocs[a].tags.len() as u32, ..p },
            ),
            None => (self, p),
        }
    }

    /// The tag is no longer protected.
    pub open spec fn unprotected(self, p: PtrVal) -> ShadowView {
        match self.target(p) {
            Some(a) => {
                let tags = self.allocs[a].tags;
                self.with_alloc(
                    a,
                    AllocView {
                        tags: tags.update(
                            p.tag as int,
                            Tag { protected: 0, ..tags[p.tag as int] },
                        ),
                        ..self.allocs[a]
                    },
                )
            },
            None => self,
        }
    }

    /// `free` dereferences the block it releases: the pointer must
    /// address the base of a live C allocation.
    pub open spec fn can_free(self, p: PtrVal) -> bool {
        self.target(p) matches Some(a) && self.allocs[a].live && self.allocs[a].from_malloc
            && p.offset == 0
    }

    pub open spec fn c_free(self, p: PtrVal) -> ShadowView {
        match self.target(p) {
            Some(a) => self.with_alloc(
                a,
                AllocView {
                    live: false,
                    dead: Some(DeadReason::CFree),
                    tags: with_state(self.allocs[a].tags, TagState::Disabled, false),
                    ..self.allocs[a]
                },
            ),
            None => self,
        }
    }

    pub open spec fn new_region(self, span: Span) -> ShadowView {
        ShadowView {
            regions: self.regions.push(
                DynRegion { live: true, frozen: false, backing: None, span },
            ),
            ..self
        }
    }
}

impl Shadow {
    /// Charge bytes to the budget; `false` when it is exhausted.
    pub fn charge_mem(&mut self, bytes: u64) -> (ok: bool)
        ensures
            final(self)@ == old(self)@.charged(bytes as nat),
            ok == old(self)@.affords(bytes as nat),
            final(self).allocs == old(self).allocs,
    {
        let ghost was = self@;
        let limit: u64 = self.mem_limit;
        if bytes > u64::MAX - self.mem_used {
            self.mem_used = u64::MAX;
            assert(self@ =~= was.charged(bytes as nat));
            false
        } else {
            self.mem_used = self.mem_used + bytes;
            assert(self@ =~= was.charged(bytes as nat));
            self.mem_used <= limit
        }
    }

    /// A fresh allocation; its id is its position. `None` when the budget
    /// is exhausted.
    pub fn new_alloc(
        &mut self,
        size: u64,
        region: usize,
        from_malloc: bool,
        zeroed: bool,
        exposed: bool,
        span: Span,
    ) -> (r: Option<usize>)
        requires
            old(self)@.wf(),
            region < old(self)@.regions.len(),
        ensures
            final(self)@.wf(),
            r is Some <==> old(self)@.affords(size as nat) && size <= usize::MAX,
            match r {
                Some(a) => a == old(self)@.allocs.len() && final(self)@ == old(self)@.charged(
                    size as nat,
                ).new_alloc(size, region, from_malloc, zeroed, exposed, span),
                None => final(self)@ == old(self)@.charged(size as nat),
            },
    {
        let ghost was = self@;
        let ok = self.charge_mem(size);
        let ghost mid = self@;
        assert(mid.wf());
        if !ok || size > usize::MAX as u64 {
            return None;
        }
        let id: usize = self.allocs.len();
        let n: usize = size as usize;
        let mut bytes: Vec<u8> = Vec::new();
        let mut init: Vec<bool> = Vec::new();
        let mut i: usize = 0;
        while i < n
            invariant
                i <= n,
                bytes@ == Seq::new(i as nat, |k: int| 0u8),
                init@ == Seq::new(i as nat, |k: int| zeroed),
            decreases n - i,
        {
            bytes.push(0u8);
            init.push(zeroed);
            i = i + 1;
            assert(bytes@ =~= Seq::new(i as nat, |k: int| 0u8));
            assert(init@ =~= Seq::new(i as nat, |k: int| zeroed));
        }
        let mut tags: Vec<Tag> = Vec::new();
        tags.push(
            Tag { parent: None, state: TagState::Active, protected: 0, exposed, origin: span },
        );
        self.allocs.push(
            Allocation {
                size,
                bytes,
                init,
                region,
                from_malloc,
                live: true,
                dead: None,
                tags,
                span,
            },
        );
        proof {
            let want = mid.new_alloc(size, region, from_malloc, zeroed, exposed, span);
            assert(tags@ =~= want.allocs[id as int].tags);
            assert(self@.allocs[id as int] =~= want.allocs[id as int]);
            assert(self@.allocs =~= want.allocs);
            assert(self@ =~= want);
            assert forall|k: int| 0 <= k < self@.allocs.len() implies (#[trigger] self@.allocs[k]).wf()
                && self@.allocs[k].region < self@.regions.len() by {
                if k < id {
                    assert(self@.allocs[k] == mid.allocs[k]);
                    assert(mid.allocs[k].wf());
                }
            }
        }
        Some(id)
    }

    /// Free a region.
    pub fn free_region(&mut self, rid: usize)
        requires
            old(self)@.wf(),
        ensures
            final(self)@.wf(),
            final(self)@ == old(self)@.free_region(rid as int),
    {
        let ghost was = self@;
        if rid >= self.regions.len() {
            return;
        }
        let r = self.regions[rid];
        self.regions.set(rid, DynRegion { live: false, ..r });
        let ghost want = was.free_region(rid as int);
        let mut i: usize = 0;
        while i < self.allocs.len()
            invariant
                i <= self.allocs.len(),
                want == was.free_region(rid as int),
                rid < was.regions.len(),
                self.allocs.len() == was.allocs.len(),
                self@.regions == want.regions,
                self@.mem_used == was.mem_used,
                self@.mem_limit == was.mem_limit,
                forall|k: int| 0 <= k < i ==> (#[trigger] self@.allocs[k]) == want.allocs[k],
                forall|k: int|
                    i <= k < self@.allocs.len() ==> (#[trigger] self@.allocs[k]) == was.allocs[k],
            decreases self.allocs.len() - i,
        {
            let ghost before = self@;
            assert(self@.allocs[i as int] == self.allocs@[i as int]@);
            if self.allocs[i].region == rid && self.allocs[i].live {
                self.allocs[i].live = false;
                self.allocs[i].dead = Some(DeadReason::RegionFreed);
                self.allocs[i].set_states(TagState::Disabled, false);
            }
            proof {
                assert(self.allocs@[i as int]@ == want.allocs[i as int]);
                assert forall|k: int| 0 <= k < self@.allocs.len() && k != i implies (
                #[trigger] self@.allocs[k]) == before.allocs[k] by {
                    assert(self@.allocs[k] == self.allocs@[k]@);
                }
            }
            i = i + 1;
        }
        proof {
            assert(self@.allocs =~= want.allocs);
            assert(self@ =~= want);
            assert forall|k: int| 0 <= k < want.allocs.len() implies (#[trigger] want.allocs[k]).wf()
                && want.allocs[k].region < want.regions.len() by {
                assert(was.allocs[k].wf());
                assert(was.allocs[k].region < was.regions.len());
            }
        }
    }

    /// Freeze a region.
    pub fn freeze_region(&mut self, rid: usize)
        requires
            old(self)@.wf(),
        ensures
            final(self)@.wf(),
            final(self)@ == old(self)@.freeze_region(rid as int),
    {
        let ghost was = self@;
        if rid >= self.regions.len() {
            return;
        }
        let r = self.regions[rid];
        self.regions.set(rid, DynRegion { frozen: true, ..r });
        let ghost want = was.freeze_region(rid as int);
        let mut i: usize = 0;
        while i < self.allocs.len()
            invariant
                i <= self.allocs.len(),
                want == was.freeze_region(rid as int),
                rid < was.regions.len(),
                self.allocs.len() == was.allocs.len(),
                self@.regions == want.regions,
                self@.mem_used == was.mem_used,
                self@.mem_limit == was.mem_limit,
                forall|k: int| 0 <= k < i ==> (#[trigger] self@.allocs[k]) == want.allocs[k],
                forall|k: int|
                    i <= k < self@.allocs.len() ==> (#[trigger] self@.allocs[k]) == was.allocs[k],
            decreases self.allocs.len() - i,
        {
            let ghost before = self@;
            assert(self@.allocs[i as int] == self.allocs@[i as int]@);
            if self.allocs[i].region == rid && self.allocs[i].live {
                self.allocs[i].set_states(TagState::Frozen, true);
            }
            proof {
                assert(self.allocs@[i as int]@ == want.allocs[i as int]);
                assert forall|k: int| 0 <= k < self@.allocs.len() && k != i implies (
                #[trigger] self@.allocs[k]) == before.allocs[k] by {
                    assert(self@.allocs[k] == self.allocs@[k]@);
                }
            }
            i = i + 1;
        }
        proof {
            assert(self@.allocs =~= want.allocs);
            assert(self@ =~= want);
            assert forall|k: int| 0 <= k < want.allocs.len() implies (#[trigger] want.allocs[k]).wf()
                && want.allocs[k].region < want.regions.len() by {
                assert(was.allocs[k].wf());
                assert(was.allocs[k].region < was.regions.len());
            }
        }
    }

    /// The region's backing base: a zero-initialized block, made on first
    /// demand. `None` when the budget is exhausted.
    pub fn region_backing(&mut self, rid: usize, span: Span) -> (r: Option<PtrVal>)
        requires
            old(self)@.wf(),
            rid < old(self)@.regions.len(),
        ensures
            final(self)@.wf(),
            match old(self)@.regions[rid as int].backing {
                Some(a) => final(self)@ == old(self)@ && r == Some(
                    PtrVal { alloc: Some(a), tag: 0, offset: 0, addr: base_addr(a as int) },
                ),
                None => if old(self)@.affords(REGION_BACKING as nat) {
                    final(self)@ == old(self)@.backed(rid as int, span) && r == Some(
                        PtrVal {
                            alloc: Some(old(self)@.allocs.len() as usize),
                            tag: 0,
                            offset: 0,
                            addr: base_addr(old(self)@.allocs.len() as int),
                        },
                    )
                } else {
                    final(self)@ == old(self)@.charged(REGION_BACKING as nat) && r is None
                },
            },
    {
        let ghost was = self@;
        if let Some(a) = self.regions[rid].backing {
            return Some(PtrVal { alloc: Some(a), tag: 0, offset: 0, addr: base_of(a) });
        }
        let a = match self.new_alloc(REGION_BACKING, rid, false, true, true, span) {
            Some(a) => a,
            None => return None,
        };
        let ghost s = self@;
        let region = self.regions[rid];
        if region.frozen {
            assert(self.allocs@.len() == s.allocs.len());
            assert(s.allocs.len() == was.charged(REGION_BACKING as nat).allocs.len() + 1);
            assert(self@.allocs[a as int] == self.allocs@[a as int]@);
            self.allocs[a].set_states(TagState::Frozen, false);
            assert(self@.allocs =~= s.with_alloc(
                a as int,
                AllocView {
                    tags: with_state(s.allocs[a as int].tags, TagState::Frozen, false),
                    ..s.allocs[a as int]
                },
            ).allocs);
        }
        let ghost s1 = self@;
        self.regions.set(rid, DynRegion { backing: Some(a), ..region });
        proof {
            assert(self@ =~= was.backed(rid as int, span));
            assert forall|k: int| 0 <= k < self@.allocs.len() implies (#[trigger] self@.allocs[k]).wf()
                && self@.allocs[k].region < self@.regions.len() by {
                assert(s.allocs[k].wf());
                assert(s.allocs[k].region < s.regions.len());
            }
        }
        Some(PtrVal { alloc: Some(a), tag: 0, offset: 0, addr: base_of(a) })
    }

    fn find_serving(&self, a: usize, wish: Wish) -> (r: Option<usize>)
        requires
            self@.wf(),
            a < self.allocs@.len(),
        ensures
            match r {
                Some(i) => i < self.allocs@[a as int].tags.len() && i <= u32::MAX
                    && self@.serving(a as int, wish, 0) == Some(i as int),
                None => self@.serving(a as int, wish, 0) is None,
            },
    {
        let al = &self.allocs[a];
        assert(self@.allocs[a as int] == al@);
        assert(self@.allocs[a as int].wf());
        assert(self@.allocs[a as int].region < self@.regions.len());
        let n: usize = al.tags.len();
        let mut i: usize = 0;
        while i < n
            invariant
                i <= n,
                n == al.tags@.len(),
                a < self.allocs@.len(),
                *al == self.allocs@[a as int],
                self@.allocs[a as int] == al@,
                al@.wf(),
                al.region < self.regions@.len(),
                self@.serving(a as int, wish, 0) == self@.serving(a as int, wish, i as int),
            decreases n - i,
        {
            if al.tags[i].exposed && (i as u64) <= 0xffff_ffff {
                let ok = match wish {
                    Wish::Write => self.regions[al.region].live && Allocation::find_blocker(
                        &al.tags,
                        i as u32,
                        true,
                    ).is_none(),
                    Wish::Read => self.regions[al.region].live && Allocation::find_blocker(
                        &al.tags,
                        i as u32,
                        false,
                    ).is_none(),
                    Wish::Any => true,
                };
                if ok {
                    return Some(i);
                }
            }
            i = i + 1;
        }
        None
    }

    fn find_resolved(&self, addr: u64, wish: Wish) -> (r: Option<(usize, usize)>)
        requires
            self@.wf(),
        ensures
            match r {
                Some((a, e)) => a < self.allocs@.len() && e < self.allocs@[a as int].tags.len() && e
                    <= u32::MAX && self@.holds_addr(a as int, addr) && self@.resolved_from(
                    0,
                    addr,
                    wish,
                ) == Some((a as int, e as int)),
                None => self@.resolved_from(0, addr, wish) is None,
            },
    {
        let mut a: usize = 0;
        while a < self.allocs.len()
            invariant
                a <= self.allocs.len(),
                self@.wf(),
                self@.resolved_from(0, addr, wish) == self@.resolved_from(a as int, addr, wish),
            decreases self.allocs.len() - a,
        {
            let base = base_of(a);
            assert(self@.allocs[a as int] == self.allocs@[a as int]@);
            if self.allocs[a].live && base <= addr && addr - base < self.allocs[a].size {
                if let Some(e) = self.find_serving(a, wish) {
                    return Some((a, e));
                }
            }
            a = a + 1;
        }
        None
    }

    fn push_tag(&mut self, a: usize, t: Tag)
        requires
            old(self)@.wf(),
            a < old(self)@.allocs.len(),
            t.parent matches Some(p) ==> p < old(self)@.allocs[a as int].tags.len(),
        ensures
            final(self)@.wf(),
            final(self)@ == old(self)@.with_tag(a as int, t),
    {
        let ghost was = self@;
        assert(was.allocs[a as int] == self.allocs@[a as int]@);
        self.allocs[a].tags.push(t);
        proof {
            assert(self.allocs@[a as int]@ =~= was.with_tag(a as int, t).allocs[a as int]);
            assert(self@.allocs =~= was.with_tag(a as int, t).allocs);
            assert(self@ =~= was.with_tag(a as int, t));
            assert forall|k: int| 0 <= k < self@.allocs.len() implies (#[trigger] self@.allocs[k]).wf()
                && self@.allocs[k].region < self@.regions.len() by {
                assert(was.allocs[k].wf());
                assert(was.allocs[k].region < was.regions.len());
            }
        }
    }

    /// Resolve an integer address among live allocations with an exposed
    /// tag; a defined execution is chosen if one exists.
    #[verifier::truncate]
    pub fn resolve_exposed(&mut self, addr: u64, span: Span) -> (r: PtrVal)
        requires
            old(self)@.wf(),
        ensures
            final(self)@.wf(),
            (final(self)@, r) == old(self)@.resolve(addr, span),
    {
        let found = match self.find_resolved(addr, Wish::Write) {
            Some(x) => Some(x),
            None => match self.find_resolved(addr, Wish::Read) {
                Some(x) => Some(x),
                None => self.find_resolved(addr, Wish::Any),
            },
        };
        match found {
            Some((a, e)) => {
                assert(self@.allocs[a as int] == self.allocs@[a as int]@);
                let child: u32 = self.allocs[a].tags.len() as u32;
                let state = if self.allocs[a].tags[e].state == TagState::Frozen {
                    TagState::Frozen
                } else {
                    TagState::Active
                };
                let t = Tag {
                    parent: Some(e as u32),
                    state,
                    protected: 0,
                    exposed: false,
                    origin: span,
                };
                let base = base_of(a);
                self.push_tag(a, t);
                PtrVal { alloc: Some(a), tag: child, offset: (addr - base) as i64, addr }
            },
            None => PtrVal { alloc: None, tag: 0, offset: 0, addr },
        }
    }

    /// Expose a pointer's tag.
    pub fn expose(&mut self, p: PtrVal)
        requires
            old(self)@.wf(),
        ensures
            final(self)@.wf(),
            final(self)@ == old(self)@.expose(p),
    {
        let ghost was = self@;
        if let Some(a) = self.target_of(p) {
            assert(was.allocs[a as int] == self.allocs@[a as int]@);
            let mut t = self.allocs[a].tags[p.tag as usize];
            t.exposed = true;
            self.allocs[a].tags.set(p.tag as usize, t);
            proof {
                assert(self.allocs@[a as int]@ =~= was.expose(p).allocs[a as int]);
                assert(self@.allocs =~= was.expose(p).allocs);
                assert(self@ =~= was.expose(p));
                assert forall|k: int| 0 <= k < self@.allocs.len() implies (
                #[trigger] self@.allocs[k]).wf() && self@.allocs[k].region < self@.regions.len() by {
                    assert(was.allocs[k].wf());
                    assert(was.allocs[k].region < was.regions.len());
                }
            }
        }
    }

    /// A child tag for a pointer passed on; a Frozen one is protected.
    #[verifier::truncate]
    pub fn retag(&mut self, p: PtrVal, state: TagState, span: Span) -> (r: PtrVal)
        requires
            old(self)@.wf(),
        ensures
            final(self)@.wf(),
            (final(self)@, r) == old(self)@.retag(p, state, span),
    {
        match self.target_of(p) {
            Some(a) => {
                assert(self@.allocs[a as int] == self.allocs@[a as int]@);
                let child: u32 = self.allocs[a].tags.len() as u32;
                let protected: u32 = if state == TagState::Frozen {
                    1
                } else {
                    0
                };
                self.push_tag(
                    a,
                    Tag { parent: Some(p.tag), state, protected, exposed: false, origin: span },
                );
                PtrVal { alloc: p.alloc, tag: child, offset: p.offset, addr: p.addr }
            },
            None => p,
        }
    }

    /// End a tag's protection.
    pub fn unprotect(&mut self, p: PtrVal)
        requires
            old(self)@.wf(),
        ensures
            final(self)@.wf(),
            final(self)@ == old(self)@.unprotected(p),
    {
        let ghost was = self@;
        if let Some(a) = self.target_of(p) {
            assert(was.allocs[a as int] == self.allocs@[a as int]@);
            let mut t = self.allocs[a].tags[p.tag as usize];
            t.protected = 0;
            self.allocs[a].tags.set(p.tag as usize, t);
            proof {
                assert(self.allocs@[a as int]@ =~= was.unprotected(p).allocs[a as int]);
                assert(self@.allocs =~= was.unprotected(p).allocs);
                assert(self@ =~= was.unprotected(p));
                assert forall|k: int| 0 <= k < self@.allocs.len() implies (
                #[trigger] self@.allocs[k]).wf() && self@.allocs[k].region < self@.regions.len() by {
                    assert(was.allocs[k].wf());
                    assert(was.allocs[k].region < was.regions.len());
                }
            }
        }
    }

    /// Does the pointer address the base of a live C allocation?
    pub fn freeable(&self, p: PtrVal) -> (r: bool)
        ensures
            r == self@.can_free(p),
    {
        match self.target_of(p) {
            Some(a) => {
                assert(self@.allocs[a as int] == self.allocs@[a as int]@);
                self.allocs[a].live && self.allocs[a].from_malloc && p.offset == 0
            },
            None => false,
        }
    }

    /// Release a C allocation: quarantined, never reused.
    pub fn c_free(&mut self, p: PtrVal)
        requires
            old(self)@.wf(),
        ensures
            final(self)@.wf(),
            final(self)@ == old(self)@.c_free(p),
    {
        let ghost was = self@;
        if let Some(a) = self.target_of(p) {
            assert(was.allocs[a as int] == self.allocs@[a as int]@);
            self.allocs[a].live = false;
            self.allocs[a].dead = Some(DeadReason::CFree);
            self.allocs[a].set_states(TagState::Disabled, false);
            proof {
                assert(self.allocs@[a as int]@ =~= was.c_free(p).allocs[a as int]);
                assert(self@.allocs =~= was.c_free(p).allocs);
                assert(self@ =~= was.c_free(p));
                assert forall|k: int| 0 <= k < self@.allocs.len() implies (
                #[trigger] self@.allocs[k]).wf() && self@.allocs[k].region < self@.regions.len() by {
                    assert(was.allocs[k].wf());
                    assert(was.allocs[k].region < was.regions.len());
                }
            }
        }
    }

    pub fn new_region(&mut self, span: Span) -> (r: usize)
        requires
            old(self)@.wf(),
        ensures
            final(self)@.wf(),
            final(self)@ == old(self)@.new_region(span),
            r == old(self)@.regions.len(),
    {
        let ghost was = self@;
        let id: usize = self.regions.len();
        self.regions.push(DynRegion { live: true, frozen: false, backing: None, span });
        proof {
            assert(self@ =~= was.new_region(span));
            assert forall|k: int| 0 <= k < self@.allocs.len() implies (#[trigger] self@.allocs[k]).wf()
                && self@.allocs[k].region < self@.regions.len() by {
                assert(was.allocs[k].wf());
                assert(was.allocs[k].region < was.regions.len());
            }
        }
        id
    }
}

/// A truncated index is no greater.
#[verifier::truncate]
// ------------------------------------------------------------------ laws --

/// Freed memory is never revived: once an allocation is dead, it stays
/// dead under every operation of the store.
pub proof fn law_dead_stays_dead(
    s: ShadowView,
    a: int,
    p: PtrVal,
    write: bool,
    data: Seq<u8>,
    r: int,
    addr: u64,
    state: TagState,
    span: Span,
)
    requires
        0 <= a < s.allocs.len(),
        !s.allocs[a].live,
    ensures
        !s.accessed(p, write).allocs[a].live,
        !s.written(p, data).allocs[a].live,
        !s.free_region(r).allocs[a].live,
        !s.freeze_region(r).allocs[a].live,
        !s.resolve(addr, span).0.allocs[a].live,
        !s.retag(p, state, span).0.allocs[a].live,
        !s.unprotected(p).allocs[a].live,
        !s.expose(p).allocs[a].live,
        !s.c_free(p).allocs[a].live,
{
    lemma_resolved_range(s, 0, addr, Wish::Write);
    lemma_resolved_range(s, 0, addr, Wish::Read);
    lemma_resolved_range(s, 0, addr, Wish::Any);
}

proof fn lemma_resolved_range(s: ShadowView, a: int, addr: u64, wish: Wish)
    requires
        0 <= a,
    ensures
        s.resolved_from(a, addr, wish) matches Some((k, e)) ==> a <= k < s.allocs.len()
            && s.holds_addr(k, addr) && 0 <= e < s.allocs[k].tags.len() && s.serves(k, e, wish),
    decreases s.allocs.len() - a,
{
    if a < s.allocs.len() {
        lemma_serving(s, a, wish, 0);
        lemma_resolved_range(s, a + 1, addr, wish);
    }
}

proof fn lemma_serving(s: ShadowView, a: int, wish: Wish, i: int)
    requires
        0 <= i,
    ensures
        s.serving(a, wish, i) matches Some(e) ==> i <= e < s.allocs[a].tags.len() && s.serves(
            a,
            e,
            wish,
        ),
        s.serving(a, wish, i) is None ==> forall|k: int|
            i <= k < s.allocs[a].tags.len() ==> !#[trigger] s.serves(a, k, wish),
    decreases s.allocs[a].tags.len() - i,
{
    if i < s.allocs[a].tags.len() {
        lemma_serving(s, a, wish, i + 1);
    }
}

proof fn lemma_resolved_finds(s: ShadowView, a: int, addr: u64, wish: Wish, k: int, e: int)
    requires
        0 <= a <= k < s.allocs.len(),
        s.holds_addr(k, addr),
        0 <= e < s.allocs[k].tags.len(),
        s.serves(k, e, wish),
    ensures
        s.resolved_from(a, addr, wish) is Some,
    decreases k - a,
{
    lemma_serving(s, a, wish, 0);
    if a < k {
        lemma_resolved_finds(s, a + 1, addr, wish, k, e);
    }
}

proof fn lemma_blocker_pushed(tags: Seq<Tag>, t: int, x: Tag, write: bool)
    requires
        0 <= t < tags.len(),
    ensures
        blocker(tags.push(x), t, write) == blocker(tags, t, write),
    decreases t,
{
    match tags[t].parent {
        Some(p) => {
            if p < t {
                lemma_blocker_pushed(tags, p as int, x, write);
            }
        },
        None => {},
    }
}

proof fn lemma_blocker_read(tags: Seq<Tag>, t: int)
    requires
        blocker(tags, t, true) is None,
    ensures
        blocker(tags, t, false) is None,
    decreases t,
{
    if 0 <= t < tags.len() {
        match tags[t].parent {
            Some(p) => {
                if p < t {
                    lemma_blocker_read(tags, p as int);
                }
            },
            None => {},
        }
    }
}

/// A defined execution is chosen if one exists: where some exposed tag of a
/// live allocation at the address permits reads, a read of the byte there
/// through the resolved pointer is no fault, unless nothing was written to
/// the byte yet.
pub proof fn law_resolution_is_angelic(
    s: ShadowView,
    addr: u64,
    at: Span,
    k: int,
    e: int,
    span: Span,
    op: Seq<char>,
)
    requires
        s.wf(),
        0 <= k < s.allocs.len() <= usize::MAX,
        s.holds_addr(k, addr),
        0 <= e < s.allocs[k].tags.len(),
        s.serves(k, e, Wish::Read),
        forall|i: int|
            0 <= i < s.allocs.len() ==> (#[trigger] s.allocs[i]).tags.len() <= u32::MAX
                && s.allocs[i].size <= i64::MAX,
    ensures
        ({
            let (s1, p) = s.resolve(addr, at);
            s1.fault(p, 1, false, span, op) matches Some(f) ==> f.row == UbRow::L1
        }),
{
    lemma_resolved_finds(s, 0, addr, Wish::Read, k, e);
    lemma_resolved_range(s, 0, addr, Wish::Read);
    lemma_resolved_range(s, 0, addr, Wish::Write);
    let (a, t) = s.resolved(addr)->0;
    let tags = s.allocs[a].tags;
    let x = s.child_tag(a, t, at);
    if s.resolved_from(0, addr, Wish::Write) is Some {
        lemma_blocker_read(tags, t);
    }
    assert(blocker(tags, t, false) is None);
    lemma_blocker_pushed(tags, t, x, false);
    let all = tags.push(x);
    assert(all[tags.len() as int] == x);
    assert(blocker(all, tags.len() as int, false) == blocker(all, t, false));
    assert(s.allocs[a].region < s.regions.len());
    assert(s.allocs[a].size <= i64::MAX);
}

/// A pointer passed to be read is protected: while the tag is, a write
/// through the pointer it came from is reported.
pub proof fn law_read_argument_is_protected(
    s: ShadowView,
    p: PtrVal,
    len: nat,
    at: Span,
    span: Span,
    op: Seq<char>,
)
    requires
        s.wf(),
        s.target(p) is Some,
        s.allocs[s.target(p)->0].tags.len() <= u32::MAX,
        s.fault(p, len, true, span, op) is None,
    ensures
        s.retag(p, TagState::Frozen, at).0.fault(p, len, true, span, op) matches Some(f) && f.row
            == UbRow::P1,
{
    let a = s.target(p)->0;
    let tags = s.allocs[a].tags;
    let x = Tag {
        parent: Some(p.tag),
        state: TagState::Frozen,
        protected: 1,
        exposed: false,
        origin: at,
    };
    let all = tags.push(x);
    lemma_blocker_pushed(tags, p.tag as int, x, true);
    lemma_path_below(all, p.tag as int, tags.len() as int);
    assert(all[tags.len() as int] == x);
    assert(guarded(all, p.tag as int, tags.len() as int));
    lemma_guard_found(all, p.tag as int, 0, tags.len() as int);
}

proof fn lemma_path_below(tags: Seq<Tag>, t: int, anc: int)
    requires
        t < anc,
    ensures
        !on_path(tags, t, anc),
    decreases t,
{
    if 0 <= t < tags.len() {
        match tags[t].parent {
            Some(p) => {
                if p < t {
                    lemma_path_below(tags, p as int, anc);
                }
            },
            None => {},
        }
    }
}

proof fn lemma_guard_found(tags: Seq<Tag>, t: int, v: int, k: int)
    requires
        0 <= v <= k < tags.len(),
        guarded(tags, t, k),
    ensures
        guard_from(tags, t, v) is Some,
    decreases k - v,
{
    if v < k {
        lemma_guard_found(tags, t, v + 1, k);
    }
}

/// Every access into a freed region is reported, whatever the pointer:
/// in bounds it is the freed-region row.
pub proof fn law_freed_region_is_reported(
    s: ShadowView,
    r: int,
    p: PtrVal,
    len: nat,
    write: bool,
    span: Span,
    op: Seq<char>,
)
    requires
        s.wf(),
        0 <= r < s.regions.len(),
        s.target(p) matches Some(a) && s.allocs[a].region == r,
    ensures
        s.free_region(r).fault(p, len, write, span, op) is Some,
        s.free_region(r).in_bounds(s.target(p)->0, p, len) ==> (s.free_region(r).fault(
            p,
            len,
            write,
            span,
            op,
        )->0).row == UbRow::P4,
{
    let f = s.free_region(r);
    let a = s.target(p)->0;
    assert(f.allocs[a].tags.len() == s.allocs[a].tags.len());
    assert(f.target(p) == Some(a));
}

/// A frozen region's live memory is never written again: a write through
/// any of its tags is refused.
pub proof fn law_frozen_is_never_written(
    s: ShadowView,
    r: int,
    p: PtrVal,
    len: nat,
    span: Span,
    op: Seq<char>,
)
    requires
        s.wf(),
        0 <= r < s.regions.len(),
        s.target(p) matches Some(a) && s.allocs[a].region == r && s.allocs[a].live,
    ensures
        s.freeze_region(r).fault(p, len, true, span, op) is Some,
{
    let f = s.freeze_region(r);
    let a = s.target(p)->0;
    assert(f.allocs[a].tags.len() == s.allocs[a].tags.len());
    assert(f.target(p) == Some(a));
    let t = f.allocs[a].tags[p.tag as int];
    assert(t.state is Frozen || t.state is Disabled);
    assert(blocker(f.allocs[a].tags, p.tag as int, true) == Some(p.tag as int));
}

/// A freed C allocation is never accessed again.
pub proof fn law_freed_block_is_reported(
    s: ShadowView,
    p: PtrVal,
    q: PtrVal,
    len: nat,
    write: bool,
    span: Span,
    op: Seq<char>,
)
    requires
        s.wf(),
        s.can_free(p),
        s.target(q) == s.target(p),
    ensures
        s.c_free(p).fault(q, len, write, span, op) is Some,
        !s.c_free(p).can_free(q),
{
    let f = s.c_free(p);
    let a = s.target(p)->0;
    assert(f.allocs[a].tags.len() == s.allocs[a].tags.len());
    assert(f.target(q) == Some(a));
    assert(f.allocs[a].tags[q.tag as int].state is Disabled);
    assert(blocker(f.allocs[a].tags, q.tag as int, write) == Some(q.tag as int));
}

/// A read gives back what was written: the bytes a permitted write put
/// through a pointer are the bytes the pointer addresses.
pub proof fn law_read_back(s: ShadowView, p: PtrVal, data: Seq<u8>, span: Span, op: Seq<char>)
    requires
        s.wf(),
        s.fault(p, data.len(), true, span, op) is None,
    ensures
        s.accessed(p, true).written(p, data).bytes_at(p, data.len()) =~= data,
{
    let a = s.target(p)->0;
    let w = s.accessed(p, true).written(p, data);
    assert(s.allocs[a].wf());
    assert(w.target(p) == Some(a));
    assert(w.allocs[a].bytes == splice(s.allocs[a].bytes, p.offset as int, data));
}

/// The memory a region exposes to an access through one pointer is not
/// touched by the access: other allocations keep their tags and bytes.
pub proof fn law_access_is_local(s: ShadowView, p: PtrVal, write: bool, data: Seq<u8>, b: int)
    requires
        0 <= b < s.allocs.len(),
        s.target(p) != Some(b),
    ensures
        s.accessed(p, write).allocs[b] == s.allocs[b],
        s.accessed(p, write).written(p, data).allocs[b] == s.allocs[b],
{
}

/// A permitted write makes its own tag usable for writing again: two
/// writes in a row through one pointer never disagree.
pub proof fn law_write_keeps_own_path(tags: Seq<Tag>, t: int)
    requires
        0 <= t < tags.len(),
        forall|i: int|
            0 <= i < tags.len() ==> ((#[trigger] tags[i]).parent matches Some(p) ==> p < i),
        blocker(tags, t, true) is None,
    ensures
        blocker(tags_after(tags, t, true), t, true) is None,
{
    lemma_path_unblocked(tags, t, t);
}

proof fn lemma_path_unblocked(tags: Seq<Tag>, t: int, c: int)
    requires
        0 <= t < tags.len(),
        0 <= c < tags.len(),
        forall|i: int|
            0 <= i < tags.len() ==> ((#[trigger] tags[i]).parent matches Some(p) ==> p < i),
        on_path(tags, t, c),
        blocker(tags, c, true) is None,
    ensures
        blocker(tags_after(tags, t, true), c, true) is None,
    decreases c,
{
    let next = tags_after(tags, t, true);
    assert(next[c] == tag_after(tags, t, true, c));
    if let Some(p) = tags[c].parent {
        lemma_path_step(tags, t, c, p as int);
        lemma_path_unblocked(tags, t, p as int);
    }
}

/// The parent of a tag on a path stands on the path.
proof fn lemma_path_step(tags: Seq<Tag>, t: int, c: int, p: int)
    requires
        0 <= t < tags.len(),
        0 <= c < tags.len(),
        tags[c].parent == Some(p as u32),
        0 <= p < c,
        p <= u32::MAX,
        on_path(tags, t, c),
    ensures
        on_path(tags, t, p),
    decreases t,
{
    if t == c {
        assert(on_path(tags, p, p));
    } else {
        let q = tags[t].parent->0 as int;
        lemma_path_step(tags, q, c, p);
    }
}

/// A write through one tag ends every tag that is neither it nor one it
/// stems from; a read only takes their right to write. Tags it stems from
/// keep their rights, and one reserved for writing is in use from then on.
pub proof fn law_foreign_access(tags: Seq<Tag>, t: int, v: int)
    requires
        0 <= v < tags.len(),
    ensures
        ({
            let w = tags_after(tags, t, true)[v].state;
            let r = tags_after(tags, t, false)[v].state;
            &&& !on_path(tags, t, v) ==> w is Disabled
            &&& !on_path(tags, t, v) && tags[v].state is Active ==> r is Frozen
            &&& !on_path(tags, t, v) && !(tags[v].state is Active) ==> r == tags[v].state
            &&& on_path(tags, t, v) ==> r == tags[v].state
            &&& on_path(tags, t, v) && tags[v].state is Reserved ==> w is Active
            &&& on_path(tags, t, v) && !(tags[v].state is Reserved) ==> w == tags[v].state
        }),
{
}

/// After a write through one pointer, any access through another whose tag
/// the write ended is undefined: of two rivals, the one used last wins.
pub proof fn law_rival_is_reported(
    s: ShadowView,
    p: PtrVal,
    q: PtrVal,
    len: nat,
    write: bool,
    span: Span,
    op: Seq<char>,
)
    requires
        s.target(p) is Some,
        s.target(q) == s.target(p),
        s.in_bounds(s.target(p)->0, q, len),
        s.regions[s.allocs[s.target(p)->0].region as int].live,
        !on_path(s.allocs[s.target(p)->0].tags, p.tag as int, q.tag as int),
    ensures
        s.accessed(p, true).fault(q, len, write, span, op) matches Some(f) && f.row == UbRow::P1,
{
    let a = s.target(p)->0;
    let b = s.accessed(p, true);
    assert(b.allocs[a].tags[q.tag as int].state is Disabled);
    assert(b.target(q) == Some(a));
    assert(blocker(b.allocs[a].tags, q.tag as int, write) == Some(q.tag as int));
}

/// After a read through one pointer, a write through a rival that was in use
/// for writing is undefined; a read through it is not on that account.
pub proof fn law_read_takes_the_rivals_write(
    s: ShadowView,
    p: PtrVal,
    q: PtrVal,
    len: nat,
    span: Span,
    op: Seq<char>,
)
    requires
        s.target(p) is Some,
        s.target(q) == s.target(p),
        s.in_bounds(s.target(p)->0, q, len),
        s.regions[s.allocs[s.target(p)->0].region as int].live,
        s.allocs[s.target(p)->0].tags[q.tag as int].state is Active,
        !on_path(s.allocs[s.target(p)->0].tags, p.tag as int, q.tag as int),
    ensures
        s.accessed(p, false).fault(q, len, true, span, op) matches Some(f) && f.row == UbRow::P2,
{
    let a = s.target(p)->0;
    let b = s.accessed(p, false);
    assert(b.allocs[a].tags[q.tag as int].state is Frozen);
    assert(b.target(q) == Some(a));
    assert(blocker(b.allocs[a].tags, q.tag as int, true) == Some(q.tag as int));
}

/// An access outside its allocation is undefined, whatever else holds; and
/// so is one through a pointer to none.
pub proof fn law_bounds_are_checked(
    s: ShadowView,
    p: PtrVal,
    len: nat,
    write: bool,
    span: Span,
    op: Seq<char>,
)
    ensures
        p.alloc is None ==> (s.fault(p, len, write, span, op) matches Some(f) && f.row
            == UbRow::L2),
        s.target(p) matches Some(a) ==> (p.offset < 0 || p.offset + len > s.allocs[a].size) ==> (
        s.fault(p, len, write, span, op) matches Some(f) && f.row == UbRow::P3),
{
}

/// A read of a byte that was never written is undefined; a write of it is
/// not on that account, and makes it readable.
pub proof fn law_uninitialized_is_not_read(
    s: ShadowView,
    p: PtrVal,
    len: nat,
    span: Span,
    op: Seq<char>,
    i: int,
)
    requires
        s.target(p) is Some,
        s.in_bounds(s.target(p)->0, p, len),
        p.offset <= i < p.offset + len,
        !s.allocs[s.target(p)->0].init[i],
    ensures
        s.fault(p, len, false, span, op) is Some,
{
}

/// What was written may be read back through the same pointer.
pub proof fn law_written_is_readable(
    s: ShadowView,
    p: PtrVal,
    data: Seq<u8>,
    span: Span,
    op: Seq<char>,
)
    requires
        s.wf(),
        s.fault(p, data.len(), true, span, op) is None,
    ensures
        s.accessed(p, true).written(p, data).fault(p, data.len(), false, span, op) is None,
{
    let a = s.target(p)->0;
    let tags = s.allocs[a].tags;
    let w = s.accessed(p, true).written(p, data);
    assert(s.allocs[a].wf());
    assert(w.target(p) == Some(a));
    law_write_keeps_own_path(tags, p.tag as int);
    lemma_blocked_less(w.allocs[a].tags, p.tag as int);
    assert forall|i: int| p.offset <= i < p.offset + data.len() implies #[trigger] w.allocs[a].init[i] by {
        assert(i - p.offset >= 0);
    }
}

proof fn lemma_blocked_less(tags: Seq<Tag>, t: int)
    requires
        blocker(tags, t, true) is None,
    ensures
        blocker(tags, t, false) is None,
    decreases t,
{
    if 0 <= t < tags.len() {
        if let Some(p) = tags[t].parent {
            if p < t {
                lemma_blocked_less(tags, p as int);
            }
        }
    }
}

} // verus!
