//! What the parts of the checker are made of: which types copy, which places
//! are apart, what a number spells, what a slot holds, which patterns fit
//! and what is printed.

use vstd::prelude::*;
use vstd::utf8::*;

use crate::arith::{kept, wrapping_op, IntOut};
use crate::ast::{BinOp, PatKind, Pattern};
use crate::builtin::{print_call, show_all};
use crate::cfg::{RegionId, SiteView};
use crate::diag::Span;
use crate::literal::{digit_of, digits_of, int_literal, radix_of, spelling};
use crate::machine::{field_value, State};
use crate::meaning::came_to;
use crate::place::{PlaceView, ProjView};
use crate::regions::{summary_of, RegionTableView};
use crate::semantics::{match_any, match_pattern, World};
use crate::text::{decimal, digit_char};
use crate::types::{copies, TyId, TyKind, TypeTable};
use crate::value::{shown, PStepView, SlotView, StopView, ValueView};

verus! {

// ------------------------------------------------------------------ types --

/// Scalars, ranges, functions, handles and raw pointers copy. What owns
/// memory moves: a shared or weak cell, a list, a pool, a tuple, an error, a
/// struct, an enum, a region. A distinct type does as the one it wraps.
pub proof fn law_what_copies(t: TypeTable, id: TyId, n: nat)
    ensures
        t.at(id) matches Some(TyKind::Prim(_)) ==> copies(t, id, n + 1),
        t.at(id) matches Some(TyKind::Unit) ==> copies(t, id, n + 1),
        t.at(id) matches Some(TyKind::Range(_)) ==> copies(t, id, n + 1),
        t.at(id) matches Some(TyKind::Fn(..)) ==> copies(t, id, n + 1),
        t.at(id) matches Some(TyKind::Handle(_)) ==> copies(t, id, n + 1),
        t.at(id) matches Some(TyKind::Ptr(_)) ==> copies(t, id, n + 1),
        t.at(id) matches Some(TyKind::Wrapping(_)) ==> copies(t, id, n + 1),
        t.at(id) matches Some(TyKind::Shared(_)) ==> !copies(t, id, n),
        t.at(id) matches Some(TyKind::Weak(_)) ==> !copies(t, id, n),
        t.at(id) matches Some(TyKind::List(_)) ==> !copies(t, id, n),
        t.at(id) matches Some(TyKind::Pool(_)) ==> !copies(t, id, n),
        t.at(id) matches Some(TyKind::Tuple(_)) ==> !copies(t, id, n),
        t.at(id) matches Some(TyKind::ErrUnion(..)) ==> !copies(t, id, n),
        t.at(id) matches Some(TyKind::Row { .. }) ==> !copies(t, id, n),
        t.at(id) matches Some(TyKind::Nominal { .. }) ==> !copies(t, id, n),
        t.at(id) matches Some(TyKind::RegionTy) ==> !copies(t, id, n),
        t.at(id) matches Some(TyKind::Dyn) ==> !copies(t, id, n),
        t.at(id) matches Some(TyKind::Distinct(x)) ==> copies(t, id, n + 1) == copies(t, x, n),
        t.at(id) is None ==> !copies(t, id, n),
{
}

// ----------------------------------------------------------------- places --

/// Two places are apart iff they belong to different variables, or name
/// different fields at some step that both take.
pub proof fn law_apart(a: PlaceView, b: PlaceView)
    ensures
        !a.overlaps(b) <==> a.base != b.base || exists|i: int|
            0 <= i < a.proj.len() && i < b.proj.len() && (#[trigger] a.proj[i] matches ProjView::Field(
                x,
            ) && (b.proj[i] matches ProjView::Field(y) && x != y)),
{
    if a.base == b.base && !a.overlaps(b) {
        let i = choose|i: int|
            0 <= i < a.proj.len() && i < b.proj.len() && !(#[trigger] a.proj[i]).matches(b.proj[i]);
        assert(a.proj[i] is Field && b.proj[i] is Field);
    }
    if a.overlaps(b) {
        assert forall|i: int|
            0 <= i < a.proj.len() && i < b.proj.len() implies !(#[trigger] a.proj[i] matches ProjView::Field(
            x,
        ) && (b.proj[i] matches ProjView::Field(y) && x != y)) by {
            assert(a.proj[i].matches(b.proj[i]));
        }
    }
}

/// A variable and everything inside it overlap; its own fields do not.
pub proof fn law_fields_are_apart(a: PlaceView, x: Seq<char>, y: Seq<char>)
    ensures
        a.overlaps(a.step(ProjView::Field(x))),
        a.step(ProjView::Opaque).overlaps(a.step(ProjView::Field(x))),
        x != y ==> !a.step(ProjView::Field(x)).overlaps(a.step(ProjView::Field(y))),
{
    let p = a.step(ProjView::Field(x));
    let q = a.step(ProjView::Field(y));
    let n = a.proj.len() as int;
    assert forall|i: int| 0 <= i < a.proj.len() implies (#[trigger] a.proj[i]).matches(p.proj[i]) by {}
    if x != y {
        assert(!p.proj[n].matches(q.proj[n]));
    }
}

// ---------------------------------------------------------------- numbers --

/// A number written out in decimal is read as itself.
pub proof fn law_decimal_reads_back(n: nat)
    requires
        n <= i64::MAX,
    ensures
        int_literal(decimal(n)) == Some(n as int),
{
    let text = decimal(n);
    let s = spelling(text, text.len());
    lemma_decimal(n);
    assert(radix_of(s) is None) by {
        if s.len() >= 2 {
            assert(48 <= s[1] <= 57);
        }
    }
    assert(48 <= s[0] <= 57);
    assert(digits_of(s, 10, s.len()) == Some(n));
}

proof fn lemma_decimal(n: nat)
    ensures
        ({
            let text = decimal(n);
            let s = spelling(text, text.len());
            &&& text.len() > 0
            &&& s.len() == text.len()
            &&& forall|i: int| 0 <= i < s.len() ==> 48 <= #[trigger] s[i] <= 57
            &&& digits_of(s, 10, s.len()) == Some(n)
        }),
    decreases n,
{
    let text = decimal(n);
    let s = spelling(text, text.len());
    let d = n % 10;
    let c = digit_char(d);
    assert(c as u32 == 48 + d);
    assert(c != '_');
    if n < 10 {
        assert(text =~= seq![c]);
        reveal_with_fuel(spelling, 2);
        reveal_with_fuel(digits_of, 2);
        assert(s =~= seq![c as u32]);
    } else {
        let rest = decimal(n / 10);
        lemma_decimal(n / 10);
        let r = spelling(rest, rest.len());
        assert(text.drop_last() =~= rest);
        lemma_spelling_prefix(text, rest, rest.len());
        assert(s =~= r.push(c as u32));
        lemma_digits_prefix(s, r, 10, r.len());
    }
}

proof fn lemma_spelling_prefix(a: Seq<char>, b: Seq<char>, n: nat)
    requires
        n <= b.len() <= a.len(),
        forall|i: int| 0 <= i < n ==> a[i] == b[i],
    ensures
        spelling(a, n) == spelling(b, n),
    decreases n,
{
    if n > 0 {
        lemma_spelling_prefix(a, b, (n - 1) as nat);
    }
}

proof fn lemma_digits_prefix(a: Seq<u32>, b: Seq<u32>, radix: nat, n: nat)
    requires
        n <= b.len() <= a.len(),
        forall|i: int| 0 <= i < n ==> a[i] == b[i],
    ensures
        digits_of(a, radix, n) == digits_of(b, radix, n),
    decreases n,
{
    if n > 0 {
        lemma_digits_prefix(a, b, radix, (n - 1) as nat);
    }
}

/// The digits of every radix are the ten figures and, beyond them, the
/// letters from `a` on, in either case; none stands for as much as the
/// radix.
pub proof fn law_digits(v: nat, radix: nat)
    requires
        v < 16,
    ensures
        v < 10 && v < radix ==> digit_of((48 + v) as u32, radix) == Some(v),
        10 <= v < radix ==> digit_of((97 + v - 10) as u32, radix) == Some(v) && digit_of(
            (65 + v - 10) as u32,
            radix,
        ) == Some(v),
        v < 10 && v >= radix ==> digit_of((48 + v) as u32, radix) is None,
{
}

/// Wrapping arithmetic that fits its width is exact.
pub proof fn law_wrapping_is_exact(a: i64, b: i64, bits: u32, unsigned: bool)
    requires
        0 < bits < 63,
    ensures
        0 <= a + b < 1u64 << bits ==> (wrapping_op(BinOp::Plus, a, b, bits, unsigned)
            matches IntOut::Gives(n) && n == a + b),
        0 <= a - b < 1u64 << bits ==> (wrapping_op(BinOp::Minus, a, b, bits, unsigned)
            matches IntOut::Gives(n) && n == a - b),
        0 <= a * b < 1u64 << bits ==> (wrapping_op(BinOp::Star, a, b, bits, unsigned)
            matches IntOut::Gives(n) && n == a * b),
        b == 0 ==> wrapping_op(BinOp::Slash, a, b, bits, unsigned) is DivZero && wrapping_op(
            BinOp::Percent,
            a,
            b,
            bits,
            unsigned,
        ) is DivZero,
{
    lemma_kept((a + b) as u64, bits);
    lemma_kept((a - b) as u64, bits);
    lemma_kept((a * b) as u64, bits);
}

proof fn lemma_kept(x: u64, bits: u32)
    requires
        0 < bits < 63,
    ensures
        x < 1u64 << bits ==> kept(x, bits) == x,
        (1u64 << bits) <= 0x4000_0000_0000_0000u64,
{
    assert((1u64 << bits) >= 1 && (1u64 << bits) <= 0x4000_0000_0000_0000u64) by (bit_vector)
        requires
            0 < bits < 63,
    ;
    let m = ((1u64 << bits) - 1) as u64;
    if x < 1u64 << bits {
        assert(x & m == x) by (bit_vector)
            requires
                0 < bits < 63,
                x < 1u64 << bits,
                m == (1u64 << bits) - 1,
        ;
    }
}

// ------------------------------------------------------------------ slots --

/// Taking a whole local whose value does not copy empties it; one that
/// copies stays. Either way the value is given.
pub proof fn law_taking_empties<'t>(m: State<'t>, s: SlotView, at: Span, v: ValueView)
    requires
        m.has_local(s.frame, s.local),
        s.path.len() == 0,
        m.frames[s.frame as int].locals[s.local as int] == v,
        !(v is Ref),
    ensures
        m.take_slot(s, at).1 == Ok::<ValueView, StopView>(v),
        v is Struct || v is List || v is Region || v is Shared || v is Pool ==> m.take_slot(
            s,
            at,
        ).0.frames[s.frame as int].locals[s.local as int] == ValueView::Moved,
        v is Int || v is Bool || v is Char || v is Str || v is Handle || v is Ptr ==> m.take_slot(
            s,
            at,
        ).0 == m,
{
}

/// A field that is written is read back, and the other fields stay.
pub proof fn law_field_read_back<'t>(
    m: State<'t>,
    s: SlotView,
    fs: Seq<(Seq<char>, ValueView)>,
    k: int,
    v: ValueView,
    at: Span,
)
    requires
        m.has_local(s.frame, s.local),
        m.frames[s.frame as int].locals[s.local as int] == ValueView::Struct(fs),
        0 <= k < fs.len(),
        forall|i: int| 0 <= i < k ==> (#[trigger] fs[i]).0 != fs[k].0,
        s.path == seq![PStepView::Field(fs[k].0)],
    ensures
        ({
            let (w, r) = m.write_slot(s, v, at);
            let now = w.frames[s.frame as int].locals[s.local as int];
            &&& m.read_slot(s, at) == Ok::<ValueView, StopView>(fs[k].1)
            &&& r is Ok
            &&& w.read_slot(s, at) == Ok::<ValueView, StopView>(v)
            &&& now matches ValueView::Struct(gs) && gs.len() == fs.len() && forall|i: int|
                0 <= i < fs.len() && i != k ==> #[trigger] gs[i] == fs[i]
        }),
{
    lemma_field(fs, fs[k].0, 0, k);
    let gs = fs.update(k, (fs[k].0, v));
    lemma_field(gs, fs[k].0, 0, k);
    reveal_with_fuel(State::walk_read, 2);
    reveal_with_fuel(State::patched, 2);
    let w = m.write_slot(s, v, at).0;
    assert(w.frames[s.frame as int].locals[s.local as int] == ValueView::Struct(gs));
}

proof fn lemma_field(fs: Seq<(Seq<char>, ValueView)>, name: Seq<char>, i: int, k: int)
    requires
        0 <= i <= k < fs.len(),
        fs[k].0 == name,
        forall|j: int| i <= j < k ==> (#[trigger] fs[j]).0 != name,
    ensures
        field_value(fs, name, i) == Some(k),
    decreases k - i,
{
    if i < k {
        assert(fs[i].0 != name);
        lemma_field(fs, name, i + 1, k);
    }
}

/// An element of a list is read at its position, counted from zero; a
/// position outside the list traps.
pub proof fn law_elements_are_in_bounds<'t>(
    m: State<'t>,
    id: usize,
    index: i64,
    isp: Span,
    at: Span,
)
    requires
        id < m.lists.len(),
    ensures
        ({
            let l = m.lists[id as int];
            let r = m.walk_read(
                ValueView::List(id),
                seq![PStepView::ListIdx { index, span: isp }],
                0,
                at,
            );
            &&& 0 <= index < l.len() ==> r == Ok::<ValueView, StopView>(l[index as int])
            &&& !(0 <= index < l.len()) ==> (r matches Err(StopView::Trap(t)) && t.kind
                == "bounds"@)
        }),
{
    reveal_with_fuel(State::walk_read, 2);
}

// --------------------------------------------------------------- patterns --

/// A wildcard fits anything, an alternative fits iff one of its patterns
/// does, and a number fits itself.
pub proof fn law_patterns_fit(p: Pattern, v: ValueView, domain: Option<Seq<Seq<char>>>, n: nat)
    ensures
        p.kind is Wildcard ==> match_pattern(p, v, domain) is Yes,
        p.kind is Literal && p.text@ == decimal(n) && n <= i64::MAX ==> (v matches ValueView::Int(
            k,
        ) ==> (match_pattern(p, v, domain) is Yes <==> k == n) && (match_pattern(p, v, domain)
            is No <==> k != n)),
        p.kind matches PatKind::Or(ps) ==> (match_pattern(p, v, domain) is No ==> forall|i: int|
            0 <= i < ps@.len() ==> match_pattern(#[trigger] ps@[i], v, domain) is No),
        p.kind matches PatKind::Or(ps) ==> (match_pattern(p, v, domain) is Yes ==> exists|i: int|
            0 <= i < ps@.len() && !(match_pattern(#[trigger] ps@[i], v, domain) is No)),
{
    if n <= i64::MAX {
        law_decimal_reads_back(n);
    }
    if let PatKind::Or(ps) = p.kind {
        lemma_any(ps, 0, v, domain);
    }
}

proof fn lemma_any(ps: Vec<Pattern>, i: nat, v: ValueView, domain: Option<Seq<Seq<char>>>)
    ensures
        match_any(ps, i, v, domain) is No ==> forall|k: int|
            i <= k < ps@.len() ==> match_pattern(#[trigger] ps@[k], v, domain) is No,
        match_any(ps, i, v, domain) is Yes ==> exists|k: int|
            i <= k < ps@.len() && !(match_pattern(#[trigger] ps@[k], v, domain) is No),
    decreases ps@.len() - i,
{
    if i < ps@.len() {
        lemma_any(ps, i + 1, v, domain);
        if !(match_pattern(ps@[i as int], v, domain) is No) {
            assert(!(match_pattern(ps@[i as int], v, domain) is No));
        }
    }
}

// ---------------------------------------------------------------- regions --

/// An allocation may live on the stack iff it is a literal that never
/// leaves, in no region that has its own.
pub proof fn law_stacked_iff_it_stays(
    name: Seq<char>,
    t: RegionTableView,
    sites: Seq<SiteView>,
    escape: Seq<Option<Seq<char>>>,
    promoted: Seq<RegionId>,
    conflicted: bool,
    i: int,
)
    requires
        0 <= i < sites.len(),
    ensures
        ({
            let s = summary_of(name, t, sites, escape, promoted, conflicted);
            &&& s.sites.len() == sites.len()
            &&& s.sites[i].span == sites[i].span && s.sites[i].region == sites[i].region
                && s.sites[i].ty == sites[i].ty && s.sites[i].kind == sites[i].kind
            &&& s.sites[i].escape == escape[i]
            &&& s.sites[i].stacked <==> sites[i].kind is Lit && escape[i] is None && forall|k: int|
                0 <= k < promoted.len() ==> !t.same(#[trigger] promoted[k], sites[i].region)
            &&& s.promoted == promoted && s.conflicted == conflicted && s.name == name
                && s.regions == t.regions
        }),
{
}

// --------------------------------------------------------------- printing --

/// A number is shown in decimal, with a minus below zero, so that it is read
/// as itself again; a string is shown as it is.
pub proof fn law_values_are_shown(n: i64, b: bool, s: Seq<u8>)
    ensures
        n >= 0 ==> exists|t: Seq<char>|
            int_literal(t) == Some(n as int) && shown(ValueView::Int(n)) == #[trigger] encode_utf8(
                t,
            ),
        n < 0 ==> exists|t: Seq<char>|
            t == seq!['-'] + decimal((-n) as nat) && shown(ValueView::Int(n)) == #[trigger] encode_utf8(
                t,
            ),
        shown(ValueView::Bool(true)) == encode_utf8("true"@),
        shown(ValueView::Bool(false)) == encode_utf8("false"@),
        shown(ValueView::Str(s)) == s,
{
    if n >= 0 {
        law_decimal_reads_back(n as nat);
        assert(shown(ValueView::Int(n)) == encode_utf8(decimal(n as nat)));
    } else {
        let t = seq!['-'] + decimal((-n) as nat);
        assert(shown(ValueView::Int(n)) == encode_utf8(t));
    }
}

/// Printing puts the text behind what was printed, on the stream that the
/// name says, with a line end unless it is the raw form; the other stream
/// stays.
pub proof fn law_print_appends<'t>(
    w: World<'t>,
    m: State<'t>,
    s: Seq<u8>,
    args: Seq<ValueView>,
    at: Span,
)
    requires
        args == seq![ValueView::Str(s)],
    ensures
        came_to(
            print_call(w, m, "print"@, args, at),
            State { stdout: m.stdout + s.push(10u8), ..m },
            ValueView::Unit,
        ),
        came_to(
            print_call(w, m, "print_raw"@, args, at),
            State { stdout: m.stdout + s, ..m },
            ValueView::Unit,
        ),
        came_to(
            print_call(w, m, "eprint"@, args, at),
            State { stderr: m.stderr + s.push(10u8), ..m },
            ValueView::Unit,
        ),
        came_to(
            print_call(w, m, "eprint_raw"@, args, at),
            State { stderr: m.stderr + s, ..m },
            ValueView::Unit,
        ),
{
    reveal_with_fuel(show_all, 2);
    reveal_strlit("print");
    reveal_strlit("print_raw");
    reveal_strlit("eprint");
    reveal_strlit("eprint_raw");
    assert("print"@.len() == 5);
    assert("print_raw"@.len() == 9);
    assert("eprint"@.len() == 6);
    assert("eprint_raw"@.len() == 10);
    assert(Seq::<u8>::empty() + s =~= s);
}

} // verus!
