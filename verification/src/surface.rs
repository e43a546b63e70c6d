//! What the built-in methods mean: of strings, lists, cells and pointers,
//! stated over what they are given and what they give.

use vstd::prelude::*;
use vstd::utf8::*;

use crate::diag::Span;
use crate::literal::found_at;
use crate::machine::State;
use crate::meaning::came_to;
use crate::methods::{
    cell_method, list_get, list_method, list_pushed, pointer_method, pool_method, str_method,
    strs_of,
};
use crate::semantics::Ev;
use crate::shadow::PtrVal;
use crate::strs::{
    count_from, find_from, pieces, repeated, replaced, rfind_to, trimmed, word_end, words_from,
};
use crate::text::{space, space_end, space_start};
use crate::value::{FlowView, StopView, ValueView};

verus! {

/// The bytes stand at that position of the others.
pub open spec fn lies_at(s: Seq<u8>, n: Seq<u8>, i: int) -> bool {
    &&& 0 <= i && i + n.len() <= s.len()
    &&& forall|k: int| 0 <= k < n.len() ==> #[trigger] n[k] == s[i + k]
}

/// The method raised the row tag, in that state.
pub open spec fn missed<'t>(r: Ev<'t>, m: State<'t>, tag: Seq<char>) -> bool {
    r.0 == m && (r.1 matches Ok(FlowView::Raise(ValueView::ErrTag { tag: t, .. }, _)) && t == tag)
}

proof fn lemma_lies(s: Seq<u8>, n: Seq<u8>, i: int)
    ensures
        found_at(s, n, i) == lies_at(s, n, i),
{
    if found_at(s, n, i) {
        assert forall|k: int| 0 <= k < n.len() implies #[trigger] n[k] == s[i + k] by {
            assert(s.subrange(i, i + n.len())[k] == s[i + k]);
        }
    }
    if lies_at(s, n, i) {
        assert(s.subrange(i, i + n.len()) =~= n);
    }
}

proof fn lemma_finds(s: Seq<u8>, n: Seq<u8>, i: int)
    requires
        0 <= i,
    ensures
        find_from(s, n, i) matches Some(k) ==> i <= k && lies_at(s, n, k) && forall|j: int|
            i <= j < k ==> !#[trigger] lies_at(s, n, j),
        find_from(s, n, i) is None ==> forall|j: int| i <= j ==> !#[trigger] lies_at(s, n, j),
    decreases s.len() - i,
{
    lemma_lies(s, n, i);
    if i < s.len() && !found_at(s, n, i) {
        lemma_finds(s, n, i + 1);
    }
    if find_from(s, n, i) is None {
        assert forall|j: int| i <= j implies !#[trigger] lies_at(s, n, j) by {
            lemma_lies(s, n, j);
        }
    }
}

proof fn lemma_finds_last(s: Seq<u8>, n: Seq<u8>, i: int)
    ensures
        rfind_to(s, n, i) matches Some(k) ==> k <= i && lies_at(s, n, k) && forall|j: int|
            k < j <= i ==> !#[trigger] lies_at(s, n, j),
        rfind_to(s, n, i) is None ==> forall|j: int| j <= i ==> !#[trigger] lies_at(s, n, j),
    decreases i + 1,
{
    lemma_lies(s, n, i);
    if i >= 0 && !found_at(s, n, i) {
        lemma_finds_last(s, n, i - 1);
    }
}

proof fn lemma_needle_names()
    ensures
        "starts_with"@ != "ends_with"@,
        "contains"@ != "starts_with"@ && "contains"@ != "ends_with"@,
        "find"@ != "starts_with"@ && "find"@ != "ends_with"@ && "find"@ != "contains"@,
        "rfind"@ != "starts_with"@ && "rfind"@ != "ends_with"@ && "rfind"@ != "contains"@
            && "rfind"@ != "find"@,
        "count"@ != "starts_with"@ && "count"@ != "ends_with"@ && "count"@ != "contains"@
            && "count"@ != "find"@ && "count"@ != "rfind"@,
        "split"@ != "starts_with"@ && "split"@ != "ends_with"@ && "split"@ != "contains"@
            && "split"@ != "find"@ && "split"@ != "rfind"@ && "split"@ != "count"@,
        "strip_prefix"@ != "starts_with"@ && "strip_prefix"@ != "ends_with"@ && "strip_prefix"@
            != "contains"@ && "strip_prefix"@ != "find"@ && "strip_prefix"@ != "rfind"@
            && "strip_prefix"@ != "count"@ && "strip_prefix"@ != "split"@,
        "strip_suffix"@ != "starts_with"@ && "strip_suffix"@ != "ends_with"@ && "strip_suffix"@
            != "contains"@ && "strip_suffix"@ != "find"@ && "strip_suffix"@ != "rfind"@
            && "strip_suffix"@ != "count"@ && "strip_suffix"@ != "split"@ && "strip_suffix"@
            != "strip_prefix"@,
        "replace"@ != "starts_with"@ && "replace"@ != "ends_with"@ && "replace"@ != "contains"@
            && "replace"@ != "find"@ && "replace"@ != "rfind"@ && "replace"@ != "count"@
            && "replace"@ != "split"@ && "replace"@ != "strip_prefix"@ && "replace"@
            != "strip_suffix"@,
{
    reveal_strlit("starts_with");
    reveal_strlit("ends_with");
    reveal_strlit("contains");
    reveal_strlit("find");
    reveal_strlit("rfind");
    reveal_strlit("count");
    reveal_strlit("split");
    reveal_strlit("strip_prefix");
    reveal_strlit("strip_suffix");
    reveal_strlit("replace");
    assert("starts_with"@.len() == 11);
    assert("ends_with"@.len() == 9);
    assert("contains"@.len() == 8);
    assert("find"@.len() == 4);
    assert("rfind"@.len() == 5);
    assert("count"@.len() == 5);
    assert("split"@.len() == 5);
    assert("strip_prefix"@.len() == 12);
    assert("strip_suffix"@.len() == 12);
    assert("replace"@.len() == 7);
    assert("rfind"@[0] == 'r' && "count"@[0] == 'c' && "split"@[0] == 's');
    assert("strip_prefix"@[6] == 'p' && "strip_suffix"@[6] == 's');
}

// ---------------------------------------------------------------- strings --

/// A string starts with another iff it begins with its bytes, ends with it
/// iff it ends with them, and contains it iff they stand anywhere in it.
pub proof fn law_text_is_searched<'t>(
    m: State<'t>,
    s: Seq<u8>,
    n: Seq<u8>,
    args: Seq<ValueView>,
    at: Span,
)
    requires
        args.len() > 0,
        args[0] == ValueView::Str(n),
    ensures
        came_to(
            str_method(m, "starts_with"@, s, args, at),
            m,
            ValueView::Bool(lies_at(s, n, 0)),
        ),
        came_to(
            str_method(m, "ends_with"@, s, args, at),
            m,
            ValueView::Bool(lies_at(s, n, s.len() - n.len())),
        ),
        came_to(
            str_method(m, "contains"@, s, args, at),
            m,
            ValueView::Bool(exists|i: int| #[trigger] lies_at(s, n, i)),
        ),
{
    reveal(str_method);
    lemma_needle_names();
    lemma_lies(s, n, 0);
    lemma_lies(s, n, s.len() - n.len());
    lemma_finds(s, n, 0);
    if find_from(s, n, 0) is None {
        assert forall|i: int| !#[trigger] lies_at(s, n, i) by {
            if i < 0 {
            }
        }
    }
}

/// `find` gives the first place where the other string stands, and `rfind`
/// the last; where it stands nowhere both raise `none`.
pub proof fn law_text_is_found<'t>(
    m: State<'t>,
    s: Seq<u8>,
    n: Seq<u8>,
    args: Seq<ValueView>,
    at: Span,
)
    requires
        args.len() > 0,
        args[0] == ValueView::Str(n),
        s.len() <= i64::MAX,
    ensures
        (exists|i: int| #[trigger] lies_at(s, n, i)) ==> exists|k: i64|
            lies_at(s, n, k as int) && (forall|j: int| #[trigger] lies_at(s, n, j) ==> k <= j)
                && #[trigger] came_to(str_method(m, "find"@, s, args, at), m, ValueView::Int(k)),
        (exists|i: int| #[trigger] lies_at(s, n, i)) ==> exists|k: i64|
            lies_at(s, n, k as int) && (forall|j: int| #[trigger] lies_at(s, n, j) ==> j <= k)
                && #[trigger] came_to(str_method(m, "rfind"@, s, args, at), m, ValueView::Int(k)),
        !(exists|i: int| #[trigger] lies_at(s, n, i)) ==> missed(
            str_method(m, "find"@, s, args, at),
            m,
            "none"@,
        ) && missed(str_method(m, "rfind"@, s, args, at), m, "none"@),
{
    reveal(str_method);
    lemma_needle_names();
    lemma_finds(s, n, 0);
    lemma_finds_last(s, n, s.len() as int);
    if exists|i: int| #[trigger] lies_at(s, n, i) {
        let i = choose|i: int| #[trigger] lies_at(s, n, i);
        let a = find_from(s, n, 0)->0;
        let z = rfind_to(s, n, s.len() as int)->0;
        assert(came_to(str_method(m, "find"@, s, args, at), m, ValueView::Int(a as i64)));
        assert(came_to(str_method(m, "rfind"@, s, args, at), m, ValueView::Int(z as i64)));
    }
}

/// The prefix and what is left without it make up the string again, and so
/// do what is left and the suffix; a string without it raises `none`.
pub proof fn law_text_is_stripped<'t>(
    m: State<'t>,
    s: Seq<u8>,
    n: Seq<u8>,
    args: Seq<ValueView>,
    at: Span,
)
    requires
        args.len() > 0,
        args[0] == ValueView::Str(n),
    ensures
        lies_at(s, n, 0) ==> exists|t: Seq<u8>|
            n + t == s && #[trigger] came_to(
                str_method(m, "strip_prefix"@, s, args, at),
                m,
                ValueView::Str(t),
            ),
        !lies_at(s, n, 0) ==> missed(str_method(m, "strip_prefix"@, s, args, at), m, "none"@),
        lies_at(s, n, s.len() - n.len()) ==> exists|t: Seq<u8>|
            t + n == s && #[trigger] came_to(
                str_method(m, "strip_suffix"@, s, args, at),
                m,
                ValueView::Str(t),
            ),
        !lies_at(s, n, s.len() - n.len()) ==> missed(
            str_method(m, "strip_suffix"@, s, args, at),
            m,
            "none"@,
        ),
{
    reveal(str_method);
    lemma_needle_names();
    lemma_lies(s, n, 0);
    lemma_lies(s, n, s.len() - n.len());
    if lies_at(s, n, 0) {
        let t = s.subrange(n.len() as int, s.len() as int);
        assert(n + t =~= s);
        assert(came_to(str_method(m, "strip_prefix"@, s, args, at), m, ValueView::Str(t)));
    }
    if lies_at(s, n, s.len() - n.len()) {
        let t = s.subrange(0, s.len() - n.len());
        assert(t + n =~= s);
        assert(came_to(str_method(m, "strip_suffix"@, s, args, at), m, ValueView::Str(t)));
    }
}

/// The pieces with the separator between neighbours.
pub open spec fn glued(parts: Seq<Seq<u8>>, sep: Seq<u8>) -> Seq<u8>
    decreases parts.len(),
{
    if parts.len() == 0 {
        Seq::empty()
    } else if parts.len() == 1 {
        parts[0]
    } else {
        parts[0] + sep + glued(parts.subrange(1, parts.len() as int), sep)
    }
}

/// Splitting a string and gluing its pieces with the separator gives it
/// back; there is one piece more than the separator has matches, and gluing
/// them with another text is replacing it.
pub proof fn law_split_and_glue(s: Seq<u8>, n: Seq<u8>, to: Seq<u8>)
    requires
        n.len() > 0,
    ensures
        glued(pieces(s, n, 0, 0), n) == s,
        pieces(s, n, 0, 0).len() == count_from(s, n, 0) + 1,
        glued(pieces(s, n, 0, 0), to) == replaced(s, n, to, 0),
{
    lemma_pieces(s, n, to, 0, 0);
    assert(s.subrange(0, s.len() as int) =~= s);
    assert(s.subrange(0, 0) + replaced(s, n, to, 0) =~= replaced(s, n, to, 0));
}

proof fn lemma_pieces(s: Seq<u8>, n: Seq<u8>, to: Seq<u8>, start: int, i: int)
    requires
        n.len() > 0,
        0 <= start <= i <= s.len(),
    ensures
        glued(pieces(s, n, start, i), n) == s.subrange(start, s.len() as int),
        pieces(s, n, start, i).len() == count_from(s, n, i) + 1,
        glued(pieces(s, n, start, i), to) == s.subrange(start, i) + replaced(s, n, to, i),
    decreases s.len() - i,
{
    if i >= s.len() {
        assert(s.subrange(start, i) + Seq::<u8>::empty() =~= s.subrange(start, s.len() as int));
    } else if found_at(s, n, i) {
        let j = i + n.len();
        lemma_pieces(s, n, to, j, j);
        let rest = pieces(s, n, j, j);
        let all = pieces(s, n, start, i);
        assert(all.subrange(1, all.len() as int) =~= rest);
        assert(all[0] == s.subrange(start, i));
        assert(s.subrange(start, i) + n + s.subrange(j, s.len() as int) =~= s.subrange(
            start,
            s.len() as int,
        )) by {
            assert(s.subrange(i, j) == n);
            assert(s.subrange(start, i) + s.subrange(i, j) + s.subrange(j, s.len() as int)
                =~= s.subrange(start, s.len() as int));
        }
        assert(s.subrange(j, j) + replaced(s, n, to, j) =~= replaced(s, n, to, j));
        assert(s.subrange(start, i) + to + replaced(s, n, to, j) =~= s.subrange(start, i) + (to
            + replaced(s, n, to, j)));
    } else {
        lemma_pieces(s, n, to, start, i + 1);
        assert(s.subrange(start, i + 1) + replaced(s, n, to, i + 1) =~= s.subrange(start, i) + (
        seq![s[i]] + replaced(s, n, to, i + 1)));
    }
}

/// `count`, `split` and `replace` are those of the text.
pub proof fn law_text_is_split<'t>(
    m: State<'t>,
    s: Seq<u8>,
    n: Seq<u8>,
    to: Seq<u8>,
    args: Seq<ValueView>,
    at: Span,
)
    requires
        args.len() > 1,
        args[0] == ValueView::Str(n),
        args[1] == ValueView::Str(to),
        n.len() > 0,
        s.len() < i64::MAX,
        m.lists.len() < usize::MAX,
    ensures
        exists|parts: Seq<Seq<u8>>, k: i64|
            #![trigger glued(parts, n), came_to(str_method(m, "count"@, s, args, at), m, ValueView::Int(k))]
            {
                &&& glued(parts, n) == s
                &&& parts.len() == k + 1
                &&& came_to(str_method(m, "count"@, s, args, at), m, ValueView::Int(k))
                &&& str_method(m, "split"@, s, args, at).1 matches Ok(FlowView::Val(
                    ValueView::List(id),
                )) ==> id < str_method(m, "split"@, s, args, at).0.lists.len() ==> {
                    let l = str_method(m, "split"@, s, args, at).0.lists[id as int];
                    l.len() == parts.len() && forall|i: int|
                        0 <= i < l.len() ==> #[trigger] l[i] == ValueView::Str(parts[i])
                }
                &&& str_method(m, "replace"@, s, args, at).1 matches Ok(FlowView::Val(v)) ==> v
                    == ValueView::Str(glued(parts, to))
            },
{
    reveal(str_method);
    lemma_needle_names();
    law_split_and_glue(s, n, to);
    lemma_count(s, n, 0);
    let parts = pieces(s, n, 0, 0);
    let k = count_from(s, n, 0) as i64;
    assert(k == count_from(s, n, 0));
    assert(came_to(str_method(m, "count"@, s, args, at), m, ValueView::Int(k)));
    let l = strs_of(parts);
    assert forall|i: int| 0 <= i < l.len() implies #[trigger] l[i] == ValueView::Str(parts[i]) by {}
    assert(glued(parts, n) == s);
}

proof fn lemma_count(s: Seq<u8>, n: Seq<u8>, i: int)
    requires
        0 <= i,
    ensures
        i <= s.len() ==> count_from(s, n, i) <= s.len() - i,
        i > s.len() ==> count_from(s, n, i) == 0,
    decreases s.len() - i,
{
    if i < s.len() && n.len() > 0 {
        if found_at(s, n, i) {
            lemma_count(s, n, i + n.len());
        } else {
            lemma_count(s, n, i + 1);
        }
    }
}

/// Trimming takes the white space off the ends that it names, all of it and
/// nothing else.
pub proof fn law_trimming(s: Seq<char>, front: bool, back: bool)
    ensures
        exists|a: Seq<char>, z: Seq<char>|
            #![trigger a + trimmed(s, front, back) + z]
            {
                let t = trimmed(s, front, back);
                &&& a + t + z == s
                &&& forall|i: int| 0 <= i < a.len() ==> space(#[trigger] a[i])
                &&& forall|i: int| 0 <= i < z.len() ==> space(#[trigger] z[i])
                &&& !front ==> a.len() == 0 || t.len() == 0
                &&& !back ==> z.len() == 0 || t.len() == 0
                &&& front && t.len() > 0 ==> !space(t[0])
                &&& back && t.len() > 0 ==> !space(t.last())
            },
{
    lemma_space_end(s, 0);
    lemma_space_start(s, s.len() as int);
    let a0 = if front {
        space_end(s, 0)
    } else {
        0
    };
    let z0 = if back {
        space_start(s, s.len() as int)
    } else {
        s.len() as int
    };
    let t = trimmed(s, front, back);
    if a0 <= z0 {
        let a = s.subrange(0, a0);
        let z = s.subrange(z0, s.len() as int);
        assert(a + t + z =~= s);
        if t.len() > 0 {
            assert(t[0] == s[a0] && t.last() == s[z0 - 1]);
        }
    } else {
        // Both ends meet: there is nothing but white space.
        let a = s;
        let z = Seq::<char>::empty();
        assert(a + t + z =~= s);
        assert forall|i: int| 0 <= i < a.len() implies space(#[trigger] a[i]) by {
            if i < a0 {
                assert(space(s[i]));
            } else {
                assert(space(s[i]));
            }
        }
    }
}

proof fn lemma_space_end(s: Seq<char>, i: int)
    requires
        0 <= i <= s.len(),
    ensures
        i <= space_end(s, i) <= s.len(),
        forall|k: int| i <= k < space_end(s, i) ==> space(#[trigger] s[k]),
        space_end(s, i) < s.len() ==> !space(s[space_end(s, i)]),
    decreases s.len() - i,
{
    if i < s.len() && space(s[i]) {
        lemma_space_end(s, i + 1);
    }
}

proof fn lemma_space_start(s: Seq<char>, i: int)
    requires
        0 <= i <= s.len(),
    ensures
        0 <= space_start(s, i) <= i,
        forall|k: int| space_start(s, i) <= k < i ==> space(#[trigger] s[k]),
        space_start(s, i) > 0 ==> !space(s[space_start(s, i) - 1]),
    decreases i,
{
    if i > 0 && space(s[i - 1]) {
        lemma_space_start(s, i - 1);
    }
}

/// A string repeated is itself that many times over.
pub proof fn law_repeating(b: Seq<u8>, n: nat, i: int)
    ensures
        repeated(b, n).len() == n * b.len(),
        0 <= i < repeated(b, n).len() ==> repeated(b, n)[i] == b[i % (b.len() as int)],
    decreases n,
{
    assert(0 * b.len() == 0) by (nonlinear_arith);
    if n > 0 {
        law_repeating(b, (n - 1) as nat, i);
        let k = (n - 1) as nat;
        assert(n * b.len() == k * b.len() + b.len()) by (nonlinear_arith)
            requires
                n == k + 1,
        ;
        if k * b.len() <= i < n * b.len() {
            let l = b.len() as int;
            assert(i % l == i - k * l) by (nonlinear_arith)
                requires
                    k * l <= i < k * l + l,
                    l > 0,
            ;
        }
    }
}

/// A word is not empty and holds no white space; what stands between two
/// words is white space.
pub proof fn law_words_hold_no_space(s: Seq<char>, i: int, w: int)
    requires
        0 <= i <= s.len(),
        0 <= w < words_from(s, i).len(),
    ensures
        exists|a: int, z: int|
            #![trigger s.subrange(a, z)]
            i <= a < z <= s.len() && words_from(s, i)[w] == encode_utf8(s.subrange(a, z)) && (
            forall|k: int| a <= k < z ==> !space(#[trigger] s[k])) && (z < s.len() ==> space(s[z])),
    decreases s.len() - i,
{
    let a = space_end(s, i);
    lemma_space_end(s, i);
    lemma_word_end(s, a);
    let z = word_end(s, a);
    if a < z {
        if w == 0 {
            assert(words_from(s, i)[0] == encode_utf8(s.subrange(a, z)));
        } else {
            law_words_hold_no_space(s, z, w - 1);
            let rest = words_from(s, z);
            assert(words_from(s, i)[w] == rest[w - 1]);
            let (x, y) = choose|x: int, y: int|
                #![trigger s.subrange(x, y)]
                z <= x < y <= s.len() && rest[w - 1] == encode_utf8(s.subrange(x, y)) && (forall|
                    k: int,
                |
                    x <= k < y ==> !space(#[trigger] s[k])) && (y < s.len() ==> space(s[y]));
            assert(words_from(s, i)[w] == encode_utf8(s.subrange(x, y)));
        }
    }
}

proof fn lemma_word_end(s: Seq<char>, i: int)
    requires
        0 <= i <= s.len(),
    ensures
        i <= word_end(s, i) <= s.len(),
        forall|k: int| i <= k < word_end(s, i) ==> !space(#[trigger] s[k]),
        word_end(s, i) < s.len() ==> space(s[word_end(s, i)]),
    decreases s.len() - i,
{
    if i < s.len() && !space(s[i]) {
        lemma_word_end(s, i + 1);
    }
}

// ------------------------------------------------------------------ lists --

proof fn lemma_list_names()
    ensures
        "len"@ != "count"@,
        "is_empty"@ != "len"@ && "is_empty"@ != "count"@,
        "pop"@ != "len"@ && "pop"@ != "count"@ && "pop"@ != "is_empty"@,
        "first"@ != "len"@ && "first"@ != "count"@ && "first"@ != "is_empty"@ && "first"@
            != "pop"@,
        "last"@ != "len"@ && "last"@ != "count"@ && "last"@ != "is_empty"@ && "last"@ != "pop"@
            && "last"@ != "first"@,
        "clear"@ != "len"@ && "clear"@ != "count"@ && "clear"@ != "is_empty"@ && "clear"@
            != "pop"@ && "clear"@ != "first"@ && "clear"@ != "last"@,
{
    reveal_strlit("len");
    reveal_strlit("count");
    reveal_strlit("is_empty");
    reveal_strlit("pop");
    reveal_strlit("first");
    reveal_strlit("last");
    reveal_strlit("clear");
    assert("len"@.len() == 3);
    assert("count"@.len() == 5);
    assert("is_empty"@.len() == 8);
    assert("pop"@.len() == 3);
    assert("first"@.len() == 5);
    assert("last"@.len() == 4);
    assert("clear"@.len() == 5);
    assert("len"@[0] == 'l' && "pop"@[0] == 'p');
    assert("count"@[1] == 'o' && "first"@[1] == 'i' && "clear"@[1] == 'l');
}

/// A list knows its length; its ends are its first and its last element, and
/// `pop` takes the last off. Of an empty list each of these raises `none`.
pub proof fn law_lists<'t>(m: State<'t>, id: usize, at: Span)
    requires
        id < m.lists.len(),
        m.lists[id as int].len() <= i64::MAX,
    ensures
        ({
            let l = m.lists[id as int];
            &&& list_method(m, "len"@, id, at) matches (m1, Ok(FlowView::Val(ValueView::Int(n))))
                && m1 == m && n == l.len()
            &&& list_method(m, "count"@, id, at) == list_method(m, "len"@, id, at)
            &&& came_to(list_method(m, "is_empty"@, id, at), m, ValueView::Bool(l.len() == 0))
            &&& l.len() > 0 ==> came_to(list_method(m, "first"@, id, at), m, l[0])
            &&& l.len() > 0 ==> came_to(list_method(m, "last"@, id, at), m, l[l.len() - 1])
            &&& l.len() > 0 ==> {
                let r = list_method(m, "pop"@, id, at);
                &&& r.1 == Ok::<FlowView, StopView>(FlowView::Val(l[l.len() - 1]))
                &&& r.0.lists[id as int].push(l[l.len() - 1]) == l
                &&& r.0.lists.len() == m.lists.len()
                &&& forall|k: int|
                    0 <= k < m.lists.len() && k != id ==> #[trigger] r.0.lists[k] == m.lists[k]
            }
            &&& l.len() == 0 ==> missed(list_method(m, "pop"@, id, at), m, "none"@) && missed(
                list_method(m, "first"@, id, at),
                m,
                "none"@,
            ) && missed(list_method(m, "last"@, id, at), m, "none"@)
            &&& list_method(m, "clear"@, id, at).0.lists[id as int].len() == 0
        }),
{
    reveal(list_method);
    lemma_list_names();
    let l = m.lists[id as int];
    if l.len() > 0 {
        let r = list_method(m, "pop"@, id, at);
        assert(r.0.lists[id as int].push(l[l.len() - 1]) =~= l);
    }
}

/// `get` gives the element at that position, counted from zero, and raises
/// `none` where there is none; `push` puts an element behind the others.
pub proof fn law_list_elements<'t>(m: State<'t>, id: usize, n: i64, v: ValueView, at: Span)
    requires
        id < m.lists.len(),
    ensures
        ({
            let l = m.lists[id as int];
            &&& 0 <= n < l.len() ==> came_to(
                list_get(m, id, ValueView::Int(n), at),
                m,
                l[n as int],
            )
            &&& !(0 <= n < l.len()) ==> missed(list_get(m, id, ValueView::Int(n), at), m, "none"@)
            &&& list_pushed(m, id, v).lists[id as int].len() == l.len() + 1
            &&& list_pushed(m, id, v).lists[id as int].last() == v
            &&& list_pushed(m, id, v).lists[id as int].drop_last() == l
        }),
{
    reveal(list_get);
    assert(m.lists[id as int].push(v).drop_last() =~= m.lists[id as int]);
}

// ------------------------------------------------------------------ cells --

/// A clone is one owner more of the same cell, a downgrade one observer
/// more; an observer becomes an owner only while there is one, and raises
/// `gone` otherwise.
pub proof fn law_cells_count<'t>(m: State<'t>, c: usize, at: Span)
    requires
        c < m.cells.len(),
        m.cells[c as int].strong < u32::MAX,
        m.cells[c as int].weak < u32::MAX,
    ensures
        ({
            let was = m.cells[c as int];
            let r = cell_method(m, "clone"@, false, ValueView::Shared(c), at);
            let d = cell_method(m, "downgrade"@, false, ValueView::Shared(c), at);
            let u = cell_method(m, "upgrade"@, true, ValueView::Weak(c), at);
            &&& r.1 == Ok::<FlowView, StopView>(FlowView::Val(ValueView::Shared(c)))
            &&& r.0.cells[c as int].strong == was.strong + 1 && r.0.cells[c as int].weak
                == was.weak && r.0.cells[c as int].value == was.value
            &&& d.1 == Ok::<FlowView, StopView>(FlowView::Val(ValueView::Weak(c)))
            &&& d.0.cells[c as int].weak == was.weak + 1 && d.0.cells[c as int].strong
                == was.strong && d.0.cells[c as int].value == was.value
            &&& was.strong > 0 ==> u.1 == Ok::<FlowView, StopView>(
                FlowView::Val(ValueView::Shared(c)),
            ) && u.0.cells[c as int].strong == was.strong + 1
            &&& was.strong == 0 ==> missed(u, m, "gone"@)
        }),
{
    reveal(cell_method);
    reveal_strlit("clone");
    reveal_strlit("downgrade");
    reveal_strlit("upgrade");
    assert("clone"@.len() == 5);
    assert("downgrade"@.len() == 9);
    assert("upgrade"@.len() == 7);
}

// ------------------------------------------------------------------ pools --

/// The handle is alive iff its slot is, and of its generation.
pub proof fn law_alive<'t>(
    m: State<'t>,
    id: usize,
    index: usize,
    generation: i64,
    args: Seq<ValueView>,
    at: Span,
)
    requires
        id < m.pools.len(),
        args.len() > 0,
        args[0] == (ValueView::Handle { index, generation }),
    ensures
        came_to(
            pool_method(m, "alive"@, id, args, at),
            m,
            ValueView::Bool(
                index < m.pools[id as int].len() && m.pools[id as int][index as int].live
                    && m.pools[id as int][index as int].generation == generation,
            ),
        ),
{
    reveal(pool_method);
    reveal_strlit("reserve");
    reveal_strlit("init");
    reveal_strlit("remove");
    reveal_strlit("len");
    reveal_strlit("is_empty");
    reveal_strlit("alive");
    assert("reserve"@.len() == 7);
    assert("init"@.len() == 4);
    assert("remove"@.len() == 6);
    assert("len"@.len() == 3);
    assert("is_empty"@.len() == 8);
    assert("alive"@.len() == 5);
}

// --------------------------------------------------------------- pointers --

/// A pointer is null iff its address is zero, and its address is what it
/// says.
pub proof fn law_pointers<'t>(m: State<'t>, p: PtrVal, args: Seq<ValueView>, at: Span)
    ensures
        came_to(pointer_method(m, "is_null"@, p, args, at), m, ValueView::Bool(p.addr == 0)),
        p.addr <= i64::MAX ==> (pointer_method(m, "addr"@, p, args, at) matches (
            m1,
            Ok(FlowView::Val(ValueView::Int(n))),
        ) && m1 == m && n == p.addr),
{
    reveal(pointer_method);
    reveal_strlit("is_null");
    reveal_strlit("addr");
    assert("is_null"@.len() == 7);
    assert("addr"@.len() == 4);
}

} // verus!
