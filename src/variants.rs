//! The byte-wise order of subtags, and a sorted list of distinct variants.

use vstd::prelude::*;
use crate::subtags::Variant;

verus! {

/// `a` sorts before `b` byte by byte, comparing from position `i` on, a
/// proper prefix sorting first.
pub open spec fn lex_lt_from(a: Seq<u8>, b: Seq<u8>, i: int) -> bool
    decreases a.len() - i,
{
    if i >= a.len() {
        i < b.len()
    } else if i >= b.len() {
        false
    } else if a[i] < b[i] {
        true
    } else if a[i] > b[i] {
        false
    } else {
        lex_lt_from(a, b, i + 1)
    }
}

pub open spec fn lex_lt(a: Seq<u8>, b: Seq<u8>) -> bool {
    lex_lt_from(a, b, 0)
}

/// Every element sorts strictly before each later one.
pub open spec fn sorted_strict(vs: Seq<Seq<u8>>) -> bool {
    forall|i: int, j: int| 0 <= i < j < vs.len() ==> lex_lt(#[trigger] vs[i], #[trigger] vs[j])
}

pub open spec fn variant_views(vs: Seq<Variant>) -> Seq<Seq<u8>> {
    vs.map_values(|v: Variant| v@)
}

pub proof fn lemma_lex_irreflexive_from(a: Seq<u8>, i: int)
    requires
        0 <= i,
    ensures
        !lex_lt_from(a, a, i),
    decreases a.len() - i,
{
    if i < a.len() {
        lemma_lex_irreflexive_from(a, i + 1);
    }
}

pub proof fn lemma_lex_transitive_from(a: Seq<u8>, b: Seq<u8>, c: Seq<u8>, i: int)
    requires
        0 <= i,
        lex_lt_from(a, b, i),
        lex_lt_from(b, c, i),
    ensures
        lex_lt_from(a, c, i),
    decreases a.len() - i,
{
    if i < a.len() && i < b.len() && i < c.len() && a[i] == b[i] && b[i] == c[i] {
        lemma_lex_transitive_from(a, b, c, i + 1);
    }
}

pub proof fn lemma_lex_total_from(a: Seq<u8>, b: Seq<u8>, i: int)
    requires
        0 <= i <= a.len(),
        i <= b.len(),
        a.subrange(0, i) == b.subrange(0, i),
        a != b,
    ensures
        lex_lt_from(a, b, i) || lex_lt_from(b, a, i),
    decreases a.len() - i,
{
    if i == a.len() && i == b.len() {
        assert(a =~= a.subrange(0, i));
        assert(b =~= b.subrange(0, i));
    } else if i < a.len() && i < b.len() && a[i] == b[i] {
        assert(a.subrange(0, i + 1) =~= a.subrange(0, i).push(a[i]));
        assert(b.subrange(0, i + 1) =~= b.subrange(0, i).push(b[i]));
        lemma_lex_total_from(a, b, i + 1);
    }
}

pub proof fn lemma_lex_irreflexive(a: Seq<u8>)
    ensures
        !lex_lt(a, a),
{
    lemma_lex_irreflexive_from(a, 0);
}

pub proof fn lemma_lex_transitive(a: Seq<u8>, b: Seq<u8>, c: Seq<u8>)
    requires
        lex_lt(a, b),
        lex_lt(b, c),
    ensures
        lex_lt(a, c),
{
    lemma_lex_transitive_from(a, b, c, 0);
}

pub proof fn lemma_lex_total(a: Seq<u8>, b: Seq<u8>)
    requires
        a != b,
    ensures
        lex_lt(a, b) || lex_lt(b, a),
{
    assert(a.subrange(0, 0) =~= b.subrange(0, 0));
    lemma_lex_total_from(a, b, 0);
}

/// Compares two byte strings: negative, zero or positive as `a` sorts
/// before, equals or sorts after `b`.
pub fn compare_bytes(a: &[u8], b: &[u8]) -> (r: i8)
    ensures
        r < 0 <==> lex_lt(a@, b@),
        r == 0 <==> a@ == b@,
        r > 0 <==> lex_lt(b@, a@),
{
    let mut i: usize = 0;
    while i < a.len() && i < b.len() && a[i] == b[i]
        invariant
            i <= a@.len(),
            i <= b@.len(),
            a@.subrange(0, i as int) == b@.subrange(0, i as int),
            lex_lt(a@, b@) == lex_lt_from(a@, b@, i as int),
            lex_lt(b@, a@) == lex_lt_from(b@, a@, i as int),
        decreases a@.len() - i,
    {
        assert(a@.subrange(0, i + 1) =~= a@.subrange(0, i as int).push(a@[i as int]));
        assert(b@.subrange(0, i + 1) =~= b@.subrange(0, i as int).push(b@[i as int]));
        i = i + 1;
    }
    proof {
        lemma_lex_irreflexive(a@);
        if a@ != b@ {
            lemma_lex_total(a@, b@);
        }
    }
    if i == a.len() && i == b.len() {
        assert(a@ =~= a@.subrange(0, i as int));
        assert(b@ =~= b@.subrange(0, i as int));
        0
    } else if i == a.len() || (i < b.len() && a[i] < b[i]) {
        -1
    } else {
        1
    }
}

/// Where `v` stands in the sorted `vs`: `Ok` with its index if it is there,
/// else `Err` with the index at which inserting it keeps `vs` sorted.
pub fn search_variant(vs: &Vec<Variant>, v: &Variant) -> (r: Result<usize, usize>)
    requires
        sorted_strict(variant_views(vs@)),
    ensures
        r matches Ok(i) ==> i < vs@.len() && vs@[i as int]@ == v@,
        r matches Err(i) ==> i <= vs@.len() && (forall|j: int|
            0 <= j < i ==> lex_lt(#[trigger] vs@[j]@, v@)) && (forall|j: int|
            i <= j < vs@.len() ==> lex_lt(v@, #[trigger] vs@[j]@)),
{
    let mut lo: usize = 0;
    let mut hi: usize = vs.len();
    while lo < hi
        invariant
            lo <= hi <= vs@.len(),
            sorted_strict(variant_views(vs@)),
            forall|j: int| 0 <= j < lo ==> lex_lt(#[trigger] vs@[j]@, v@),
            forall|j: int| hi <= j < vs@.len() ==> lex_lt(v@, #[trigger] vs@[j]@),
        decreases hi - lo,
    {
        let mid = lo + (hi - lo) / 2;
        let c = compare_bytes(vs[mid].as_bytes(), v.as_bytes());
        if c == 0 {
            return Ok(mid);
        } else if c < 0 {
            assert forall|j: int| 0 <= j < mid + 1 implies lex_lt(#[trigger] vs@[j]@, v@) by {
                if j < mid {
                    assert(lex_lt(variant_views(vs@)[j], variant_views(vs@)[mid as int]));
                    lemma_lex_transitive(vs@[j]@, vs@[mid as int]@, v@);
                }
            }
            lo = mid + 1;
        } else {
            assert forall|j: int| mid <= j < vs@.len() implies lex_lt(v@, #[trigger] vs@[j]@) by {
                if j > mid {
                    assert(lex_lt(variant_views(vs@)[mid as int], variant_views(vs@)[j]));
                    lemma_lex_transitive(v@, vs@[mid as int]@, vs@[j]@);
                }
            }
            hi = mid;
        }
    }
    Err(lo)
}

/// Inserts `v` into the sorted `vs` unless it is there already; returns
/// whether it was inserted.
pub fn insert_variant(vs: &mut Vec<Variant>, v: Variant) -> (r: bool)
    requires
        sorted_strict(variant_views(old(vs)@)),
    ensures
        sorted_strict(variant_views(final(vs)@)),
        r == !variant_views(old(vs)@).contains(v@),
        variant_views(final(vs)@).to_set() == variant_views(old(vs)@).to_set().insert(v@),
{
    let ghost old_views = variant_views(vs@);
    match search_variant(vs, &v) {
        Ok(i) => {
            assert(old_views[i as int] == v@);
            assert(old_views.to_set().insert(v@) =~= old_views.to_set());
            false
        },
        Err(i) => {
            let ghost vv = v@;
            vs.insert(i, v);
            let ghost new_views = variant_views(vs@);
            assert(new_views =~= old_views.insert(i as int, vv));
            assert forall|a: int, b: int| 0 <= a < b < new_views.len() implies lex_lt(
                #[trigger] new_views[a],
                #[trigger] new_views[b],
            ) by {
                if b < i {
                } else if a < i && b == i {
                } else if a < i {
                    assert(new_views[b] == old_views[b - 1]);
                } else if a == i {
                    assert(new_views[b] == old_views[b - 1]);
                } else {
                    assert(new_views[a] == old_views[a - 1]);
                    assert(new_views[b] == old_views[b - 1]);
                }
            }
            assert(!old_views.contains(vv)) by {
                if old_views.contains(vv) {
                    let k = choose|k: int| 0 <= k < old_views.len() && old_views[k] == vv;
                    lemma_lex_irreflexive(vv);
                    if k < i {
                        assert(lex_lt(vs@[k]@, vv)) by {
                            assert(old_views[k] == vv);
                        }
                    }
                }
            }
            assert(new_views.to_set() =~= old_views.to_set().insert(vv)) by {
                assert forall|x: Seq<u8>| new_views.to_set().contains(x) implies old_views.to_set().insert(vv).contains(x) by {
                    let k = choose|k: int| 0 <= k < new_views.len() && new_views[k] == x;
                    if k < i {
                        assert(old_views[k] == x);
                    } else if k > i {
                        assert(old_views[k - 1] == x);
                    }
                }
                assert forall|x: Seq<u8>| old_views.to_set().insert(vv).contains(x) implies new_views.to_set().contains(x) by {
                    if x == vv {
                        assert(new_views[i as int] == x);
                    } else {
                        let k = choose|k: int| 0 <= k < old_views.len() && old_views[k] == x;
                        if k < i {
                            assert(new_views[k] == x);
                        } else {
                            assert(new_views[k + 1] == x);
                        }
                    }
                }
            }
            true
        },
    }
}

} // verus!
