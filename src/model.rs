use vstd::prelude::*;
use crate::order::{key_lt, key_le, lemma_key_lt_irreflexive};

verus! {

/// A listing of key/value entries, as character sequences.
pub type Pairs = Seq<(Seq<char>, Seq<char>)>;

/// The listing is strictly ascending by key, so its keys are unique.
pub open spec fn sorted(p: Pairs) -> bool {
    forall|i: int, j: int| 0 <= i < j < p.len() ==> key_lt(#[trigger] p[i].0, #[trigger] p[j].0)
}

/// Whether `k` is a key of the listing.
pub open spec fn has_key(p: Pairs, k: Seq<char>) -> bool {
    exists|i: int| 0 <= i < p.len() && #[trigger] p[i].0 == k
}

/// The map that a listing describes.
pub open spec fn pairs_map(p: Pairs) -> Map<Seq<char>, Seq<char>> {
    Map::new(
        |k: Seq<char>| has_key(p, k),
        |k: Seq<char>| p[choose|i: int| 0 <= i < p.len() && #[trigger] p[i].0 == k].1,
    )
}

/// Whether `k` lies in the half-open key range `[start, end)`.
pub open spec fn in_range(start: Seq<char>, end: Seq<char>, k: Seq<char>) -> bool {
    key_le(start, k) && key_lt(k, end)
}

/// Each entry of a sorted listing is what its map holds at that key.
pub proof fn lemma_pairs_map_entry(p: Pairs, i: int)
    requires
        sorted(p),
        0 <= i < p.len(),
    ensures
        pairs_map(p).contains_key(p[i].0),
        pairs_map(p)[p[i].0] == p[i].1,
{
    assert(has_key(p, p[i].0));
    let j = choose|j: int| 0 <= j < p.len() && #[trigger] p[j].0 == p[i].0;
    if j != i {
        lemma_key_lt_irreflexive(p[i].0);
        if j < i {
            assert(key_lt(p[j].0, p[i].0));
        } else {
            assert(key_lt(p[i].0, p[j].0));
        }
    }
}

/// Every entry of a sorted listing is what its map holds.
pub proof fn lemma_pairs_map_entries(p: Pairs)
    requires
        sorted(p),
    ensures
        forall|i: int|
            #![trigger p[i]]
            0 <= i < p.len() ==> pairs_map(p).contains_key(p[i].0) && pairs_map(p)[p[i].0] == p[i].1,
        pairs_map(p).dom().finite(),
{
    assert forall|i: int| #![trigger p[i]] 0 <= i < p.len() implies pairs_map(p).contains_key(p[i].0)
        && pairs_map(p)[p[i].0] == p[i].1 by {
        lemma_pairs_map_entry(p, i);
    }
    lemma_pairs_map_dom(p);
}

/// The keys of a listing are a finite set.
pub proof fn lemma_pairs_map_dom(p: Pairs)
    ensures
        pairs_map(p).dom() == p.map_values(|e: (Seq<char>, Seq<char>)| e.0).to_set(),
        pairs_map(p).dom().finite(),
{
    let keys = p.map_values(|e: (Seq<char>, Seq<char>)| e.0);
    assert forall|k: Seq<char>| pairs_map(p).dom().contains(k) <==> keys.to_set().contains(k) by {
        if pairs_map(p).dom().contains(k) {
            let i = choose|i: int| 0 <= i < p.len() && #[trigger] p[i].0 == k;
            assert(keys[i] == k);
        }
        if keys.to_set().contains(k) {
            let i = choose|i: int| 0 <= i < keys.len() && keys[i] == k;
            assert(p[i].0 == k);
        }
    }
    assert(pairs_map(p).dom() =~= keys.to_set());
    vstd::seq_lib::seq_to_set_is_finite(keys);
}

/// A key that sorts between the neighbours at `pos` may be inserted there.
pub proof fn lemma_insert_sorted(p: Pairs, pos: int, k: Seq<char>, v: Seq<char>)
    requires
        sorted(p),
        0 <= pos <= p.len(),
        forall|i: int| 0 <= i < pos ==> key_lt(#[trigger] p[i].0, k),
        forall|i: int| pos <= i < p.len() ==> key_lt(k, #[trigger] p[i].0),
    ensures
        sorted(p.insert(pos, (k, v))),
        pairs_map(p.insert(pos, (k, v))) == pairs_map(p).insert(k, v),
{
    let q = p.insert(pos, (k, v));
    assert forall|i: int, j: int| 0 <= i < j < q.len() implies key_lt(#[trigger] q[i].0, #[trigger] q[j].0) by {
        if i < pos && j > pos {
            assert(q[j] == p[j - 1]);
        } else if i > pos {
            assert(q[i] == p[i - 1] && q[j] == p[j - 1]);
        }
    }
    lemma_pairs_map_entries(p);
    lemma_pairs_map_entries(q);
    assert forall|x: Seq<char>| #[trigger] pairs_map(q).contains_key(x) <==> pairs_map(p).insert(k, v).contains_key(x) by {
        if pairs_map(q).contains_key(x) {
            let i = choose|i: int| 0 <= i < q.len() && #[trigger] q[i].0 == x;
            if i < pos {
                assert(p[i].0 == x);
            } else if i > pos {
                assert(p[i - 1].0 == x);
            }
        }
        if pairs_map(p).contains_key(x) {
            let i = choose|i: int| 0 <= i < p.len() && #[trigger] p[i].0 == x;
            if i < pos {
                assert(q[i].0 == x);
            } else {
                assert(q[i + 1].0 == x);
            }
        }
        if x == k {
            assert(q[pos].0 == x);
        }
    }
    assert forall|x: Seq<char>| #[trigger] pairs_map(q).contains_key(x) implies pairs_map(q)[x] == pairs_map(p).insert(k, v)[x] by {
        let i = choose|i: int| 0 <= i < q.len() && #[trigger] q[i].0 == x;
        if i < pos {
            assert(p[i] == q[i]);
            lemma_key_lt_irreflexive(k);
        } else if i > pos {
            assert(p[i - 1] == q[i]);
            lemma_key_lt_irreflexive(k);
        }
    }
    assert(pairs_map(q) =~= pairs_map(p).insert(k, v));
}

/// Replacing the value at an entry changes the map at that key alone.
pub proof fn lemma_update_sorted(p: Pairs, pos: int, v: Seq<char>)
    requires
        sorted(p),
        0 <= pos < p.len(),
    ensures
        sorted(p.update(pos, (p[pos].0, v))),
        pairs_map(p.update(pos, (p[pos].0, v))) == pairs_map(p).insert(p[pos].0, v),
{
    let k = p[pos].0;
    let q = p.update(pos, (k, v));
    assert forall|i: int, j: int| 0 <= i < j < q.len() implies key_lt(#[trigger] q[i].0, #[trigger] q[j].0) by {
        assert(q[i].0 == p[i].0 && q[j].0 == p[j].0);
    }
    lemma_pairs_map_entries(p);
    lemma_pairs_map_entries(q);
    assert forall|x: Seq<char>| #[trigger] pairs_map(q).contains_key(x) <==> pairs_map(p).insert(k, v).contains_key(x) by {
        if pairs_map(q).contains_key(x) {
            let i = choose|i: int| 0 <= i < q.len() && #[trigger] q[i].0 == x;
            assert(p[i].0 == x);
        }
        if pairs_map(p).contains_key(x) {
            let i = choose|i: int| 0 <= i < p.len() && #[trigger] p[i].0 == x;
            assert(q[i].0 == x);
        }
    }
    assert forall|x: Seq<char>| #[trigger] pairs_map(q).contains_key(x) implies pairs_map(q)[x] == pairs_map(p).insert(k, v)[x] by {
        let i = choose|i: int| 0 <= i < q.len() && #[trigger] q[i].0 == x;
        if i != pos {
            assert(p[i] == q[i]);
            assert(q[pos].0 == k);
            lemma_key_lt_irreflexive(k);
        } else {
            assert(q[pos] == (k, v));
        }
    }
    assert(pairs_map(q) =~= pairs_map(p).insert(k, v));
}

/// Dropping an entry removes its key from the map.
pub proof fn lemma_remove_sorted(p: Pairs, pos: int)
    requires
        sorted(p),
        0 <= pos < p.len(),
    ensures
        sorted(p.remove(pos)),
        pairs_map(p.remove(pos)) == pairs_map(p).remove(p[pos].0),
{
    let k = p[pos].0;
    let q = p.remove(pos);
    assert forall|i: int, j: int| 0 <= i < j < q.len() implies key_lt(#[trigger] q[i].0, #[trigger] q[j].0) by {
        if i >= pos {
            assert(q[i] == p[i + 1] && q[j] == p[j + 1]);
        } else if j >= pos {
            assert(q[i] == p[i] && q[j] == p[j + 1]);
        }
    }
    lemma_pairs_map_entries(p);
    lemma_pairs_map_entries(q);
    assert forall|x: Seq<char>| #[trigger] pairs_map(q).contains_key(x) <==> pairs_map(p).remove(k).contains_key(x) by {
        if pairs_map(q).contains_key(x) {
            let i = choose|i: int| 0 <= i < q.len() && #[trigger] q[i].0 == x;
            lemma_key_lt_irreflexive(k);
            if i < pos {
                assert(p[i].0 == x);
            } else {
                assert(p[i + 1].0 == x);
            }
        }
        if pairs_map(p).contains_key(x) && x != k {
            let i = choose|i: int| 0 <= i < p.len() && #[trigger] p[i].0 == x;
            if i < pos {
                assert(q[i].0 == x);
            } else {
                assert(q[i - 1].0 == x);
            }
        }
    }
    assert forall|x: Seq<char>| #[trigger] pairs_map(q).contains_key(x) implies pairs_map(q)[x] == pairs_map(p).remove(k)[x] by {
        let i = choose|i: int| 0 <= i < q.len() && #[trigger] q[i].0 == x;
        if i < pos {
            assert(p[i] == q[i]);
        } else {
            assert(p[i + 1] == q[i]);
        }
    }
    assert(pairs_map(q) =~= pairs_map(p).remove(k));
}

/// The entries of a listing whose keys lie in `[start, end)`.
pub open spec fn range_filter(p: Pairs, start: Seq<char>, end: Seq<char>) -> Pairs {
    p.filter(|e: (Seq<char>, Seq<char>)| in_range(start, end, e.0))
}

/// Where the keys in range are exactly the positions `[lo, hi)`, the range
/// filter is that window of the listing.
pub proof fn lemma_range_window(p: Pairs, start: Seq<char>, end: Seq<char>, lo: int, hi: int)
    requires
        0 <= lo <= hi <= p.len(),
        forall|j: int| 0 <= j < p.len() ==> (in_range(start, end, #[trigger] p[j].0) <==> lo <= j < hi),
    ensures
        range_filter(p, start, end) == p.subrange(lo, hi),
    decreases p.len(),
{
    reveal(Seq::filter);
    if p.len() > 0 {
        let q = p.drop_last();
        let last = p.len() - 1;
        assert(p[last] == p.last());
        assert(q.filter(|e: (Seq<char>, Seq<char>)| in_range(start, end, e.0)) == range_filter(q, start, end));
        if in_range(start, end, p[last].0) {
            assert forall|j: int| 0 <= j < q.len() implies (in_range(start, end, #[trigger] q[j].0) <==> lo <= j < last) by {
                assert(q[j] == p[j]);
            }
            lemma_range_window(q, start, end, lo, last);
            assert(p.subrange(lo, hi) =~= q.subrange(lo, last).push(p.last()));
        } else {
            let hi2 = if hi <= q.len() { hi } else { q.len() as int };
            let lo2 = if lo <= hi2 { lo } else { hi2 };
            assert forall|j: int| 0 <= j < q.len() implies (in_range(start, end, #[trigger] q[j].0) <==> lo2 <= j < hi2) by {
                assert(q[j] == p[j]);
            }
            lemma_range_window(q, start, end, lo2, hi2);
            assert(p.subrange(lo, hi) =~= q.subrange(lo2, hi2));
        }
    }
}

proof fn lemma_range_filter_sorted(p: Pairs, start: Seq<char>, end: Seq<char>)
    requires
        sorted(p),
    ensures
        sorted(range_filter(p, start, end)),
        forall|i: int|
            0 <= i < range_filter(p, start, end).len() ==> in_range(start, end, #[trigger] range_filter(p, start, end)[i].0)
                && p.contains(range_filter(p, start, end)[i]),
    decreases p.len(),
{
    reveal(Seq::filter);
    let f = range_filter(p, start, end);
    if p.len() > 0 {
        let q = p.drop_last();
        let e = p.last();
        assert(sorted(q));
        lemma_range_filter_sorted(q, start, end);
        let g = range_filter(q, start, end);
        assert(q.filter(|e: (Seq<char>, Seq<char>)| in_range(start, end, e.0)) == g);
        assert forall|i: int| 0 <= i < g.len() implies key_lt(#[trigger] g[i].0, e.0) && p.contains(g[i]) by {
            let j = choose|j: int| 0 <= j < q.len() && q[j] == g[i];
            assert(p[j] == q[j]);
            assert(key_lt(p[j].0, p[p.len() - 1].0));
        }
        assert(p[p.len() - 1] == e);
        if in_range(start, end, e.0) {
            assert(f == g.push(e));
        } else {
            assert(f == g);
        }
    }
}

/// The range law: a scan of `[start, end)` over a sorted listing is sorted,
/// and holds exactly the map's keys in the range, each with its value.
pub proof fn lemma_range_law(p: Pairs, start: Seq<char>, end: Seq<char>)
    requires
        sorted(p),
    ensures
        sorted(range_filter(p, start, end)),
        forall|i: int|
            #![trigger range_filter(p, start, end)[i]]
            0 <= i < range_filter(p, start, end).len() ==> {
                let e = range_filter(p, start, end)[i];
                &&& in_range(start, end, e.0)
                &&& pairs_map(p).contains_key(e.0)
                &&& pairs_map(p)[e.0] == e.1
            },
        forall|k: Seq<char>|
            #[trigger] pairs_map(p).contains_key(k) && in_range(start, end, k) ==> has_key(
                range_filter(p, start, end),
                k,
            ),
{
    let f = range_filter(p, start, end);
    let pred = |e: (Seq<char>, Seq<char>)| in_range(start, end, e.0);
    lemma_range_filter_sorted(p, start, end);
    lemma_pairs_map_entries(p);
    assert forall|i: int| #![trigger f[i]] 0 <= i < f.len() implies pairs_map(p).contains_key(f[i].0)
        && pairs_map(p)[f[i].0] == f[i].1 by {
        let j = choose|j: int| 0 <= j < p.len() && p[j] == f[i];
        assert(p[j] == f[i]);
    }
    assert forall|k: Seq<char>| #[trigger] pairs_map(p).contains_key(k) && in_range(start, end, k) implies has_key(f, k) by {
        let j = choose|j: int| 0 <= j < p.len() && #[trigger] p[j].0 == k;
        p.lemma_filter_contains(pred, j);
        assert(f.contains(p[j]));
        let i = choose|i: int| 0 <= i < f.len() && f[i] == p[j];
        assert(f[i].0 == k);
    }
}

} // verus!
