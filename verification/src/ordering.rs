//! Move ordering: the first moves by decreasing heuristic value.
use vstd::prelude::*;

verus! {

/// Entry `i` of `l` comes before entry `j`: a higher heuristic value (the first
/// component), or the same value and an earlier place in `l`.
pub open spec fn precedes(l: Seq<(i32, usize, usize)>, i: int, j: int) -> bool {
    l[i].0 > l[j].0 || (l[i].0 == l[j].0 && i < j)
}

/// `o` lists the entries `idx` of `l` (never entry `ex`) in order, and every other
/// entry of `l` but `ex` comes after all of them.
pub open spec fn leading(l: Seq<(i32, usize, usize)>, ex: int, idx: Seq<int>, o: Seq<(i32, usize, usize)>) -> bool {
    &&& o.len() == idx.len()
    &&& forall|r: int| 0 <= r < idx.len() ==> 0 <= #[trigger] idx[r] < l.len() && idx[r] != ex && o[r] == l[idx[r]]
    &&& forall|r1: int, r2: int| 0 <= r1 < r2 < idx.len() ==> precedes(l, #[trigger] idx[r1], #[trigger] idx[r2])
    &&& forall|j: int, r: int|
        0 <= j < l.len() && j != ex && !idx.contains(j) && 0 <= r < idx.len() ==> #[trigger] precedes(l, idx[r], j)
}

/// Number of entries of `l` other than `ex`.
pub open spec fn available(l: Seq<(i32, usize, usize)>, ex: int) -> int {
    if 0 <= ex < l.len() { l.len() - 1 } else { l.len() as int }
}

/// `o` holds the first `k` entries of `l` other than `ex` (fewer if there are
/// fewer), by decreasing heuristic value, ties in list order.
pub open spec fn best_first(l: Seq<(i32, usize, usize)>, ex: int, k: int, o: Seq<(i32, usize, usize)>) -> bool {
    &&& o.len() == if k < available(l, ex) { k } else { available(l, ex) }
    &&& exists|idx: Seq<int>| leading(l, ex, idx, o)
}

/// The first `k` entries of `l` other than entry `ex` (if any), by decreasing
/// heuristic value, ties in list order.
pub fn best_moves(l: &Vec<(i32, usize, usize)>, k: usize, ex: Option<usize>) -> (o: Vec<(i32, usize, usize)>)
    ensures
        best_first(l@, match ex { Some(e) => e as int, None => -1 }, k as int, o@),
{
    let ghost exi: int = match ex { Some(e) => e as int, None => -1 };
    let n = l.len();
    let mut taken: Vec<bool> = Vec::new();
    let mut avail: usize = 0;
    for j in 0..n
        invariant
            n == l@.len(),
            taken@.len() == j,
            forall|t: int| 0 <= t < j ==> !#[trigger] taken@[t],
            avail as int == if 0 <= exi < j { j - 1 } else { j as int },
            exi == match ex { Some(e) => e as int, None => -1 },
    {
        taken.push(false);
        let is_ex = match ex { Some(e) => e == j, None => false };
        if !is_ex {
            avail = avail + 1;
        }
    }
    let want = if k < avail { k } else { avail };
    let mut o: Vec<(i32, usize, usize)> = Vec::new();
    let ghost mut idx: Seq<int> = Seq::empty();
    while o.len() < want
        invariant
            n == l@.len(),
            taken@.len() == n,
            want <= avail,
            avail == available(l@, exi),
            exi == match ex { Some(e) => e as int, None => -1 },
            o@.len() <= want,
            leading(l@, exi, idx, o@),
            forall|t: int| 0 <= t < n ==> (#[trigger] taken@[t] <==> idx.contains(t)),
            forall|a: int, b: int| 0 <= a < b < idx.len() ==> idx[a] != idx[b],
        decreases want - o@.len(),
    {
        // there is an entry left: `idx` has fewer entries than there are available
        let mut best: Option<usize> = None;
        for j in 0..n
            invariant
                n == l@.len(),
                taken@.len() == n,
                exi == match ex { Some(e) => e as int, None => -1 },
                match best {
                    Some(b) => b < j && !taken@[b as int] && b as int != exi
                        && forall|t: int| 0 <= t < j && t != b && !taken@[t] && t != exi ==> precedes(l@, b as int, t),
                    None => forall|t: int| 0 <= t < j ==> taken@[t] || t == exi,
                },
        {
            let is_ex = match ex { Some(e) => e == j, None => false };
            if !taken[j] && !is_ex {
                match best {
                    None => {
                        best = Some(j);
                    },
                    Some(b) => {
                        if l[j].0 > l[b].0 {
                            best = Some(j);
                        }
                    },
                }
            }
        }
        proof {
            if best is None {
                // every available entry is taken, so `idx` already has them all
                lemma_all_taken(l@, exi, idx, taken@);
                assert(false);
            }
        }
        let b = best.unwrap();
        taken.set(b, true);
        o.push(l[b]);
        proof {
            let idx0 = idx;
            idx = idx.push(b as int);
            assert forall|t: int| 0 <= t < n implies (#[trigger] taken@[t] <==> idx.contains(t)) by {
                if t == b {
                    assert(idx[idx.len() - 1] == t);
                } else {
                    if idx0.contains(t) {
                        let r = choose|r: int| 0 <= r < idx0.len() && idx0[r] == t;
                        assert(idx[r] == t);
                    }
                    if idx.contains(t) {
                        let r = choose|r: int| 0 <= r < idx.len() && idx[r] == t;
                        assert(r < idx0.len());
                        assert(idx0[r] == t);
                    }
                }
            }
            assert forall|a: int, c: int| 0 <= a < c < idx.len() implies idx[a] != idx[c] by {
                if c == idx.len() - 1 {
                    assert(idx0.contains(idx[a]));
                }
            }
            assert forall|r1: int, r2: int| 0 <= r1 < r2 < idx.len() implies precedes(l@, #[trigger] idx[r1], #[trigger] idx[r2]) by {
                if r2 == idx.len() - 1 {
                    assert(!idx0.contains(b as int));
                }
            }
            assert forall|j: int, r: int|
                0 <= j < l@.len() && j != exi && !idx.contains(j) && 0 <= r < idx.len() implies #[trigger] precedes(l@, idx[r], j) by {
                if r < idx0.len() {
                    assert(!idx0.contains(j)) by {
                        if idx0.contains(j) {
                            let q = choose|q: int| 0 <= q < idx0.len() && idx0[q] == j;
                            assert(idx[q] == j);
                        }
                    }
                    assert(idx[r] == idx0[r]);
                } else {
                    assert(idx[idx.len() - 1] == b as int);
                    assert(idx.contains(b as int));
                    assert(j != b);
                    assert(!taken@[j]) by {
                        if taken@[j] { assert(idx.contains(j)); }
                    }
                }
            }
            assert(leading(l@, exi, idx, o@));
        }
    }
    o
}

/// When every available entry is taken, as many entries are listed as are available.
proof fn lemma_all_taken(l: Seq<(i32, usize, usize)>, ex: int, idx: Seq<int>, taken: Seq<bool>)
    requires
        taken.len() == l.len(),
        forall|t: int| 0 <= t < l.len() ==> taken[t] || t == ex,
        forall|t: int| 0 <= t < l.len() ==> (#[trigger] taken[t] <==> idx.contains(t)),
        forall|r: int| 0 <= r < idx.len() ==> 0 <= #[trigger] idx[r] < l.len() && idx[r] != ex,
        forall|a: int, b: int| 0 <= a < b < idx.len() ==> idx[a] != idx[b],
    ensures
        idx.len() >= available(l, ex),
{
    let avail_set = Set::new(|t: int| 0 <= t < l.len() && t != ex);
    let idx_set = idx.to_set();
    assert(avail_set.subset_of(idx_set)) by {
        assert forall|t: int| avail_set.contains(t) implies idx_set.contains(t) by {
            assert(taken[t]);
        }
    }
    idx.unique_seq_to_set();
    vstd::set_lib::lemma_len_subset(avail_set, idx_set);
    if 0 <= ex < l.len() {
        assert(avail_set =~= vstd::set_lib::set_int_range(0, l.len() as int).remove(ex));
        vstd::set_lib::lemma_int_range(0, l.len() as int);
    } else {
        assert(avail_set =~= vstd::set_lib::set_int_range(0, l.len() as int));
        vstd::set_lib::lemma_int_range(0, l.len() as int);
    }
}

} // verus!
