//! Stable top-n selection by score, shared by the reports and rank fusion.

use vstd::prelude::*;

verus! {

/// Position `x` ranks before position `y`: a higher score, or the same
/// score and an earlier position (a stable ordering).
pub open spec fn outranks(scores: Seq<u128>, x: int, y: int) -> bool {
    scores[x] > scores[y] || (scores[x] == scores[y] && x < y)
}

/// The positions of the `n` highest scores, highest first; equal scores keep
/// their order.
pub fn top_positions(scores: &Vec<u128>, n: usize) -> (r: Vec<usize>)
    ensures
        r@.len() == if n <= scores@.len() { n as int } else { scores@.len() as int },
        forall|i: int| 0 <= i < r@.len() ==> (#[trigger] r@[i]) < scores@.len(),
        forall|i: int, j: int| 0 <= i < j < r@.len() ==> outranks(scores@, r@[i] as int, r@[j] as int),
        forall|i: int, y: int|
            0 <= i < r@.len() && 0 <= y < scores@.len() && !r@.contains(y as usize)
                ==> #[trigger] outranks(scores@, r@[i] as int, y),
{
    let len = scores.len();
    let mut taken: Vec<bool> = Vec::new();
    let mut t: usize = 0;
    while t < len
        invariant
            t <= len,
            taken@.len() == t,
            forall|q: int| 0 <= q < t ==> !taken@[q],
        decreases len - t,
    {
        taken.push(false);
        t = t + 1;
    }
    let want: usize = if n <= len { n } else { len };
    let mut r: Vec<usize> = Vec::new();
    while r.len() < want
        invariant
            len == scores@.len(),
            want <= len,
            r@.len() <= want,
            taken@.len() == len,
            forall|q: int| 0 <= q < len ==> (taken@[q] <==> r@.contains(q as usize)),
            forall|i: int| 0 <= i < r@.len() ==> (#[trigger] r@[i]) < len,
            forall|i: int, j: int| 0 <= i < j < r@.len() ==> outranks(scores@, r@[i] as int, r@[j] as int),
            forall|i: int, y: int|
                0 <= i < r@.len() && 0 <= y < len && !taken@[y] ==> #[trigger] outranks(scores@, r@[i] as int, y),
        decreases want - r@.len(),
    {
        // Untaken positions remain: fewer than `len` have been picked.
        let mut best: usize = 0;
        let mut found = false;
        let mut q: usize = 0;
        while q < len
            invariant
                len == scores@.len(),
                taken@.len() == len,
                q <= len,
                found ==> best < q && !taken@[best as int],
                found ==> forall|y: int| 0 <= y < q && !taken@[y] && y != best ==> outranks(scores@, best as int, y),
                !found ==> forall|y: int| 0 <= y < q ==> taken@[y],
            decreases len - q,
        {
            if !taken[q] {
                if !found || scores[q] > scores[best] {
                    best = q;
                    found = true;
                }
            }
            q = q + 1;
        }
        proof {
            if !found {
                assert forall|z: usize| (z as int) < len implies #[trigger] r@.contains(z) by {
                    assert(taken@[z as int]);
                }
                lemma_cover(r@, len as int);
            }
        }
        let ghost old_r = r@;
        taken.set(best, true);
        r.push(best);
        proof {
            assert forall|z: int| 0 <= z < len implies (taken@[z] <==> r@.contains(z as usize)) by {
                if z == best {
                    assert(r@[old_r.len() as int] == best);
                } else {
                    if r@.contains(z as usize) {
                        let w = choose|w: int| 0 <= w < r@.len() && r@[w] == z as usize;
                        assert(w < old_r.len());
                        assert(old_r.contains(z as usize));
                    }
                    if old_r.contains(z as usize) {
                        let w = choose|w: int| 0 <= w < old_r.len() && old_r[w] == z as usize;
                        assert(r@[w] == z as usize);
                    }
                }
            }
            assert forall|i: int, j: int| 0 <= i < j < r@.len() implies outranks(scores@, r@[i] as int, r@[j] as int) by {
                if j == old_r.len() {
                    assert(!taken@[best as int] || true);
                }
            }
        }
    }
    r
}

/// A run of `len` distinct positions below `len` covers them all.
proof fn lemma_cover(r: Seq<usize>, len: int)
    requires
        0 <= len <= usize::MAX,
        forall|i: int| 0 <= i < r.len() ==> (#[trigger] r[i]) < len,
        forall|q: usize| (q as int) < len ==> #[trigger] r.contains(q),
    ensures
        r.len() >= len,
{
    let s = Set::new(|x: usize| (x as int) < len);
    assert forall|x: usize| s.contains(x) implies r.to_set().contains(x) by {
        assert(r.contains(x));
    }
    assert(s.subset_of(r.to_set()));
    r.lemma_cardinality_of_set();
    lemma_range_set_len(len);
    vstd::set_lib::lemma_len_subset(s, r.to_set());
}

/// The positions below `len` number `len`.
proof fn lemma_range_set_len(len: int)
    requires
        0 <= len <= usize::MAX,
    ensures
        Set::new(|x: usize| (x as int) < len).finite(),
        Set::new(|x: usize| (x as int) < len).len() == len,
    decreases len,
{
    let s = Set::new(|x: usize| (x as int) < len);
    if len == 0 {
        assert(s =~= Set::<usize>::empty());
    } else {
        lemma_range_set_len(len - 1);
        let t = Set::new(|x: usize| (x as int) < len - 1);
        assert(s =~= t.insert((len - 1) as usize));
    }
}

} // verus!
