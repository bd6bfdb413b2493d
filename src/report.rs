use vstd::prelude::*;
use vstd::seq_lib::{to_multiset_build, to_multiset_insert};
use crate::model::RamMapping;

verus! {

/// `a` comes no later than `b` in report order: by circuit id, then by logical memory id.
pub open spec fn report_le(a: RamMapping, b: RamMapping) -> bool {
    a.circuit_id < b.circuit_id || (a.circuit_id == b.circuit_id && a.logical_ram_id
        <= b.logical_ram_id)
}

/// `a` and `b` have the same report key.
pub open spec fn same_key(a: RamMapping, b: RamMapping) -> bool {
    a.circuit_id == b.circuit_id && a.logical_ram_id == b.logical_ram_id
}

/// `r` holds the mappings `src[perm[i]]`, each position of `src` once, and mappings of
/// equal key in the order they have in `src`.
pub open spec fn stable_arrangement(src: Seq<RamMapping>, r: Seq<RamMapping>, perm: Seq<int>) -> bool {
    &&& perm.len() == r.len()
    &&& forall|i: int| 0 <= i < r.len() ==> 0 <= #[trigger] perm[i] < src.len() && r[i] == src[perm[i]]
    &&& forall|i: int, j: int| 0 <= i < j < r.len() ==> #[trigger] perm[i] != #[trigger] perm[j]
    &&& forall|i: int, j: int|
        0 <= i < j < r.len() && same_key(r[i], r[j]) ==> #[trigger] perm[i] < #[trigger] perm[j]
}

fn report_le_exec(a: &RamMapping, b: &RamMapping) -> (r: bool)
    ensures
        r == report_le(*a, *b),
{
    a.circuit_id < b.circuit_id || (a.circuit_id == b.circuit_id && a.logical_ram_id
        <= b.logical_ram_id)
}

/// The mappings sorted for reports, by circuit id and then by logical memory id;
/// mappings with equal keys keep their relative order.
pub fn report_order(mappings: &Vec<RamMapping>) -> (r: Vec<RamMapping>)
    ensures
        r@.to_multiset() == mappings@.to_multiset(),
        forall|i: int, j: int| 0 <= i < j < r@.len() ==> report_le(r@[i], r@[j]),
        exists|perm: Seq<int>| stable_arrangement(mappings@, r@, perm),
{
    let ghost mut perm: Seq<int> = Seq::empty();
    let mut r: Vec<RamMapping> = Vec::new();
    let mut k: usize = 0;
    assert(r@ =~= mappings@.take(0));
    assert(stable_arrangement(mappings@, r@, perm));
    while k < mappings.len()
        invariant
            k <= mappings@.len(),
            r@.to_multiset() == mappings@.take(k as int).to_multiset(),
            forall|i: int, j: int| 0 <= i < j < r@.len() ==> report_le(r@[i], r@[j]),
            r@.len() == k,
            stable_arrangement(mappings@, r@, perm),
            forall|i: int| 0 <= i < r@.len() ==> #[trigger] perm[i] < k,
        decreases mappings@.len() - k,
    {
        let x = mappings[k];
        let mut p: usize = 0;
        while p < r.len() && report_le_exec(&r[p], &x)
            invariant
                p <= r@.len(),
                forall|q: int| 0 <= q < p ==> report_le(r@[q], x),
            decreases r@.len() - p,
        {
            p = p + 1;
        }
        let ghost before = r@;
        let ghost pb = perm;
        r.insert(p, x);
        proof {
            perm = pb.insert(p as int, k as int);
            assert forall|i: int| 0 <= i < r@.len() implies 0 <= #[trigger] perm[i] < mappings@.len()
                && r@[i] == mappings@[perm[i]] && perm[i] < k + 1 by {
                if i > p {
                    assert(perm[i] == pb[i - 1] && r@[i] == before[i - 1]);
                } else if i < p {
                    assert(perm[i] == pb[i] && r@[i] == before[i]);
                }
            }
            assert forall|i: int, j: int| 0 <= i < j < r@.len() implies #[trigger] perm[i] != #[trigger] perm[j] by {
                if i < p && j < p {
                    assert(perm[i] == pb[i] && perm[j] == pb[j]);
                } else if i < p && j > p {
                    assert(perm[i] == pb[i] && perm[j] == pb[j - 1]);
                } else if i > p {
                    assert(perm[i] == pb[i - 1] && perm[j] == pb[j - 1]);
                } else if i == p {
                    assert(perm[j] == pb[j - 1]);
                } else {
                    assert(perm[i] == pb[i]);
                }
            }
            assert forall|i: int, j: int|
                0 <= i < j < r@.len() && same_key(r@[i], r@[j]) implies #[trigger] perm[i] < #[trigger] perm[j] by {
                if p < before.len() {
                    assert(!report_le(before[p as int], x));
                }
                if i < p && j < p {
                    assert(perm[i] == pb[i] && perm[j] == pb[j]);
                    assert(r@[i] == before[i] && r@[j] == before[j]);
                } else if i < p && j == p {
                    assert(perm[i] == pb[i]);
                } else if i < p && j > p {
                    assert(perm[i] == pb[i] && perm[j] == pb[j - 1]);
                    assert(r@[i] == before[i] && r@[j] == before[j - 1]);
                    assert(report_le(before[i], x));
                    if j - 1 > p {
                        assert(report_le(before[p as int], before[j - 1]));
                    }
                } else if i == p {
                    assert(r@[j] == before[j - 1]);
                    if j - 1 > p {
                        assert(report_le(before[p as int], before[j - 1]));
                    }
                } else {
                    assert(perm[i] == pb[i - 1] && perm[j] == pb[j - 1]);
                    assert(r@[i] == before[i - 1] && r@[j] == before[j - 1]);
                }
            }

            to_multiset_insert(before, p as int, x);
            assert(mappings@.take(k as int + 1) =~= mappings@.take(k as int).push(x));
            to_multiset_build(mappings@.take(k as int), x);
            assert forall|i: int, j: int| 0 <= i < j < r@.len() implies report_le(r@[i], r@[j]) by {
                if p < before.len() {
                    assert(!report_le(before[p as int], x));
                }
                if j < p {
                    assert(r@[i] == before[i] && r@[j] == before[j]);
                } else if j == p {
                    assert(r@[i] == before[i]);
                } else if i < p {
                    assert(r@[i] == before[i] && r@[j] == before[j - 1]);
                    assert(report_le(before[p as int], before[j - 1]) || j - 1 == p);
                } else if i == p {
                    assert(r@[j] == before[j - 1]);
                    assert(report_le(before[p as int], before[j - 1]) || j - 1 == p);
                } else {
                    assert(r@[i] == before[i - 1] && r@[j] == before[j - 1]);
                }
            }
        }
        k = k + 1;
    }
    assert(mappings@.take(k as int) =~= mappings@);
    assert(stable_arrangement(mappings@, r@, perm));
    r
}

} // verus!
