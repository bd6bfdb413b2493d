use vstd::prelude::*;
use crate::model::{Circuit, Memory};

verus! {

/// Ids strictly increasing.
pub open spec fn strictly_sorted(s: Seq<i32>) -> bool {
    forall|i: int, j: int| 0 <= i < j < s.len() ==> s[i] < s[j]
}

/// Some circuit record or memory record names circuit `id`.
pub open spec fn in_records(blocks: Seq<(i32, i32)>, rams: Seq<(i32, Memory)>, id: i32) -> bool {
    (exists|k: int| 0 <= k < blocks.len() && #[trigger] blocks[k].0 == id) || (exists|k: int|
        0 <= k < rams.len() && #[trigger] rams[k].0 == id)
}

/// Logic count of circuit `id`: that of its last circuit record, or 0 without one.
pub open spec fn logic_of(blocks: Seq<(i32, i32)>, id: i32) -> i32
    decreases blocks.len(),
{
    if blocks.len() == 0 {
        0
    } else if blocks.last().0 == id {
        blocks.last().1
    } else {
        logic_of(blocks.drop_last(), id)
    }
}

/// The memories recorded for circuit `id`, in record order.
pub open spec fn memories_of(rams: Seq<(i32, Memory)>, id: i32) -> Seq<Memory>
    decreases rams.len(),
{
    if rams.len() == 0 {
        Seq::empty()
    } else {
        memories_of(rams.drop_last(), id) + if rams.last().0 == id {
            seq![rams.last().1]
        } else {
            Seq::empty()
        }
    }
}

fn insert_sorted(ids: &mut Vec<i32>, id: i32)
    requires
        strictly_sorted(old(ids)@),
    ensures
        strictly_sorted(final(ids)@),
        forall|x: i32| final(ids)@.contains(x) <==> (old(ids)@.contains(x) || x == id),
{
    let n = ids.len();
    let mut p: usize = 0;
    while p < n && ids[p] < id
        invariant
            p <= n,
            n == ids@.len(),
            ids@ == old(ids)@,
            forall|q: int| 0 <= q < p ==> ids@[q] < id,
        decreases n - p,
    {
        p = p + 1;
    }
    if p < n && ids[p] == id {
        assert(ids@[p as int] == id);
        return;
    }
    let ghost before = ids@;
    ids.insert(p, id);
    proof {
        assert forall|x: i32| ids@.contains(x) <==> (before.contains(x) || x == id) by {
            if ids@.contains(x) {
                let k = choose|k: int| 0 <= k < ids@.len() && ids@[k] == x;
                if k < p {
                    assert(before[k] == x);
                } else if k > p {
                    assert(before[k - 1] == x);
                }
            }
            if before.contains(x) {
                let k = choose|k: int| 0 <= k < before.len() && before[k] == x;
                if k < p {
                    assert(ids@[k] == x);
                } else {
                    assert(ids@[k + 1] == x);
                }
            }
            if x == id {
                assert(ids@[p as int] == x);
            }
        }
        assert(before == old(ids)@);
        assert(forall|x: i32| ids@.contains(x) <==> (old(ids)@.contains(x) || x == id));
        assert(strictly_sorted(ids@));
    }
}

fn record_ids(blocks: &Vec<(i32, i32)>, rams: &Vec<(i32, Memory)>) -> (ids: Vec<i32>)
    ensures
        strictly_sorted(ids@),
        forall|x: i32| ids@.contains(x) <==> in_records(blocks@, rams@, x),
{
    let mut ids: Vec<i32> = Vec::new();
    let mut k: usize = 0;
    while k < blocks.len()
        invariant
            k <= blocks@.len(),
            strictly_sorted(ids@),
            forall|x: i32|
                ids@.contains(x) <==> exists|q: int| 0 <= q < k && #[trigger] blocks@[q].0 == x,
        decreases blocks@.len() - k,
    {
        insert_sorted(&mut ids, blocks[k].0);
        proof {
            assert forall|x: i32|
                ids@.contains(x) implies exists|q: int| 0 <= q < k + 1 && #[trigger] blocks@[q].0 == x by {
                if x == blocks@[k as int].0 {
                    assert(blocks@[k as int].0 == x);
                }
            }
        }
        k = k + 1;
    }
    let mut k: usize = 0;
    while k < rams.len()
        invariant
            k <= rams@.len(),
            strictly_sorted(ids@),
            forall|x: i32|
                ids@.contains(x) <==> ((exists|q: int| 0 <= q < blocks@.len() && #[trigger] blocks@[q].0 == x)
                    || exists|q: int| 0 <= q < k && #[trigger] rams@[q].0 == x),
        decreases rams@.len() - k,
    {
        insert_sorted(&mut ids, rams[k].0);
        proof {
            assert forall|x: i32|
                ids@.contains(x) implies ((exists|q: int| 0 <= q < blocks@.len() && #[trigger] blocks@[q].0 == x)
                    || exists|q: int| 0 <= q < k + 1 && #[trigger] rams@[q].0 == x) by {
                if x == rams@[k as int].0 {
                    assert(rams@[k as int].0 == x);
                }
            }
        }
        k = k + 1;
    }
    ids
}

fn logic_for(blocks: &Vec<(i32, i32)>, id: i32) -> (r: i32)
    ensures
        r == logic_of(blocks@, id),
{
    let mut r: i32 = 0;
    let mut k: usize = 0;
    while k < blocks.len()
        invariant
            k <= blocks@.len(),
            r == logic_of(blocks@.take(k as int), id),
        decreases blocks@.len() - k,
    {
        assert(blocks@.take(k as int + 1).drop_last() =~= blocks@.take(k as int));
        if blocks[k].0 == id {
            r = blocks[k].1;
        }
        k = k + 1;
    }
    assert(blocks@.take(k as int) =~= blocks@);
    r
}

fn memories_for(rams: &Vec<(i32, Memory)>, id: i32) -> (r: Vec<Memory>)
    ensures
        r@ == memories_of(rams@, id),
{
    let mut r: Vec<Memory> = Vec::new();
    let mut k: usize = 0;
    while k < rams.len()
        invariant
            k <= rams@.len(),
            r@ == memories_of(rams@.take(k as int), id),
        decreases rams@.len() - k,
    {
        assert(rams@.take(k as int + 1).drop_last() =~= rams@.take(k as int));
        if rams[k].0 == id {
            r.push(rams[k].1);
        }
        assert(r@ =~= memories_of(rams@.take(k as int + 1), id));
        k = k + 1;
    }
    assert(rams@.take(k as int) =~= rams@);
    r
}

/// The circuits named by circuit records `(id, logic count)` and memory records
/// `(circuit id, memory)`, one per id in increasing id order, each with the logic count
/// of its last circuit record (0 without one) and its memories in record order.
pub fn build_circuits(blocks: &Vec<(i32, i32)>, rams: &Vec<(i32, Memory)>) -> (r: Vec<Circuit>)
    ensures
        forall|i: int, j: int| 0 <= i < j < r@.len() ==> r@[i].id < r@[j].id,
        forall|i: int| 0 <= i < r@.len() ==> #[trigger] in_records(blocks@, rams@, r@[i].id),
        forall|id: i32|
            #[trigger] in_records(blocks@, rams@, id) ==> exists|i: int|
                0 <= i < r@.len() && #[trigger] r@[i].id == id,
        forall|i: int|
            0 <= i < r@.len() ==> #[trigger] r@[i].logic_blocks == logic_of(blocks@, r@[i].id)
                && r@[i].memories@ == memories_of(rams@, r@[i].id),
{
    let ids = record_ids(blocks, rams);
    let mut r: Vec<Circuit> = Vec::new();
    let mut k: usize = 0;
    while k < ids.len()
        invariant
            k <= ids@.len(),
            r@.len() == k,
            strictly_sorted(ids@),
            forall|x: i32| ids@.contains(x) <==> in_records(blocks@, rams@, x),
            forall|i: int| 0 <= i < k ==> #[trigger] r@[i].id == ids@[i],
            forall|i: int|
                0 <= i < k ==> #[trigger] r@[i].logic_blocks == logic_of(blocks@, r@[i].id)
                    && r@[i].memories@ == memories_of(rams@, r@[i].id),
        decreases ids@.len() - k,
    {
        let id = ids[k];
        let c = Circuit { id, logic_blocks: logic_for(blocks, id), memories: memories_for(rams, id) };
        r.push(c);
        k = k + 1;
    }
    proof {
        assert forall|i: int| 0 <= i < r@.len() implies #[trigger] in_records(blocks@, rams@, r@[i].id) by {
            assert(ids@.contains(ids@[i]));
        }
        assert forall|id: i32| #[trigger] in_records(blocks@, rams@, id) implies exists|i: int|
            0 <= i < r@.len() && #[trigger] r@[i].id == id by {
            assert(ids@.contains(id));
            let i = choose|i: int| 0 <= i < ids@.len() && ids@[i] == id;
            assert(r@[i].id == id);
        }
    }
    r
}

/// Where a circuit of id `id` joins `order` (indices into `cs`, by id), searching from
/// `p`: before the first circuit of greater id.
pub open spec fn insert_pos(cs: Seq<Circuit>, order: Seq<int>, id: i32, p: int) -> int
    decreases order.len() - p,
{
    if p >= order.len() || p < 0 {
        order.len() as int
    } else if cs[order[p]].id > id {
        p
    } else {
        insert_pos(cs, order, id, p + 1)
    }
}

/// The indices of the first `k` circuits in increasing id order; circuits of equal id
/// keep their order.
pub open spec fn id_order(cs: Seq<Circuit>, k: int) -> Seq<int>
    decreases k,
{
    if k <= 0 {
        Seq::empty()
    } else {
        let o = id_order(cs, k - 1);
        o.insert(insert_pos(cs, o, cs[k - 1].id, 0), k - 1)
    }
}

/// The circuits in increasing id order; circuits of equal id keep their order.
pub open spec fn circuits_by_id(cs: Seq<Circuit>) -> Seq<Circuit> {
    id_order(cs, cs.len() as int).map_values(|i: int| cs[i])
}

proof fn lemma_insert_pos(cs: Seq<Circuit>, order: Seq<int>, id: i32, p: int)
    requires
        0 <= p <= order.len(),
        forall|q: int| 0 <= q < p ==> cs[#[trigger] order[q]].id <= id,
    ensures
        ({
            let r = insert_pos(cs, order, id, p);
            &&& p <= r <= order.len()
            &&& forall|q: int| 0 <= q < r ==> cs[#[trigger] order[q]].id <= id
            &&& r < order.len() ==> cs[order[r]].id > id
        }),
    decreases order.len() - p,
{
    if p < order.len() && cs[order[p]].id <= id {
        lemma_insert_pos(cs, order, id, p + 1);
    }
}

/// `id_order` arranges the first `k` circuit indices, each once, by nondecreasing id.
pub proof fn lemma_id_order(cs: Seq<Circuit>, k: int)
    requires
        0 <= k <= cs.len(),
    ensures
        id_order(cs, k).len() == k,
        forall|q: int| 0 <= q < k ==> 0 <= #[trigger] id_order(cs, k)[q] < k,
        forall|i: int, j: int|
            0 <= i < j < k ==> #[trigger] id_order(cs, k)[i] != #[trigger] id_order(cs, k)[j],
        forall|i: int, j: int|
            0 <= i < j < k ==> cs[#[trigger] id_order(cs, k)[i]].id <= cs[#[trigger] id_order(
                cs,
                k,
            )[j]].id,
    decreases k,
{
    if k > 0 {
        lemma_id_order(cs, k - 1);
        let o = id_order(cs, k - 1);
        let id = cs[k - 1].id;
        lemma_insert_pos(cs, o, id, 0);
        let p = insert_pos(cs, o, id, 0);
        let o2 = id_order(cs, k);
        assert(o2 == o.insert(p, k - 1));
        assert forall|q: int| 0 <= q < k implies 0 <= #[trigger] o2[q] < k by {
            if q > p {
                assert(o2[q] == o[q - 1]);
            }
        }
        assert forall|i: int, j: int| 0 <= i < j < k implies #[trigger] o2[i] != #[trigger] o2[j] by {
            if i < p && j < p {
                assert(o2[i] == o[i] && o2[j] == o[j]);
            } else if i < p && j > p {
                assert(o2[i] == o[i] && o2[j] == o[j - 1]);
            } else if i > p {
                assert(o2[i] == o[i - 1] && o2[j] == o[j - 1]);
            } else if i == p {
                assert(o2[j] == o[j - 1]);
            } else {
                assert(o2[i] == o[i]);
            }
        }
        assert forall|i: int, j: int| 0 <= i < j < k implies cs[#[trigger] o2[i]].id <= cs[#[trigger] o2[j]].id by {
            if j < p {
                assert(o2[i] == o[i] && o2[j] == o[j]);
            } else if j == p {
                assert(o2[i] == o[i]);
            } else if i < p {
                assert(o2[i] == o[i] && o2[j] == o[j - 1]);
                if j - 1 > p {
                    assert(cs[o[p]].id <= cs[o[j - 1]].id);
                }
            } else if i == p {
                assert(o2[j] == o[j - 1]);
                if j - 1 > p {
                    assert(cs[o[p]].id <= cs[o[j - 1]].id);
                }
            } else {
                assert(o2[i] == o[i - 1] && o2[j] == o[j - 1]);
            }
        }
    }
}

/// The circuit indices in increasing id order; circuits of equal id keep their order.
pub fn circuit_order(circuits: &Vec<Circuit>) -> (r: Vec<usize>)
    ensures
        r@.len() == circuits@.len(),
        forall|q: int|
            0 <= q < r@.len() ==> #[trigger] r@[q] as int == id_order(
                circuits@,
                circuits@.len() as int,
            )[q],
{
    let ghost cs = circuits@;
    let mut order: Vec<usize> = Vec::new();
    let mut k: usize = 0;
    while k < circuits.len()
        invariant
            cs == circuits@,
            k <= cs.len(),
            order@.map_values(|x: usize| x as int) == id_order(cs, k as int),
        decreases cs.len() - k,
    {
        proof {
            lemma_id_order(cs, k as int);
        }
        let id = circuits[k].id;
        let ghost o = id_order(cs, k as int);
        assert(order@.len() == o.len());
        let mut p: usize = 0;
        while p < order.len() && circuits[order[p]].id <= id
            invariant
                cs == circuits@,
                k < cs.len(),
                id == cs[k as int].id,
                o == id_order(cs, k as int),
                o.len() == k,
                forall|q: int| 0 <= q < k ==> 0 <= #[trigger] o[q] < k,
                order@.map_values(|x: usize| x as int) == o,
                p <= order@.len(),
                insert_pos(cs, o, id, 0) == insert_pos(cs, o, id, p as int),
            decreases order@.len() - p,
        {
            assert(o[p as int] == order@[p as int] as int);
            p = p + 1;
        }
        proof {
            if p < order@.len() {
                assert(o[p as int] == order@[p as int] as int);
            }
        }
        let ghost before = order@;
        order.insert(p, k);
        assert(order@.map_values(|x: usize| x as int) =~= o.insert(p as int, k as int));
        k = k + 1;
    }
    proof {
        lemma_id_order(cs, k as int);
        assert(order@.map_values(|x: usize| x as int).len() == order@.len());
        assert forall|q: int| 0 <= q < order@.len() implies #[trigger] order@[q] as int == id_order(
            circuits@,
            circuits@.len() as int,
        )[q] by {
            assert(order@.map_values(|x: usize| x as int)[q] == order@[q] as int);
        }
    }
    order
}

} // verus!
