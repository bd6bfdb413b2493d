use vstd::prelude::*;
use crate::cost::lemma_i32_product;
use crate::model::{MemMode, PhysConfig, PhysType, RamMapping};

verus! {

/// Logical bit demand of a mapping.
pub open spec fn logical_bits(m: RamMapping) -> int {
    m.logical_width * m.logical_depth
}

/// `m` may be merged into a dual-port macro of kind `cfg`: a single-port or read-only
/// mapping onto one macro of that kind, which must offer true-dual-port mode and whose
/// dual-port width cap `m` keeps, using part of the macro.
pub open spec fn share_eligible(m: RamMapping, cfg: PhysConfig) -> bool {
    &&& m.phys_type == cfg.phys_type
    &&& m.mode == MemMode::Rom || m.mode == MemMode::SinglePort
    &&& m.phys_blocks == 1
    &&& cfg.max_width_tdp > 0
    &&& m.phys_width <= cfg.max_width_tdp
    &&& 0 < logical_bits(m) < cfg.bits
}

/// `a` and `b` fit together in one macro of kind `cfg`: same circuit, same shape,
/// their depths fit the macro's depth, and their bits fill it exactly.
pub open spec fn can_pair(a: RamMapping, b: RamMapping, cfg: PhysConfig) -> bool {
    &&& a.circuit_id == b.circuit_id
    &&& a.phys_width == b.phys_width
    &&& a.phys_depth == b.phys_depth
    &&& a.series == b.series
    &&& a.parallel == b.parallel
    &&& a.logical_depth + b.logical_depth <= a.phys_depth * a.series
    &&& logical_bits(a) + logical_bits(b) == cfg.bits
}

/// The first index from `j` on that can still be merged with `i`, or the length of
/// `orig` when there is none.
pub open spec fn first_partner(
    orig: Seq<RamMapping>,
    used: Seq<bool>,
    cfg: PhysConfig,
    i: int,
    j: int,
) -> int
    decreases orig.len() - j,
{
    if j >= orig.len() || j < 0 {
        orig.len() as int
    } else if share_eligible(orig[j], cfg) && !used[j] && can_pair(orig[i], orig[j], cfg) {
        j
    } else {
        first_partner(orig, used, cfg, i, j + 1)
    }
}

/// `m` turned into the true-dual-port half of a merged pair, in group `group_id`.
pub open spec fn as_dual_port(m: RamMapping, group_id: i32) -> RamMapping {
    RamMapping { mode: MemMode::TrueDualPort, group_id, ..m }
}

/// One step of the greedy pass: mapping `i`, if still free and eligible, is merged
/// with its first free partner after it.
pub open spec fn share_step(
    orig: Seq<RamMapping>,
    cfg: PhysConfig,
    st: (Seq<RamMapping>, Seq<bool>),
    i: int,
) -> (Seq<RamMapping>, Seq<bool>) {
    let (ms, used) = st;
    if share_eligible(orig[i], cfg) && !used[i] {
        let j = first_partner(orig, used, cfg, i, i + 1);
        if j < orig.len() {
            let g = ms[i].group_id;
            (
                ms.update(i, as_dual_port(ms[i], g)).update(j, as_dual_port(ms[j], g)),
                used.update(i, true).update(j, true),
            )
        } else {
            st
        }
    } else {
        st
    }
}

/// The mappings, and which of them are merged, after the greedy pass has visited the
/// first `i` mappings.
pub open spec fn share_state(orig: Seq<RamMapping>, cfg: PhysConfig, i: int) -> (
    Seq<RamMapping>,
    Seq<bool>,
)
    decreases i,
{
    if i <= 0 {
        (orig, Seq::new(orig.len(), |k: int| false))
    } else {
        share_step(orig, cfg, share_state(orig, cfg, i - 1), i - 1)
    }
}

/// The mappings after greedy first-fit sharing on kind `cfg`.
pub open spec fn shared_mappings(orig: Seq<RamMapping>, cfg: PhysConfig) -> Seq<RamMapping> {
    share_state(orig, cfg, orig.len() as int).0
}

/// Among the first `n` positions, those of kind `t` whose group id differs between
/// `a` and `b`.
pub open spec fn count_moved(a: Seq<RamMapping>, b: Seq<RamMapping>, t: PhysType, n: int) -> int
    decreases n,
{
    if n <= 0 {
        0
    } else {
        count_moved(a, b, t, n - 1) + if b[n - 1].phys_type == t && b[n - 1].group_id != a[n
            - 1].group_id {
            1int
        } else {
            0int
        }
    }
}

/// Two mappings merged into one macro of kind `cfg`: of one circuit, both
/// true-dual-port, of one shape, filling the macro's bits exactly.
pub open spec fn pair_sound(a: RamMapping, b: RamMapping, cfg: PhysConfig) -> bool {
    &&& a.circuit_id == b.circuit_id
    &&& a.mode == MemMode::TrueDualPort
    &&& b.mode == MemMode::TrueDualPort
    &&& a.phys_width == b.phys_width
    &&& a.phys_depth == b.phys_depth
    &&& a.series == b.series
    &&& a.parallel == b.parallel
    &&& logical_bits(a) + logical_bits(b) == cfg.bits
}

/// Every two mappings of kind `cfg` that share a group id are a sound merged pair.
pub open spec fn groups_sound(ms: Seq<RamMapping>, cfg: PhysConfig) -> bool {
    forall|k: int, l: int|
        0 <= k < ms.len() && 0 <= l < ms.len() && k != l && ms[k].phys_type == cfg.phys_type
            && ms[l].phys_type == cfg.phys_type && #[trigger] ms[k].group_id
            == #[trigger] ms[l].group_id ==> pair_sound(ms[k], ms[l], cfg)
}

/// The mappings are fit for a sharing pass on kind `cfg`: a mapping that may still be
/// merged carries a group id that no other mapping of the kind carries, and mappings of
/// the kind that share a group id are sound merged pairs.
pub open spec fn share_ready(ms: Seq<RamMapping>, cfg: PhysConfig) -> bool {
    &&& forall|k: int, l: int|
        0 <= k < ms.len() && 0 <= l < ms.len() && k != l && share_eligible(ms[k], cfg)
            && ms[l].phys_type == cfg.phys_type && #[trigger] ms[k].group_id
            == #[trigger] ms[l].group_id ==> false
    &&& groups_sound(ms, cfg)
}

/// No two mappings that may still be merged on kind `cfg` fit together.
pub open spec fn no_pair_left(ms: Seq<RamMapping>, cfg: PhysConfig) -> bool {
    forall|i: int, j: int|
        0 <= i < j < ms.len() && #[trigger] share_eligible(ms[i], cfg) && #[trigger] share_eligible(
            ms[j],
            cfg,
        ) ==> !can_pair(ms[i], ms[j], cfg)
}

/// Mapping `q` of `b` carries the group id that mapping `l`, of the same kind, had in `a`.
pub open spec fn id_source(a: Seq<RamMapping>, b: Seq<RamMapping>, q: int, l: int) -> bool {
    0 <= l < a.len() && b[q].group_id == a[l].group_id && a[l].phys_type == a[q].phys_type
}

/// `src` names, for each mapping `q` of `b`, a mapping of the same kind whose group id
/// in `a` mapping `q` carries in `b`.
pub open spec fn id_sources(a: Seq<RamMapping>, b: Seq<RamMapping>, src: Seq<int>) -> bool {
    &&& src.len() == b.len()
    &&& forall|q: int| 0 <= q < b.len() ==> #[trigger] id_source(a, b, q, src[q])
}

/// Every group id in `b` is the group id that some mapping of the same kind had in `a`.
pub open spec fn ids_within_kind(a: Seq<RamMapping>, b: Seq<RamMapping>) -> bool {
    exists|src: Seq<int>| #[trigger] id_sources(a, b, src)
}

proof fn lemma_ids_within_kind_trans(a: Seq<RamMapping>, b: Seq<RamMapping>, c: Seq<RamMapping>)
    requires
        ids_within_kind(a, b),
        ids_within_kind(b, c),
        b.len() == c.len(),
        a.len() == b.len(),
        forall|k: int| 0 <= k < a.len() ==> #[trigger] same_but_grouping(a[k], b[k]),
    ensures
        ids_within_kind(a, c),
{
    let s1 = choose|src: Seq<int>| #[trigger] id_sources(a, b, src);
    let s2 = choose|src: Seq<int>| #[trigger] id_sources(b, c, src);
    let s3 = Seq::new(c.len(), |q: int| s1[s2[q]]);
    assert forall|q: int| 0 <= q < c.len() implies #[trigger] id_source(a, c, q, s3[q]) by {
        assert(id_source(b, c, q, s2[q]));
        assert(id_source(a, b, s2[q], s1[s2[q]]));
        assert(same_but_grouping(a[q], b[q]));
        assert(same_but_grouping(a[s2[q]], b[s2[q]]));
    }
    assert(id_sources(a, c, s3));
}

/// `b` is `a` with at most its mode and group id changed.
pub open spec fn same_but_grouping(a: RamMapping, b: RamMapping) -> bool {
    b == RamMapping { mode: b.mode, group_id: b.group_id, ..a }
}

pub(crate) proof fn lemma_count_moved_bound(a: Seq<RamMapping>, b: Seq<RamMapping>, t: PhysType, n: int)
    requires
        n >= 0,
    ensures
        0 <= count_moved(a, b, t, n) <= n,
    decreases n,
{
    if n > 0 {
        lemma_count_moved_bound(a, b, t, n - 1);
    }
}

proof fn lemma_count_moved_update(
    a: Seq<RamMapping>,
    b: Seq<RamMapping>,
    t: PhysType,
    j: int,
    x: RamMapping,
    n: int,
)
    requires
        0 <= j < b.len(),
        n <= b.len(),
    ensures
        count_moved(a, b.update(j, x), t, n) == count_moved(a, b, t, n) + if j < n {
            (if x.phys_type == t && x.group_id != a[j].group_id {
                1int
            } else {
                0int
            }) - (if b[j].phys_type == t && b[j].group_id != a[j].group_id {
                1int
            } else {
                0int
            })
        } else {
            0int
        },
    decreases n,
{
    if n > 0 {
        lemma_count_moved_update(a, b, t, j, x, n - 1);
    }
}

pub(crate) proof fn lemma_count_moved_same(a: Seq<RamMapping>, t: PhysType, n: int)
    ensures
        count_moved(a, a, t, n) == 0,
    decreases n,
{
    if n > 0 {
        lemma_count_moved_same(a, t, n - 1);
    }
}

proof fn lemma_first_partner(orig: Seq<RamMapping>, used: Seq<bool>, cfg: PhysConfig, i: int, j: int)
    requires
        0 <= j,
    ensures
        ({
            let r = first_partner(orig, used, cfg, i, j);
            r == orig.len() || (j <= r < orig.len() && share_eligible(orig[r], cfg) && !used[r]
                && can_pair(orig[i], orig[r], cfg))
        }),
    decreases orig.len() - j,
{
    if j < orig.len() {
        lemma_first_partner(orig, used, cfg, i, j + 1);
    }
}

proof fn lemma_first_partner_none(
    orig: Seq<RamMapping>,
    used: Seq<bool>,
    cfg: PhysConfig,
    i: int,
    j: int,
)
    requires
        0 <= j,
        first_partner(orig, used, cfg, i, j) == orig.len(),
    ensures
        forall|b: int|
            j <= b < orig.len() ==> !(share_eligible(orig[b], cfg) && !used[b] && can_pair(
                orig[i],
                orig[b],
                cfg,
            )),
    decreases orig.len() - j,
{
    if j < orig.len() {
        lemma_first_partner_none(orig, used, cfg, i, j + 1);
    }
}

/// Sharing changes nothing where no two mappings that may still be merged fit together;
/// in particular, a second pass on the same kind changes nothing.
pub proof fn lemma_share_idempotent(ms: Seq<RamMapping>, cfg: PhysConfig)
    requires
        no_pair_left(ms, cfg),
    ensures
        shared_mappings(ms, cfg) == ms,
        count_moved(ms, shared_mappings(ms, cfg), cfg.phys_type, ms.len() as int) == 0,
{
    lemma_share_state_unchanged(ms, cfg, ms.len() as int);
    lemma_count_moved_same(ms, cfg.phys_type, ms.len() as int);
}

proof fn lemma_share_state_unchanged(ms: Seq<RamMapping>, cfg: PhysConfig, k: int)
    requires
        no_pair_left(ms, cfg),
        0 <= k <= ms.len(),
    ensures
        share_state(ms, cfg, k) == (ms, Seq::new(ms.len(), |q: int| false)),
    decreases k,
{
    if k > 0 {
        lemma_share_state_unchanged(ms, cfg, k - 1);
        let used = Seq::new(ms.len(), |q: int| false);
        let i = k - 1;
        if share_eligible(ms[i], cfg) {
            lemma_first_partner(ms, used, cfg, i, i + 1);
            let r = first_partner(ms, used, cfg, i, i + 1);
            if r < ms.len() {
                assert(share_eligible(ms[r], cfg) && can_pair(ms[i], ms[r], cfg));
                assert(false);
            }
        }
    }
}

fn share_eligible_exec(m: &RamMapping, cfg: &PhysConfig) -> (r: bool)
    ensures
        r == share_eligible(*m, *cfg),
{
    proof {
        lemma_i32_product(m.logical_width, m.logical_depth);
    }
    let bits = m.logical_width as i64 * m.logical_depth as i64;
    m.phys_type == cfg.phys_type && (m.mode == MemMode::Rom || m.mode == MemMode::SinglePort)
        && m.phys_blocks == 1 && cfg.max_width_tdp > 0 && m.phys_width <= cfg.max_width_tdp
        && 0 < bits && bits < cfg.bits as i64
}

fn can_pair_exec(a: &RamMapping, b: &RamMapping, cfg: &PhysConfig) -> (r: bool)
    ensures
        r == can_pair(*a, *b, *cfg),
{
    proof {
        lemma_i32_product(a.logical_width, a.logical_depth);
        lemma_i32_product(b.logical_width, b.logical_depth);
        lemma_i32_product(a.phys_depth, a.series);
    }
    let bits_a = a.logical_width as i128 * a.logical_depth as i128;
    let bits_b = b.logical_width as i128 * b.logical_depth as i128;
    a.circuit_id == b.circuit_id && a.phys_width == b.phys_width && a.phys_depth == b.phys_depth
        && a.series == b.series && a.parallel == b.parallel && a.logical_depth as i64
        + b.logical_depth as i64 <= a.phys_depth as i64 * a.series as i64 && bits_a + bits_b
        == cfg.bits as i128
}

fn find_partner(
    ms: &Vec<RamMapping>,
    used: &Vec<bool>,
    cfg: &PhysConfig,
    i: usize,
    Ghost(orig): Ghost<Seq<RamMapping>>,
) -> (j: usize)
    requires
        i < ms@.len(),
        ms@.len() == used@.len(),
        orig.len() == ms@.len(),
        forall|k: int| 0 <= k < ms@.len() && !used@[k] ==> ms@[k] == orig[k],
        !used@[i as int],
    ensures
        j == first_partner(orig, used@, *cfg, i as int, i as int + 1),
{
    let n = ms.len();
    let mut j: usize = i + 1;
    while j < n
        invariant
            i < j <= n,
            n == ms@.len(),
            ms@.len() == used@.len(),
            orig.len() == n,
            forall|k: int| 0 <= k < n && !used@[k] ==> ms@[k] == orig[k],
            !used@[i as int],
            first_partner(orig, used@, *cfg, i as int, i as int + 1) == first_partner(
                orig,
                used@,
                *cfg,
                i as int,
                j as int,
            ),
        decreases n - j,
    {
        if !used[j] && share_eligible_exec(&ms[j], cfg) && can_pair_exec(&ms[i], &ms[j], cfg) {
            return j;
        }
        j = j + 1;
    }
    n
}

/// Greedy first-fit sharing on kind `cfg`: each free eligible mapping, in order, is
/// merged with the first later free eligible mapping that fits with it; both become
/// true-dual-port and the later one takes the earlier one's group id. `total_blocks`
/// loses one block per merge.
pub fn share_type(mappings: &mut Vec<RamMapping>, cfg: &PhysConfig, total_blocks: &mut i128)
    requires
        share_ready(old(mappings)@, *cfg),
        *old(total_blocks) >= i128::MIN + old(mappings)@.len(),
    ensures
        final(mappings)@ == shared_mappings(old(mappings)@, *cfg),
        share_ready(final(mappings)@, *cfg),
        no_pair_left(final(mappings)@, *cfg),
        ids_within_kind(old(mappings)@, final(mappings)@),
        *final(total_blocks) == *old(total_blocks) - count_moved(
            old(mappings)@,
            final(mappings)@,
            cfg.phys_type,
            old(mappings)@.len() as int,
        ),
        groups_sound(final(mappings)@, *cfg),
        final(mappings)@.len() == old(mappings)@.len(),
        forall|k: int|
            0 <= k < old(mappings)@.len() ==> #[trigger] same_but_grouping(
                old(mappings)@[k],
                final(mappings)@[k],
            ),
        forall|k: int|
            0 <= k < old(mappings)@.len() && old(mappings)@[k].phys_type != cfg.phys_type
                ==> #[trigger] final(mappings)@[k] == old(mappings)@[k],
{
    let ghost orig = mappings@;
    let ghost t0 = *total_blocks;
    let n = mappings.len();
    let mut used: Vec<bool> = Vec::new();
    let mut k: usize = 0;
    while k < n
        invariant
            k <= n,
            used@ == Seq::new(k as nat, |q: int| false),
        decreases n - k,
    {
        used.push(false);
        k = k + 1;
    }
    assert(used@ == share_state(orig, *cfg, 0).1);
    proof {
        lemma_count_moved_same(orig, cfg.phys_type, n as int);
    }
    let ghost mut src: Seq<int> = Seq::new(n as nat, |q: int| q);
    let mut i: usize = 0;
    while i < n
        invariant
            n == orig.len(),
            i <= n,
            mappings@.len() == n,
            used@.len() == n,
            (mappings@, used@) == share_state(orig, *cfg, i as int),
            forall|q: int| 0 <= q < n && !used@[q] ==> mappings@[q] == orig[q],
            forall|q: int| 0 <= q < n ==> #[trigger] same_but_grouping(orig[q], mappings@[q]),
            forall|q: int|
                0 <= q < n && used@[q] ==> share_eligible(orig[q], *cfg) && (
                #[trigger] mappings@[q]).mode == MemMode::TrueDualPort,
            share_ready(orig, *cfg),
            src.len() == n,
            forall|q: int|
                0 <= q < n ==> 0 <= #[trigger] src[q] < n && mappings@[q].group_id
                    == orig[src[q]].group_id && orig[src[q]].phys_type == orig[q].phys_type,
            forall|q: int, l: int|
                0 <= q < n && 0 <= l < n && q != l && mappings@[q].phys_type == cfg.phys_type
                    && mappings@[l].phys_type == cfg.phys_type && #[trigger] mappings@[q].group_id
                    == #[trigger] mappings@[l].group_id ==> ((used@[q] && used@[l]) || (
                    !share_eligible(orig[q], *cfg) && !share_eligible(orig[l], *cfg)))
                    && pair_sound(mappings@[q], mappings@[l], *cfg),
            forall|a: int, b: int|
                0 <= a < i && a < b < n && !used@[a] && !used@[b] && #[trigger] share_eligible(
                    orig[a],
                    *cfg,
                ) && #[trigger] share_eligible(orig[b], *cfg) ==> !can_pair(orig[a], orig[b], *cfg),
            *total_blocks == t0 - count_moved(orig, mappings@, cfg.phys_type, n as int),
            t0 >= i128::MIN + n,
        decreases n - i,
    {
        let ghost st = (mappings@, used@);
        if !used[i] && share_eligible_exec(&mappings[i], cfg) {
            let j = find_partner(mappings, &used, cfg, i, Ghost(orig));
            proof {
                lemma_first_partner(orig, used@, *cfg, i as int, i as int + 1);
            }
            if j < n {
                let g = mappings[i].group_id;
                let mi = mappings[i];
                let mj = mappings[j];
                let ghost m0 = mappings@;
                mappings[i] = RamMapping { mode: MemMode::TrueDualPort, ..mi };
                let ghost m1 = mappings@;
                mappings[j] = RamMapping { mode: MemMode::TrueDualPort, group_id: g, ..mj };
                used[i] = true;
                used[j] = true;
                proof {
                    assert(mappings@ == m0.update(i as int, as_dual_port(mi, g)).update(
                        j as int,
                        as_dual_port(mj, g),
                    ));
                    assert(mi == orig[i as int]);
                    assert(mj == orig[j as int]);
                    assert(orig[i as int].group_id != orig[j as int].group_id);
                    lemma_count_moved_update(orig, m0, cfg.phys_type, i as int, m1[i as int], n as int);
                    lemma_count_moved_update(orig, m1, cfg.phys_type, j as int, mappings@[j as int], n as int);
                    lemma_count_moved_bound(orig, mappings@, cfg.phys_type, n as int);
                    src = src.update(j as int, i as int);
                    assert forall|q: int, l: int|
                        0 <= q < n && 0 <= l < n && q != l && mappings@[q].phys_type == cfg.phys_type
                            && mappings@[l].phys_type == cfg.phys_type && #[trigger] mappings@[q].group_id
                            == #[trigger] mappings@[l].group_id implies ((used@[q] && used@[l]) || (
                            !share_eligible(orig[q], *cfg) && !share_eligible(orig[l], *cfg)))
                            && pair_sound(mappings@[q], mappings@[l], *cfg) by {
                        if q != i && q != j && l != i && l != j {
                        } else if (q == i && l == j) || (q == j && l == i) {
                        } else if q == i || q == j {
                            assert(m0[l] == mappings@[l]);
                            assert(m0[i as int].group_id == g);
                            assert(m0[l].group_id == m0[i as int].group_id);
                        } else {
                            assert(m0[q] == mappings@[q]);
                            assert(m0[q].group_id == m0[i as int].group_id);
                        }
                    }
                }
                *total_blocks = *total_blocks - 1;
            } else {
                proof {
                    lemma_first_partner_none(orig, used@, *cfg, i as int, i as int + 1);
                }
            }
        }
        i = i + 1;
    }
    proof {
        assert forall|q: int, l: int|
            0 <= q < n && 0 <= l < n && q != l && mappings@[q].phys_type == cfg.phys_type
                && mappings@[l].phys_type == cfg.phys_type && #[trigger] mappings@[q].group_id
                == #[trigger] mappings@[l].group_id implies pair_sound(mappings@[q], mappings@[l], *cfg) by {
        }
        assert forall|q: int| 0 <= q < n implies #[trigger] id_source(orig, mappings@, q, src[q]) by {}
        assert(id_sources(orig, mappings@, src));
        assert forall|k: int, l: int|
            0 <= k < n && 0 <= l < n && k != l && share_eligible(mappings@[k], *cfg)
                && mappings@[l].phys_type == cfg.phys_type && #[trigger] mappings@[k].group_id
                == #[trigger] mappings@[l].group_id implies false by {
            if used@[k] {
                assert(mappings@[k].mode == MemMode::TrueDualPort);
            }
            assert(mappings@[k] == orig[k]);
        }
        assert forall|a: int, b: int|
            0 <= a < b < n && #[trigger] share_eligible(mappings@[a], *cfg) && #[trigger] share_eligible(
                mappings@[b],
                *cfg,
            ) implies !can_pair(mappings@[a], mappings@[b], *cfg) by {
            if used@[a] {
                assert(mappings@[a].mode == MemMode::TrueDualPort);
            }
            if used@[b] {
                assert(mappings@[b].mode == MemMode::TrueDualPort);
            }
            assert(mappings@[a] == orig[a]);
            assert(mappings@[b] == orig[b]);
        }
        assert forall|q: int|
            0 <= q < n && orig[q].phys_type != cfg.phys_type implies #[trigger] mappings@[q]
                == orig[q] by {
            if used@[q] {
                assert(mappings@[q].mode == MemMode::TrueDualPort);
                assert(share_eligible(orig[q], *cfg));
            }
        }
    }
}

pub(crate) proof fn lemma_count_moved_ext(
    a: Seq<RamMapping>,
    b: Seq<RamMapping>,
    a2: Seq<RamMapping>,
    b2: Seq<RamMapping>,
    t: PhysType,
    n: int,
)
    requires
        forall|k: int|
            0 <= k < n ==> ((b[k].phys_type == t && b[k].group_id != a[k].group_id) == (b2[k].phys_type
                == t && b2[k].group_id != a2[k].group_id)),
    ensures
        count_moved(a, b, t, n) == count_moved(a2, b2, t, n),
    decreases n,
{
    if n > 0 {
        lemma_count_moved_ext(a, b, a2, b2, t, n - 1);
    }
}

/// The mappings after sharing on the 8K-class kind, when enabled, then on the
/// 128K-class kind, when enabled.
pub open spec fn shared_by_kinds(
    orig: Seq<RamMapping>,
    m8k_cfg: Option<PhysConfig>,
    m128k_cfg: Option<PhysConfig>,
) -> Seq<RamMapping> {
    let mid = match m8k_cfg {
        Some(c) => shared_mappings(orig, c),
        None => orig,
    };
    match m128k_cfg {
        Some(c) => shared_mappings(mid, c),
        None => mid,
    }
}

/// Shares block RAM of the 8K-class kind, then of the 128K-class kind, each when its
/// configuration is given, and takes the merged blocks off each kind's total.
pub fn apply_sharing(
    mappings: &mut Vec<RamMapping>,
    m8k_cfg: Option<&PhysConfig>,
    m128k_cfg: Option<&PhysConfig>,
    m8k_blocks: &mut i128,
    m128k_blocks: &mut i128,
)
    requires
        m8k_cfg matches Some(c) ==> c.phys_type == PhysType::Ram8K,
        m128k_cfg matches Some(c) ==> c.phys_type == PhysType::Ram128K,
        m8k_cfg matches Some(c) ==> share_ready(old(mappings)@, *c),
        m128k_cfg matches Some(c) ==> share_ready(old(mappings)@, *c),
        *old(m8k_blocks) >= i128::MIN + old(mappings)@.len(),
        *old(m128k_blocks) >= i128::MIN + old(mappings)@.len(),
    ensures
        final(mappings)@ == shared_by_kinds(
            old(mappings)@,
            match m8k_cfg {
                Some(c) => Some(*c),
                None => None,
            },
            match m128k_cfg {
                Some(c) => Some(*c),
                None => None,
            },
        ),
        final(mappings)@.len() == old(mappings)@.len(),
        *final(m8k_blocks) == *old(m8k_blocks) - count_moved(
            old(mappings)@,
            final(mappings)@,
            PhysType::Ram8K,
            old(mappings)@.len() as int,
        ),
        *final(m128k_blocks) == *old(m128k_blocks) - count_moved(
            old(mappings)@,
            final(mappings)@,
            PhysType::Ram128K,
            old(mappings)@.len() as int,
        ),
        ids_within_kind(old(mappings)@, final(mappings)@),
        m8k_cfg matches Some(c) ==> share_ready(final(mappings)@, *c) && no_pair_left(
            final(mappings)@,
            *c,
        ),
        m128k_cfg matches Some(c) ==> share_ready(final(mappings)@, *c) && no_pair_left(
            final(mappings)@,
            *c,
        ),
        m8k_cfg matches Some(c) ==> groups_sound(final(mappings)@, *c),
        m128k_cfg matches Some(c) ==> groups_sound(final(mappings)@, *c),
        forall|k: int|
            0 <= k < old(mappings)@.len() ==> #[trigger] same_but_grouping(
                old(mappings)@[k],
                final(mappings)@[k],
            ),
        forall|k: int|
            0 <= k < old(mappings)@.len() && old(mappings)@[k].phys_type == PhysType::Lutram
                ==> #[trigger] final(mappings)@[k] == old(mappings)@[k],
        m8k_cfg is None ==> forall|k: int|
            0 <= k < old(mappings)@.len() && old(mappings)@[k].phys_type == PhysType::Ram8K
                ==> #[trigger] final(mappings)@[k] == old(mappings)@[k],
        m128k_cfg is None ==> forall|k: int|
            0 <= k < old(mappings)@.len() && old(mappings)@[k].phys_type == PhysType::Ram128K
                ==> #[trigger] final(mappings)@[k] == old(mappings)@[k],
{
    let ghost orig = mappings@;
    let ghost n = orig.len() as int;
    if let Some(cfg) = m8k_cfg {
        share_type(mappings, cfg, m8k_blocks);
    } else {
        proof {
            lemma_count_moved_same(orig, PhysType::Ram8K, n);
        }
    }
    let ghost mid = mappings@;
    assert(forall|k: int| 0 <= k < n ==> #[trigger] same_but_grouping(orig[k], mid[k]));
    assert(forall|k: int|
        0 <= k < n && orig[k].phys_type != PhysType::Ram8K ==> #[trigger] mid[k] == orig[k]);
    if let Some(c) = m128k_cfg {
        assert(share_ready(mid, *c)) by {
            assert forall|k: int, l: int|
                0 <= k < n && 0 <= l < n && k != l && share_eligible(mid[k], *c)
                    && mid[l].phys_type == c.phys_type && #[trigger] mid[k].group_id
                    == #[trigger] mid[l].group_id implies false by {
                assert(same_but_grouping(orig[k], mid[k]));
                assert(same_but_grouping(orig[l], mid[l]));
                assert(mid[k] == orig[k]);
                assert(mid[l] == orig[l]);
            }
            assert forall|k: int, l: int|
                0 <= k < n && 0 <= l < n && k != l && mid[k].phys_type == c.phys_type
                    && mid[l].phys_type == c.phys_type && #[trigger] mid[k].group_id
                    == #[trigger] mid[l].group_id implies pair_sound(mid[k], mid[l], *c) by {
                assert(same_but_grouping(orig[k], mid[k]));
                assert(same_but_grouping(orig[l], mid[l]));
                assert(mid[k] == orig[k]);
                assert(mid[l] == orig[l]);
            }
        }
    }
    let ghost c128 = *m128k_blocks;
    if let Some(cfg) = m128k_cfg {
        share_type(mappings, cfg, m128k_blocks);
    } else {
        proof {
            lemma_count_moved_same(mid, PhysType::Ram128K, n);
        }
    }
    let ghost fin = mappings@;
    proof {
        let ident = Seq::new(n as nat, |q: int| q);
        if m8k_cfg is None {
            assert forall|q: int| 0 <= q < n implies #[trigger] id_source(orig, mid, q, ident[q]) by {}
            assert(id_sources(orig, mid, ident));
        }
        if m128k_cfg is None {
            assert forall|q: int| 0 <= q < n implies #[trigger] id_source(mid, fin, q, ident[q]) by {}
            assert(id_sources(mid, fin, ident));
        }
        lemma_ids_within_kind_trans(orig, mid, fin);
        if let Some(c) = m8k_cfg {
            assert(share_ready(mid, *c) && no_pair_left(mid, *c));
            assert forall|k: int| 0 <= k < n && (mid[k].phys_type == c.phys_type || fin[k].phys_type
                == c.phys_type) implies #[trigger] fin[k] == mid[k] by {
                assert(same_but_grouping(mid[k], fin[k]));
            }
            assert forall|k: int, l: int|
                0 <= k < n && 0 <= l < n && k != l && share_eligible(fin[k], *c)
                    && fin[l].phys_type == c.phys_type && #[trigger] fin[k].group_id
                    == #[trigger] fin[l].group_id implies false by {
                assert(fin[k] == mid[k]);
                assert(fin[l] == mid[l]);
            }
            assert forall|k: int, l: int|
                0 <= k < n && 0 <= l < n && k != l && fin[k].phys_type == c.phys_type
                    && fin[l].phys_type == c.phys_type && #[trigger] fin[k].group_id
                    == #[trigger] fin[l].group_id implies pair_sound(fin[k], fin[l], *c) by {
                assert(fin[k] == mid[k]);
                assert(fin[l] == mid[l]);
            }
            assert forall|i: int, j: int|
                0 <= i < j < n && #[trigger] share_eligible(fin[i], *c) && #[trigger] share_eligible(
                    fin[j],
                    *c,
                ) implies !can_pair(fin[i], fin[j], *c) by {
                assert(fin[i] == mid[i]);
                assert(fin[j] == mid[j]);
            }
        }
        assert(forall|k: int| 0 <= k < n ==> #[trigger] same_but_grouping(mid[k], fin[k]));
        assert(forall|k: int|
            0 <= k < n && mid[k].phys_type != PhysType::Ram128K ==> #[trigger] fin[k] == mid[k]);
        assert forall|k: int| 0 <= k < n implies #[trigger] same_but_grouping(orig[k], fin[k]) by {
            assert(same_but_grouping(orig[k], mid[k]));
            assert(same_but_grouping(mid[k], fin[k]));
        }
        assert forall|k: int| 0 <= k < n implies ((mid[k].phys_type == PhysType::Ram8K
            && mid[k].group_id != orig[k].group_id) == (fin[k].phys_type == PhysType::Ram8K
            && fin[k].group_id != orig[k].group_id)) by {
            assert(same_but_grouping(orig[k], mid[k]));
            assert(same_but_grouping(mid[k], fin[k]));
        }
        lemma_count_moved_ext(orig, mid, orig, fin, PhysType::Ram8K, n);
        assert forall|k: int| 0 <= k < n implies ((fin[k].phys_type == PhysType::Ram128K
            && fin[k].group_id != mid[k].group_id) == (fin[k].phys_type == PhysType::Ram128K
            && fin[k].group_id != orig[k].group_id)) by {
            assert(same_but_grouping(orig[k], mid[k]));
            assert(same_but_grouping(mid[k], fin[k]));
        }
        lemma_count_moved_ext(mid, fin, orig, fin, PhysType::Ram128K, n);
        if let Some(c) = m8k_cfg {
            assert(groups_sound(mid, *c));
            assert forall|k: int, l: int|
                0 <= k < fin.len() && 0 <= l < fin.len() && k != l && fin[k].phys_type
                    == c.phys_type && fin[l].phys_type == c.phys_type && #[trigger] fin[k].group_id
                    == #[trigger] fin[l].group_id implies pair_sound(fin[k], fin[l], *c) by {
                assert(same_but_grouping(mid[k], fin[k]));
                assert(same_but_grouping(mid[l], fin[l]));
                assert(fin[k] == mid[k]);
                assert(fin[l] == mid[l]);
            }
        }
        assert forall|k: int|
            0 <= k < n && orig[k].phys_type == PhysType::Lutram implies #[trigger] fin[k]
                == orig[k] by {
            assert(mid[k] == orig[k]);
        }
        if m8k_cfg is None {
            assert forall|k: int|
                0 <= k < n && orig[k].phys_type == PhysType::Ram8K implies #[trigger] fin[k]
                    == orig[k] by {
                assert(mid[k] == orig[k]);
            }
        }
    }
}

} // verus!
