//! Partition of the identity space among relays, in proportion to their weights.
use crate::apitypes::RelayKey;
use crate::nodename::{
    first_leaf, leaf_of, lemma_contains_leaf_range, lemma_small_pow2, node_contains,
    subtree_leaves, NodeName, HIERARCHY_DEPTH,
};
use vstd::arithmetic::div_mod::{lemma_div_is_ordered, lemma_fundamental_div_mod};
use vstd::arithmetic::power2::{lemma_pow2_pos, lemma_pow2_unfold, pow2};
use vstd::prelude::*;

verus! {

/// The number of leaves of the tree, which the normalised weights share.
pub const WEIGHT_SPACE_SIZE: u128 = 0x1_0000_0000;

#[derive(Clone, Copy, Debug, PartialEq, Eq)]
pub struct AllocationRequest {
    pub id: u32,
    /// Only breaks ties between equal weights, so that every party computes the same result.
    pub key: RelayKey,
    pub weight: u64,
}

#[derive(Debug)]
pub struct Allocation {
    pub id: u32,
    pub nodes: Vec<NodeName>,
}

/// The sum of the weights of the requests.
pub open spec fn weight_sum(s: Seq<AllocationRequest>) -> nat
    decreases s.len(),
{
    if s.len() == 0 {
        0
    } else {
        (weight_sum(s.drop_last()) + s.last().weight) as nat
    }
}

/// The number of leaves that a weight is owed out of a total.
pub open spec fn normalized_weight(weight: nat, total: nat) -> nat {
    if total == 0 {
        0
    } else {
        ((WEIGHT_SPACE_SIZE * weight) as nat / total) as nat
    }
}

/// The weight is owed an exact number of leaves.
pub open spec fn divides_evenly(weight: nat, total: nat) -> bool {
    total > 0 && (WEIGHT_SPACE_SIZE * weight) as nat % total == 0
}

/// The sum of the normalised weights of the requests.
pub open spec fn normalized_sum(s: Seq<AllocationRequest>, total: nat) -> nat
    decreases s.len(),
{
    if s.len() == 0 {
        0
    } else {
        normalized_sum(s.drop_last(), total) + normalized_weight(s.last().weight as nat, total)
    }
}

/// The number of leaves that the nodes cover together.
pub open spec fn leaves_of(nodes: Seq<NodeName>) -> nat
    decreases nodes.len(),
{
    if nodes.len() == 0 {
        0
    } else {
        leaves_of(nodes.drop_last()) + subtree_leaves(nodes.last().spec_len())
    }
}

/// The number of leaves that all allocations cover together.
pub open spec fn allocated_leaves(r: Seq<Allocation>) -> nat
    decreases r.len(),
{
    if r.len() == 0 {
        0
    } else {
        allocated_leaves(r.drop_last()) + leaves_of(r.last().nodes@)
    }
}

/// The big-endian value of a key: keys compare as their values do.
pub open spec fn key_value(k: Seq<u8>) -> nat
    decreases k.len(),
{
    if k.len() == 0 {
        0
    } else {
        (key_value(k.drop_last()) * 256 + k.last()) as nat
    }
}

/// The leaf ranges of two nodes do not overlap.
pub open spec fn leaves_apart(x: (nat, nat), y: (nat, nat)) -> bool {
    first_leaf(x) + subtree_leaves(x.0) <= first_leaf(y) || first_leaf(y) + subtree_leaves(y.0)
        <= first_leaf(x)
}

/// `(weight, key, id, index)` of the first is at least that of the second, lexicographically.
pub open spec fn ranks_at_least(w1: nat, k1: nat, d1: nat, i1: nat, w2: nat, k2: nat, d2: nat, i2: nat) -> bool {
    w1 > w2 || (w1 == w2 && (k1 > k2 || (k1 == k2 && (d1 > d2 || (d1 == d2 && i1 >= i2)))))
}

pub open spec fn seq_sum(s: Seq<u64>) -> nat
    decreases s.len(),
{
    if s.len() == 0 {
        0
    } else {
        (seq_sum(s.drop_last()) + s.last()) as nat
    }
}

proof fn lemma_seq_sum_update(s: Seq<u64>, i: int, v: u64)
    requires
        0 <= i < s.len(),
    ensures
        seq_sum(s.update(i, v)) + s[i] == seq_sum(s) + v,
    decreases s.len(),
{
    let t = s.update(i, v);
    if i == s.len() - 1 {
        assert(t.drop_last() =~= s.drop_last());
    } else {
        assert(t.drop_last() =~= s.drop_last().update(i, v));
        lemma_seq_sum_update(s.drop_last(), i, v);
    }
}

proof fn lemma_key_value_bound(k: Seq<u8>)
    ensures
        key_value(k) < pow2(8 * k.len()),
    decreases k.len(),
{
    lemma_pow2_pos(8 * k.len());
    if k.len() > 0 {
        lemma_key_value_bound(k.drop_last());
        vstd::arithmetic::power2::lemma_pow2_adds(8 * (k.len() - 1) as nat, 8);
        vstd::arithmetic::power2::lemma2_to64();
        let p = pow2(8 * (k.len() - 1) as nat);
        let v = key_value(k.drop_last());
        assert(v * 256 + k.last() < p * 256) by (nonlinear_arith)
            requires
                v < p,
                k.last() < 256,
        ;
    }
}

/// The big-endian value of a key.
fn key_number(key: &RelayKey) -> (r: u128)
    ensures
        r == key_value(key@),
{
    let mut acc: u128 = 0;
    let mut i: usize = 0;
    while i < 16
        invariant
            0 <= i <= 16,
            key@.len() == 16,
            acc == key_value(key@.take(i as int)),
        decreases 16 - i,
    {
        proof {
            lemma_key_value_bound(key@.take(i as int));
            if i < 15 {
                vstd::arithmetic::power2::lemma_pow2_strictly_increases(8 * i as nat, 120);
            }
            vstd::arithmetic::power2::lemma_pow2_adds(120, 8);
            vstd::arithmetic::power2::lemma_pow2_adds(64, 64);
            vstd::arithmetic::power2::lemma2_to64();
            let p = pow2(120);
            assert(acc * 256 + key[i as int] < p * 256) by (nonlinear_arith)
                requires
                    acc < p,
                    key[i as int] < 256,
            ;
            assert(key@.take(i + 1).drop_last() =~= key@.take(i as int));
        }
        acc = acc * 256 + key[i] as u128;
        i = i + 1;
    }
    proof {
        assert(key@.take(16) =~= key@);
    }
    acc
}

/// The request that the greedy loop serves next: the largest remaining weight, ties broken by
/// the larger key, then the larger id, then the later position.
fn pick_largest(remaining: &Vec<u64>, keys: &Vec<u128>, ids: &Vec<u32>) -> (best: usize)
    requires
        remaining.len() > 0,
        keys.len() == remaining.len(),
        ids.len() == remaining.len(),
    ensures
        best < remaining.len(),
        forall|j: int|
            0 <= j < remaining.len() ==> ranks_at_least(
                remaining[best as int] as nat,
                keys[best as int] as nat,
                ids[best as int] as nat,
                best as nat,
                #[trigger] remaining[j] as nat,
                keys[j] as nat,
                ids[j] as nat,
                j as nat,
            ),
{
    let mut best: usize = 0;
    let mut j: usize = 1;
    while j < remaining.len()
        invariant
            keys.len() == remaining.len(),
            ids.len() == remaining.len(),
            best < j <= remaining.len(),
            forall|m: int|
                0 <= m < j ==> ranks_at_least(
                    remaining[best as int] as nat,
                    keys[best as int] as nat,
                    ids[best as int] as nat,
                    best as nat,
                    #[trigger] remaining[m] as nat,
                    keys[m] as nat,
                    ids[m] as nat,
                    m as nat,
                ),
        decreases remaining.len() - j,
    {
        let wins = remaining[j] > remaining[best] || (remaining[j] == remaining[best] && (keys[j]
            > keys[best] || (keys[j] == keys[best] && ids[j] >= ids[best])));
        if wins {
            best = j;
        }
        j = j + 1;
    }
    best
}

/// Splits every cell into its two children, keeping the order of the leaves.
fn split_cells(cells: Vec<NodeName>, Ghost(depth): Ghost<nat>) -> (r: Vec<NodeName>)
    requires
        depth < HIERARCHY_DEPTH,
        forall|j: int| 0 <= j < cells.len() ==> (#[trigger] cells[j]).wf() && cells[j]@ == (depth, j as nat),
    ensures
        r.len() == 2 * cells.len(),
        forall|j: int| 0 <= j < r.len() ==> (#[trigger] r[j]).wf() && r[j]@ == ((depth + 1) as nat, j as nat),
{
    let mut r: Vec<NodeName> = Vec::new();
    let mut i: usize = 0;
    while i < cells.len()
        invariant
            depth < HIERARCHY_DEPTH,
            i <= cells.len(),
            forall|j: int| 0 <= j < cells.len() ==> (#[trigger] cells[j]).wf() && cells[j]@ == (depth, j as nat),
            r.len() == 2 * i,
            forall|j: int| 0 <= j < r.len() ==> (#[trigger] r[j]).wf() && r[j]@ == ((depth + 1) as nat, j as nat),
        decreases cells.len() - i,
    {
        let cell = cells[i];
        assert(cells[i as int].wf());
        let l = cell.left();
        let rt = cell.right();
        assert(l@ == ((depth + 1) as nat, (2 * i) as nat));
        assert(rt@ == ((depth + 1) as nat, (2 * i + 1) as nat));
        r.push(l);
        r.push(rt);
        i = i + 1;
    }
    r
}

proof fn lemma_weight_sum_bounds(s: Seq<AllocationRequest>, i: int)
    requires
        0 <= i < s.len(),
    ensures
        s[i].weight <= weight_sum(s),
    decreases s.len(),
{
    if i < s.len() - 1 {
        lemma_weight_sum_bounds(s.drop_last(), i);
    }
}

proof fn lemma_normalized_sum(s: Seq<AllocationRequest>, total: nat)
    requires
        total > 0,
    ensures
        normalized_sum(s, total) * total <= WEIGHT_SPACE_SIZE * weight_sum(s),
        (forall|i: int| 0 <= i < s.len() ==> divides_evenly(#[trigger] s[i].weight as nat, total))
            ==> normalized_sum(s, total) * total == WEIGHT_SPACE_SIZE * weight_sum(s),
    decreases s.len(),
{
    if s.len() == 0 {
        assert(normalized_sum(s, total) == 0);
        assert(weight_sum(s) == 0);
    } else {
        let p = s.drop_last();
        lemma_normalized_sum(p, total);
        let x = (WEIGHT_SPACE_SIZE * s.last().weight) as nat;
        let q = normalized_weight(s.last().weight as nat, total);
        let a = normalized_sum(p, total);
        let wp = weight_sum(p);
        assert(normalized_sum(s, total) == a + q);
        assert(weight_sum(s) == wp + s.last().weight);
        assert(q == x / total);
        lemma_fundamental_div_mod(x as int, total as int);
        vstd::arithmetic::div_mod::lemma_mod_bound(x as int, total as int);
        assert(q * total <= x) by (nonlinear_arith)
            requires
                x == total * q + x % total,
                x % total >= 0,
        ;
        assert((a + q) * total == a * total + q * total) by (nonlinear_arith);
        assert(WEIGHT_SPACE_SIZE * (wp + s.last().weight) == WEIGHT_SPACE_SIZE * wp + x) by (
        nonlinear_arith)
            requires
                x == WEIGHT_SPACE_SIZE * s.last().weight,
        ;
        if forall|i: int| 0 <= i < s.len() ==> divides_evenly(#[trigger] s[i].weight as nat, total) {
            assert forall|i: int| 0 <= i < p.len() implies divides_evenly(
                #[trigger] p[i].weight as nat,
                total,
            ) by {
                assert(p[i] == s[i]);
            }
            assert(divides_evenly(s[s.len() - 1].weight as nat, total));
            assert(q * total == x) by (nonlinear_arith)
                requires
                    x == total * q + x % total,
                    x % total == 0,
            ;
            assert(normalized_sum(s, total) * total == WEIGHT_SPACE_SIZE * weight_sum(s)) by (nonlinear_arith)
                requires
                    normalized_sum(s, total) == a + q,
                    weight_sum(s) == wp + s.last().weight,
                    a * total == WEIGHT_SPACE_SIZE * wp,
                    q * total == x,
                    x == WEIGHT_SPACE_SIZE * s.last().weight,
            ;
        }
        assert(normalized_sum(s, total) * total <= WEIGHT_SPACE_SIZE * weight_sum(s)) by (nonlinear_arith)
            requires
                normalized_sum(s, total) == a + q,
                weight_sum(s) == wp + s.last().weight,
                a * total <= WEIGHT_SPACE_SIZE * wp,
                q * total <= x,
                x == WEIGHT_SPACE_SIZE * s.last().weight,
        ;
    }
}

proof fn lemma_normalized_sum_zero(s: Seq<AllocationRequest>)
    ensures
        normalized_sum(s, 0) == 0,
    decreases s.len(),
{
    if s.len() > 0 {
        lemma_normalized_sum_zero(s.drop_last());
    }
}

/// The normalised weights share at most the whole leaf space, and all of it when every weight
/// is owed an exact number of leaves.
pub proof fn lemma_normalized_total(s: Seq<AllocationRequest>)
    requires
        weight_sum(s) > 0,
    ensures
        normalized_sum(s, weight_sum(s)) <= WEIGHT_SPACE_SIZE,
        (forall|i: int| 0 <= i < s.len() ==> divides_evenly(#[trigger] s[i].weight as nat, weight_sum(s)))
            ==> normalized_sum(s, weight_sum(s)) == WEIGHT_SPACE_SIZE,
{
    let t = weight_sum(s);
    lemma_normalized_sum(s, t);
    let a = normalized_sum(s, t);
    assert(a <= WEIGHT_SPACE_SIZE) by (nonlinear_arith)
        requires
            a * t <= WEIGHT_SPACE_SIZE * t,
            t > 0,
    ;
    if forall|i: int| 0 <= i < s.len() ==> divides_evenly(#[trigger] s[i].weight as nat, t) {
        assert(a == WEIGHT_SPACE_SIZE) by (nonlinear_arith)
            requires
                a * t == WEIGHT_SPACE_SIZE * t,
                t > 0,
        ;
    }
}

proof fn lemma_allocated_matches(r: Seq<Allocation>, s: Seq<AllocationRequest>, total: nat)
    requires
        r.len() == s.len(),
        forall|i: int|
            0 <= i < r.len() ==> leaves_of(#[trigger] r[i].nodes@) == normalized_weight(
                s[i].weight as nat,
                total,
            ),
    ensures
        allocated_leaves(r) == normalized_sum(s, total),
    decreases r.len(),
{
    if r.len() > 0 {
        let rp = r.drop_last();
        let sp = s.drop_last();
        assert forall|i: int| 0 <= i < rp.len() implies leaves_of(#[trigger] rp[i].nodes@)
            == normalized_weight(sp[i].weight as nat, total) by {
            assert(rp[i] == r[i]);
        }
        lemma_allocated_matches(rp, sp, total);
        assert(leaves_of(r[r.len() - 1].nodes@) == normalized_weight(
            s[s.len() - 1].weight as nat,
            total,
        ));
    }
}

proof fn lemma_seq_sum_bounds(s: Seq<u64>, i: int)
    requires
        0 <= i < s.len(),
    ensures
        s[i] <= seq_sum(s),
{
    lemma_seq_sum_update(s, i, 0);
}

/// Distinct nodes whose leaf ranges do not overlap contain one another in neither direction.
proof fn lemma_apart_not_contains(x: NodeName, y: NodeName)
    requires
        x.wf(),
        y.wf(),
        leaves_apart(x@, y@),
    ensures
        !node_contains(x@, y@),
{
    lemma_pow2_pos((HIERARCHY_DEPTH - y.spec_len()) as nat);
    if node_contains(x@, y@) {
        lemma_contains_leaf_range(x@, y@);
    }
}

/// Splits the identity space among the requests in proportion to their weights.
///
/// The result holds one allocation for each request, in the same order. Request `i` with weight
/// `w` out of the total `t` gets nodes that cover `floor(2^32 * w / t)` leaves; no node of the
/// result contains another. The nodes are handed out greedily, largest remaining weight first
/// (ties go to the larger key, then the larger id), from cells that halve in size when no
/// remaining weight fills a whole cell; a request takes the last free cell.
pub fn allocate(requests: &[AllocationRequest]) -> (r: Vec<Allocation>)
    ensures
        r.len() == requests.len(),
        forall|i: int| 0 <= i < r.len() ==> #[trigger] r[i].id == requests[i].id,
        forall|i: int|
            0 <= i < r.len() ==> leaves_of(#[trigger] r[i].nodes@) == normalized_weight(
                requests[i].weight as nat,
                weight_sum(requests@),
            ),
        forall|i: int, a: int|
            0 <= i < r.len() && 0 <= a < r[i].nodes.len() ==> (#[trigger] r[i].nodes[a]).wf(),
        forall|i: int, a: int, j: int, b: int|
            0 <= i < r.len() && 0 <= a < r[i].nodes.len() && 0 <= j < r.len() && 0 <= b
                < r[j].nodes.len() && (i != j || a != b) ==> !node_contains(
                #[trigger] r[i].nodes[a]@,
                #[trigger] r[j].nodes[b]@,
            ),
        allocated_leaves(r@) <= WEIGHT_SPACE_SIZE,
        weight_sum(requests@) > 0 && (forall|i: int|
            0 <= i < requests.len() ==> divides_evenly(
                #[trigger] requests[i].weight as nat,
                weight_sum(requests@),
            )) ==> allocated_leaves(r@) == WEIGHT_SPACE_SIZE,
        requests.len() == 1 && requests[0].weight > 0 ==> r[0].nodes.len() == 1 && r[0].nodes[0]@
            == (0nat, 0nat),
        forall|i: int, a: int, b: int|
            0 <= i < r.len() && 0 <= a < b < r[i].nodes.len() ==> (#[trigger] r[i].nodes[a]).spec_len()
                < (#[trigger] r[i].nodes[b]).spec_len(),
{
    let n = requests.len();
    if n == 0 {
        return Vec::new();
    }
    let mut total: u128 = 0;
    let mut i: usize = 0;
    while i < n
        invariant
            n == requests.len(),
            i <= n,
            total == weight_sum(requests@.take(i as int)),
            total <= i * 0x1_0000_0000_0000_0000,
        decreases n - i,
    {
        proof {
            assert(requests@.take(i + 1).drop_last() =~= requests@.take(i as int));
            assert((i + 1) * 0x1_0000_0000_0000_0000 <= 0x1_0000_0000_0000_0000
                * 0x1_0000_0000_0000_0000) by (nonlinear_arith)
                requires
                    i < 0x1_0000_0000_0000_0000,
            ;
        }
        total = total + requests[i].weight as u128;
        i = i + 1;
    }
    proof {
        assert(requests@.take(n as int) =~= requests@);
    }
    let mut remaining: Vec<u64> = Vec::new();
    let mut keys: Vec<u128> = Vec::new();
    let mut ids: Vec<u32> = Vec::new();
    let mut allocations: Vec<Allocation> = Vec::new();
    i = 0;
    while i < n
        invariant
            n == requests.len(),
            i <= n,
            total == weight_sum(requests@),
            remaining.len() == i,
            keys.len() == i,
            ids.len() == i,
            allocations.len() == i,
            forall|j: int| 0 <= j < i ==> #[trigger] remaining[j] == normalized_weight(
                requests[j].weight as nat,
                total as nat,
            ),
            forall|j: int| 0 <= j < i ==> #[trigger] allocations[j].id == requests[j].id,
            forall|j: int| 0 <= j < i ==> (#[trigger] allocations[j]).nodes.len() == 0,
            seq_sum(remaining@) == normalized_sum(requests@.take(i as int), total as nat),
        decreases n - i,
    {
        let w = requests[i].weight;
        let share: u64 = if total == 0 {
            0
        } else {
            proof {
                lemma_weight_sum_bounds(requests@, i as int);
                lemma_div_is_ordered(
                    (WEIGHT_SPACE_SIZE * w) as int,
                    (WEIGHT_SPACE_SIZE * total) as int,
                    total as int,
                );
                vstd::arithmetic::div_mod::lemma_div_multiples_vanish(
                    WEIGHT_SPACE_SIZE as int,
                    total as int,
                );
                assert(WEIGHT_SPACE_SIZE * w <= WEIGHT_SPACE_SIZE * total) by (nonlinear_arith)
                    requires
                        w <= total,
                ;
                assert(WEIGHT_SPACE_SIZE * total == total * WEIGHT_SPACE_SIZE);
            }
            (WEIGHT_SPACE_SIZE * (w as u128) / total) as u64
        };
        proof {
            assert(requests@.take(i + 1).drop_last() =~= requests@.take(i as int));
            assert(remaining@.push(share).drop_last() =~= remaining@);
        }
        remaining.push(share);
        keys.push(key_number(&requests[i].key));
        ids.push(requests[i].id);
        allocations.push(Allocation { id: requests[i].id, nodes: Vec::new() });
        i = i + 1;
    }
    proof {
        assert(requests@.take(n as int) =~= requests@);
        if total > 0 {
            lemma_normalized_total(requests@);
        } else {
            lemma_normalized_sum_zero(requests@);
        }
        lemma_small_pow2();
        if n == 1 && requests[0].weight > 0 {
            assert(requests@.drop_last().len() == 0);
            assert(requests@.last() == requests[0]);
            assert(weight_sum(requests@.drop_last()) == 0);
            assert(total == requests[0].weight);
            vstd::arithmetic::div_mod::lemma_div_multiples_vanish(
                WEIGHT_SPACE_SIZE as int,
                total as int,
            );
            assert(WEIGHT_SPACE_SIZE * total == total * WEIGHT_SPACE_SIZE);
            assert(remaining[0] == WEIGHT_SPACE_SIZE);
        }
    }
    proof {
        assert forall|j: int| 0 <= j < n implies #[trigger] remaining[j] < 2 * WEIGHT_SPACE_SIZE by {
            lemma_seq_sum_bounds(remaining@, j);
        }
    }
    let mut free: Vec<NodeName> = Vec::new();
    free.push(NodeName::root());
    let mut cell_size: u64 = 0x1_0000_0000;
    let ghost mut depth: nat = 0;
    loop
        invariant
            n == requests.len(),
            n > 0,
            total == weight_sum(requests@),
            remaining.len() == n,
            keys.len() == n,
            ids.len() == n,
            allocations.len() == n,
            forall|j: int| 0 <= j < n ==> #[trigger] allocations[j].id == requests[j].id,
            depth <= HIERARCHY_DEPTH,
            cell_size == subtree_leaves(depth),
            free.len() <= pow2(depth),
            forall|j: int| 0 <= j < free.len() ==> (#[trigger] free[j]).wf() && free[j]@ == (depth, j as nat),
            forall|j: int, a: int|
                0 <= j < n && 0 <= a < allocations[j].nodes.len() ==> (#[trigger] allocations[j].nodes[a]).wf()
                    && first_leaf(allocations[j].nodes[a]@) >= free.len() * cell_size,
            forall|j: int, a: int, m: int, b: int|
                0 <= j < n && 0 <= a < allocations[j].nodes.len() && 0 <= m < n && 0 <= b
                    < allocations[m].nodes.len() && (j != m || a != b) ==> leaves_apart(
                    #[trigger] allocations[j].nodes[a]@,
                    #[trigger] allocations[m].nodes[b]@,
                ),
            forall|j: int|
                0 <= j < n ==> leaves_of(#[trigger] allocations[j].nodes@) + remaining[j]
                    == normalized_weight(requests[j].weight as nat, total as nat),
            seq_sum(remaining@) <= free.len() * cell_size,
            forall|j: int| 0 <= j < n ==> #[trigger] remaining[j] < 2 * cell_size,
            forall|j: int, a: int, b: int|
                0 <= j < n && 0 <= a < b < allocations[j].nodes.len() ==> (
                #[trigger] allocations[j].nodes[a]).spec_len() < (
                #[trigger] allocations[j].nodes[b]).spec_len(),
            forall|j: int|
                0 <= j < n && allocations[j].nodes.len() > 0 ==> #[trigger] allocations[j].nodes@.last().spec_len()
                    <= depth && (allocations[j].nodes@.last().spec_len() == depth ==> remaining[j]
                    < cell_size),
            n == 1 && requests[0].weight > 0 ==> depth == 0 && ((remaining[0] == WEIGHT_SPACE_SIZE
                && allocations[0].nodes.len() == 0) || (remaining[0] == 0
                && allocations[0].nodes.len() == 1 && allocations[0].nodes[0]@ == (0nat, 0nat))),
        ensures
            forall|j: int| 0 <= j < n ==> #[trigger] remaining[j] == 0,
        decreases HIERARCHY_DEPTH - depth, seq_sum(remaining@),
    {
        let best = pick_largest(&remaining, &keys, &ids);
        let w = remaining[best];
        if w == 0 {
            break;
        }
        proof {
            lemma_seq_sum_bounds(remaining@, best as int);
            lemma_small_pow2();
            lemma_pow2_pos((HIERARCHY_DEPTH - depth) as nat);
        }
        if w < cell_size {
            let ghost k = free.len() as int;
            let ghost c = cell_size as int;
            proof {
                if depth == HIERARCHY_DEPTH {
                    assert(cell_size == 1);
                }
                lemma_pow2_unfold((HIERARCHY_DEPTH - depth) as nat);
                assert(subtree_leaves(depth) == 2 * subtree_leaves(depth + 1));
                lemma_pow2_unfold(depth + 1);
            }
            free = split_cells(free, Ghost(depth));
            cell_size = cell_size / 2;
            proof {
                let d1 = (depth + 1) as nat;
                depth = d1;
                assert forall|j: int| 0 <= j < free.len() implies (#[trigger] free[j]).wf() && free[j]@ == (
                depth, j as nat) by {
                    assert(free[j].wf());
                    assert(free[j]@ == (d1, j as nat));
                }
                assert(free.len() * cell_size == k * c) by (nonlinear_arith)
                    requires
                        c % 2 == 0,
                        free.len() == 2 * k,
                        cell_size == c / 2,
                ;
            }
        } else {
            proof {
                assert(free.len() > 0) by (nonlinear_arith)
                    requires
                        seq_sum(remaining@) <= free.len() * cell_size,
                        w <= seq_sum(remaining@),
                        w >= cell_size,
                        cell_size > 0,
                ;
            }
            let ghost old_allocations = allocations@;
            let ghost k = free.len() as int;
            let ghost old_free = free@;
            let cell = free.pop().unwrap();
            proof {
                assert(old_free[k - 1].wf());
                assert(cell@ == (depth, (k - 1) as nat));
                lemma_seq_sum_update(remaining@, best as int, (w - cell_size) as u64);
                assert(first_leaf(cell@) == (k - 1) * cell_size) by (nonlinear_arith)
                    requires
                        first_leaf(cell@) == (k - 1) * subtree_leaves(depth),
                        cell_size == subtree_leaves(depth),
                ;
                assert(k * cell_size == (k - 1) * cell_size + cell_size) by (nonlinear_arith);
            }
            remaining.set(best, w - cell_size);
            allocations[best].nodes.push(cell);
            proof {
                assert forall|j: int| 0 <= j < free.len() implies (#[trigger] free[j]).wf() && free[j]@ == (
                depth, j as nat) by {
                    assert(free[j] == old_free[j]);
                    assert(old_free[j].wf());
                }
                assert(free.len() == k - 1);
                let nodes = allocations[best as int].nodes@;
                assert(nodes.drop_last() =~= old_allocations[best as int].nodes@);
                assert forall|j: int, a: int|
                    0 <= j < n && 0 <= a < allocations[j].nodes.len() implies (#[trigger] allocations[j].nodes[a]).wf()
                        && first_leaf(allocations[j].nodes[a]@) >= free.len() * cell_size by {
                    if j == best && a == nodes.len() - 1 {
                    } else {
                        assert(allocations[j].nodes[a] == old_allocations[j].nodes[a]);
                        assert(old_allocations[j].nodes[a].wf());
                    }
                }
                assert forall|j: int, a: int, m: int, b: int|
                    0 <= j < n && 0 <= a < allocations[j].nodes.len() && 0 <= m < n && 0 <= b
                        < allocations[m].nodes.len() && (j != m || a != b) implies leaves_apart(
                        #[trigger] allocations[j].nodes[a]@,
                        #[trigger] allocations[m].nodes[b]@,
                    ) by {
                    let new_j = j == best && a == nodes.len() - 1;
                    let new_m = m == best && b == nodes.len() - 1;
                    if !new_j {
                        assert(allocations[j].nodes[a] == old_allocations[j].nodes[a]);
                        assert(old_allocations[j].nodes[a].wf());
                    }
                    if !new_m {
                        assert(allocations[m].nodes[b] == old_allocations[m].nodes[b]);
                        assert(old_allocations[m].nodes[b].wf());
                    }
                    if !new_j && !new_m {
                        assert(leaves_apart(old_allocations[j].nodes[a]@, old_allocations[m].nodes[b]@));
                    }
                }
            }
        }
    }
    proof {
        assert forall|i: int, a: int, j: int, b: int|
            0 <= i < n && 0 <= a < allocations[i].nodes.len() && 0 <= j < n && 0 <= b
                < allocations[j].nodes.len() && (i != j || a != b) implies !node_contains(
            #[trigger] allocations[i].nodes[a]@,
            #[trigger] allocations[j].nodes[b]@,
        ) by {
            lemma_apart_not_contains(allocations[i].nodes[a], allocations[j].nodes[b]);
        }
        lemma_allocated_matches(allocations@, requests@, total as nat);
        if total > 0 {
            lemma_normalized_total(requests@);
        }
    }
    allocations
}

/// Some node of the allocation contains the leaf that `identity` names.
pub open spec fn serves(a: Allocation, identity: u64) -> bool {
    exists|k: int| 0 <= k < a.nodes.len() && node_contains(#[trigger] a.nodes[k]@, leaf_of(identity as nat))
}

/// The first allocation with a node that contains the leaf of `identity`.
pub fn relay_for_identity(allocations: &[Allocation], identity: u64) -> (r: Option<usize>)
    requires
        forall|i: int, k: int|
            0 <= i < allocations.len() && 0 <= k < allocations[i].nodes.len() ==> (
            #[trigger] allocations[i].nodes[k]).wf(),
    ensures
        r matches Some(i) ==> i < allocations.len(),
        r matches Some(i) ==> serves(allocations[i as int], identity),
        r matches Some(i) ==> forall|j: int| 0 <= j < i ==> !serves(#[trigger] allocations[j], identity),
        r is None ==> forall|j: int| 0 <= j < allocations.len() ==> !serves(#[trigger] allocations[j], identity),
{
    let leaf = NodeName::number(identity);
    let mut i: usize = 0;
    while i < allocations.len()
        invariant
            i <= allocations.len(),
            leaf.wf(),
            leaf@ == leaf_of(identity as nat),
            forall|a: int, k: int|
                0 <= a < allocations.len() && 0 <= k < allocations[a].nodes.len() ==> (
                #[trigger] allocations[a].nodes[k]).wf(),
            forall|j: int| 0 <= j < i ==> !serves(#[trigger] allocations[j], identity),
        decreases allocations.len() - i,
    {
        let nodes = &allocations[i].nodes;
        let mut k: usize = 0;
        while k < nodes.len()
            invariant
                i < allocations.len(),
                nodes == &allocations[i as int].nodes,
                k <= nodes.len(),
                leaf.wf(),
                leaf@ == leaf_of(identity as nat),
                forall|m: int| 0 <= m < nodes.len() ==> (#[trigger] nodes[m]).wf(),
                forall|m: int| 0 <= m < k ==> !node_contains(#[trigger] nodes[m]@, leaf_of(identity as nat)),
                forall|j: int| 0 <= j < i ==> !serves(#[trigger] allocations[j], identity),
            decreases nodes.len() - k,
        {
            if nodes[k].contains(leaf) {
                assert(node_contains(allocations[i as int].nodes[k as int]@, leaf_of(identity as nat)));
                assert(serves(allocations[i as int], identity));
                return Some(i);
            }
            k = k + 1;
        }
        i = i + 1;
    }
    None
}

} // verus!
