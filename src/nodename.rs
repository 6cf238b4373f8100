//! Names of the nodes of the perfect binary tree of identities.
//!
//! A node is a pair `(length, path)`: the path from the root, read from the most significant of
//! its `length` low bits down. The children of `w` are `w0` and `w1`, i.e. `path << 1` and
//! `(path << 1) | 1`.
use vstd::arithmetic::div_mod::{
    lemma_div_denominator, lemma_div_is_ordered, lemma_fundamental_div_mod, lemma_mod_bound,
};
use vstd::arithmetic::power2::{
    lemma_pow2_adds, lemma_pow2_pos, lemma_pow2_strictly_increases, lemma_pow2_unfold, pow2,
};
use vstd::bits::{lemma_u64_pow2_no_overflow, lemma_u64_shl_is_mul, lemma_u64_shr_is_div};
use vstd::prelude::*;

verus! {

/// Depth of the tree: leaves have this length.
pub const HIERARCHY_DEPTH: u8 = 32;

/// A node of the tree. Only the low `length` bits of the path are kept.
#[derive(Clone, Copy, Debug, PartialEq, Eq, Hash)]
pub struct NodeName(u8, u64);

impl View for NodeName {
    /// `(length, path)`.
    type V = (nat, nat);

    closed spec fn view(&self) -> (nat, nat) {
        (self.0 as nat, self.1 as nat)
    }
}

/// The number of leaves below a node of the given length.
pub open spec fn subtree_leaves(length: nat) -> nat {
    pow2((HIERARCHY_DEPTH as nat - length) as nat)
}

/// `a` is an ancestor of `b`, or `b` itself: the path of `b` starts with the path of `a`.
pub open spec fn node_contains(a: (nat, nat), b: (nat, nat)) -> bool {
    a.0 <= b.0 && b.1 / pow2((b.0 - a.0) as nat) == a.1
}

/// The first leaf (as an index among all leaves) that a node covers.
pub open spec fn first_leaf(n: (nat, nat)) -> nat {
    n.1 * subtree_leaves(n.0)
}

/// The leaf that an identity names: its low `HIERARCHY_DEPTH` bits.
pub open spec fn leaf_of(x: nat) -> (nat, nat) {
    (HIERARCHY_DEPTH as nat, x % pow2(HIERARCHY_DEPTH as nat))
}

/// The ancestor of `n` at the given length.
pub open spec fn ancestor(n: (nat, nat), length: nat) -> (nat, nat) {
    (length, n.1 / pow2((n.0 - length) as nat))
}

impl NodeName {
    pub open spec fn spec_len(self) -> nat {
        self@.0
    }

    pub open spec fn spec_path(self) -> nat {
        self@.1
    }

    /// A node within the tree, with its high path bits cleared.
    pub open spec fn wf(self) -> bool {
        &&& self.spec_len() <= HIERARCHY_DEPTH
        &&& self.spec_path() < pow2(self.spec_len())
    }

    pub fn root() -> (r: NodeName)
        ensures
            r.wf(),
            r@ == (0nat, 0nat),
    {
        proof {
            lemma_pow2_pos(0);
        }
        NodeName(0, 0)
    }

    /// Clears the path bits above the length.
    fn canonicalized(self) -> (r: NodeName)
        requires
            self.spec_len() <= HIERARCHY_DEPTH,
        ensures
            r.wf(),
            r@ == (self.spec_len(), self.spec_path() % pow2(self.spec_len())),
    {
        proof {
            lemma_u64_pow2_no_overflow(self.0 as nat);
            lemma_u64_shl_is_mul(1, self.0 as u64);
            lemma_pow2_pos(self.0 as nat);
            lemma_mod_bound(self.1 as int, pow2(self.0 as nat) as int);
        }
        let modulus: u64 = 1u64 << (self.0 as u64);
        NodeName(self.0, self.1 % modulus)
    }

    /// The leaf named by an identity.
    pub fn number(path: u64) -> (r: NodeName)
        ensures
            r.wf(),
            r@ == leaf_of(path as nat),
    {
        NodeName(HIERARCHY_DEPTH, path).canonicalized()
    }

    pub fn new(length: u8, path: u64) -> (r: NodeName)
        requires
            length <= HIERARCHY_DEPTH,
        ensures
            r.wf(),
            r@ == (length as nat, path as nat % pow2(length as nat)),
    {
        NodeName(length, path).canonicalized()
    }

    pub fn parent(self) -> (r: NodeName)
        requires
            self.wf(),
            self.spec_len() > 0,
        ensures
            r.wf(),
            r@ == ((self.spec_len() - 1) as nat, self.spec_path() / 2),
    {
        proof {
            lemma_u64_shr_is_div(self.1, 1);
            lemma_pow2_unfold(self.0 as nat);
            lemma_small_pow2();
            lemma_div_is_ordered(self.1 as int, pow2(self.0 as nat) as int - 1, 2);
            assert((pow2(self.0 as nat) as int - 1) / 2 < pow2((self.0 - 1) as nat));
        }
        NodeName(self.0 - 1, self.1 >> 1)
    }

    pub fn left(self) -> (r: NodeName)
        requires
            self.wf(),
            self.spec_len() < HIERARCHY_DEPTH,
        ensures
            r.wf(),
            r@ == ((self.spec_len() + 1) as nat, 2 * self.spec_path()),
    {
        proof {
            lemma_pow2_unfold((self.0 + 1) as nat);
            lemma_pow2_strictly_increases(self.0 as nat, 32);
            lemma_small_pow2();
            lemma_u64_shl_is_mul(self.1, 1);
        }
        NodeName(self.0 + 1, self.1 << 1)
    }

    pub fn right(self) -> (r: NodeName)
        requires
            self.wf(),
            self.spec_len() < HIERARCHY_DEPTH,
        ensures
            r.wf(),
            r@ == ((self.spec_len() + 1) as nat, (2 * self.spec_path() + 1) as nat),
    {
        proof {
            lemma_pow2_unfold((self.0 + 1) as nat);
            lemma_pow2_strictly_increases(self.0 as nat, 32);
            lemma_small_pow2();
        }
        let p = self.1;
        assert((p << 1) | 1 == 2 * p + 1) by (bit_vector)
            requires
                p < 0x1_0000_0000,
        ;
        NodeName(self.0 + 1, (self.1 << 1) | 1)
    }

    /// A leaf whose last step goes to the left.
    pub fn is_left(self) -> (r: bool)
        ensures
            r == (self.spec_path() % 2 == 0 && self.spec_len() == HIERARCHY_DEPTH),
    {
        let p = self.1;
        assert(p & 1 == p % 2) by (bit_vector);
        self.1 & 1 == 0 && self.is_leaf()
    }

    /// A leaf whose last step goes to the right.
    pub fn is_right(self) -> (r: bool)
        ensures
            r == (self.spec_path() % 2 == 1 && self.spec_len() == HIERARCHY_DEPTH),
    {
        let p = self.1;
        assert(p & 1 == p % 2) by (bit_vector);
        self.1 & 1 == 1 && self.is_leaf()
    }

    /// The number of leaves below this node.
    pub fn subtree_size(self) -> (r: u128)
        requires
            self.wf(),
        ensures
            r == subtree_leaves(self.spec_len()),
    {
        let shift: u8 = HIERARCHY_DEPTH - self.len();
        proof {
            lemma_u64_pow2_no_overflow(shift as nat);
            lemma_u64_shl_is_mul(1, shift as u64);
        }
        (1u64 << (shift as u64)) as u128
    }

    pub fn len(self) -> (r: u8)
        ensures
            r == self.spec_len(),
    {
        self.0
    }

    /// Whether this is the root.
    pub fn is_empty(self) -> (r: bool)
        ensures
            r == (self.spec_len() == 0),
    {
        self.len() == 0
    }

    pub fn path(self) -> (r: u64)
        ensures
            r == self.spec_path(),
    {
        self.1
    }

    pub fn contains(self, other: NodeName) -> (r: bool)
        requires
            self.wf(),
            other.wf(),
        ensures
            r == node_contains(self@, other@),
    {
        if self.0 <= other.0 {
            proof {
                lemma_u64_shr_is_div(other.1, (other.0 - self.0) as u64);
            }
            (other.1 >> ((other.0 - self.0) as u64)) == self.1
        } else {
            false
        }
    }

    pub fn is_leaf(self) -> (r: bool)
        ensures
            r == (self.spec_len() == HIERARCHY_DEPTH),
    {
        self.0 == HIERARCHY_DEPTH
    }

    /// All ancestors of this node but the root, from the shallowest down to the node itself.
    pub fn walk(self) -> (r: Vec<NodeName>)
        requires
            self.wf(),
        ensures
            r.len() == self.spec_len(),
            forall|i: int|
                0 <= i < r.len() ==> (#[trigger] r[i]).wf() && r[i]@ == ancestor(self@, (i + 1) as nat),
            r.len() > 0 ==> r[r.len() - 1] == self,
    {
        let mut r: Vec<NodeName> = Vec::new();
        let mut length: u8 = 1;
        while length <= self.0
            invariant
                self.wf(),
                1 <= length <= self.spec_len() + 1,
                r.len() == length - 1,
                forall|i: int|
                    0 <= i < r.len() ==> (#[trigger] r[i]).wf() && r[i]@ == ancestor(
                        self@,
                        (i + 1) as nat,
                    ),
            decreases self.spec_len() + 1 - length,
        {
            let shift: u8 = self.0 - length;
            proof {
                lemma_u64_shr_is_div(self.1, shift as u64);
                lemma_ancestor_wf(self@, length as nat);
            }
            r.push(NodeName(length, self.1 >> (shift as u64)));
            length = length + 1;
        }
        proof {
            if r.len() > 0 {
                lemma_small_pow2();
                assert(self.spec_path() / 1 == self.spec_path());
                assert(r[r.len() - 1].wf());
                assert(r[r.len() - 1]@ == self@);
            }
        }
        r
    }
}

pub proof fn lemma_small_pow2()
    ensures
        pow2(0) == 1,
        pow2(1) == 2,
        pow2(32) == 0x1_0000_0000,
{
    vstd::arithmetic::power2::lemma2_to64();
}

/// Every ancestor of a node is a node of the tree.
pub proof fn lemma_ancestor_wf(n: (nat, nat), length: nat)
    requires
        n.0 <= HIERARCHY_DEPTH,
        n.1 < pow2(n.0),
        length <= n.0,
    ensures
        ancestor(n, length).1 < pow2(length),
{
    let d = (n.0 - length) as nat;
    lemma_pow2_adds(length, d);
    lemma_pow2_pos(d);
    lemma_pow2_pos(length);
    assert(n.1 / pow2(d) < pow2(length)) by {
        lemma_div_is_ordered(n.1 as int, (pow2(length) * pow2(d) - 1) as int, pow2(d) as int);
        lemma_div_by_product_minus_one(pow2(length) as int, pow2(d) as int);
    }
}

proof fn lemma_div_by_product_minus_one(a: int, b: int)
    requires
        a > 0,
        b > 0,
    ensures
        (a * b - 1) / b == a - 1,
{
    assert((a * b - 1) == (a - 1) * b + (b - 1)) by (nonlinear_arith);
    vstd::arithmetic::div_mod::lemma_div_multiples_vanish_fancy(a - 1, b - 1, b);
}

/// `contains` is reflexive: every node contains itself.
pub proof fn lemma_contains_reflexive(n: (nat, nat))
    ensures
        node_contains(n, n),
{
    lemma_small_pow2();
    assert(n.1 / 1 == n.1);
}

/// `contains` is transitive.
pub proof fn lemma_contains_transitive(a: (nat, nat), b: (nat, nat), c: (nat, nat))
    requires
        node_contains(a, b),
        node_contains(b, c),
    ensures
        node_contains(a, c),
{
    let d1 = (c.0 - b.0) as nat;
    let d2 = (b.0 - a.0) as nat;
    lemma_pow2_pos(d1);
    lemma_pow2_pos(d2);
    lemma_pow2_adds(d1, d2);
    assert((c.0 - a.0) as nat == d1 + d2);
    lemma_div_denominator(c.1 as int, pow2(d1) as int, pow2(d2) as int);
}

/// A node contains both its children, its parent contains it, and a child never contains its
/// parent.
pub proof fn lemma_contains_parent_child(n: (nat, nat))
    ensures
        node_contains(n, ((n.0 + 1) as nat, 2 * n.1)),
        node_contains(n, ((n.0 + 1) as nat, (2 * n.1 + 1) as nat)),
        !node_contains(((n.0 + 1) as nat, 2 * n.1), n),
        !node_contains(((n.0 + 1) as nat, (2 * n.1 + 1) as nat), n),
        n.0 > 0 ==> node_contains(((n.0 - 1) as nat, n.1 / 2), n),
{
    lemma_small_pow2();
    assert((n.0 + 1 - n.0) as nat == 1);
    assert((2 * n.1) / 2 == n.1);
    assert((2 * n.1 + 1) / 2 == n.1);
    if n.0 > 0 {
        assert((n.0 - (n.0 - 1)) as nat == 1);
    }
}

/// The leaf named by an identity whose bits above the depth are clear has that identity as path.
pub proof fn lemma_number_path(x: nat)
    requires
        x < pow2(HIERARCHY_DEPTH as nat),
    ensures
        leaf_of(x).1 == x,
{
    vstd::arithmetic::div_mod::lemma_small_mod(x, pow2(HIERARCHY_DEPTH as nat));
}

/// A node covers a range of leaves, and a node that it contains covers a part of that range.
pub proof fn lemma_contains_leaf_range(a: (nat, nat), b: (nat, nat))
    requires
        b.0 <= HIERARCHY_DEPTH,
        node_contains(a, b),
    ensures
        first_leaf(a) <= first_leaf(b),
        first_leaf(b) + subtree_leaves(b.0) <= first_leaf(a) + subtree_leaves(a.0),
{
    let d = (b.0 - a.0) as nat;
    let sb = subtree_leaves(b.0);
    lemma_pow2_pos(d);
    lemma_pow2_pos((HIERARCHY_DEPTH - b.0) as nat);
    lemma_pow2_adds((HIERARCHY_DEPTH - b.0) as nat, d);
    assert((HIERARCHY_DEPTH - a.0) as nat == (HIERARCHY_DEPTH - b.0) as nat + d);
    assert(subtree_leaves(a.0) == sb * pow2(d));
    lemma_fundamental_div_mod(b.1 as int, pow2(d) as int);
    lemma_mod_bound(b.1 as int, pow2(d) as int);
    let q = b.1 / pow2(d);
    let m = b.1 % pow2(d);
    assert(b.1 == q * pow2(d) + m);
    assert(first_leaf(b) == (q * pow2(d) + m) * sb);
    assert(first_leaf(a) == q * (sb * pow2(d)));
    assert((q * pow2(d) + m) * sb == q * (sb * pow2(d)) + m * sb) by (nonlinear_arith);
    assert(m * sb + sb <= sb * pow2(d)) by (nonlinear_arith)
        requires
            m + 1 <= pow2(d),
            sb > 0,
    ;
}

} // verus!
