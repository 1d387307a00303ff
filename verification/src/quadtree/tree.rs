//! The Barnes-Hut aggregation quadtree.
//!
//! The tree is an arena: nodes live in one `Vec` and name their children by
//! index, with `NO_CHILD` marking an absent child. Every child index is
//! strictly greater than its parent's, so walks toward the leaves terminate.
//!
//! A node stores exact aggregates of the bodies merged into it: `wx` and
//! `wy` are the mass-weighted coordinate sums, `mass` and `charge` are plain
//! sums. The center of mass is recovered by division on demand, so repeated
//! merging loses nothing.

use vstd::multiset::Multiset;
use vstd::prelude::*;

use crate::constants::{
    CHARGE_LIMIT, COORD_LIMIT, EPSILON, FIXED_POINT_SCALE, MASS_LIMIT, MAX_BODIES,
    TOTAL_MASS_LIMIT,
};
use crate::physics::div_trunc;
use crate::quadtree::boundingbox::BoundingBox;

verus! {

/// Marks an absent child.
pub const NO_CHILD: u64 = u64::MAX;

/// One node of the aggregation tree: exact aggregates plus four child slots.
#[derive(Clone, Copy, Debug, PartialEq, Eq, Structural)]
pub struct QuadNode {
    /// Sum of `mass * x` over the bodies merged into this node.
    pub wx: i128,
    /// Sum of `mass * y` over the bodies merged into this node.
    pub wy: i128,
    /// Sum of the charges of the bodies merged into this node.
    pub charge: i64,
    /// Sum of the masses of the bodies merged into this node.
    pub mass: i64,
    /// Arena index of the south-west child, or `NO_CHILD`.
    pub child_sw: u64,
    /// Arena index of the south-east child, or `NO_CHILD`.
    pub child_se: u64,
    /// Arena index of the north-west child, or `NO_CHILD`.
    pub child_nw: u64,
    /// Arena index of the north-east child, or `NO_CHILD`.
    pub child_ne: u64,
}

/// Child slot of a node for a quadrant code, `child_ne` for out-of-range
/// codes.
pub open spec fn spec_child_idx(node: QuadNode, q: int) -> u64 {
    if q == 0 {
        node.child_sw
    } else if q == 1 {
        node.child_se
    } else if q == 2 {
        node.child_nw
    } else {
        node.child_ne
    }
}

/// True when the node has no children.
pub open spec fn spec_is_leaf(node: QuadNode) -> bool {
    node.child_sw == NO_CHILD && node.child_se == NO_CHILD && node.child_nw == NO_CHILD
        && node.child_ne == NO_CHILD
}

/// X coordinate of a node's center of mass; an empty node sits at zero.
pub open spec fn spec_node_x(node: QuadNode) -> int {
    if node.mass == 0 {
        0
    } else {
        div_trunc(node.wx as int, node.mass as int)
    }
}

/// Y coordinate of a node's center of mass; an empty node sits at zero.
pub open spec fn spec_node_y(node: QuadNode) -> int {
    if node.mass == 0 {
        0
    } else {
        div_trunc(node.wy as int, node.mass as int)
    }
}

/// Magnitude of a mathematical integer.
pub open spec fn abs_int(a: int) -> int {
    if a >= 0 {
        a
    } else {
        -a
    }
}

/// Per-node structural and arithmetic invariants: child indices point
/// strictly downward in the arena, aggregates are bounded by the node's
/// mass, and every node below the root holds at least one body.
pub open spec fn wf_node(nodes: Seq<QuadNode>, n: int) -> bool {
    let node = nodes[n];
    &&& forall|q: int|
        0 <= q < 4 ==> (#[trigger] spec_child_idx(node, q) == NO_CHILD || (n < spec_child_idx(
            node,
            q,
        ) < nodes.len()))
    &&& 0 <= node.mass <= nodes[0].mass
    &&& (n >= 1 ==> node.mass >= 1)
    &&& abs_int(node.wx as int) <= node.mass * COORD_LIMIT
    &&& abs_int(node.wy as int) <= node.mass * COORD_LIMIT
    &&& abs_int(node.charge as int) <= node.mass * CHARGE_LIMIT
    &&& forall|q: int|
        0 <= q < 4 && #[trigger] spec_child_idx(node, q) != NO_CHILD ==> nodes[spec_child_idx(
            node,
            q,
        ) as int].mass <= node.mass
}

/// The node of an empty tree.
pub open spec fn spec_empty_node() -> QuadNode {
    QuadNode {
        wx: 0 as i128,
        wy: 0 as i128,
        charge: 0 as i64,
        mass: 0 as i64,
        child_sw: NO_CHILD,
        child_se: NO_CHILD,
        child_nw: NO_CHILD,
        child_ne: NO_CHILD,
    }
}

/// A fresh leaf node holding one body.
pub open spec fn spec_leaf_node(x: int, y: int, charge: int, mass: int) -> QuadNode {
    QuadNode {
        wx: (mass * x) as i128,
        wy: (mass * y) as i128,
        charge: charge as i64,
        mass: mass as i64,
        child_sw: NO_CHILD,
        child_se: NO_CHILD,
        child_nw: NO_CHILD,
        child_ne: NO_CHILD,
    }
}

/// `node` with its child slot for quadrant `q` replaced by `c`.
pub open spec fn spec_with_child(node: QuadNode, q: int, c: u64) -> QuadNode {
    if q == 0 {
        QuadNode { child_sw: c, ..node }
    } else if q == 1 {
        QuadNode { child_se: c, ..node }
    } else if q == 2 {
        QuadNode { child_nw: c, ..node }
    } else {
        QuadNode { child_ne: c, ..node }
    }
}

/// `node` with a body merged into its aggregates.
pub open spec fn spec_merged(node: QuadNode, x: int, y: int, charge: int, mass: int) -> QuadNode {
    QuadNode {
        wx: (node.wx + mass * x) as i128,
        wy: (node.wy + mass * y) as i128,
        charge: (node.charge + charge) as i64,
        mass: (node.mass + mass) as i64,
        ..node
    }
}

/// A leaf node represents exactly one inserted body: its aggregates are
/// that body's values verbatim, within the per-body limits, and its
/// weighted sums divide evenly by its mass.
pub open spec fn leaf_body_ok(node: QuadNode) -> bool {
    &&& node.mass <= MASS_LIMIT
    &&& -CHARGE_LIMIT <= node.charge <= CHARGE_LIMIT
    &&& node.wx == node.mass * spec_node_x(node)
    &&& node.wy == node.mass * spec_node_y(node)
}

/// Every leaf of the arena except `except` holds one body's exact values.
pub open spec fn wf_leaves_except(nodes: Seq<QuadNode>, except: int) -> bool {
    forall|j: int|
        0 <= j < nodes.len() && j != except && #[trigger] spec_is_leaf(nodes[j]) ==> leaf_body_ok(
            nodes[j],
        )
}

/// Every leaf of the arena holds one body's exact values.
pub open spec fn wf_leaves(nodes: Seq<QuadNode>) -> bool {
    forall|j: int|
        0 <= j < nodes.len() && #[trigger] spec_is_leaf(nodes[j]) ==> leaf_body_ok(nodes[j])
}

/// A product divided by its own positive factor is exact.
pub proof fn lemma_mul_div_exact(m: int, x: int)
    requires
        m >= 1,
    ensures
        div_trunc(m * x, m) == x,
{
    if m * x >= 0 {
        vstd::arithmetic::div_mod::lemma_fundamental_div_mod_converse(m * x, m, x, 0);
    } else {
        assert(m * (-x) == -(m * x)) by (nonlinear_arith);
        vstd::arithmetic::div_mod::lemma_fundamental_div_mod_converse(m * (-x), m, -x, 0);
    }
}

/// Whether inserting a body at `(x, y)` into the subtree rooted at a node
/// stops immediately: the node is a leaf whose body is within the
/// coincidence tolerance of the new body on both axes.
pub open spec fn spec_discard_here(node: QuadNode, x: int, y: int) -> bool {
    &&& spec_is_leaf(node)
    &&& abs_int(spec_node_x(node) - x) < EPSILON
    &&& abs_int(spec_node_y(node) - y) < EPSILON
}

/// Well-formedness of a whole arena: a rooted structure of downward child
/// indices, each child named by at most one slot, aggregates within the
/// capacity limits, and an empty root only in a one-node tree.
pub open spec fn wf_nodes(nodes: Seq<QuadNode>) -> bool {
    &&& nodes.len() >= 1
    &&& nodes.len() < NO_CHILD
    &&& nodes[0].mass <= TOTAL_MASS_LIMIT
    &&& forall|n: int| 0 <= n < nodes.len() ==> #[trigger] wf_node(nodes, n)
    &&& (nodes[0].mass == 0 ==> nodes.len() == 1 && nodes[0] == spec_empty_node())
    &&& forall|n1: int, q1: int, n2: int, q2: int|
        0 <= n1 < nodes.len() && 0 <= q1 < 4 && 0 <= n2 < nodes.len() && 0 <= q2 < 4
            && #[trigger] spec_child_idx(nodes[n1], q1) == #[trigger] spec_child_idx(nodes[n2], q2)
            && spec_child_idx(nodes[n1], q1) != NO_CHILD ==> n1 == n2 && q1 == q2
}

impl ParticleQuadtree {
    /// Full well-formedness of the arena.
    pub open spec fn wf(self) -> bool {
        wf_nodes(self.nodes@)
    }
}

/// The Barnes-Hut quadtree: an arena of aggregate nodes rooted at index 0.
#[derive(Debug)]
pub struct ParticleQuadtree {
    pub nodes: Vec<QuadNode>,
}

impl ParticleQuadtree {
    /// Creates a tree holding no bodies: a single empty root.
    pub fn empty() -> (r: Self)
        ensures
            r.wf(),
            r.nodes@.len() == 1,
            r.nodes@[0].mass == 0,
            spec_is_leaf(r.nodes@[0]),
    {
        let root = QuadNode {
            wx: 0,
            wy: 0,
            charge: 0,
            mass: 0,
            child_sw: NO_CHILD,
            child_se: NO_CHILD,
            child_nw: NO_CHILD,
            child_ne: NO_CHILD,
        };
        ParticleQuadtree { nodes: vec![root] }
    }

    /// Child slot of node `n` for quadrant code `q`.
    pub fn child_index(&self, n: usize, q: usize) -> (r: u64)
        requires
            n < self.nodes@.len(),
        ensures
            r == spec_child_idx(self.nodes@[n as int], q as int),
    {
        let node = self.nodes[n];
        match q {
            0 => node.child_sw,
            1 => node.child_se,
            2 => node.child_nw,
            _ => node.child_ne,
        }
    }

    /// Whether node `n` is a leaf, a node with all four children absent.
    pub fn is_leaf(&self, n: usize) -> (r: bool)
        requires
            n < self.nodes@.len(),
        ensures
            r == spec_is_leaf(self.nodes@[n as int]),
    {
        let node = self.nodes[n];
        node.child_sw == NO_CHILD && node.child_se == NO_CHILD && node.child_nw == NO_CHILD
            && node.child_ne == NO_CHILD
    }

    /// X coordinate of the center of mass of node `n`.
    pub fn x(&self, n: usize) -> (r: i64)
        requires
            self.wf(),
            n < self.nodes@.len(),
        ensures
            r == spec_node_x(self.nodes@[n as int]),
            -COORD_LIMIT <= r <= COORD_LIMIT,
    {
        let node = self.nodes[n];
        if node.mass == 0 {
            0
        } else {
            proof {
                assert(wf_node(self.nodes@, n as int));
                assert(wf_node(self.nodes@, 0));
                lemma_wf_node_com_bounds(self.nodes@, n as int);
            }
            (node.wx / (node.mass as i128)) as i64
        }
    }

    /// Y coordinate of the center of mass of node `n`.
    pub fn y(&self, n: usize) -> (r: i64)
        requires
            self.wf(),
            n < self.nodes@.len(),
        ensures
            r == spec_node_y(self.nodes@[n as int]),
            -COORD_LIMIT <= r <= COORD_LIMIT,
    {
        let node = self.nodes[n];
        if node.mass == 0 {
            0
        } else {
            proof {
                assert(wf_node(self.nodes@, n as int));
                assert(wf_node(self.nodes@, 0));
                lemma_wf_node_com_bounds(self.nodes@, n as int);
            }
            (node.wy / (node.mass as i128)) as i64
        }
    }

    /// Merges a body into the running center of mass of node `n`: the
    /// weighted coordinate sums and the mass grow by the body's share.
    /// Charge is accounted separately by the caller.
    pub fn update_center_of_mass(&mut self, n: usize, x: i64, y: i64, mass: i64)
        requires
            old(self).wf(),
            n < old(self).nodes@.len(),
            -COORD_LIMIT <= x <= COORD_LIMIT,
            -COORD_LIMIT <= y <= COORD_LIMIT,
            0 <= mass <= MASS_LIMIT,
            old(self).nodes@[n as int].mass + mass <= TOTAL_MASS_LIMIT,
        ensures
            final(self).nodes@ == old(self).nodes@.update(
                n as int,
                QuadNode {
                    wx: (old(self).nodes@[n as int].wx + mass * x) as i128,
                    wy: (old(self).nodes@[n as int].wy + mass * y) as i128,
                    mass: (old(self).nodes@[n as int].mass + mass) as i64,
                    ..old(self).nodes@[n as int]
                },
            ),
    {
        proof {
            assert(wf_node(self.nodes@, n as int));
            assert(wf_node(self.nodes@, 0));
            lemma_wf_node_com_bounds(self.nodes@, n as int);
            crate::physics::lemma_mul_signed_bound(mass as int, x as int, COORD_LIMIT as int);
            crate::physics::lemma_mul_signed_bound(mass as int, y as int, COORD_LIMIT as int);
            crate::physics::lemma_mul_le(
                mass as int,
                COORD_LIMIT as int,
                MASS_LIMIT as int,
                COORD_LIMIT as int,
            );
        }
        let mut node = self.nodes[n];
        node.wx = node.wx + (mass as i128) * (x as i128);
        node.wy = node.wy + (mass as i128) * (y as i128);
        node.mass = node.mass + mass;
        self.nodes.set(n, node);
    }
}

impl ParticleQuadtree {
    /// Merges a body into node `n`: weighted sums, mass and charge all grow
    /// by the body's share. The caller supplies the headroom that keeps the
    /// arena well-formed: the root must still be inside the total-mass
    /// budget and every parent of `n` must already account for the body.
    fn merge_body(&mut self, n: usize, x: i64, y: i64, charge: i64, mass: i64)
        requires
            old(self).wf(),
            n < old(self).nodes@.len(),
            -COORD_LIMIT <= x <= COORD_LIMIT,
            -COORD_LIMIT <= y <= COORD_LIMIT,
            1 <= mass <= MASS_LIMIT,
            -CHARGE_LIMIT <= charge <= CHARGE_LIMIT,
            n == 0 ==> old(self).nodes@[0].mass + mass <= TOTAL_MASS_LIMIT,
            n != 0 ==> old(self).nodes@[n as int].mass + mass <= old(self).nodes@[0].mass,
            forall|p: int, q: int|
                0 <= p < old(self).nodes@.len() && 0 <= q < 4 && #[trigger] spec_child_idx(
                    old(self).nodes@[p],
                    q,
                ) == n ==> old(self).nodes@[n as int].mass + mass <= old(self).nodes@[p].mass,
        ensures
            final(self).wf(),
            final(self).nodes@ == old(self).nodes@.update(
                n as int,
                spec_merged(old(self).nodes@[n as int], x as int, y as int, charge as int,
                mass as int),
            ),
    {
        proof {
            assert(wf_node(self.nodes@, n as int));
            assert(wf_node(self.nodes@, 0));
            lemma_wf_node_com_bounds(self.nodes@, n as int);
            crate::physics::lemma_mul_signed_bound(mass as int, x as int, COORD_LIMIT as int);
            crate::physics::lemma_mul_signed_bound(mass as int, y as int, COORD_LIMIT as int);
        }
        let mut node = self.nodes[n];
        node.wx = node.wx + (mass as i128) * (x as i128);
        node.wy = node.wy + (mass as i128) * (y as i128);
        node.charge = node.charge + charge;
        node.mass = node.mass + mass;
        self.nodes.set(n, node);
        proof {
            lemma_wf_after_merge(
                old(self).nodes@,
                n as int,
                x as int,
                y as int,
                charge as int,
                mass as int,
            );
        }
    }

    /// Appends a fresh childless node with the given aggregates and links
    /// it as child `quadrant` of `parent`, replacing whatever the slot
    /// held.
    fn push_child_node(
        &mut self,
        parent: usize,
        quadrant: usize,
        wx: i128,
        wy: i128,
        charge: i64,
        mass: i64,
    )
        requires
            old(self).wf(),
            parent < old(self).nodes@.len(),
            quadrant < 4,
            old(self).nodes@.len() + 1 < NO_CHILD,
            1 <= mass <= old(self).nodes@[parent as int].mass,
            abs_int(wx as int) <= mass * COORD_LIMIT,
            abs_int(wy as int) <= mass * COORD_LIMIT,
            abs_int(charge as int) <= mass * CHARGE_LIMIT,
        ensures
            final(self).wf(),
            final(self).nodes@ == old(self).nodes@.update(
                parent as int,
                spec_with_child(
                    old(self).nodes@[parent as int],
                    quadrant as int,
                    old(self).nodes@.len() as u64,
                ),
            ).push(
                QuadNode {
                    wx,
                    wy,
                    charge,
                    mass,
                    child_sw: NO_CHILD,
                    child_se: NO_CHILD,
                    child_nw: NO_CHILD,
                    child_ne: NO_CHILD,
                },
            ),
    {
        let fresh: u64 = self.nodes.len() as u64;
        let node = QuadNode {
            wx,
            wy,
            charge,
            mass,
            child_sw: NO_CHILD,
            child_se: NO_CHILD,
            child_nw: NO_CHILD,
            child_ne: NO_CHILD,
        };
        let mut p = self.nodes[parent];
        match quadrant {
            0 => p.child_sw = fresh,
            1 => p.child_se = fresh,
            2 => p.child_nw = fresh,
            _ => p.child_ne = fresh,
        }
        self.nodes.set(parent, p);
        self.nodes.push(node);
        proof {
            lemma_wf_after_push_child(
                old(self).nodes@,
                parent as int,
                quadrant as int,
                node,
            );
        }
    }

    /// Creates a new leaf holding one body as child `quadrant` of `parent`,
    /// replacing whatever the slot held.
    pub fn new_child(&mut self, parent: usize, quadrant: usize, x: i64, y: i64, charge: i64,
        mass: i64)
        requires
            old(self).wf(),
            parent < old(self).nodes@.len(),
            quadrant < 4,
            old(self).nodes@.len() + 1 < NO_CHILD,
            -COORD_LIMIT <= x <= COORD_LIMIT,
            -COORD_LIMIT <= y <= COORD_LIMIT,
            1 <= mass <= old(self).nodes@[parent as int].mass,
            mass <= MASS_LIMIT,
            -CHARGE_LIMIT <= charge <= CHARGE_LIMIT,
        ensures
            final(self).wf(),
            final(self).nodes@ == old(self).nodes@.update(
                parent as int,
                spec_with_child(
                    old(self).nodes@[parent as int],
                    quadrant as int,
                    old(self).nodes@.len() as u64,
                ),
            ).push(spec_leaf_node(x as int, y as int, charge as int, mass as int)),
    {
        proof {
            crate::physics::lemma_mul_signed_bound(mass as int, x as int, COORD_LIMIT as int);
            crate::physics::lemma_mul_signed_bound(mass as int, y as int, COORD_LIMIT as int);
            crate::physics::lemma_mul_le(1, CHARGE_LIMIT as int, mass as int, CHARGE_LIMIT as int);
        }
        let wx = (mass as i128) * (x as i128);
        let wy = (mass as i128) * (y as i128);
        self.push_child_node(parent, quadrant, wx, wy, charge, mass);
    }
}

impl ParticleQuadtree {
    /// Inserts a body into the subtree rooted at node `n`.
    ///
    /// The body is merged into the aggregates of every node on the descent
    /// path. When the descent reaches a leaf holding a body within the
    /// coincidence tolerance, the whole insertion is dropped and the tree
    /// is left as it was. Otherwise the leaf is split: single-child
    /// internal nodes are created, re-quadrisecting the box, until the two
    /// bodies fall into different quadrants, and both bodies are placed as
    /// fresh leaves. When the box can shrink no further (width or height
    /// of one quantum) the subdivision stops and the two bodies still
    /// become siblings of the stopped node, the new body taking the next
    /// quadrant slot after the old one's.
    #[verifier::loop_isolation(false)]
    #[verifier::rlimit(100)]
    #[verifier::spinoff_prover]
    fn insert_at(&mut self, n: usize, bounding_box: BoundingBox, x: i64, y: i64, charge: i64,
        mass: i64)
        requires
            old(self).wf(),
            wf_leaves(old(self).nodes@),
            n < old(self).nodes@.len(),
            old(self).nodes@.len() + 4 * COORD_LIMIT + 2 < NO_CHILD,
            bounding_box.wf(),
            -COORD_LIMIT <= x <= COORD_LIMIT,
            -COORD_LIMIT <= y <= COORD_LIMIT,
            1 <= mass <= MASS_LIMIT,
            charge != 0,
            -CHARGE_LIMIT <= charge <= CHARGE_LIMIT,
            old(self).nodes@[n as int].mass >= 1,
            n == 0 ==> old(self).nodes@[0].mass + mass <= TOTAL_MASS_LIMIT,
            n != 0 ==> old(self).nodes@[n as int].mass + mass <= old(self).nodes@[0].mass,
            forall|p: int, q: int|
                0 <= p < old(self).nodes@.len() && 0 <= q < 4 && #[trigger] spec_child_idx(
                    old(self).nodes@[p],
                    q,
                ) == n ==> old(self).nodes@[n as int].mass + mass <= old(self).nodes@[p].mass,
        ensures
            final(self).wf(),
            wf_leaves(final(self).nodes@),
            final(self).nodes@.len() >= old(self).nodes@.len(),
            final(self).nodes@.len() <= old(self).nodes@.len() + 4 * COORD_LIMIT + 2,
            forall|j: int| 0 <= j < n ==> final(self).nodes@[j] == old(self).nodes@[j],
            spec_discard_here(old(self).nodes@[n as int], x as int, y as int) ==> final(self).nodes@ == old(self).nodes@,
            !spec_discard_here(old(self).nodes@[n as int], x as int, y as int) ==> final(self).nodes@[n as int] == spec_with_children_of(
                spec_merged(old(self).nodes@[n as int], x as int, y as int, charge as int,
                mass as int),
                final(self).nodes@[n as int],
            ) && !spec_is_leaf(final(self).nodes@[n as int]),
            forall|j: int|
                0 <= j < old(self).nodes@.len() && !in_subtree(old(self).nodes@, n as int, j)
                    ==> final(self).nodes@[j] == old(self).nodes@[j],
            spec_insert_clean(old(self).nodes@, n as int, bounding_box, x as int, y as int)
                && local_sums_from(old(self).nodes@, n as int) ==> local_sums_from(
                final(self).nodes@,
                n as int,
            ),
            spec_insert_clean(old(self).nodes@, n as int, bounding_box, x as int, y as int)
                ==> subtree_leaves(final(self).nodes@, n as int) == subtree_leaves(
                old(self).nodes@,
                n as int,
            ).insert(spec_leaf_node(x as int, y as int, charge as int, mass as int)),
        decreases old(self).nodes@.len() - n,
    {
        let quad = bounding_box.quadrant(x, y);
        let child = self.child_index(n, quad);
        proof {
            assert(wf_node(old(self).nodes@, n as int));
        }
        if child != NO_CHILD {
            self.merge_body(n, x, y, charge, mass);
            let arena_len = self.nodes.len();
            proof {
                let nodes1 = self.nodes@;
                let nodes0 = old(self).nodes@;
                assert(wf_node(nodes0, child as int));
                assert(wf_node(nodes1, n as int));
                assert(wf_node(nodes1, child as int));
                assert(spec_child_idx(nodes1[n as int], quad as int) == child);
                assert(n < child < nodes1.len());
                assert(nodes1.len() == arena_len);
                assert(child as usize as u64 == child);
                assert forall|p: int, q: int|
                    0 <= p < nodes1.len() && 0 <= q < 4 && #[trigger] spec_child_idx(
                        nodes1[p],
                        q,
                    ) == child implies nodes1[child as int].mass + mass <= nodes1[p].mass by {
                    assert(spec_child_idx(nodes0[p], q) == spec_child_idx(nodes1[p], q));
                    assert(spec_child_idx(nodes0[n as int], quad as int) == child);
                    assert(p == n && q == quad);
                }
                assert(wf_leaves(nodes1)) by {
                    assert(forall|j: int|
                        0 <= j < nodes1.len() && j != n ==> nodes1[j] == nodes0[j]);
                    assert(!spec_is_leaf(nodes1[n as int]));
                }
            }
            let ghost nodes1 = self.nodes@;
            self.insert_at(child as usize, bounding_box.child(quad), x, y, charge, mass);
            proof {
                let nodes0 = old(self).nodes@;
                let nodes2 = self.nodes@;
                let c = child as int;
                assert(nodes2[n as int] == spec_merged(
                    nodes0[n as int],
                    x as int,
                    y as int,
                    charge as int,
                    mass as int,
                ));
                assert(forall|i: int| 0 <= i < nodes1.len() ==> #[trigger] wf_node(nodes1, i));
                assert forall|k: int|
                    0 <= k < nodes1.len() && #[trigger] in_subtree(nodes1, c, k) implies k
                    < nodes0.len() && nodes0[k] == nodes1[k] by {
                    lemma_in_subtree_range(nodes1, c, k);
                }
                lemma_subtree_frame(nodes1, nodes0, c);
                assert forall|j: int|
                    0 <= j < nodes0.len() && !in_subtree(nodes0, n as int, j) implies nodes2[j]
                    == nodes0[j] by {
                    assert(j != n);
                    if in_subtree(nodes1, c, j) {
                        assert(in_subtree(nodes0, c, j));
                        assert(in_subtree_child(nodes0, n as int, j, quad as int));
                        assert(in_subtree(nodes0, n as int, j));
                    }
                }
                if spec_insert_clean(nodes0, n as int, bounding_box, x as int, y as int)
                    && local_sums_from(nodes0, n as int) {
                    assert(spec_insert_clean(nodes0, c, bounding_box.spec_child(quad as int),
                    x as int, y as int));
                    assert forall|k: int| c <= k < nodes1.len() implies nodes1[k] == #[trigger]
                        nodes0[k] by {}
                    lemma_insert_clean_frame(
                        nodes0,
                        nodes1,
                        c,
                        bounding_box.spec_child(quad as int),
                        x as int,
                        y as int,
                    );
                    assert(spec_insert_clean(nodes1, c, bounding_box.spec_child(quad as int),
                    x as int, y as int));
                    assert(local_sums_from(nodes1, c)) by {
                        assert forall|j: int|
                            c <= j < nodes1.len() && !spec_is_leaf(#[trigger] nodes1[j]) implies
                            node_sums_children(nodes1, j) by {
                            assert(nodes1[j] == nodes0[j]);
                            assert(node_sums_children(nodes0, j));
                            assert(forall|q: int|
                                0 <= q < 4 ==> #[trigger] child_node(nodes1, j, q) == child_node(
                                    nodes0,
                                    j,
                                    q,
                                ));
                        }
                    }
                    assert(!spec_discard_here(nodes1[c], x as int, y as int)) by {
                        if spec_discard_here(nodes1[c], x as int, y as int) {
                            assert(spec_is_leaf(nodes1[c]));
                            assert(!spec_insert_clean(nodes1, c, bounding_box.spec_child(
                                quad as int), x as int, y as int));
                        }
                    }
                    assert(local_sums_from(nodes2, c));
                    assert(wf_node(nodes0, 0));
                    lemma_wf_node_com_bounds(nodes0, n as int);
                    crate::physics::lemma_mul_signed_bound(mass as int, x as int,
                    COORD_LIMIT as int);
                    crate::physics::lemma_mul_signed_bound(mass as int, y as int,
                    COORD_LIMIT as int);
                    assert(nodes1[n as int].wx as int == nodes0[n as int].wx + mass * x);
                    assert(wf_node(nodes1, 0));
                    lemma_wf_node_com_bounds(nodes1, c);
                    assert(nodes2[c].wx as int == nodes1[c].wx + mass * x);
                    assert(nodes2[c].wy as int == nodes1[c].wy + mass * y);
                    lemma_local_sums_after_descent(
                        nodes0,
                        nodes1,
                        nodes2,
                        n as int,
                        c,
                        quad as int,
                        x as int,
                        y as int,
                        charge as int,
                        mass as int,
                    );
                }
                if spec_insert_clean(nodes0, n as int, bounding_box, x as int, y as int) {
                    let leafn = spec_leaf_node(x as int, y as int, charge as int, mass as int);
                    assert(spec_insert_clean(nodes0, c, bounding_box.spec_child(quad as int),
                    x as int, y as int));
                    assert forall|k: int| c <= k < nodes1.len() implies nodes1[k] == #[trigger]
                        nodes0[k] by {}
                    lemma_insert_clean_frame(
                        nodes0,
                        nodes1,
                        c,
                        bounding_box.spec_child(quad as int),
                        x as int,
                        y as int,
                    );
                    assert(subtree_leaves(nodes2, c) == subtree_leaves(nodes1, c).insert(leafn));
                    assert(!spec_is_leaf(nodes0[n as int]));
                    assert(!spec_is_leaf(nodes1[n as int]));
                    lemma_descent_leaves(nodes0, nodes1, nodes2, n as int, c, quad as int, leafn);
                }
            }
        } else if self.is_leaf(n) {
            let px = self.x(n);
            let py = self.y(n);
            let dx = if px >= x {
                px - x
            } else {
                x - px
            };
            let dy = if py >= y {
                py - y
            } else {
                y - py
            };
            if dx < EPSILON && dy < EPSILON {
                proof {
                    assert(spec_discard_here(old(self).nodes@[n as int], x as int, y as int));
                    assert(!spec_insert_clean(old(self).nodes@, n as int, bounding_box, x as int,
                    y as int));
                }
                return ;
            }
            let p_node = self.nodes[n];
            proof {
                assert(spec_is_leaf(p_node));
                assert(leaf_body_ok(p_node));
            }
            proof {
                assert(px == spec_node_x(old(self).nodes@[n as int]));
                assert(py == spec_node_y(old(self).nodes@[n as int]));
            }
            self.merge_body(n, x, y, charge, mass);
            let ghost merged = spec_merged(
                old(self).nodes@[n as int],
                x as int,
                y as int,
                charge as int,
                mass as int,
            );
            proof {
                lemma_local_sums_after_leaf_merge(old(self).nodes@, self.nodes@, n as int);
                assert(spec_is_leaf(merged));
                assert(self.nodes@[n as int] == merged);
                assert(subtree_leaves(self.nodes@, n as int) == Multiset::singleton(merged));
                assert(in_subtree(self.nodes@, n as int, n as int));
                assert(subtree_leaves(old(self).nodes@, n as int) == Multiset::singleton(
                    old(self).nodes@[n as int],
                ));
            }
            let mut cur: usize = n;
            let mut cur_box = bounding_box;
            let mut quad2: usize = quad;
            let mut pquad: usize = cur_box.quadrant(px, py);
            while quad2 == pquad
                invariant
                    self.wf(),
                    wf_leaves_except(self.nodes@, cur as int),
                    n <= cur < self.nodes@.len(),
                    old(self).nodes@.len() <= self.nodes@.len(),
                    cur_box.wf(),
                    quad2 == cur_box.spec_quadrant(x as int, y as int),
                    pquad == cur_box.spec_quadrant(px as int, py as int),
                    quad2 < 4,
                    pquad < 4,
                    cur == n || old(self).nodes@.len() <= cur,
                    spec_is_leaf(self.nodes@[cur as int]),
                    self.nodes@[cur as int].wx == merged.wx,
                    self.nodes@[cur as int].wy == merged.wy,
                    self.nodes@[cur as int].mass == merged.mass,
                    self.nodes@[cur as int].charge == merged.charge,
                    self.nodes@[n as int] == spec_with_children_of(merged, self.nodes@[n as int]),
                    cur == n || !spec_is_leaf(self.nodes@[n as int]),
                    forall|j: int|
                        0 <= j < old(self).nodes@.len() && j != n ==> self.nodes@[j] == old(
                            self,
                        ).nodes@[j],
                    self.nodes@.len() + (cur_box.max_x - cur_box.min_x) + (cur_box.max_y
                        - cur_box.min_y) <= old(self).nodes@.len() + 4 * COORD_LIMIT,
                    old(self).nodes@.len() + 4 * COORD_LIMIT + 2 < NO_CHILD,
                    -COORD_LIMIT <= px <= COORD_LIMIT,
                    -COORD_LIMIT <= py <= COORD_LIMIT,
                    merged.mass == p_node.mass + mass,
                    1 <= p_node.mass <= MASS_LIMIT,
                    -CHARGE_LIMIT <= p_node.charge <= CHARGE_LIMIT,
                    local_sums_from(old(self).nodes@, n as int) ==> local_sums_from(
                        self.nodes@,
                        n as int,
                    ),
                    in_subtree(self.nodes@, n as int, cur as int),
                    subtree_leaves(self.nodes@, n as int) == Multiset::singleton(merged),
                decreases (cur_box.max_x - cur_box.min_x) + (cur_box.max_y - cur_box.min_y),
            {
                let w = cur_box.max_x - cur_box.min_x;
                let h = cur_box.max_y - cur_box.min_y;
                if w <= 1 || h <= 1 {
                    let other: usize = if pquad == 3 {
                        0
                    } else {
                        pquad + 1
                    };
                    let ghost before_stop = self.nodes@;
                    self.new_child(cur, pquad, px, py, p_node.charge, p_node.mass);
                    let ghost mid_stop = self.nodes@;
                    self.new_child(cur, other, x, y, charge, mass);
                    proof {
                        let nodes2 = self.nodes@;
                        lemma_mul_div_exact(p_node.mass as int, px as int);
                        lemma_mul_div_exact(p_node.mass as int, py as int);
                        lemma_mul_div_exact(mass as int, x as int);
                        lemma_mul_div_exact(mass as int, y as int);
                        crate::physics::lemma_mul_signed_bound(p_node.mass as int, px as int,
                        COORD_LIMIT as int);
                        crate::physics::lemma_mul_signed_bound(p_node.mass as int, py as int,
                        COORD_LIMIT as int);
                        crate::physics::lemma_mul_signed_bound(mass as int, x as int,
                        COORD_LIMIT as int);
                        crate::physics::lemma_mul_signed_bound(mass as int, y as int,
                        COORD_LIMIT as int);
                        assert(!spec_is_leaf(nodes2[cur as int]));
                        assert(!spec_is_leaf(nodes2[n as int]));
                        assert(leaf_body_ok(nodes2[before_stop.len() as int]));
                        assert(leaf_body_ok(nodes2[mid_stop.len() as int]));
                        assert forall|j: int|
                            0 <= j < nodes2.len() && #[trigger] spec_is_leaf(nodes2[j]) implies
                            leaf_body_ok(nodes2[j]) by {
                            if j < before_stop.len() {
                                if j != cur {
                                    assert(nodes2[j] == before_stop[j]);
                                    assert(spec_is_leaf(before_stop[j]));
                                }
                            }
                        }
                        assert forall|j: int|
                            0 <= j < old(self).nodes@.len() && !in_subtree(
                                old(self).nodes@,
                                n as int,
                                j,
                            ) implies nodes2[j] == old(self).nodes@[j] by {
                            assert(in_subtree(old(self).nodes@, n as int, n as int));
                            assert(j != n);
                            assert(j != cur);
                        }
                        if local_sums_from(old(self).nodes@, n as int) {
                            lemma_local_sums_after_split_place(
                                before_stop,
                                mid_stop,
                                nodes2,
                                n as int,
                                cur as int,
                                pquad as int,
                                other as int,
                                merged,
                            );
                        }
                        assert(before_stop[cur as int] == merged);
                        lemma_leaves_after_split_place(
                            before_stop,
                            mid_stop,
                            nodes2,
                            n as int,
                            cur as int,
                            pquad as int,
                            other as int,
                            merged,
                        );
                        assert(mid_stop[before_stop.len() as int] == old(self).nodes@[n as int]);
                        assert(nodes2[mid_stop.len() as int] == spec_leaf_node(
                            x as int,
                            y as int,
                            charge as int,
                            mass as int,
                        ));
                        assert(subtree_leaves(nodes2, n as int) == subtree_leaves(
                            old(self).nodes@,
                            n as int,
                        ).insert(spec_leaf_node(x as int, y as int, charge as int, mass as int)));
                    }
                    return ;
                }
                let d = self.nodes[cur];
                let fresh = self.nodes.len();
                proof {
                    assert(wf_node(self.nodes@, cur as int));
                }
                let ghost pre_push = self.nodes@;
                self.push_child_node(cur, quad2, d.wx, d.wy, d.charge, d.mass);
                proof {
                    let post = self.nodes@;
                    assert(post[n as int] == spec_with_children_of(merged, post[n as int]));
                    if local_sums_from(old(self).nodes@, n as int) {
                        lemma_local_sums_after_chain_push(
                            pre_push,
                            post,
                            n as int,
                            cur as int,
                            quad2 as int,
                        );
                    }
                    assert(pre_push[cur as int] == merged);
                    assert(post[fresh as int] == merged);
                    lemma_chain_push_leaves(
                        pre_push,
                        post,
                        n as int,
                        cur as int,
                        quad2 as int,
                        merged,
                    );
                }
                cur = fresh;
                cur_box = cur_box.child(quad2);
                quad2 = cur_box.quadrant(x, y);
                pquad = cur_box.quadrant(px, py);
            }
            let ghost before_place = self.nodes@;
            self.new_child(cur, pquad, px, py, p_node.charge, p_node.mass);
            let ghost mid_place = self.nodes@;
            self.new_child(cur, quad2, x, y, charge, mass);
            proof {
                let nodes2 = self.nodes@;
                lemma_mul_div_exact(p_node.mass as int, px as int);
                lemma_mul_div_exact(p_node.mass as int, py as int);
                lemma_mul_div_exact(mass as int, x as int);
                lemma_mul_div_exact(mass as int, y as int);
                crate::physics::lemma_mul_signed_bound(p_node.mass as int, px as int,
                COORD_LIMIT as int);
                crate::physics::lemma_mul_signed_bound(p_node.mass as int, py as int,
                COORD_LIMIT as int);
                crate::physics::lemma_mul_signed_bound(mass as int, x as int, COORD_LIMIT as int);
                crate::physics::lemma_mul_signed_bound(mass as int, y as int, COORD_LIMIT as int);
                assert(!spec_is_leaf(nodes2[cur as int]));
                assert(!spec_is_leaf(nodes2[n as int]));
                assert(leaf_body_ok(nodes2[before_place.len() as int]));
                assert(leaf_body_ok(nodes2[mid_place.len() as int]));
                assert forall|j: int|
                    0 <= j < nodes2.len() && #[trigger] spec_is_leaf(nodes2[j]) implies
                    leaf_body_ok(nodes2[j]) by {
                    if j < before_place.len() {
                        if j != cur {
                            assert(nodes2[j] == before_place[j]);
                            assert(spec_is_leaf(before_place[j]));
                        }
                    }
                }
                assert forall|j: int|
                    0 <= j < old(self).nodes@.len() && !in_subtree(
                        old(self).nodes@,
                        n as int,
                        j,
                    ) implies nodes2[j] == old(self).nodes@[j] by {
                    assert(in_subtree(old(self).nodes@, n as int, n as int));
                    assert(j != n);
                    assert(j != cur);
                }
                if local_sums_from(old(self).nodes@, n as int) {
                    lemma_local_sums_after_split_place(
                        before_place,
                        mid_place,
                        nodes2,
                        n as int,
                        cur as int,
                        pquad as int,
                        quad2 as int,
                        merged,
                    );
                }
                assert(before_place[cur as int] == merged);
                lemma_leaves_after_split_place(
                    before_place,
                    mid_place,
                    nodes2,
                    n as int,
                    cur as int,
                    pquad as int,
                    quad2 as int,
                    merged,
                );
                assert(mid_place[before_place.len() as int] == old(self).nodes@[n as int]);
                assert(nodes2[mid_place.len() as int] == spec_leaf_node(
                    x as int,
                    y as int,
                    charge as int,
                    mass as int,
                ));
                assert(subtree_leaves(nodes2, n as int) == subtree_leaves(
                    old(self).nodes@,
                    n as int,
                ).insert(spec_leaf_node(x as int, y as int, charge as int, mass as int)));
            }
        } else {
            self.merge_body(n, x, y, charge, mass);
            let ghost mid = self.nodes@;
            proof {
                assert(!spec_is_leaf(self.nodes@[n as int]));
            }
            self.new_child(n, quad, x, y, charge, mass);
            proof {
                let nodes0 = old(self).nodes@;
                let nodes2 = self.nodes@;
                lemma_mul_div_exact(mass as int, x as int);
                lemma_mul_div_exact(mass as int, y as int);
                crate::physics::lemma_mul_signed_bound(mass as int, x as int, COORD_LIMIT as int);
                crate::physics::lemma_mul_signed_bound(mass as int, y as int, COORD_LIMIT as int);
                assert(!spec_is_leaf(nodes2[n as int]));
                assert(leaf_body_ok(nodes2[mid.len() as int]));
                assert forall|j: int|
                    0 <= j < nodes2.len() && #[trigger] spec_is_leaf(nodes2[j]) implies
                    leaf_body_ok(nodes2[j]) by {
                    if j < mid.len() && j != n {
                        assert(nodes2[j] == nodes0[j]);
                        assert(spec_is_leaf(nodes0[j]));
                    }
                }
                assert forall|j: int|
                    0 <= j < nodes0.len() && !in_subtree(nodes0, n as int, j) implies nodes2[j]
                    == nodes0[j] by {
                    assert(in_subtree(nodes0, n as int, n as int));
                }
                assert(forall|i: int| 0 <= i < nodes0.len() ==> #[trigger] wf_node(nodes0, i));
                assert(spec_child_idx(nodes2[n as int], quad as int) == nodes0.len() as u64);
                assert(nodes2[nodes0.len() as int] == spec_leaf_node(
                    x as int,
                    y as int,
                    charge as int,
                    mass as int,
                ));
                lemma_leaves_fill_empty_slot(nodes0, nodes2, n as int, quad as int);
                if spec_insert_clean(nodes0, n as int, bounding_box, x as int, y as int)
                    && local_sums_from(nodes0, n as int) {
                    assert(!spec_is_leaf(nodes0[n as int]));
                    assert(wf_node(nodes0, 0));
                    lemma_wf_node_com_bounds(nodes0, n as int);
                    assert(nodes2[n as int].wx as int == nodes0[n as int].wx + mass * x);
                    assert(nodes2[n as int].wy as int == nodes0[n as int].wy + mass * y);
                    assert(nodes2[mid.len() as int].wx as int == mass * x);
                    assert(nodes2[mid.len() as int].wy as int == mass * y);
                    assert forall|j: int|
                        n <= j < nodes2.len() && !spec_is_leaf(#[trigger] nodes2[j]) implies
                        node_sums_children(nodes2, j) by {
                        if j == mid.len() as int {
                        } else if j == n {
                            assert(node_sums_children(nodes0, n as int));
                            assert forall|qq: int|
                                0 <= qq < 4 implies (#[trigger] child_node(nodes2, n as int,
                            qq)).wx == child_node(nodes0, n as int, qq).wx + (if qq == quad {
                                mass * x
                            } else {
                                0
                            }) && child_node(nodes2, n as int, qq).wy == child_node(nodes0,
                            n as int, qq).wy + (if qq == quad {
                                mass * y
                            } else {
                                0
                            }) && child_node(nodes2, n as int, qq).charge == child_node(nodes0,
                            n as int, qq).charge + (if qq == quad {
                                charge as int
                            } else {
                                0
                            }) && child_node(nodes2, n as int, qq).mass == child_node(nodes0,
                            n as int, qq).mass + (if qq == quad {
                                mass as int
                            } else {
                                0
                            }) by {
                                let cq = spec_child_idx(nodes0[n as int], qq);
                                if qq == quad {
                                    assert(cq == NO_CHILD);
                                    assert(child_node(nodes0, n as int, qq)
                                        == spec_empty_node());
                                    assert(spec_child_idx(nodes2[n as int], qq) == mid.len()
                                        as u64);
                                    assert(child_node(nodes2, n as int, qq) == nodes2[mid.len()
                                        as int]);
                                } else if cq != NO_CHILD {
                                    assert(n < cq < nodes0.len()) by {
                                        assert(wf_node(nodes0, n as int));
                                    }
                                    assert(nodes2[cq as int] == nodes0[cq as int]);
                                }
                            }
                        } else {
                            assert(nodes2[j] == nodes0[j]);
                            assert(node_sums_children(nodes0, j));
                            assert forall|qq: int| 0 <= qq < 4 implies #[trigger] child_node(
                                nodes2,
                                j,
                                qq,
                            ) == child_node(nodes0, j, qq) by {
                                let cq = spec_child_idx(nodes0[j], qq);
                                if cq != NO_CHILD {
                                    assert(j < cq < nodes0.len()) by {
                                        assert(wf_node(nodes0, j));
                                    }
                                    assert(nodes2[cq as int] == nodes0[cq as int]);
                                }
                            }
                        }
                    }
                }
            }
        }
    }

    /// Inserts a body into the tree, descending from the root under the
    /// given bounding box.
    ///
    /// A body with zero mass or zero charge contributes to neither force
    /// term and is dropped without touching the tree. Into an empty tree
    /// the body's values are written directly, making the root a
    /// provisional leaf. Otherwise the body is merged into the running
    /// aggregates along the descent path; a body within the coincidence
    /// tolerance of the leaf it reaches is discarded, leaving the tree
    /// unchanged.
    pub fn insert(&mut self, x: i64, y: i64, charge: i64, mass: i64, bounding_box: BoundingBox)
        requires
            old(self).wf(),
            wf_leaves(old(self).nodes@),
            old(self).nodes@.len() + 4 * COORD_LIMIT + 2 < NO_CHILD,
            bounding_box.wf(),
            -COORD_LIMIT <= x <= COORD_LIMIT,
            -COORD_LIMIT <= y <= COORD_LIMIT,
            0 <= mass <= MASS_LIMIT,
            -CHARGE_LIMIT <= charge <= CHARGE_LIMIT,
            old(self).nodes@[0].mass + mass <= TOTAL_MASS_LIMIT,
        ensures
            final(self).wf(),
            wf_leaves(final(self).nodes@),
            final(self).nodes@.len() >= old(self).nodes@.len(),
            final(self).nodes@.len() <= old(self).nodes@.len() + 4 * COORD_LIMIT + 2,
            mass == 0 || charge == 0 ==> final(self).nodes@ == old(self).nodes@,
            mass != 0 && charge != 0 && old(self).nodes@[0].mass == 0 ==> final(self).nodes@
                == old(self).nodes@.update(
                0,
                spec_leaf_node(x as int, y as int, charge as int, mass as int),
            ),
            mass != 0 && charge != 0 && old(self).nodes@[0].mass != 0 && spec_discard_here(
                old(self).nodes@[0],
                x as int,
                y as int,
            ) ==> final(self).nodes@ == old(self).nodes@,
            mass != 0 && charge != 0 && old(self).nodes@[0].mass != 0 && !spec_discard_here(
                old(self).nodes@[0],
                x as int,
                y as int,
            ) ==> final(self).nodes@[0] == spec_with_children_of(
                spec_merged(old(self).nodes@[0], x as int, y as int, charge as int, mass as int),
                final(self).nodes@[0],
            ) && !spec_is_leaf(final(self).nodes@[0]),
            child_sums_ok(old(self).nodes@) && (old(self).nodes@[0].mass != 0
                ==> spec_insert_clean(old(self).nodes@, 0, bounding_box, x as int, y as int))
                ==> child_sums_ok(final(self).nodes@),
            mass != 0 && charge != 0 && old(self).nodes@[0].mass == 0 ==> subtree_leaves(
                final(self).nodes@,
                0,
            ) == Multiset::singleton(spec_leaf_node(x as int, y as int, charge as int,
            mass as int)),
            mass != 0 && charge != 0 && old(self).nodes@[0].mass != 0 && spec_insert_clean(
                old(self).nodes@,
                0,
                bounding_box,
                x as int,
                y as int,
            ) ==> subtree_leaves(final(self).nodes@, 0) == subtree_leaves(
                old(self).nodes@,
                0,
            ).insert(spec_leaf_node(x as int, y as int, charge as int, mass as int)),
    {
        if charge == 0 || mass == 0 {
            return ;
        }
        if self.nodes[0].mass == 0 {
            proof {
                assert(wf_node(self.nodes@, 0));
                crate::physics::lemma_mul_signed_bound(mass as int, x as int, COORD_LIMIT as int);
                crate::physics::lemma_mul_signed_bound(mass as int, y as int, COORD_LIMIT as int);
            }
            let wx = (mass as i128) * (x as i128);
            let wy = (mass as i128) * (y as i128);
            let node = QuadNode {
                wx,
                wy,
                charge,
                mass,
                child_sw: NO_CHILD,
                child_se: NO_CHILD,
                child_nw: NO_CHILD,
                child_ne: NO_CHILD,
            };
            self.nodes.set(0, node);
            proof {
                let nodes2 = self.nodes@;
                assert(nodes2.len() == 1);
                assert forall|i: int| 0 <= i < nodes2.len() implies #[trigger] wf_node(
                    nodes2,
                    i,
                ) by {
                    crate::physics::lemma_mul_le(1, CHARGE_LIMIT as int, mass as int,
                    CHARGE_LIMIT as int);
                }
                lemma_mul_div_exact(mass as int, x as int);
                lemma_mul_div_exact(mass as int, y as int);
                assert(spec_is_leaf(nodes2[0]));
                assert(subtree_leaves(nodes2, 0) == Multiset::singleton(nodes2[0]));
            }
            return ;
        }
        proof {
            assert(wf_node(self.nodes@, 0));
            assert forall|p: int, q: int|
                0 <= p < self.nodes@.len() && 0 <= q < 4 && #[trigger] spec_child_idx(
                    self.nodes@[p],
                    q,
                ) == 0 implies false by {
                assert(wf_node(self.nodes@, p));
            }
        }
        self.insert_at(0, bounding_box, x, y, charge, mass);
    }
}

/// The root's aggregate state as a function of the bodies inserted so far:
/// exact weighted sums plus whether the tree is still a single provisional
/// leaf (and where that leaf sits).
pub struct RootSums {
    pub wx: int,
    pub wy: int,
    pub charge: int,
    pub mass: int,
    pub leaf_x: int,
    pub leaf_y: int,
    pub single: bool,
}

/// How one insertion changes the root aggregates: bodies with zero mass or
/// charge are dropped; the first accepted body fills the empty root; a body
/// coinciding with a still-single leaf is discarded; every other body is
/// merged into the sums.
pub open spec fn spec_root_step(prev: RootSums, x: int, y: int, q: int, m: int) -> RootSums {
    if m == 0 || q == 0 {
        prev
    } else if prev.mass == 0 {
        RootSums { wx: m * x, wy: m * y, charge: q, mass: m, leaf_x: x, leaf_y: y, single: true }
    } else if prev.single && abs_int(prev.leaf_x - x) < EPSILON && abs_int(prev.leaf_y - y)
        < EPSILON {
        prev
    } else {
        RootSums {
            wx: prev.wx + m * x,
            wy: prev.wy + m * y,
            charge: prev.charge + q,
            mass: prev.mass + m,
            leaf_x: prev.leaf_x,
            leaf_y: prev.leaf_y,
            single: false,
        }
    }
}

/// Root aggregates after inserting the first `i` bodies in array order.
pub open spec fn spec_root_sums(
    position: Seq<crate::physics::vector::Vector3D>,
    charge: Seq<i64>,
    mass: Seq<i64>,
    i: int,
) -> RootSums
    decreases i,
{
    if i <= 0 {
        RootSums { wx: 0, wy: 0, charge: 0, mass: 0, leaf_x: 0, leaf_y: 0, single: false }
    } else {
        spec_root_step(
            spec_root_sums(position, charge, mass, i - 1),
            position[i - 1].x as int,
            position[i - 1].y as int,
            charge[i - 1] as int,
            mass[i - 1] as int,
        )
    }
}

/// Sum of the first `i` masses.
pub open spec fn spec_mass_sum(mass: Seq<i64>, i: int) -> int
    decreases i,
{
    if i <= 0 {
        0
    } else {
        spec_mass_sum(mass, i - 1) + mass[i - 1]
    }
}

/// Prefix sums of nonnegative masses are monotone.
pub proof fn lemma_mass_sum_monotone(mass: Seq<i64>, i: int, j: int)
    requires
        0 <= i <= j <= mass.len(),
        forall|k: int| 0 <= k < mass.len() ==> #[trigger] mass[k] >= 0,
    ensures
        spec_mass_sum(mass, i) <= spec_mass_sum(mass, j),
    decreases j - i,
{
    if i < j {
        lemma_mass_sum_monotone(mass, i, j - 1);
    }
}

/// The root's running mass never exceeds the masses fed in so far.
pub proof fn lemma_root_sums_mass_bound(
    position: Seq<crate::physics::vector::Vector3D>,
    charge: Seq<i64>,
    mass: Seq<i64>,
    i: int,
)
    requires
        0 <= i <= mass.len(),
        forall|k: int| 0 <= k < mass.len() ==> #[trigger] mass[k] >= 0,
    ensures
        0 <= spec_root_sums(position, charge, mass, i).mass <= spec_mass_sum(mass, i),
    decreases i,
{
    if i > 0 {
        lemma_root_sums_mass_bound(position, charge, mass, i - 1);
    }
}

impl ParticleQuadtree {
    /// Builds the aggregation tree for one simulation step: every body is
    /// inserted once, in array order, against a single shared root and the
    /// full simulation bounding box. The resulting root carries exactly
    /// the aggregates that `spec_root_sums` ascribes to the body arrays.
    pub fn new(
        position: &Vec<crate::physics::vector::Vector3D>,
        charge: &Vec<i64>,
        mass: &Vec<i64>,
        bounding_box: BoundingBox,
    ) -> (r: Self)
        requires
            position@.len() == charge@.len(),
            position@.len() == mass@.len(),
            position@.len() <= MAX_BODIES,
            bounding_box.wf(),
            forall|k: int|
                0 <= k < position@.len() ==> -COORD_LIMIT <= #[trigger] position@[k].x
                    <= COORD_LIMIT && -COORD_LIMIT <= position@[k].y <= COORD_LIMIT,
            forall|k: int| 0 <= k < mass@.len() ==> 0 <= #[trigger] mass@[k] <= MASS_LIMIT,
            forall|k: int|
                0 <= k < charge@.len() ==> -CHARGE_LIMIT <= #[trigger] charge@[k] <= CHARGE_LIMIT,
            spec_mass_sum(mass@, mass@.len() as int) <= TOTAL_MASS_LIMIT,
        ensures
            r.wf(),
            wf_leaves(r.nodes@),
            ({
                let sums = spec_root_sums(position@, charge@, mass@, position@.len() as int);
                &&& r.nodes@[0].wx == sums.wx
                &&& r.nodes@[0].wy == sums.wy
                &&& r.nodes@[0].charge == sums.charge
                &&& r.nodes@[0].mass == sums.mass
            }),
    {
        let mut root: ParticleQuadtree = Self::empty();
        let n = position.len();
        let mut i: usize = 0;
        while i < n
            invariant
                position@.len() == n,
                charge@.len() == n,
                mass@.len() == n,
                n <= MAX_BODIES,
                0 <= i <= n,
                bounding_box.wf(),
                forall|k: int|
                    0 <= k < position@.len() ==> -COORD_LIMIT <= #[trigger] position@[k].x
                        <= COORD_LIMIT && -COORD_LIMIT <= position@[k].y <= COORD_LIMIT,
                forall|k: int| 0 <= k < mass@.len() ==> 0 <= #[trigger] mass@[k] <= MASS_LIMIT,
                forall|k: int|
                    0 <= k < charge@.len() ==> -CHARGE_LIMIT <= #[trigger] charge@[k]
                        <= CHARGE_LIMIT,
                spec_mass_sum(mass@, n as int) <= TOTAL_MASS_LIMIT,
                root.wf(),
                wf_leaves(root.nodes@),
                root.nodes@.len() <= 1 + (i as int) * 4_000_000_002,
                ({
                    let sums = spec_root_sums(position@, charge@, mass@, i as int);
                    &&& root.nodes@[0].wx == sums.wx
                    &&& root.nodes@[0].wy == sums.wy
                    &&& root.nodes@[0].charge == sums.charge
                    &&& root.nodes@[0].mass == sums.mass
                    &&& (sums.mass != 0 ==> (spec_is_leaf(root.nodes@[0]) <==> sums.single))
                    &&& (sums.mass != 0 && sums.single ==> spec_node_x(root.nodes@[0])
                        == sums.leaf_x && spec_node_y(root.nodes@[0]) == sums.leaf_y)
                }),
            decreases n - i,
        {
            let ghost sums_pre = spec_root_sums(position@, charge@, mass@, i as int);
            let ghost pre = root.nodes@;
            proof {
                lemma_root_sums_mass_bound(position@, charge@, mass@, i as int);
                lemma_mass_sum_monotone(mass@, i as int, n as int);
                assert(root.nodes@[0].mass + mass@[i as int] <= TOTAL_MASS_LIMIT) by {
                    assert(spec_mass_sum(mass@, i + 1) == spec_mass_sum(mass@, i as int)
                        + mass@[i as int]);
                    lemma_mass_sum_monotone(mass@, i + 1, n as int);
                }
                assert(root.nodes@.len() + 4 * COORD_LIMIT + 2 < NO_CHILD) by {
                    assert((i as int) * 4_000_000_002 <= (MAX_BODIES as int) * 4_000_000_002);
                }
                assert(wf_node(pre, 0));
                lemma_wf_node_com_bounds(pre, 0);
            }
            let p = position[i];
            root.insert(p.x, p.y, charge[i], mass[i], bounding_box);
            proof {
                let bx = position@[i as int].x as int;
                let by = position@[i as int].y as int;
                let bq = charge@[i as int] as int;
                let bm = mass@[i as int] as int;
                let sums_post = spec_root_sums(position@, charge@, mass@, i + 1);
                assert(sums_post == spec_root_step(sums_pre, bx, by, bq, bm));
                crate::physics::lemma_mul_signed_bound(bm, bx, COORD_LIMIT as int);
                crate::physics::lemma_mul_signed_bound(bm, by, COORD_LIMIT as int);
                if bm == 0 || bq == 0 {
                    assert(root.nodes@ == pre);
                    assert(sums_post == sums_pre);
                } else if sums_pre.mass == 0 {
                    lemma_mul_div_exact(bm, bx);
                    lemma_mul_div_exact(bm, by);
                    assert(root.nodes@[0] == spec_leaf_node(bx, by, bq, bm));
                    assert(spec_is_leaf(root.nodes@[0]));
                    assert(spec_node_x(root.nodes@[0]) == bx);
                } else if spec_discard_here(pre[0], bx, by) {
                    assert(root.nodes@ == pre);
                    assert(sums_pre.single);
                    assert(sums_post == sums_pre);
                } else {
                    assert(!(sums_pre.single && abs_int(sums_pre.leaf_x - bx) < EPSILON && abs_int(
                        sums_pre.leaf_y - by,
                    ) < EPSILON));
                    assert(root.nodes@[0] == spec_with_children_of(
                        spec_merged(pre[0], bx, by, bq, bm),
                        root.nodes@[0],
                    ));
                    assert(root.nodes@[0].wx == pre[0].wx + bm * bx);
                    assert(!spec_is_leaf(root.nodes@[0]));
                    assert(!sums_post.single);
                }
            }
            i = i + 1;
        }
        root
    }
}

/// Mass-weighted sum of the x coordinates of the first `i` bodies.
pub open spec fn spec_wsum_x(
    position: Seq<crate::physics::vector::Vector3D>,
    mass: Seq<i64>,
    i: int,
) -> int
    decreases i,
{
    if i <= 0 {
        0
    } else {
        spec_wsum_x(position, mass, i - 1) + mass[i - 1] * position[i - 1].x
    }
}

/// Mass-weighted sum of the y coordinates of the first `i` bodies.
pub open spec fn spec_wsum_y(
    position: Seq<crate::physics::vector::Vector3D>,
    mass: Seq<i64>,
    i: int,
) -> int
    decreases i,
{
    if i <= 0 {
        0
    } else {
        spec_wsum_y(position, mass, i - 1) + mass[i - 1] * position[i - 1].y
    }
}

/// Sum of the first `i` charges.
pub open spec fn spec_charge_sum(charge: Seq<i64>, i: int) -> int
    decreases i,
{
    if i <= 0 {
        0
    } else {
        spec_charge_sum(charge, i - 1) + charge[i - 1]
    }
}

/// Law: for any set of bodies with positive masses and nonzero charges in
/// which no body is discarded as coincident — with bodies at pairwise
/// distinct positions, only the second body could ever be, because from the
/// third insertion on the root is no longer a single leaf — the root node
/// aggregates the whole set exactly: its mass and charge are the sums over
/// all bodies, and its weighted coordinate sums are the mass-weighted sums
/// of all body positions. The root's center of mass is therefore the
/// mass-weighted average of all body positions.
pub proof fn lemma_root_center_of_mass(
    position: Seq<crate::physics::vector::Vector3D>,
    charge: Seq<i64>,
    mass: Seq<i64>,
    i: int,
)
    requires
        0 <= i <= position.len(),
        position.len() == charge.len(),
        position.len() == mass.len(),
        forall|k: int| 0 <= k < mass.len() ==> #[trigger] mass[k] >= 1,
        forall|k: int| 0 <= k < charge.len() ==> #[trigger] charge[k] != 0,
        i >= 2 ==> !(abs_int(position[1].x - position[0].x) < EPSILON && abs_int(
            position[1].y - position[0].y,
        ) < EPSILON),
    ensures
        spec_root_sums(position, charge, mass, i).wx == spec_wsum_x(position, mass, i),
        spec_root_sums(position, charge, mass, i).wy == spec_wsum_y(position, mass, i),
        spec_root_sums(position, charge, mass, i).mass == spec_mass_sum(mass, i),
        spec_root_sums(position, charge, mass, i).charge == spec_charge_sum(charge, i),
        i >= 1 ==> spec_root_sums(position, charge, mass, i).mass >= 1,
        i == 1 ==> spec_root_sums(position, charge, mass, i).single && spec_root_sums(
            position,
            charge,
            mass,
            i,
        ).leaf_x == position[0].x && spec_root_sums(position, charge, mass, i).leaf_y
            == position[0].y,
        i >= 2 ==> !spec_root_sums(position, charge, mass, i).single,
    decreases i,
{
    if i > 0 {
        lemma_root_center_of_mass(position, charge, mass, i - 1);
    }
}

/// `template` with its four child slots taken from `slots`: the aggregates
/// of one node and the children of another.
pub open spec fn spec_with_children_of(template: QuadNode, slots: QuadNode) -> QuadNode {
    QuadNode {
        child_sw: slots.child_sw,
        child_se: slots.child_se,
        child_nw: slots.child_nw,
        child_ne: slots.child_ne,
        ..template
    }
}

/// Merging a body into a node keeps the arena well-formed, provided the
/// root has budget for it and every parent of the node has already merged
/// the same body.
proof fn lemma_wf_after_merge(nodes: Seq<QuadNode>, n: int, x: int, y: int, charge: int, mass: int)
    requires
        wf_nodes(nodes),
        0 <= n < nodes.len(),
        -COORD_LIMIT <= x <= COORD_LIMIT,
        -COORD_LIMIT <= y <= COORD_LIMIT,
        1 <= mass <= MASS_LIMIT,
        -CHARGE_LIMIT <= charge <= CHARGE_LIMIT,
        n == 0 ==> nodes[0].mass + mass <= TOTAL_MASS_LIMIT,
        n != 0 ==> nodes[n].mass + mass <= nodes[0].mass,
        forall|p: int, q: int|
            0 <= p < nodes.len() && 0 <= q < 4 && #[trigger] spec_child_idx(nodes[p], q) == n
                ==> nodes[n].mass + mass <= nodes[p].mass,
    ensures
        wf_nodes(nodes.update(n, spec_merged(nodes[n], x, y, charge, mass))),
{
    let merged = spec_merged(nodes[n], x, y, charge, mass);
    let nodes2 = nodes.update(n, merged);
    assert(wf_node(nodes, n));
    assert(wf_node(nodes, 0));
    crate::physics::lemma_mul_signed_bound(mass, x, COORD_LIMIT as int);
    crate::physics::lemma_mul_signed_bound(mass, y, COORD_LIMIT as int);
    assert forall|i: int| 0 <= i < nodes2.len() implies #[trigger] wf_node(nodes2, i) by {
        assert(wf_node(nodes, i));
        assert(forall|q: int|
            0 <= q < 4 ==> #[trigger] spec_child_idx(nodes2[i], q) == spec_child_idx(nodes[i], q));
        if i == n {
            assert(0 <= merged.mass <= nodes2[0].mass);
        } else {
            assert forall|q: int|
                0 <= q < 4 && #[trigger] spec_child_idx(nodes2[i], q) != NO_CHILD implies
                nodes2[spec_child_idx(nodes2[i], q) as int].mass <= nodes2[i].mass by {
                if spec_child_idx(nodes[i], q) == n {
                    assert(nodes[n].mass + mass <= nodes[i].mass);
                }
            }
        }
    }
    assert forall|n1: int, q1: int, n2: int, q2: int|
        0 <= n1 < nodes2.len() && 0 <= q1 < 4 && 0 <= n2 < nodes2.len() && 0 <= q2 < 4
            && #[trigger] spec_child_idx(nodes2[n1], q1) == #[trigger] spec_child_idx(
            nodes2[n2],
            q2,
        ) && spec_child_idx(nodes2[n1], q1) != NO_CHILD implies n1 == n2 && q1 == q2 by {
        assert(spec_child_idx(nodes2[n1], q1) == spec_child_idx(nodes[n1], q1));
        assert(spec_child_idx(nodes2[n2], q2) == spec_child_idx(nodes[n2], q2));
    }
}

/// Appending a fresh childless node and linking it under `parent` keeps the
/// arena well-formed.
proof fn lemma_wf_after_push_child(nodes: Seq<QuadNode>, parent: int, quadrant: int, node: QuadNode)
    requires
        wf_nodes(nodes),
        0 <= parent < nodes.len(),
        0 <= quadrant < 4,
        nodes.len() + 1 < NO_CHILD,
        spec_is_leaf(node),
        1 <= node.mass <= nodes[parent].mass,
        abs_int(node.wx as int) <= node.mass * COORD_LIMIT,
        abs_int(node.wy as int) <= node.mass * COORD_LIMIT,
        abs_int(node.charge as int) <= node.mass * CHARGE_LIMIT,
    ensures
        wf_nodes(
            nodes.update(
                parent,
                spec_with_child(nodes[parent], quadrant, nodes.len() as u64),
            ).push(node),
        ),
{
    let fresh = nodes.len() as u64;
    let nodes2 = nodes.update(parent, spec_with_child(nodes[parent], quadrant, fresh)).push(node);
    assert(wf_node(nodes, parent));
    assert(wf_node(nodes, 0));
    assert(nodes2[0].mass == nodes[0].mass);
    assert forall|i: int| 0 <= i < nodes2.len() implies #[trigger] wf_node(nodes2, i) by {
        if i == nodes.len() {
            assert(forall|q: int| 0 <= q < 4 ==> #[trigger] spec_child_idx(node, q) == NO_CHILD);
        } else {
            assert(wf_node(nodes, i));
            if i == parent {
                assert(forall|q: int|
                    0 <= q < 4 && q != quadrant ==> #[trigger] spec_child_idx(nodes2[i], q)
                        == spec_child_idx(nodes[i], q));
                assert(spec_child_idx(nodes2[i], quadrant) == fresh);
                assert(nodes2[fresh as int].mass <= nodes2[i].mass);
            } else {
                assert(forall|q: int|
                    0 <= q < 4 ==> #[trigger] spec_child_idx(nodes2[i], q) == spec_child_idx(
                        nodes[i],
                        q,
                    ));
            }
        }
    }
    assert forall|n1: int, q1: int, n2: int, q2: int|
        0 <= n1 < nodes2.len() && 0 <= q1 < 4 && 0 <= n2 < nodes2.len() && 0 <= q2 < 4
            && #[trigger] spec_child_idx(nodes2[n1], q1) == #[trigger] spec_child_idx(
            nodes2[n2],
            q2,
        ) && spec_child_idx(nodes2[n1], q1) != NO_CHILD implies n1 == n2 && q1 == q2 by {
        if n1 < nodes.len() && n2 < nodes.len() {
            if !(n1 == parent && q1 == quadrant) && !(n2 == parent && q2 == quadrant) {
                assert(spec_child_idx(nodes2[n1], q1) == spec_child_idx(nodes[n1], q1));
                assert(spec_child_idx(nodes2[n2], q2) == spec_child_idx(nodes[n2], q2));
                assert(wf_node(nodes, n1));
                assert(wf_node(nodes, n2));
            } else if n1 == parent && q1 == quadrant && !(n2 == parent && q2 == quadrant) {
                assert(spec_child_idx(nodes2[n2], q2) == spec_child_idx(nodes[n2], q2));
                assert(wf_node(nodes, n2));
                assert(spec_child_idx(nodes[n2], q2) != fresh);
            } else if n2 == parent && q2 == quadrant && !(n1 == parent && q1 == quadrant) {
                assert(spec_child_idx(nodes2[n1], q1) == spec_child_idx(nodes[n1], q1));
                assert(wf_node(nodes, n1));
                assert(spec_child_idx(nodes[n1], q1) != fresh);
            }
        } else {
            assert(n1 == nodes.len() ==> spec_child_idx(nodes2[n1], q1) == NO_CHILD);
            assert(n2 == nodes.len() ==> spec_child_idx(nodes2[n2], q2) == NO_CHILD);
        }
    }
}

/// Under `wf_node`, a node's aggregates and its center of mass stay within
/// the global capacity limits.
pub proof fn lemma_wf_node_com_bounds(nodes: Seq<QuadNode>, n: int)
    requires
        0 <= n < nodes.len(),
        wf_node(nodes, n),
        nodes[0].mass <= TOTAL_MASS_LIMIT,
        0 <= nodes[0].mass,
    ensures
        abs_int(nodes[n].wx as int) <= TOTAL_MASS_LIMIT * COORD_LIMIT,
        abs_int(nodes[n].wy as int) <= TOTAL_MASS_LIMIT * COORD_LIMIT,
        abs_int(nodes[n].charge as int) <= TOTAL_MASS_LIMIT * CHARGE_LIMIT,
        nodes[n].mass >= 1 ==> -COORD_LIMIT <= div_trunc(
            nodes[n].wx as int,
            nodes[n].mass as int,
        ) <= COORD_LIMIT,
        nodes[n].mass >= 1 ==> -COORD_LIMIT <= div_trunc(
            nodes[n].wy as int,
            nodes[n].mass as int,
        ) <= COORD_LIMIT,
{
    let node = nodes[n];
    let m = node.mass as int;
    crate::physics::lemma_mul_le(m, COORD_LIMIT as int, TOTAL_MASS_LIMIT as int, COORD_LIMIT as int);
    crate::physics::lemma_mul_le(
        m,
        CHARGE_LIMIT as int,
        TOTAL_MASS_LIMIT as int,
        CHARGE_LIMIT as int,
    );
    if m >= 1 {
        lemma_div_trunc_bound(node.wx as int, m, COORD_LIMIT as int);
        lemma_div_trunc_bound(node.wy as int, m, COORD_LIMIT as int);
    }
}

/// Truncating division by a positive divisor keeps a symmetric bound:
/// `|n| <= d * limit` gives `|n / d| <= limit`.
pub proof fn lemma_div_trunc_bound(n: int, d: int, limit: int)
    requires
        d >= 1,
        0 <= limit,
        abs_int(n) <= d * limit,
    ensures
        -limit <= div_trunc(n, d) <= limit,
        0 <= n ==> 0 <= div_trunc(n, d),
        n < 0 ==> div_trunc(n, d) <= 0,
{
    if n >= 0 {
        assert(0 <= n / d && n / d <= limit) by (nonlinear_arith)
            requires
                d >= 1 && 0 <= n <= d * limit && 0 <= limit,
        ;
    } else {
        assert(0 <= (-n) / d && (-n) / d <= limit) by (nonlinear_arith)
            requires
                d >= 1 && 0 <= -n <= d * limit && 0 <= limit,
        ;
    }
}

/// Whether node `j` lies in the subtree rooted at `r`.
pub open spec fn in_subtree(nodes: Seq<QuadNode>, r: int, j: int) -> bool
    decreases nodes.len() - r, 1int,
{
    if 0 <= r < nodes.len() {
        ||| j == r
        ||| in_subtree_child(nodes, r, j, 0)
        ||| in_subtree_child(nodes, r, j, 1)
        ||| in_subtree_child(nodes, r, j, 2)
        ||| in_subtree_child(nodes, r, j, 3)
    } else {
        false
    }
}

/// Whether node `j` lies below child slot `q` of node `r`.
pub open spec fn in_subtree_child(nodes: Seq<QuadNode>, r: int, j: int, q: int) -> bool
    decreases nodes.len() - r, 0int,
{
    let c = spec_child_idx(nodes[r], q);
    c != NO_CHILD && r < c < nodes.len() && in_subtree(nodes, c as int, j)
}

/// Sums of the weighted coordinates, charges and masses of the leaves of
/// the subtree rooted at `n`, as the tuple `(wx, wy, charge, mass)`.
pub open spec fn subtree_leaf_sums(nodes: Seq<QuadNode>, n: int) -> (int, int, int, int)
    decreases nodes.len() - n, 1int,
{
    if 0 <= n < nodes.len() {
        if spec_is_leaf(nodes[n]) {
            (nodes[n].wx as int, nodes[n].wy as int, nodes[n].charge as int, nodes[n].mass as int)
        } else {
            let s0 = subtree_leaf_sums_child(nodes, n, 0);
            let s1 = subtree_leaf_sums_child(nodes, n, 1);
            let s2 = subtree_leaf_sums_child(nodes, n, 2);
            let s3 = subtree_leaf_sums_child(nodes, n, 3);
            (
                s0.0 + s1.0 + s2.0 + s3.0,
                s0.1 + s1.1 + s2.1 + s3.1,
                s0.2 + s1.2 + s2.2 + s3.2,
                s0.3 + s1.3 + s2.3 + s3.3,
            )
        }
    } else {
        (0, 0, 0, 0)
    }
}

/// Leaf sums below one child slot; zero when the slot is absent.
pub open spec fn subtree_leaf_sums_child(nodes: Seq<QuadNode>, n: int, q: int) -> (
    int,
    int,
    int,
    int,
)
    decreases nodes.len() - n, 0int,
{
    let c = spec_child_idx(nodes[n], q);
    if c != NO_CHILD && n < c < nodes.len() {
        subtree_leaf_sums(nodes, c as int)
    } else {
        (0, 0, 0, 0)
    }
}


/// The leaves of the subtree rooted at `n`, as a multiset of leaf nodes.
/// Each leaf holds one inserted body's values, so this is the bag of
/// bodies the subtree represents.
pub open spec fn subtree_leaves(nodes: Seq<QuadNode>, n: int) -> Multiset<QuadNode>
    decreases nodes.len() - n, 1int,
{
    if 0 <= n < nodes.len() {
        if spec_is_leaf(nodes[n]) {
            Multiset::singleton(nodes[n])
        } else {
            subtree_leaves_child(nodes, n, 0).add(subtree_leaves_child(nodes, n, 1)).add(
                subtree_leaves_child(nodes, n, 2),
            ).add(subtree_leaves_child(nodes, n, 3))
        }
    } else {
        Multiset::empty()
    }
}

/// Leaves below one child slot; empty when the slot is absent.
pub open spec fn subtree_leaves_child(nodes: Seq<QuadNode>, n: int, q: int) -> Multiset<QuadNode>
    decreases nodes.len() - n, 0int,
{
    let c = spec_child_idx(nodes[n], q);
    if c != NO_CHILD && n < c < nodes.len() {
        subtree_leaves(nodes, c as int)
    } else {
        Multiset::empty()
    }
}

/// A subtree unchanged between two arenas keeps its membership and its
/// leaf aggregate sums.
pub proof fn lemma_subtree_frame(nodes1: Seq<QuadNode>, nodes2: Seq<QuadNode>, n: int)
    requires
        0 <= n < nodes1.len(),
        forall|i: int| 0 <= i < nodes1.len() ==> #[trigger] wf_node(nodes1, i),
        forall|j: int|
            0 <= j < nodes1.len() && #[trigger] in_subtree(nodes1, n, j) ==> j < nodes2.len()
                && nodes2[j] == nodes1[j],
    ensures
        subtree_leaf_sums(nodes2, n) == subtree_leaf_sums(nodes1, n),
        subtree_leaves(nodes2, n) == subtree_leaves(nodes1, n),
        forall|j: int|
            #[trigger] in_subtree(nodes2, n, j) <==> in_subtree(nodes1, n, j) && 0 <= j
                < nodes1.len(),
    decreases nodes1.len() - n, 1int,
{
    assert(in_subtree(nodes1, n, n));
    assert(nodes2[n] == nodes1[n]);
    assert(wf_node(nodes1, n));
    lemma_subtree_frame_child(nodes1, nodes2, n, 0);
    lemma_subtree_frame_child(nodes1, nodes2, n, 1);
    lemma_subtree_frame_child(nodes1, nodes2, n, 2);
    lemma_subtree_frame_child(nodes1, nodes2, n, 3);
    assert forall|j: int| #[trigger] in_subtree(nodes2, n, j) implies in_subtree(nodes1, n, j) && 0
        <= j < nodes1.len() by {
        if j != n {
            if in_subtree_child(nodes2, n, j, 0) {
            } else if in_subtree_child(nodes2, n, j, 1) {
            } else if in_subtree_child(nodes2, n, j, 2) {
            } else {
                assert(in_subtree_child(nodes2, n, j, 3));
            }
        }
    }
    assert forall|j: int| in_subtree(nodes1, n, j) && 0 <= j < nodes1.len() implies #[trigger]
        in_subtree(nodes2, n, j) by {
        if j != n {
            if in_subtree_child(nodes1, n, j, 0) {
                assert(in_subtree_child(nodes2, n, j, 0));
            } else if in_subtree_child(nodes1, n, j, 1) {
                assert(in_subtree_child(nodes2, n, j, 1));
            } else if in_subtree_child(nodes1, n, j, 2) {
                assert(in_subtree_child(nodes2, n, j, 2));
            } else {
                assert(in_subtree_child(nodes1, n, j, 3));
                assert(in_subtree_child(nodes2, n, j, 3));
            }
        }
    }
}

/// Slot-wise form of `lemma_subtree_frame`.
proof fn lemma_subtree_frame_child(nodes1: Seq<QuadNode>, nodes2: Seq<QuadNode>, n: int, q: int)
    requires
        0 <= n < nodes1.len(),
        0 <= q < 4,
        forall|i: int| 0 <= i < nodes1.len() ==> #[trigger] wf_node(nodes1, i),
        forall|j: int|
            0 <= j < nodes1.len() && #[trigger] in_subtree(nodes1, n, j) ==> j < nodes2.len()
                && nodes2[j] == nodes1[j],
    ensures
        subtree_leaf_sums_child(nodes2, n, q) == subtree_leaf_sums_child(nodes1, n, q),
        subtree_leaves_child(nodes2, n, q) == subtree_leaves_child(nodes1, n, q),
        forall|j: int|
            #[trigger] in_subtree_child(nodes2, n, j, q) <==> in_subtree_child(nodes1, n, j, q)
                && 0 <= j < nodes1.len(),
    decreases nodes1.len() - n, 0int,
{
    assert(in_subtree(nodes1, n, n));
    assert(nodes2[n] == nodes1[n]);
    assert(wf_node(nodes1, n));
    let c = spec_child_idx(nodes1[n], q);
    if c != NO_CHILD {
        assert(n < c < nodes1.len());
        assert forall|j: int|
            0 <= j < nodes1.len() && #[trigger] in_subtree(nodes1, c as int, j) implies j
            < nodes2.len() && nodes2[j] == nodes1[j] by {
            assert(in_subtree_child(nodes1, n, j, q));
            assert(in_subtree(nodes1, n, j));
        }
        lemma_subtree_frame(nodes1, nodes2, c as int);
        assert forall|j: int| #[trigger] in_subtree_child(nodes1, n, j, q) && 0 <= j
            < nodes1.len() implies in_subtree_child(nodes2, n, j, q) by {
            assert(in_subtree(nodes2, c as int, j));
        }
        assert forall|j: int| #[trigger] in_subtree_child(nodes2, n, j, q) implies
            in_subtree_child(nodes1, n, j, q) && 0 <= j < nodes1.len() by {
            assert(in_subtree(nodes2, c as int, j));
            assert(in_subtree(nodes1, c as int, j) && 0 <= j < nodes1.len());
            lemma_in_subtree_range(nodes1, c as int, j);
        }
    }
}

/// Subtree membership is bounded by the arena and downward in index.
pub proof fn lemma_in_subtree_range(nodes: Seq<QuadNode>, n: int, j: int)
    requires
        forall|i: int| 0 <= i < nodes.len() ==> #[trigger] wf_node(nodes, i),
        in_subtree(nodes, n, j),
    ensures
        n <= j < nodes.len(),
    decreases nodes.len() - n,
{
    assert(wf_node(nodes, n));
    if j != n {
        if in_subtree_child(nodes, n, j, 0) {
            lemma_in_subtree_range(nodes, spec_child_idx(nodes[n], 0) as int, j);
        } else if in_subtree_child(nodes, n, j, 1) {
            lemma_in_subtree_range(nodes, spec_child_idx(nodes[n], 1) as int, j);
        } else if in_subtree_child(nodes, n, j, 2) {
            lemma_in_subtree_range(nodes, spec_child_idx(nodes[n], 2) as int, j);
        } else {
            assert(in_subtree_child(nodes, n, j, 3));
            lemma_in_subtree_range(nodes, spec_child_idx(nodes[n], 3) as int, j);
        }
    }
}

/// Whether every internal node at or above arena index `n` carries the
/// plain sums of its children's aggregates. Child indices always exceed
/// their parent's, so this suffix form follows an insertion down the
/// tree: the nodes still to be visited all lie at higher indices.
pub open spec fn local_sums_from(nodes: Seq<QuadNode>, n: int) -> bool {
    forall|j: int|
        n <= j < nodes.len() && !spec_is_leaf(#[trigger] nodes[j]) ==> node_sums_children(
            nodes,
            j,
        )
}

/// Whether every internal node's aggregates — weighted coordinate sums,
/// charge and mass — are the plain sums of its children's: the local
/// shape the incremental merge maintains whenever no insertion is
/// discarded as coincident.
pub open spec fn child_sums_ok(nodes: Seq<QuadNode>) -> bool {
    local_sums_from(nodes, 0)
}

/// Whether inserting the body at `(x, y)` into the subtree rooted at `n`
/// runs cleanly: the descent meets no leaf within the coincidence
/// tolerance, so the body is not discarded.
pub open spec fn spec_insert_clean(
    nodes: Seq<QuadNode>,
    n: int,
    bb: BoundingBox,
    x: int,
    y: int,
) -> bool
    decreases nodes.len() - n,
{
    if 0 <= n < nodes.len() {
        let q = bb.spec_quadrant(x, y);
        let c = spec_child_idx(nodes[n], q);
        if c != NO_CHILD {
            if n < c < nodes.len() {
                spec_insert_clean(nodes, c as int, bb.spec_child(q), x, y)
            } else {
                true
            }
        } else if spec_is_leaf(nodes[n]) {
            !spec_discard_here(nodes[n], x, y)
        } else {
            true
        }
    } else {
        true
    }
}

/// The child node in one slot, or the empty node when the slot is
/// absent: the zero element of every aggregate sum.
pub open spec fn child_node(nodes: Seq<QuadNode>, n: int, q: int) -> QuadNode {
    let c = spec_child_idx(nodes[n], q);
    if c != NO_CHILD && n < c < nodes.len() {
        nodes[c as int]
    } else {
        spec_empty_node()
    }
}

/// Whether one node's aggregates are exactly the sums of its children's:
/// weighted coordinate sums, charge and mass alike.
pub open spec fn node_sums_children(nodes: Seq<QuadNode>, j: int) -> bool {
    let c0 = child_node(nodes, j, 0);
    let c1 = child_node(nodes, j, 1);
    let c2 = child_node(nodes, j, 2);
    let c3 = child_node(nodes, j, 3);
    &&& nodes[j].wx as int == c0.wx + c1.wx + c2.wx + c3.wx
    &&& nodes[j].wy as int == c0.wy + c1.wy + c2.wy + c3.wy
    &&& nodes[j].charge as int == c0.charge + c1.charge + c2.charge + c3.charge
    &&& nodes[j].mass as int == c0.mass + c1.mass + c2.mass + c3.mass
}

/// Law: merging aggregates one level at a time loses nothing. In a
/// well-formed arena where every internal node carries the sums of its
/// children's aggregates, every internal node's weighted coordinate
/// sums, charge and mass equal the sums over all its descendant leaves
/// exactly — so its stored center of mass is the mass-weighted mean of
/// the bodies in its subtree: the incremental merge associates.
pub proof fn lemma_child_sums_aggregate_to_leaves(nodes: Seq<QuadNode>, n: int)
    requires
        forall|i: int| 0 <= i < nodes.len() ==> #[trigger] wf_node(nodes, i),
        child_sums_ok(nodes),
        0 <= n < nodes.len(),
    ensures
        nodes[n].wx as int == subtree_leaf_sums(nodes, n).0,
        nodes[n].wy as int == subtree_leaf_sums(nodes, n).1,
        nodes[n].charge as int == subtree_leaf_sums(nodes, n).2,
        nodes[n].mass as int == subtree_leaf_sums(nodes, n).3,
    decreases nodes.len() - n,
{
    assert(wf_node(nodes, n));
    if !spec_is_leaf(nodes[n]) {
        assert(node_sums_children(nodes, n));
        assert forall|q: int| 0 <= q < 4 implies #[trigger] subtree_leaf_sums_child(nodes, n, q)
            == (
            child_node(nodes, n, q).wx as int,
            child_node(nodes, n, q).wy as int,
            child_node(nodes, n, q).charge as int,
            child_node(nodes, n, q).mass as int,
        ) by {
            let c = spec_child_idx(nodes[n], q);
            if c != NO_CHILD {
                lemma_child_sums_aggregate_to_leaves(nodes, c as int);
            }
        }
        let s0 = subtree_leaf_sums_child(nodes, n, 0);
        let s1 = subtree_leaf_sums_child(nodes, n, 1);
        let s2 = subtree_leaf_sums_child(nodes, n, 2);
        let s3 = subtree_leaf_sums_child(nodes, n, 3);
        assert(subtree_leaf_sums(nodes, n) == (
            s0.0 + s1.0 + s2.0 + s3.0,
            s0.1 + s1.1 + s2.1 + s3.1,
            s0.2 + s1.2 + s2.2 + s3.2,
            s0.3 + s1.3 + s2.3 + s3.3,
        ));
        assert(s0.0 == child_node(nodes, n, 0).wx && s1.0 == child_node(nodes, n, 1).wx && s2.0
            == child_node(nodes, n, 2).wx && s3.0 == child_node(nodes, n, 3).wx);
        assert(s0.1 == child_node(nodes, n, 0).wy && s1.1 == child_node(nodes, n, 1).wy && s2.1
            == child_node(nodes, n, 2).wy && s3.1 == child_node(nodes, n, 3).wy);
        assert(s0.2 == child_node(nodes, n, 0).charge && s1.2 == child_node(nodes, n, 1).charge
            && s2.2 == child_node(nodes, n, 2).charge && s3.2 == child_node(nodes, n, 3).charge);
        assert(s0.3 == child_node(nodes, n, 0).mass && s1.3 == child_node(nodes, n, 1).mass
            && s2.3 == child_node(nodes, n, 2).mass && s3.3 == child_node(nodes, n, 3).mass);
    }
}

/// Merging a body into a leaf keeps the suffix of local sums intact: the
/// merged node is still a leaf and no other node changes.
proof fn lemma_local_sums_after_leaf_merge(nodes0: Seq<QuadNode>, nodes1: Seq<QuadNode>, n: int)
    requires
        0 <= n < nodes0.len(),
        nodes1.len() == nodes0.len(),
        spec_is_leaf(nodes1[n]),
        forall|j: int| 0 <= j < nodes0.len() && j != n ==> nodes1[j] == #[trigger] nodes0[j],
    ensures
        local_sums_from(nodes0, n) ==> local_sums_from(nodes1, n),
{
    if local_sums_from(nodes0, n) {
        assert forall|j: int|
            n <= j < nodes1.len() && !spec_is_leaf(#[trigger] nodes1[j]) implies
            node_sums_children(nodes1, j) by {
            assert(j != n);
            assert(nodes1[j] == nodes0[j]);
            assert(node_sums_children(nodes0, j));
            assert forall|q: int| 0 <= q < 4 implies #[trigger] child_node(nodes1, j, q)
                == child_node(nodes0, j, q) by {
                let c = spec_child_idx(nodes0[j], q);
                if c != NO_CHILD && j < c < nodes0.len() {
                    assert(nodes1[c as int] == nodes0[c as int]);
                }
            }
        }
    }
}

/// Linking a fresh copy of the running merge under the current chain node
/// keeps the suffix of local sums intact: the chain node had no children
/// and now has exactly one, with its own aggregates.
proof fn lemma_local_sums_after_chain_push(
    pre: Seq<QuadNode>,
    post: Seq<QuadNode>,
    n: int,
    cur: int,
    q: int,
)
    requires
        forall|i: int| 0 <= i < pre.len() ==> #[trigger] wf_node(pre, i),
        0 <= n <= cur < pre.len(),
        0 <= q < 4,
        spec_is_leaf(pre[cur]),
        post.len() == pre.len() + 1,
        post == pre.update(cur, spec_with_child(pre[cur], q, pre.len() as u64)).push(
            post[pre.len() as int],
        ),
        post[pre.len() as int] == pre[cur as int],
        pre.len() < NO_CHILD,
        local_sums_from(pre, n),
    ensures
        local_sums_from(post, n),
{
    assert forall|j: int|
        n <= j < post.len() && !spec_is_leaf(#[trigger] post[j]) implies node_sums_children(
        post, j) by {
        if j == pre.len() as int {
            assert(spec_is_leaf(post[j]));
        } else if j == cur {
            assert(post[cur] == spec_with_child(pre[cur], q, pre.len() as u64));
            assert(spec_child_idx(post[cur], q) == pre.len() as u64);
            assert(child_node(post, cur, q) == post[pre.len() as int]);
            assert forall|qq: int| 0 <= qq < 4 && qq != q implies #[trigger] child_node(
                post,
                cur,
                qq,
            ) == spec_empty_node() by {
                assert(spec_child_idx(post[cur], qq) == spec_child_idx(pre[cur], qq));
                assert(spec_child_idx(pre[cur], qq) == NO_CHILD);
            }
        } else {
            assert(post[j] == pre[j]);
            assert(!spec_is_leaf(pre[j]));
            assert(node_sums_children(pre, j));
            assert forall|qq: int|
                0 <= qq < 4 implies (#[trigger] child_node(post, j, qq)).wx == child_node(
                pre, j, qq).wx && child_node(post, j, qq).wy == child_node(pre, j, qq).wy
                && child_node(post, j, qq).charge == child_node(pre, j, qq).charge
                && child_node(post, j, qq).mass == child_node(pre, j, qq).mass by {
                let c = spec_child_idx(pre[j], qq);
                if c != NO_CHILD {
                    assert(j < c < pre.len()) by {
                        assert(wf_node(pre, j));
                    }
                    assert(post[c as int].wx == pre[c as int].wx && post[c as int].wy
                        == pre[c as int].wy && post[c as int].charge == pre[c as int].charge
                        && post[c as int].mass == pre[c as int].mass);
                }
            }
        }
    }
}

/// Placing the old body and the new body as the two leaves of the last
/// chain node restores the local sums there: the node's aggregates are
/// exactly the two leaves' aggregates together.
proof fn lemma_local_sums_after_split_place(
    before: Seq<QuadNode>,
    mid: Seq<QuadNode>,
    after: Seq<QuadNode>,
    n: int,
    cur: int,
    pq: int,
    q2: int,
    merged: QuadNode,
)
    requires
        forall|i: int| 0 <= i < before.len() ==> #[trigger] wf_node(before, i),
        0 <= n <= cur < before.len(),
        0 <= pq < 4,
        0 <= q2 < 4,
        pq != q2,
        spec_is_leaf(before[cur]),
        before[cur].wx == merged.wx,
        before[cur].wy == merged.wy,
        before[cur].charge == merged.charge,
        before[cur].mass == merged.mass,
        mid.len() == before.len() + 1,
        after.len() == mid.len() + 1,
        mid == before.update(cur, spec_with_child(before[cur], pq, before.len() as u64)).push(
            mid[before.len() as int],
        ),
        after == mid.update(cur, spec_with_child(mid[cur], q2, mid.len() as u64)).push(
            after[mid.len() as int],
        ),
        spec_is_leaf(mid[before.len() as int]),
        spec_is_leaf(after[mid.len() as int]),
        mid[before.len() as int].wx + after[mid.len() as int].wx == merged.wx,
        mid[before.len() as int].wy + after[mid.len() as int].wy == merged.wy,
        mid[before.len() as int].charge + after[mid.len() as int].charge == merged.charge,
        mid[before.len() as int].mass + after[mid.len() as int].mass == merged.mass,
        before.len() + 1 < NO_CHILD,
        local_sums_from(before, n),
    ensures
        local_sums_from(after, n),
{
    assert forall|j: int|
        n <= j < after.len() && !spec_is_leaf(#[trigger] after[j]) implies node_sums_children(
        after, j) by {
        if j == before.len() as int || j == mid.len() as int {
            assert(after[before.len() as int] == mid[before.len() as int]);
            assert(spec_is_leaf(after[j]));
        } else if j == cur {
            assert(spec_child_idx(after[cur], pq) == before.len() as u64);
            assert(spec_child_idx(after[cur], q2) == mid.len() as u64);
            assert(after[before.len() as int] == mid[before.len() as int]);
            assert(child_node(after, cur, pq) == after[before.len() as int]);
            assert(child_node(after, cur, q2) == after[mid.len() as int]);
            assert forall|qq: int| 0 <= qq < 4 && qq != pq && qq != q2 implies #[trigger]
                child_node(after, cur, qq) == spec_empty_node() by {
                assert(spec_child_idx(after[cur], qq) == spec_child_idx(before[cur], qq));
                assert(spec_child_idx(before[cur], qq) == NO_CHILD);
            }
            assert(after[cur].wx == before[cur].wx && after[cur].wy == before[cur].wy
                && after[cur].charge == before[cur].charge && after[cur].mass
                == before[cur].mass);
        } else {
            assert(after[j] == before[j]);
            assert(!spec_is_leaf(before[j]));
            assert(node_sums_children(before, j));
            assert forall|qq: int|
                0 <= qq < 4 implies (#[trigger] child_node(after, j, qq)).wx == child_node(
                before, j, qq).wx && child_node(after, j, qq).wy == child_node(before, j, qq).wy
                && child_node(after, j, qq).charge == child_node(before, j, qq).charge
                && child_node(after, j, qq).mass == child_node(before, j, qq).mass by {
                let c = spec_child_idx(before[j], qq);
                if c != NO_CHILD {
                    assert(j < c < before.len()) by {
                        assert(wf_node(before, j));
                    }
                    assert(after[c as int].wx == before[c as int].wx && after[c as int].wy
                        == before[c as int].wy && after[c as int].charge
                        == before[c as int].charge && after[c as int].mass
                        == before[c as int].mass);
                }
            }
        }
    }
}

/// Whether an insertion runs cleanly depends only on the arena at and
/// above the start node.
proof fn lemma_insert_clean_frame(
    nodes1: Seq<QuadNode>,
    nodes2: Seq<QuadNode>,
    n: int,
    bb: BoundingBox,
    x: int,
    y: int,
)
    requires
        nodes1.len() == nodes2.len(),
        0 <= n < nodes1.len(),
        forall|j: int| n <= j < nodes1.len() ==> nodes2[j] == #[trigger] nodes1[j],
    ensures
        spec_insert_clean(nodes2, n, bb, x, y) == spec_insert_clean(nodes1, n, bb, x, y),
    decreases nodes1.len() - n,
{
    let q = bb.spec_quadrant(x, y);
    let c = spec_child_idx(nodes1[n], q);
    if c != NO_CHILD && n < c < nodes1.len() {
        lemma_insert_clean_frame(nodes1, nodes2, c as int, bb.spec_child(q), x, y);
    }
}

/// After a body has been merged into a node and inserted below its
/// `quad` child, every node from the merged one upward in index again
/// carries the sums of its children's aggregates.
#[verifier::rlimit(100)]
#[verifier::spinoff_prover]
proof fn lemma_local_sums_after_descent(
    nodes0: Seq<QuadNode>,
    nodes1: Seq<QuadNode>,
    nodes2: Seq<QuadNode>,
    n: int,
    c: int,
    quad: int,
    x: int,
    y: int,
    charge: int,
    mass: int,
)
    requires
        wf_nodes(nodes1),
        nodes1.len() == nodes0.len(),
        0 <= n < nodes0.len(),
        n < c < nodes0.len(),
        0 <= quad < 4,
        spec_child_idx(nodes1[n], quad) as int == c,
        spec_child_idx(nodes1[n], quad) != NO_CHILD,
        forall|j: int| 0 <= j < nodes1.len() && j != n ==> nodes1[j] == #[trigger] nodes0[j],
        nodes1[n].wx as int == nodes0[n].wx + mass * x,
        nodes1[n].wy as int == nodes0[n].wy + mass * y,
        nodes1[n].charge as int == nodes0[n].charge + charge,
        nodes1[n].mass as int == nodes0[n].mass + mass,
        forall|q: int|
            0 <= q < 4 ==> #[trigger] spec_child_idx(nodes1[n], q) == spec_child_idx(
                nodes0[n],
                q,
            ),
        nodes2.len() >= nodes1.len(),
        forall|j: int|
            0 <= j < nodes1.len() && !in_subtree(nodes1, c, j) ==> nodes2[j] == #[trigger]
                nodes1[j],
        local_sums_from(nodes2, c),
        nodes2[c].wx as int == nodes1[c].wx + mass * x,
        nodes2[c].wy as int == nodes1[c].wy + mass * y,
        nodes2[c].charge as int == nodes1[c].charge + charge,
        nodes2[c].mass as int == nodes1[c].mass + mass,
        local_sums_from(nodes0, n),
        !spec_is_leaf(nodes0[n]),
    ensures
        local_sums_from(nodes2, n),
{
    assert forall|i: int| 0 <= i < nodes1.len() implies #[trigger] wf_node(nodes1, i) by {}
    assert forall|j: int|
        n <= j < nodes2.len() && !spec_is_leaf(#[trigger] nodes2[j]) implies node_sums_children(
        nodes2, j) by {
        if j >= c {
        } else if j == n {
            assert(nodes2[n] == nodes1[n]) by {
                assert(!in_subtree(nodes1, c, n)) by {
                    if in_subtree(nodes1, c, n) {
                        lemma_in_subtree_range(nodes1, c, n);
                    }
                }
            }
            assert(node_sums_children(nodes0, n));
            assert forall|q: int|
                0 <= q < 4 implies (#[trigger] child_node(nodes2, n, q)).wx == child_node(
                nodes0, n, q).wx + (if q == quad {
                mass * x
            } else {
                0
            }) && child_node(nodes2, n, q).wy == child_node(nodes0, n, q).wy + (if q == quad {
                mass * y
            } else {
                0
            }) && child_node(nodes2, n, q).charge == child_node(nodes0, n, q).charge + (if q
                == quad {
                charge
            } else {
                0
            }) && child_node(nodes2, n, q).mass == child_node(nodes0, n, q).mass + (if q
                == quad {
                mass
            } else {
                0
            }) by {
                let cq = spec_child_idx(nodes0[n], q);
                if q == quad {
                    assert(cq as int == c);
                    assert(child_node(nodes2, n, q) == nodes2[c]);
                    assert(child_node(nodes0, n, q) == nodes0[c]);
                    assert(nodes1[c] == nodes0[c]);
                } else if cq != NO_CHILD {
                    assert(n < cq < nodes1.len()) by {
                        assert(spec_child_idx(nodes1[n], q) == cq);
                        assert(wf_node(nodes1, n));
                    }
                    assert(cq as int != c) by {
                        if cq as int == c {
                            assert(spec_child_idx(nodes1[n], q) == spec_child_idx(
                                nodes1[n],
                                quad,
                            ));
                            assert(q == quad);
                        }
                    }
                    assert(!in_subtree(nodes1, c, cq as int)) by {
                        if in_subtree(nodes1, c, cq as int) {
                            lemma_member_parent(nodes1, c, cq as int, n, q);
                            lemma_in_subtree_range(nodes1, c, n);
                        }
                    }
                    assert(nodes2[cq as int] == nodes1[cq as int]);
                    assert(nodes1[cq as int] == nodes0[cq as int]);
                }
            }
        } else {
            assert(!in_subtree(nodes1, c, j)) by {
                if in_subtree(nodes1, c, j) {
                    lemma_in_subtree_range(nodes1, c, j);
                }
            }
            assert(nodes2[j] == nodes1[j] && nodes1[j] == nodes0[j]);
            assert(node_sums_children(nodes0, j));
            assert forall|q: int|
                0 <= q < 4 implies (#[trigger] child_node(nodes2, j, q)).wx == child_node(
                nodes0, j, q).wx && child_node(nodes2, j, q).wy == child_node(nodes0, j, q).wy
                && child_node(nodes2, j, q).charge == child_node(nodes0, j, q).charge
                && child_node(nodes2, j, q).mass == child_node(nodes0, j, q).mass by {
                let cq = spec_child_idx(nodes0[j], q);
                if cq != NO_CHILD {
                    assert(j < cq < nodes1.len()) by {
                        assert(spec_child_idx(nodes1[j], q) == cq);
                        assert(wf_node(nodes1, j));
                    }
                    assert(!in_subtree(nodes1, c, cq as int)) by {
                        if in_subtree(nodes1, c, cq as int) {
                            if cq as int == c {
                                assert(spec_child_idx(nodes1[j], q) == spec_child_idx(
                                    nodes1[n],
                                    quad,
                                ));
                                assert(j == n);
                            } else {
                                lemma_member_parent(nodes1, c, cq as int, j, q);
                                lemma_in_subtree_range(nodes1, c, j);
                            }
                        }
                    }
                    assert(nodes2[cq as int] == nodes1[cq as int]);
                    assert(nodes1[cq as int] == nodes0[cq as int]);
                }
            }
        }
    }
}

/// A subtree member other than the root brings its parent along: any node
/// whose child slot names a member of the subtree is itself a member.
proof fn lemma_member_parent(nodes: Seq<QuadNode>, r: int, c: int, p: int, q: int)
    requires
        wf_nodes(nodes),
        0 <= r < nodes.len(),
        0 <= p < nodes.len(),
        0 <= q < 4,
        in_subtree(nodes, r, c),
        c != r,
        spec_child_idx(nodes[p], q) == c,
        c < NO_CHILD,
    ensures
        in_subtree(nodes, r, p),
    decreases nodes.len() - r,
{
    assert(wf_node(nodes, r));
    let qr = choose|qr: int| 0 <= qr < 4 && #[trigger] in_subtree_child(nodes, r, c, qr);
    assert(0 <= qr < 4 && in_subtree_child(nodes, r, c, qr)) by {
        if in_subtree_child(nodes, r, c, 0) {
            assert(in_subtree_child(nodes, r, c, 0));
        } else if in_subtree_child(nodes, r, c, 1) {
        } else if in_subtree_child(nodes, r, c, 2) {
        } else {
            assert(in_subtree_child(nodes, r, c, 3));
        }
    }
    let cr = spec_child_idx(nodes[r], qr);
    if c == cr {
        assert(spec_child_idx(nodes[r], qr) == spec_child_idx(nodes[p], q));
        assert(r == p && qr == q);
        assert(in_subtree(nodes, r, p));
    } else {
        lemma_member_parent(nodes, cr as int, c, p, q);
        assert(in_subtree_child(nodes, r, p, qr));
    }
}

/// Two subtrees sharing a node are nested one way or the other.
proof fn lemma_subtree_connected(nodes: Seq<QuadNode>, a: int, b: int, j: int)
    requires
        wf_nodes(nodes),
        0 <= a < nodes.len(),
        0 <= b < nodes.len(),
        in_subtree(nodes, a, j),
        in_subtree(nodes, b, j),
    ensures
        in_subtree(nodes, a, b) || in_subtree(nodes, b, a),
    decreases nodes.len() - a,
{
    assert(wf_node(nodes, a));
    if a == j || b == j {
    } else {
        let qa = choose|qa: int| 0 <= qa < 4 && #[trigger] in_subtree_child(nodes, a, j, qa);
        assert(0 <= qa < 4 && in_subtree_child(nodes, a, j, qa)) by {
            if in_subtree_child(nodes, a, j, 0) {
            } else if in_subtree_child(nodes, a, j, 1) {
            } else if in_subtree_child(nodes, a, j, 2) {
            } else {
                assert(in_subtree_child(nodes, a, j, 3));
            }
        }
        let ca = spec_child_idx(nodes[a], qa);
        lemma_subtree_connected(nodes, ca as int, b, j);
        if in_subtree(nodes, ca as int, b) {
            assert(in_subtree_child(nodes, a, b, qa));
        } else {
            assert(in_subtree(nodes, b, ca as int));
            if ca as int == b {
                assert(in_subtree_child(nodes, a, b, qa));
            } else {
                lemma_member_parent(nodes, b, ca as int, a, qa);
            }
        }
    }
}

/// Distinct children of one node root disjoint subtrees.
pub proof fn lemma_sibling_subtrees_disjoint(nodes: Seq<QuadNode>, n: int, q1: int, q2: int,
    j: int)
    requires
        wf_nodes(nodes),
        0 <= n < nodes.len(),
        0 <= q1 < 4,
        0 <= q2 < 4,
        q1 != q2,
        spec_child_idx(nodes[n], q1) != NO_CHILD,
        spec_child_idx(nodes[n], q2) != NO_CHILD,
    ensures
        !(in_subtree(nodes, spec_child_idx(nodes[n], q1) as int, j) && in_subtree(
            nodes,
            spec_child_idx(nodes[n], q2) as int,
            j,
        )),
{
    assert(wf_node(nodes, n));
    let c1 = spec_child_idx(nodes[n], q1) as int;
    let c2 = spec_child_idx(nodes[n], q2) as int;
    assert(c1 != c2);
    if in_subtree(nodes, c1, j) && in_subtree(nodes, c2, j) {
        lemma_subtree_connected(nodes, c1, c2, j);
        if in_subtree(nodes, c1, c2) {
            lemma_member_parent(nodes, c1, c2, n, q2);
            lemma_in_subtree_range(nodes, c1, n);
        } else {
            lemma_member_parent(nodes, c2, c1, n, q1);
            lemma_in_subtree_range(nodes, c2, n);
        }
    }
}

/// Subtree membership is transitive: a member's whole subtree belongs to
/// every subtree the member belongs to.
proof fn lemma_in_subtree_transitive(nodes: Seq<QuadNode>, a: int, b: int, j: int)
    requires
        forall|i: int| 0 <= i < nodes.len() ==> #[trigger] wf_node(nodes, i),
        in_subtree(nodes, a, b),
        in_subtree(nodes, b, j),
    ensures
        in_subtree(nodes, a, j),
    decreases nodes.len() - a,
{
    assert(wf_node(nodes, a));
    lemma_in_subtree_range(nodes, a, b);
    if a != b {
        if in_subtree_child(nodes, a, b, 0) {
            lemma_in_subtree_transitive(nodes, spec_child_idx(nodes[a], 0) as int, b, j);
            assert(in_subtree_child(nodes, a, j, 0));
        } else if in_subtree_child(nodes, a, b, 1) {
            lemma_in_subtree_transitive(nodes, spec_child_idx(nodes[a], 1) as int, b, j);
            assert(in_subtree_child(nodes, a, j, 1));
        } else if in_subtree_child(nodes, a, b, 2) {
            lemma_in_subtree_transitive(nodes, spec_child_idx(nodes[a], 2) as int, b, j);
            assert(in_subtree_child(nodes, a, j, 2));
        } else {
            assert(in_subtree_child(nodes, a, b, 3));
            lemma_in_subtree_transitive(nodes, spec_child_idx(nodes[a], 3) as int, b, j);
            assert(in_subtree_child(nodes, a, j, 3));
        }
    }
}

/// Adding the same multiset to both sides of an equality can be undone.
proof fn lemma_multiset_add_cancel(
    a: Multiset<QuadNode>,
    b: Multiset<QuadNode>,
    c: Multiset<QuadNode>,
)
    requires
        a.add(c) == b.add(c),
    ensures
        a == b,
{
    broadcast use vstd::multiset::group_multiset_axioms;

    assert forall|v: QuadNode| #[trigger] a.count(v) == b.count(v) by {
        vstd::multiset::axiom_multiset_add(a, c, v);
        vstd::multiset::axiom_multiset_add(b, c, v);
        assert(a.add(c).count(v) == b.add(c).count(v));
    }
    assert(a =~= b);
}

/// Replacing the subtree below one member changes a subtree's leaf bag by
/// exactly that member's change: the leaves elsewhere carry over.
proof fn lemma_leaves_delta(nodes1: Seq<QuadNode>, nodes2: Seq<QuadNode>, n: int, k: int)
    requires
        wf_nodes(nodes1),
        0 <= n < nodes1.len(),
        0 <= k < nodes1.len(),
        in_subtree(nodes1, n, k),
        forall|j: int|
            0 <= j < nodes1.len() && #[trigger] in_subtree(nodes1, n, j) && !in_subtree(
                nodes1,
                k,
                j,
            ) ==> j < nodes2.len() && nodes2[j] == nodes1[j],
    ensures
        subtree_leaves(nodes2, n).add(subtree_leaves(nodes1, k)) =~= subtree_leaves(
            nodes1,
            n,
        ).add(subtree_leaves(nodes2, k)),
    decreases nodes1.len() - n,
{
    broadcast use vstd::multiset::group_multiset_axioms;

    assert(wf_node(nodes1, n));
    if n == k {
    } else {
        assert(in_subtree(nodes1, n, n));
        assert(!in_subtree(nodes1, k, n)) by {
            if in_subtree(nodes1, k, n) {
                lemma_in_subtree_range(nodes1, k, n);
                lemma_in_subtree_range(nodes1, n, k);
            }
        }
        assert(nodes2[n] == nodes1[n]);
        assert(!spec_is_leaf(nodes1[n])) by {
            if spec_is_leaf(nodes1[n]) {
                assert(in_subtree(nodes1, n, k));
                assert(k == n);
            }
        }
        let qk = choose|qk: int| 0 <= qk < 4 && #[trigger] in_subtree_child(nodes1, n, k, qk);
        assert(0 <= qk < 4 && in_subtree_child(nodes1, n, k, qk)) by {
            if in_subtree_child(nodes1, n, k, 0) {
            } else if in_subtree_child(nodes1, n, k, 1) {
            } else if in_subtree_child(nodes1, n, k, 2) {
            } else {
                assert(in_subtree_child(nodes1, n, k, 3));
            }
        }
        let ck = spec_child_idx(nodes1[n], qk) as int;
        assert forall|q: int| 0 <= q < 4 && q != qk implies #[trigger] subtree_leaves_child(
            nodes2,
            n,
            q,
        ) == subtree_leaves_child(nodes1, n, q) by {
            let c = spec_child_idx(nodes1[n], q);
            if c != NO_CHILD {
                assert(n < c < nodes1.len());
                assert forall|j: int|
                    0 <= j < nodes1.len() && #[trigger] in_subtree(nodes1, c as int, j) implies j
                    < nodes2.len() && nodes2[j] == nodes1[j] by {
                    assert(in_subtree_child(nodes1, n, j, q));
                    assert(in_subtree(nodes1, n, j));
                    assert(!in_subtree(nodes1, k, j)) by {
                        if in_subtree(nodes1, k, j) {
                            lemma_in_subtree_transitive(nodes1, ck, k, j);
                            lemma_sibling_subtrees_disjoint(nodes1, n, q, qk, j);
                        }
                    }
                }
                lemma_subtree_frame(nodes1, nodes2, c as int);
            }
        }
        assert forall|j: int|
            0 <= j < nodes1.len() && #[trigger] in_subtree(nodes1, ck, j) && !in_subtree(
                nodes1,
                k,
                j,
            ) implies j < nodes2.len() && nodes2[j] == nodes1[j] by {
            assert(in_subtree_child(nodes1, n, j, qk));
            assert(in_subtree(nodes1, n, j));
        }
        lemma_leaves_delta(nodes1, nodes2, ck, k);
        assert(subtree_leaves_child(nodes2, n, qk) == subtree_leaves(nodes2, ck));
        assert(subtree_leaves_child(nodes1, n, qk) == subtree_leaves(nodes1, ck));
        assert(subtree_leaves(nodes2, n).add(subtree_leaves(nodes1, k)) =~= subtree_leaves(
            nodes1,
            n,
        ).add(subtree_leaves(nodes2, k))) by {
            let a20 = subtree_leaves_child(nodes2, n, 0);
            let a21 = subtree_leaves_child(nodes2, n, 1);
            let a22 = subtree_leaves_child(nodes2, n, 2);
            let a23 = subtree_leaves_child(nodes2, n, 3);
            let a10 = subtree_leaves_child(nodes1, n, 0);
            let a11 = subtree_leaves_child(nodes1, n, 1);
            let a12 = subtree_leaves_child(nodes1, n, 2);
            let a13 = subtree_leaves_child(nodes1, n, 3);
            assert(subtree_leaves(nodes2, n) == a20.add(a21).add(a22).add(a23));
            assert(subtree_leaves(nodes1, n) == a10.add(a11).add(a12).add(a13));
            assert forall|v: QuadNode|
                #[trigger] subtree_leaves(nodes2, n).add(subtree_leaves(nodes1, k)).count(v)
                    == subtree_leaves(nodes1, n).add(subtree_leaves(nodes2, k)).count(v) by {
                assert(subtree_leaves(nodes2, ck).add(subtree_leaves(nodes1, k)).count(v)
                    == subtree_leaves(nodes1, ck).add(subtree_leaves(nodes2, k)).count(v));
            }
        }
    }
}

/// Chains one insertion step through a subtree replacement: if a
/// subtree's bag changed by one inserted leaf and the surrounding bag
/// exchange balances, the whole subtree gained exactly that leaf.
proof fn lemma_leaves_insert_step(
    ln: Multiset<QuadNode>,
    lc: Multiset<QuadNode>,
    l2n: Multiset<QuadNode>,
    l2c: Multiset<QuadNode>,
    v: QuadNode,
)
    requires
        l2n.add(lc) == ln.add(l2c),
        l2c == lc.insert(v),
    ensures
        l2n == ln.insert(v),
{
    broadcast use vstd::multiset::group_multiset_axioms;

    assert forall|w: QuadNode| #[trigger] l2n.count(w) == ln.insert(v).count(w) by {
        vstd::multiset::axiom_multiset_add(l2n, lc, w);
        vstd::multiset::axiom_multiset_add(ln, l2c, w);
        assert(l2n.add(lc).count(w) == ln.add(l2c).count(w));
    }
    assert(l2n =~= ln.insert(v));
}

/// Multiset addition commutes.
proof fn lemma_multiset_add_comm(a: Multiset<QuadNode>, b: Multiset<QuadNode>)
    ensures
        a.add(b) == b.add(a),
{
    broadcast use vstd::multiset::group_multiset_axioms;

    assert forall|w: QuadNode| #[trigger] a.add(b).count(w) == b.add(a).count(w) by {
        vstd::multiset::axiom_multiset_add(a, b, w);
        vstd::multiset::axiom_multiset_add(b, a, w);
    }
    assert(a.add(b) =~= b.add(a));
}

/// Changing only an internal node's own aggregates leaves its subtree's
/// leaf bag untouched.
proof fn lemma_leaves_internal_update(nodes0: Seq<QuadNode>, nodes1: Seq<QuadNode>, n: int)
    requires
        forall|i: int| 0 <= i < nodes0.len() ==> #[trigger] wf_node(nodes0, i),
        0 <= n < nodes0.len(),
        nodes1.len() == nodes0.len(),
        forall|j: int| 0 <= j < nodes0.len() && j != n ==> nodes1[j] == #[trigger] nodes0[j],
        forall|q: int|
            0 <= q < 4 ==> #[trigger] spec_child_idx(nodes1[n], q) == spec_child_idx(
                nodes0[n],
                q,
            ),
        !spec_is_leaf(nodes0[n]),
        !spec_is_leaf(nodes1[n]),
    ensures
        subtree_leaves(nodes1, n) == subtree_leaves(nodes0, n),
{
    assert(wf_node(nodes0, n));
    assert forall|q: int| 0 <= q < 4 implies #[trigger] subtree_leaves_child(nodes1, n, q)
        == subtree_leaves_child(nodes0, n, q) by {
        let c = spec_child_idx(nodes0[n], q);
        if c != NO_CHILD {
            assert(n < c < nodes0.len());
            assert forall|j: int|
                0 <= j < nodes0.len() && #[trigger] in_subtree(nodes0, c as int, j) implies j
                < nodes1.len() && nodes1[j] == nodes0[j] by {
                lemma_in_subtree_range(nodes0, c as int, j);
            }
            lemma_subtree_frame(nodes0, nodes1, c as int);
        }
    }
    assert(subtree_leaves(nodes1, n) == subtree_leaves_child(nodes1, n, 0).add(
        subtree_leaves_child(nodes1, n, 1),
    ).add(subtree_leaves_child(nodes1, n, 2)).add(subtree_leaves_child(nodes1, n, 3)));
    assert(subtree_leaves(nodes0, n) == subtree_leaves_child(nodes0, n, 0).add(
        subtree_leaves_child(nodes0, n, 1),
    ).add(subtree_leaves_child(nodes0, n, 2)).add(subtree_leaves_child(nodes0, n, 3)));
}

/// Attaching a fresh leaf into an empty child slot of an internal node
/// adds exactly that leaf to the subtree's bag.
proof fn lemma_leaves_fill_empty_slot(
    nodes0: Seq<QuadNode>,
    nodes2: Seq<QuadNode>,
    n: int,
    quad: int,
)
    requires
        forall|i: int| 0 <= i < nodes0.len() ==> #[trigger] wf_node(nodes0, i),
        0 <= n < nodes0.len(),
        0 <= quad < 4,
        !spec_is_leaf(nodes0[n]),
        !spec_is_leaf(nodes2[n]),
        spec_child_idx(nodes0[n], quad) == NO_CHILD,
        nodes2.len() == nodes0.len() + 1,
        forall|j: int| 0 <= j < nodes0.len() && j != n ==> nodes2[j] == #[trigger] nodes0[j],
        forall|q: int|
            0 <= q < 4 && q != quad ==> #[trigger] spec_child_idx(nodes2[n], q)
                == spec_child_idx(nodes0[n], q),
        spec_child_idx(nodes2[n], quad) == nodes0.len() as u64,
        spec_is_leaf(nodes2[nodes0.len() as int]),
        nodes0.len() < NO_CHILD,
    ensures
        subtree_leaves(nodes2, n) == subtree_leaves(nodes0, n).insert(
            nodes2[nodes0.len() as int],
        ),
{
    broadcast use vstd::multiset::group_multiset_axioms;

    assert(wf_node(nodes0, n));
    assert forall|q: int| 0 <= q < 4 && q != quad implies #[trigger] subtree_leaves_child(
        nodes2,
        n,
        q,
    ) == subtree_leaves_child(nodes0, n, q) by {
        let c = spec_child_idx(nodes0[n], q);
        if c != NO_CHILD {
            assert(n < c < nodes0.len());
            assert forall|j: int|
                0 <= j < nodes0.len() && #[trigger] in_subtree(nodes0, c as int, j) implies j
                < nodes2.len() && nodes2[j] == nodes0[j] by {
                lemma_in_subtree_range(nodes0, c as int, j);
            }
            lemma_subtree_frame(nodes0, nodes2, c as int);
        }
    }
    let fresh = nodes0.len() as int;
    assert(subtree_leaves_child(nodes2, n, quad) == Multiset::singleton(nodes2[fresh]));
    assert(subtree_leaves_child(nodes0, n, quad) == Multiset::<QuadNode>::empty());
    assert forall|w: QuadNode| #[trigger] subtree_leaves(nodes2, n).count(w) == subtree_leaves(
        nodes0,
        n,
    ).insert(nodes2[fresh]).count(w) by {
        let a0 = subtree_leaves_child(nodes2, n, 0);
        let a1 = subtree_leaves_child(nodes2, n, 1);
        let a2 = subtree_leaves_child(nodes2, n, 2);
        let a3 = subtree_leaves_child(nodes2, n, 3);
        let b0 = subtree_leaves_child(nodes0, n, 0);
        let b1 = subtree_leaves_child(nodes0, n, 1);
        let b2 = subtree_leaves_child(nodes0, n, 2);
        let b3 = subtree_leaves_child(nodes0, n, 3);
        assert(subtree_leaves(nodes2, n) == a0.add(a1).add(a2).add(a3));
        assert(subtree_leaves(nodes0, n) == b0.add(b1).add(b2).add(b3));
    }
    assert(subtree_leaves(nodes2, n) =~= subtree_leaves(nodes0, n).insert(nodes2[fresh]));
}

/// The leaf bag of a node whose only child is one leaf.
proof fn lemma_leaves_single_child(nodes: Seq<QuadNode>, m: int, q: int)
    requires
        0 <= m < nodes.len(),
        0 <= q < 4,
        forall|qq: int|
            0 <= qq < 4 && qq != q ==> #[trigger] spec_child_idx(nodes[m], qq) == NO_CHILD,
        spec_child_idx(nodes[m], q) != NO_CHILD,
        m < spec_child_idx(nodes[m], q) < nodes.len(),
        spec_is_leaf(nodes[spec_child_idx(nodes[m], q) as int]),
    ensures
        subtree_leaves(nodes, m) == Multiset::singleton(
            nodes[spec_child_idx(nodes[m], q) as int],
        ),
{
    broadcast use vstd::multiset::group_multiset_axioms;

    let c = spec_child_idx(nodes[m], q) as int;
    assert(!spec_is_leaf(nodes[m]));
    assert(subtree_leaves_child(nodes, m, q) == Multiset::singleton(nodes[c]));
    assert forall|w: QuadNode| #[trigger] subtree_leaves(nodes, m).count(w)
        == Multiset::singleton(nodes[c]).count(w) by {
        let a0 = subtree_leaves_child(nodes, m, 0);
        let a1 = subtree_leaves_child(nodes, m, 1);
        let a2 = subtree_leaves_child(nodes, m, 2);
        let a3 = subtree_leaves_child(nodes, m, 3);
        assert(subtree_leaves(nodes, m) == a0.add(a1).add(a2).add(a3));
    }
    assert(subtree_leaves(nodes, m) =~= Multiset::singleton(nodes[c]));
}

/// The leaf bag of a node whose only children are two leaves.
proof fn lemma_leaves_two_children(nodes: Seq<QuadNode>, m: int, q1: int, q2: int)
    requires
        0 <= m < nodes.len(),
        0 <= q1 < 4,
        0 <= q2 < 4,
        q1 != q2,
        forall|qq: int|
            0 <= qq < 4 && qq != q1 && qq != q2 ==> #[trigger] spec_child_idx(nodes[m], qq)
                == NO_CHILD,
        spec_child_idx(nodes[m], q1) != NO_CHILD,
        spec_child_idx(nodes[m], q2) != NO_CHILD,
        m < spec_child_idx(nodes[m], q1) < nodes.len(),
        m < spec_child_idx(nodes[m], q2) < nodes.len(),
        spec_is_leaf(nodes[spec_child_idx(nodes[m], q1) as int]),
        spec_is_leaf(nodes[spec_child_idx(nodes[m], q2) as int]),
    ensures
        subtree_leaves(nodes, m) == Multiset::singleton(
            nodes[spec_child_idx(nodes[m], q1) as int],
        ).insert(nodes[spec_child_idx(nodes[m], q2) as int]),
{
    broadcast use vstd::multiset::group_multiset_axioms;

    let c1 = spec_child_idx(nodes[m], q1) as int;
    let c2 = spec_child_idx(nodes[m], q2) as int;
    assert(!spec_is_leaf(nodes[m]));
    assert(subtree_leaves_child(nodes, m, q1) == Multiset::singleton(nodes[c1]));
    assert(subtree_leaves_child(nodes, m, q2) == Multiset::singleton(nodes[c2]));
    assert forall|w: QuadNode| #[trigger] subtree_leaves(nodes, m).count(w)
        == Multiset::singleton(nodes[c1]).insert(nodes[c2]).count(w) by {
        let a0 = subtree_leaves_child(nodes, m, 0);
        let a1 = subtree_leaves_child(nodes, m, 1);
        let a2 = subtree_leaves_child(nodes, m, 2);
        let a3 = subtree_leaves_child(nodes, m, 3);
        assert(subtree_leaves(nodes, m) == a0.add(a1).add(a2).add(a3));
    }
    assert(subtree_leaves(nodes, m) =~= Multiset::singleton(nodes[c1]).insert(nodes[c2]));
}

/// Subtree membership survives a change to the member itself: the path to
/// it runs through other nodes only.
proof fn lemma_in_subtree_preserved(pre: Seq<QuadNode>, post: Seq<QuadNode>, n: int, t: int)
    requires
        0 <= n < pre.len(),
        0 <= t < pre.len(),
        in_subtree(pre, n, t),
        post.len() >= pre.len(),
        forall|j: int| 0 <= j < pre.len() && j != t ==> post[j] == #[trigger] pre[j],
    ensures
        in_subtree(post, n, t),
    decreases pre.len() - n,
{
    if n != t {
        assert(post[n] == pre[n]);
        if in_subtree_child(pre, n, t, 0) {
            lemma_in_subtree_preserved(pre, post, spec_child_idx(pre[n], 0) as int, t);
            assert(in_subtree_child(post, n, t, 0));
        } else if in_subtree_child(pre, n, t, 1) {
            lemma_in_subtree_preserved(pre, post, spec_child_idx(pre[n], 1) as int, t);
            assert(in_subtree_child(post, n, t, 1));
        } else if in_subtree_child(pre, n, t, 2) {
            lemma_in_subtree_preserved(pre, post, spec_child_idx(pre[n], 2) as int, t);
            assert(in_subtree_child(post, n, t, 2));
        } else {
            assert(in_subtree_child(pre, n, t, 3));
            lemma_in_subtree_preserved(pre, post, spec_child_idx(pre[n], 3) as int, t);
            assert(in_subtree_child(post, n, t, 3));
        }
    }
}

/// Splitting one leaf into two sibling leaves under the last chain node
/// turns the subtree's bag from the merged singleton into exactly the two
/// bodies.
#[verifier::rlimit(100)]
#[verifier::spinoff_prover]
proof fn lemma_leaves_after_split_place(
    before: Seq<QuadNode>,
    mid: Seq<QuadNode>,
    after: Seq<QuadNode>,
    n: int,
    cur: int,
    pq: int,
    q2: int,
    merged: QuadNode,
)
    requires
        wf_nodes(before),
        wf_nodes(mid),
        0 <= n <= cur < before.len(),
        0 <= pq < 4,
        0 <= q2 < 4,
        pq != q2,
        in_subtree(before, n, cur),
        spec_is_leaf(before[cur]),
        before[cur] == merged,
        subtree_leaves(before, n) == Multiset::singleton(merged),
        mid.len() == before.len() + 1,
        after.len() == mid.len() + 1,
        mid == before.update(cur, spec_with_child(before[cur], pq, before.len() as u64)).push(
            mid[before.len() as int],
        ),
        after == mid.update(cur, spec_with_child(mid[cur], q2, mid.len() as u64)).push(
            after[mid.len() as int],
        ),
        spec_is_leaf(mid[before.len() as int]),
        spec_is_leaf(after[mid.len() as int]),
        before.len() + 1 < NO_CHILD,
    ensures
        subtree_leaves(after, n) == Multiset::singleton(mid[before.len() as int]).insert(
            after[mid.len() as int],
        ),
{
    let bl = before.len() as int;
    let ml = mid.len() as int;
    let leafp = mid[bl];
    let leafn = after[ml];
    assert(forall|i: int| 0 <= i < before.len() ==> #[trigger] wf_node(before, i));
    assert(forall|i: int| 0 <= i < mid.len() ==> #[trigger] wf_node(mid, i));
    lemma_in_subtree_preserved(before, mid, n, cur);
    assert forall|j: int|
        0 <= j < before.len() && #[trigger] in_subtree(before, n, j) && !in_subtree(
            before,
            cur,
            j,
        ) implies j < mid.len() && mid[j] == before[j] by {
        assert(in_subtree(before, cur, cur));
    }
    lemma_leaves_delta(before, mid, n, cur);
    assert(subtree_leaves(before, cur) == Multiset::singleton(merged));
    assert(spec_child_idx(mid[cur], pq) == bl as u64);
    assert(forall|qq: int|
        0 <= qq < 4 && qq != pq ==> #[trigger] spec_child_idx(mid[cur], qq) == NO_CHILD);
    lemma_leaves_single_child(mid, cur, pq);
    assert(subtree_leaves(mid, cur) == Multiset::singleton(leafp));
    assert(subtree_leaves(mid, n).add(Multiset::singleton(merged)) == subtree_leaves(
        before,
        n,
    ).add(Multiset::singleton(leafp)));
    lemma_multiset_add_comm(Multiset::singleton(merged), Multiset::singleton(leafp));
    lemma_multiset_add_cancel(
        subtree_leaves(mid, n),
        Multiset::singleton(leafp),
        Multiset::singleton(merged),
    );
    assert(subtree_leaves(mid, n) == Multiset::singleton(leafp));
    assert forall|j: int|
        0 <= j < mid.len() && #[trigger] in_subtree(mid, n, j) && !in_subtree(mid, cur, j)
        implies j < after.len() && after[j] == mid[j] by {
        assert(in_subtree(mid, cur, cur));
    }
    lemma_leaves_delta(mid, after, n, cur);
    assert(spec_child_idx(after[cur], pq) == bl as u64);
    assert(spec_child_idx(after[cur], q2) == ml as u64);
    assert(forall|qq: int|
        0 <= qq < 4 && qq != pq && qq != q2 ==> #[trigger] spec_child_idx(after[cur], qq)
            == NO_CHILD);
    assert(after[bl] == mid[bl]);
    lemma_leaves_two_children(after, cur, pq, q2);
    assert(subtree_leaves(after, cur) == Multiset::singleton(leafp).insert(leafn));
    assert(subtree_leaves(after, n).add(Multiset::singleton(leafp)) == subtree_leaves(
        mid,
        n,
    ).add(subtree_leaves(after, cur)));
    lemma_leaves_insert_step(
        subtree_leaves(mid, n),
        Multiset::singleton(leafp),
        subtree_leaves(after, n),
        subtree_leaves(after, cur),
        leafn,
    );
}

/// A descent step's effect on the leaf bag: merging the node's own
/// aggregates changes no leaves, and the subtree below the descent child
/// gained exactly the inserted body.
#[verifier::rlimit(100)]
#[verifier::spinoff_prover]
proof fn lemma_descent_leaves(
    nodes0: Seq<QuadNode>,
    nodes1: Seq<QuadNode>,
    nodes2: Seq<QuadNode>,
    n: int,
    c: int,
    quad: int,
    leafn: QuadNode,
)
    requires
        forall|i: int| 0 <= i < nodes0.len() ==> #[trigger] wf_node(nodes0, i),
        wf_nodes(nodes1),
        0 <= n < nodes0.len(),
        n < c < nodes0.len(),
        0 <= quad < 4,
        nodes1.len() == nodes0.len(),
        forall|j: int| 0 <= j < nodes0.len() && j != n ==> nodes1[j] == #[trigger] nodes0[j],
        forall|q: int|
            0 <= q < 4 ==> #[trigger] spec_child_idx(nodes1[n], q) == spec_child_idx(
                nodes0[n],
                q,
            ),
        spec_child_idx(nodes1[n], quad) as int == c,
        spec_child_idx(nodes1[n], quad) != NO_CHILD,
        !spec_is_leaf(nodes0[n]),
        !spec_is_leaf(nodes1[n]),
        nodes2.len() >= nodes1.len(),
        forall|j: int|
            0 <= j < nodes1.len() && !in_subtree(nodes1, c, j) ==> nodes2[j] == #[trigger]
                nodes1[j],
        subtree_leaves(nodes2, c) == subtree_leaves(nodes1, c).insert(leafn),
    ensures
        subtree_leaves(nodes2, n) == subtree_leaves(nodes0, n).insert(leafn),
{
    lemma_leaves_internal_update(nodes0, nodes1, n);
    assert(in_subtree(nodes1, c, c));
    assert(in_subtree_child(nodes1, n, c, quad));
    assert(in_subtree(nodes1, n, c));
    assert forall|j: int|
        0 <= j < nodes1.len() && #[trigger] in_subtree(nodes1, n, j) && !in_subtree(
            nodes1,
            c,
            j,
        ) implies j < nodes2.len() && nodes2[j] == nodes1[j] by {}
    lemma_leaves_delta(nodes1, nodes2, n, c);
    lemma_leaves_insert_step(
        subtree_leaves(nodes1, n),
        subtree_leaves(nodes1, c),
        subtree_leaves(nodes2, n),
        subtree_leaves(nodes2, c),
        leafn,
    );
}

/// Growing the split chain by one node keeps the subtree's bag at the
/// merged singleton: the new chain node carries the same aggregates.
#[verifier::rlimit(100)]
#[verifier::spinoff_prover]
proof fn lemma_chain_push_leaves(
    pre: Seq<QuadNode>,
    post: Seq<QuadNode>,
    n: int,
    cur: int,
    quad2: int,
    merged: QuadNode,
)
    requires
        wf_nodes(pre),
        wf_nodes(post),
        0 <= n <= cur < pre.len(),
        0 <= quad2 < 4,
        spec_is_leaf(pre[cur]),
        pre[cur] == merged,
        in_subtree(pre, n, cur),
        subtree_leaves(pre, n) == Multiset::singleton(merged),
        post.len() == pre.len() + 1,
        post == pre.update(cur, spec_with_child(pre[cur], quad2, pre.len() as u64)).push(
            post[pre.len() as int],
        ),
        post[pre.len() as int] == merged,
        pre.len() < NO_CHILD,
    ensures
        in_subtree(post, n, pre.len() as int),
        subtree_leaves(post, n) == Multiset::singleton(merged),
{
    let fresh = pre.len() as int;
    assert(forall|i: int| 0 <= i < pre.len() ==> #[trigger] wf_node(pre, i));
    assert(forall|i: int| 0 <= i < post.len() ==> #[trigger] wf_node(post, i));
    lemma_in_subtree_preserved(pre, post, n, cur);
    assert(spec_child_idx(post[cur], quad2) == fresh as u64);
    assert(in_subtree_child(post, cur, fresh, quad2));
    lemma_in_subtree_transitive(post, n, cur, fresh);
    assert forall|j: int|
        0 <= j < pre.len() && #[trigger] in_subtree(pre, n, j) && !in_subtree(pre, cur, j)
        implies j < post.len() && post[j] == pre[j] by {
        assert(in_subtree(pre, cur, cur));
    }
    lemma_leaves_delta(pre, post, n, cur);
    assert(subtree_leaves(pre, cur) == Multiset::singleton(merged));
    assert(forall|qq: int|
        0 <= qq < 4 && qq != quad2 ==> #[trigger] spec_child_idx(post[cur], qq) == NO_CHILD);
    lemma_leaves_single_child(post, cur, quad2);
    assert(subtree_leaves(post, cur) == Multiset::singleton(merged));
    lemma_multiset_add_cancel(
        subtree_leaves(post, n),
        subtree_leaves(pre, n),
        Multiset::singleton(merged),
    );
}

/// The admissibility criterion of the force traversal: a node is far
/// enough from the query point to stand in for its whole subtree when
/// `s / d < theta`, where `s` is the width of the node's region and `d`
/// the distance from the query point to the node's center of mass.
/// `theta` carries `FIXED_POINT_SCALE` quanta per unit, distances are
/// rounded down to whole quanta, and the quotient is compared exactly:
/// `s * FIXED_POINT_SCALE < theta * d`.
pub open spec fn spec_admissible(
    node: QuadNode,
    bb: BoundingBox,
    x: int,
    y: int,
    theta: u64,
) -> bool {
    let dx = spec_node_x(node) - x;
    let dy = spec_node_y(node) - y;
    let d = crate::physics::spec_sqrt_floor(dx * dx + dy * dy);
    (bb.max_x - bb.min_x) * FIXED_POINT_SCALE < theta * d
}

/// Whether the traversal yields a node rather than descending: the node is
/// admissible or it is a leaf.
pub open spec fn spec_yields(node: QuadNode, bb: BoundingBox, x: int, y: int, theta: u64) -> bool {
    spec_admissible(node, bb, x, y, theta) || spec_is_leaf(node)
}

/// The sequence of tree nodes that contribute to the force on the query
/// point, in the order the traversal produces them: a yielded node stands
/// alone, an internal node too near is replaced by its children, fourth
/// quadrant first.
pub open spec fn spec_contributors(
    nodes: Seq<QuadNode>,
    n: int,
    bb: BoundingBox,
    x: int,
    y: int,
    theta: u64,
) -> Seq<u64>
    decreases nodes.len() - n, 1int,
{
    if 0 <= n < nodes.len() {
        if spec_yields(nodes[n], bb, x, y, theta) {
            seq![n as u64]
        } else {
            spec_child_contributors(nodes, n, bb, x, y, theta, 3) + spec_child_contributors(
                nodes,
                n,
                bb,
                x,
                y,
                theta,
                2,
            ) + spec_child_contributors(nodes, n, bb, x, y, theta, 1) + spec_child_contributors(
                nodes,
                n,
                bb,
                x,
                y,
                theta,
                0,
            )
        }
    } else {
        Seq::empty()
    }
}

/// Contribution of one child slot: empty when the slot is absent.
pub open spec fn spec_child_contributors(
    nodes: Seq<QuadNode>,
    n: int,
    bb: BoundingBox,
    x: int,
    y: int,
    theta: u64,
    q: int,
) -> Seq<u64>
    decreases nodes.len() - n, 0int,
{
    let c = spec_child_idx(nodes[n], q);
    if c != NO_CHILD && n < c < nodes.len() {
        spec_contributors(nodes, c as int, bb.spec_child(q), x, y, theta)
    } else {
        Seq::empty()
    }
}

/// Number of nodes in the subtree rooted at `n`.
pub open spec fn spec_subtree_size(nodes: Seq<QuadNode>, n: int) -> nat
    decreases nodes.len() - n, 1int,
{
    if 0 <= n < nodes.len() {
        1 + spec_child_size(nodes, n, 0) + spec_child_size(nodes, n, 1) + spec_child_size(
            nodes,
            n,
            2,
        ) + spec_child_size(nodes, n, 3)
    } else {
        0
    }
}

/// Size of one child slot's subtree: zero when the slot is absent.
pub open spec fn spec_child_size(nodes: Seq<QuadNode>, n: int, q: int) -> nat
    decreases nodes.len() - n, 0int,
{
    let c = spec_child_idx(nodes[n], q);
    if c != NO_CHILD && n < c < nodes.len() {
        spec_subtree_size(nodes, c as int)
    } else {
        0
    }
}

/// Contributors still owed by a traversal stack, topmost entry first.
pub open spec fn spec_stack_contrib(
    nodes: Seq<QuadNode>,
    stack: Seq<(u64, BoundingBox)>,
    x: int,
    y: int,
    theta: u64,
) -> Seq<u64>
    decreases stack.len(),
{
    if stack.len() == 0 {
        Seq::empty()
    } else {
        spec_contributors(nodes, stack.last().0 as int, stack.last().1, x, y, theta)
            + spec_stack_contrib(nodes, stack.drop_last(), x, y, theta)
    }
}

/// Total number of tree nodes below a traversal stack: the measure that
/// shrinks with every node the traversal visits.
pub open spec fn spec_stack_weight(nodes: Seq<QuadNode>, stack: Seq<(u64, BoundingBox)>) -> nat
    decreases stack.len(),
{
    if stack.len() == 0 {
        0
    } else {
        spec_subtree_size(nodes, stack.last().0 as int) + spec_stack_weight(
            nodes,
            stack.drop_last(),
        )
    }
}

/// Decides the admissibility criterion for one node: whether the node's
/// region is far enough from the query point, at accuracy `theta`, to
/// stand in for its whole subtree.
fn far_enough(tree: &ParticleQuadtree, n: u64, bb: BoundingBox, x: i64, y: i64, theta: u64) -> (r:
    bool)
    requires
        tree.wf(),
        n < tree.nodes@.len(),
        bb.wf(),
        -COORD_LIMIT <= x <= COORD_LIMIT,
        -COORD_LIMIT <= y <= COORD_LIMIT,
    ensures
        r == spec_admissible(tree.nodes@[n as int], bb, x as int, y as int, theta),
{
    let count = tree.nodes.len();
    proof {
        assert(n < count);
        assert(n as usize as u64 == n);
    }
    let node_x = tree.x(n as usize);
    let node_y = tree.y(n as usize);
    let d: u64 = crate::physics::calculate_distance((node_x, node_y), (x, y));
    let s: i64 = bb.width();
    proof {
        let dx = node_x as int - x as int;
        let dy = node_y as int - y as int;
        assert(dx * dx + dy * dy <= 8_000_000_000_000_000_000 && dx * dx >= 0 && dy * dy >= 0)
            by (nonlinear_arith)
            requires
                -2_000_000_000 <= dx <= 2_000_000_000 && -2_000_000_000 <= dy <= 2_000_000_000,
        ;
        crate::physics::lemma_sqrt_floor_unique(dx * dx + dy * dy, d as int);
        assert(d as int == crate::physics::spec_sqrt_floor(dx * dx + dy * dy));
        assert(d <= 3_000_000_000) by (nonlinear_arith)
            requires
                (d as int) * (d as int) <= 8_000_000_000_000_000_000,
        ;
        crate::physics::lemma_mul_le(
            s as int,
            FIXED_POINT_SCALE as int,
            2_000_000_000,
            FIXED_POINT_SCALE as int,
        );
        crate::physics::lemma_mul_le(theta as int, d as int, u64::MAX as int, 3_000_000_000);
    }
    (s as u128) * (FIXED_POINT_SCALE as u128) < (theta as u128) * (d as u128)
}

/// Pushing one present child of node `n` onto the traversal stack (or
/// skipping an absent one) accounts for exactly that child's contributors
/// and subtree size.
proof fn lemma_stack_step(
    nodes: Seq<QuadNode>,
    pre: Seq<(u64, BoundingBox)>,
    post: Seq<(u64, BoundingBox)>,
    n: int,
    bb: BoundingBox,
    qx: int,
    qy: int,
    th: u64,
    q: int,
)
    requires
        0 <= q < 4,
        0 <= n < nodes.len(),
        wf_node(nodes, n),
        spec_child_idx(nodes[n], q) != NO_CHILD ==> post == pre.push(
            (spec_child_idx(nodes[n], q), bb.spec_child(q)),
        ),
        spec_child_idx(nodes[n], q) == NO_CHILD ==> post == pre,
    ensures
        spec_stack_contrib(nodes, post, qx, qy, th) =~= spec_child_contributors(
            nodes,
            n,
            bb,
            qx,
            qy,
            th,
            q,
        ) + spec_stack_contrib(nodes, pre, qx, qy, th),
        spec_stack_weight(nodes, post) == spec_child_size(nodes, n, q) + spec_stack_weight(
            nodes,
            pre,
        ),
{
    let c = spec_child_idx(nodes[n], q);
    if c != NO_CHILD {
        assert(n < c < nodes.len());
        assert(post.len() == pre.len() + 1);
        assert(post.last() == (c, bb.spec_child(q)));
        assert(post.drop_last() =~= pre);
        assert(spec_stack_contrib(nodes, post, qx, qy, th) == spec_contributors(
            nodes,
            c as int,
            bb.spec_child(q),
            qx,
            qy,
            th,
        ) + spec_stack_contrib(nodes, post.drop_last(), qx, qy, th));
        assert(spec_stack_contrib(nodes, post.drop_last(), qx, qy, th) == spec_stack_contrib(
            nodes,
            pre,
            qx,
            qy,
            th,
        ));
    } else {
        assert(spec_child_contributors(nodes, n, bb, qx, qy, th, q) =~= Seq::<u64>::empty());
        assert(spec_child_size(nodes, n, q) == 0);
    }
}

/// Number of nodes a traversal from node `n` visits: every node popped
/// from the worklist counts, whether it is yielded or expanded.
pub open spec fn spec_visited(
    nodes: Seq<QuadNode>,
    n: int,
    bb: BoundingBox,
    x: int,
    y: int,
    theta: u64,
) -> nat
    decreases nodes.len() - n, 1int,
{
    if 0 <= n < nodes.len() {
        if spec_yields(nodes[n], bb, x, y, theta) {
            1
        } else {
            1 + spec_child_visited(nodes, n, bb, x, y, theta, 0) + spec_child_visited(
                nodes,
                n,
                bb,
                x,
                y,
                theta,
                1,
            ) + spec_child_visited(nodes, n, bb, x, y, theta, 2) + spec_child_visited(
                nodes,
                n,
                bb,
                x,
                y,
                theta,
                3,
            )
        }
    } else {
        0
    }
}

/// Nodes visited below one child slot; zero when the slot is absent.
pub open spec fn spec_child_visited(
    nodes: Seq<QuadNode>,
    n: int,
    bb: BoundingBox,
    x: int,
    y: int,
    theta: u64,
    q: int,
) -> nat
    decreases nodes.len() - n, 0int,
{
    let c = spec_child_idx(nodes[n], q);
    if c != NO_CHILD && n < c < nodes.len() {
        spec_visited(nodes, c as int, bb.spec_child(q), x, y, theta)
    } else {
        0
    }
}

/// A node admissible at one accuracy stays admissible at any coarser one.
pub proof fn lemma_admissible_monotone(
    node: QuadNode,
    bb: BoundingBox,
    x: int,
    y: int,
    theta1: u64,
    theta2: u64,
)
    requires
        theta1 <= theta2,
        spec_admissible(node, bb, x, y, theta1),
    ensures
        spec_admissible(node, bb, x, y, theta2),
{
    let dx = spec_node_x(node) - x;
    let dy = spec_node_y(node) - y;
    crate::physics::vector::lemma_square_nonneg(dx);
    crate::physics::vector::lemma_square_nonneg(dy);
    crate::physics::lemma_sqrt_floor_props(dx * dx + dy * dy);
    let d = crate::physics::spec_sqrt_floor(dx * dx + dy * dy);
    crate::physics::lemma_mul_le(theta1 as int, d, theta2 as int, d);
}

/// Law: raising the accuracy threshold never increases the work of a
/// traversal. For a fixed tree and query point, every node visited at the
/// coarser threshold `theta2` is visited at the finer `theta1 <= theta2`
/// as well, so the visit count falls monotonically as theta grows.
pub proof fn lemma_visited_monotone(
    nodes: Seq<QuadNode>,
    n: int,
    bb: BoundingBox,
    x: int,
    y: int,
    theta1: u64,
    theta2: u64,
)
    requires
        theta1 <= theta2,
    ensures
        spec_visited(nodes, n, bb, x, y, theta2) <= spec_visited(nodes, n, bb, x, y, theta1),
        spec_visited(nodes, n, bb, x, y, theta1) >= 1 || !(0 <= n < nodes.len()),
    decreases nodes.len() - n, 1int,
{
    if 0 <= n < nodes.len() {
        if spec_yields(nodes[n], bb, x, y, theta1) {
            if spec_admissible(nodes[n], bb, x, y, theta1) {
                lemma_admissible_monotone(nodes[n], bb, x, y, theta1, theta2);
            }
        } else if spec_yields(nodes[n], bb, x, y, theta2) {
        } else {
            lemma_child_visited_monotone(nodes, n, bb, x, y, theta1, theta2, 0);
            lemma_child_visited_monotone(nodes, n, bb, x, y, theta1, theta2, 1);
            lemma_child_visited_monotone(nodes, n, bb, x, y, theta1, theta2, 2);
            lemma_child_visited_monotone(nodes, n, bb, x, y, theta1, theta2, 3);
        }
    }
}

/// Slot-wise form of `lemma_visited_monotone`.
proof fn lemma_child_visited_monotone(
    nodes: Seq<QuadNode>,
    n: int,
    bb: BoundingBox,
    x: int,
    y: int,
    theta1: u64,
    theta2: u64,
    q: int,
)
    requires
        theta1 <= theta2,
    ensures
        spec_child_visited(nodes, n, bb, x, y, theta2, q) <= spec_child_visited(
            nodes,
            n,
            bb,
            x,
            y,
            theta1,
            q,
        ),
    decreases nodes.len() - n, 0int,
{
    let c = spec_child_idx(nodes[n], q);
    if c != NO_CHILD && n < c < nodes.len() {
        lemma_visited_monotone(nodes, c as int, bb.spec_child(q), x, y, theta1, theta2);
    }
}

/// The leaves of the subtree rooted at `n`, in traversal order.
pub open spec fn spec_subtree_leaves(nodes: Seq<QuadNode>, n: int) -> Seq<u64>
    decreases nodes.len() - n, 1int,
{
    if 0 <= n < nodes.len() {
        if spec_is_leaf(nodes[n]) {
            seq![n as u64]
        } else {
            spec_child_leaves(nodes, n, 3) + spec_child_leaves(nodes, n, 2) + spec_child_leaves(
                nodes,
                n,
                1,
            ) + spec_child_leaves(nodes, n, 0)
        }
    } else {
        Seq::empty()
    }
}

/// Leaves below one child slot; empty when the slot is absent.
pub open spec fn spec_child_leaves(nodes: Seq<QuadNode>, n: int, q: int) -> Seq<u64>
    decreases nodes.len() - n, 0int,
{
    let c = spec_child_idx(nodes[n], q);
    if c != NO_CHILD && n < c < nodes.len() {
        spec_subtree_leaves(nodes, c as int)
    } else {
        Seq::empty()
    }
}

/// A well-formed box quadrisects into well-formed boxes.
pub proof fn lemma_spec_child_wf(bb: BoundingBox, q: int)
    requires
        bb.wf(),
    ensures
        bb.spec_child(q).wf(),
{
}

/// Law: with theta = 0 no node is ever far enough, so the traversal
/// degenerates to a direct sum: it yields exactly the leaves of the tree,
/// each holding one inserted body, in traversal order.
pub proof fn lemma_theta_zero_yields_leaves(
    nodes: Seq<QuadNode>,
    n: int,
    bb: BoundingBox,
    x: int,
    y: int,
)
    requires
        bb.wf(),
    ensures
        spec_contributors(nodes, n, bb, x, y, 0) =~= spec_subtree_leaves(nodes, n),
    decreases nodes.len() - n, 1int,
{
    if 0 <= n < nodes.len() {
        let dx = spec_node_x(nodes[n]) - x;
        let dy = spec_node_y(nodes[n]) - y;
        crate::physics::vector::lemma_square_nonneg(dx);
        crate::physics::vector::lemma_square_nonneg(dy);
        crate::physics::lemma_sqrt_floor_props(dx * dx + dy * dy);
        assert(!spec_admissible(nodes[n], bb, x, y, 0));
        if !spec_is_leaf(nodes[n]) {
            lemma_child_theta_zero(nodes, n, bb, x, y, 0);
            lemma_child_theta_zero(nodes, n, bb, x, y, 1);
            lemma_child_theta_zero(nodes, n, bb, x, y, 2);
            lemma_child_theta_zero(nodes, n, bb, x, y, 3);
        }
    }
}

/// Slot-wise form of `lemma_theta_zero_yields_leaves`.
proof fn lemma_child_theta_zero(nodes: Seq<QuadNode>, n: int, bb: BoundingBox, x: int, y: int,
    q: int)
    requires
        bb.wf(),
        0 <= q < 4,
    ensures
        spec_child_contributors(nodes, n, bb, x, y, 0, q) =~= spec_child_leaves(nodes, n, q),
    decreases nodes.len() - n, 0int,
{
    let c = spec_child_idx(nodes[n], q);
    if c != NO_CHILD && n < c < nodes.len() {
        lemma_spec_child_wf(bb, q);
        lemma_theta_zero_yields_leaves(nodes, c as int, bb.spec_child(q), x, y);
    }
}

/// Expanding a popped internal node into its present children accounts
/// for exactly its contributors and visits one node of the subtree.
#[verifier::rlimit(100)]
#[verifier::spinoff_prover]
proof fn lemma_stack_expand(
    nodes: Seq<QuadNode>,
    pre: Seq<(u64, BoundingBox)>,
    s0: Seq<(u64, BoundingBox)>,
    s1: Seq<(u64, BoundingBox)>,
    s2: Seq<(u64, BoundingBox)>,
    s3: Seq<(u64, BoundingBox)>,
    n: int,
    bb: BoundingBox,
    qx: int,
    qy: int,
    th: u64,
)
    requires
        0 <= n < nodes.len(),
        wf_node(nodes, n),
        !spec_yields(nodes[n], bb, qx, qy, th),
        spec_child_idx(nodes[n], 0) != NO_CHILD ==> s0 == pre.push(
            (spec_child_idx(nodes[n], 0), bb.spec_child(0)),
        ),
        spec_child_idx(nodes[n], 0) == NO_CHILD ==> s0 == pre,
        spec_child_idx(nodes[n], 1) != NO_CHILD ==> s1 == s0.push(
            (spec_child_idx(nodes[n], 1), bb.spec_child(1)),
        ),
        spec_child_idx(nodes[n], 1) == NO_CHILD ==> s1 == s0,
        spec_child_idx(nodes[n], 2) != NO_CHILD ==> s2 == s1.push(
            (spec_child_idx(nodes[n], 2), bb.spec_child(2)),
        ),
        spec_child_idx(nodes[n], 2) == NO_CHILD ==> s2 == s1,
        spec_child_idx(nodes[n], 3) != NO_CHILD ==> s3 == s2.push(
            (spec_child_idx(nodes[n], 3), bb.spec_child(3)),
        ),
        spec_child_idx(nodes[n], 3) == NO_CHILD ==> s3 == s2,
    ensures
        spec_stack_contrib(nodes, s3, qx, qy, th) =~= spec_contributors(nodes, n, bb, qx, qy, th)
            + spec_stack_contrib(nodes, pre, qx, qy, th),
        spec_stack_weight(nodes, s3) + 1 == spec_subtree_size(nodes, n) + spec_stack_weight(
            nodes,
            pre,
        ),
{
    let ch0 = spec_child_contributors(nodes, n, bb, qx, qy, th, 0);
    let ch1 = spec_child_contributors(nodes, n, bb, qx, qy, th, 1);
    let ch2 = spec_child_contributors(nodes, n, bb, qx, qy, th, 2);
    let ch3 = spec_child_contributors(nodes, n, bb, qx, qy, th, 3);
    lemma_stack_step(nodes, pre, s0, n, bb, qx, qy, th, 0);
    lemma_stack_step(nodes, s0, s1, n, bb, qx, qy, th, 1);
    lemma_stack_step(nodes, s1, s2, n, bb, qx, qy, th, 2);
    lemma_stack_step(nodes, s2, s3, n, bb, qx, qy, th, 3);
    assert(spec_stack_contrib(nodes, s3, qx, qy, th) =~= ch3 + (ch2 + (ch1 + (ch0
        + spec_stack_contrib(nodes, pre, qx, qy, th)))));
    assert(spec_contributors(nodes, n, bb, qx, qy, th) == ch3 + ch2 + ch1 + ch0);
    assert(ch3 + (ch2 + (ch1 + (ch0 + spec_stack_contrib(nodes, pre, qx, qy, th)))) =~= (ch3 + ch2
        + ch1 + ch0) + spec_stack_contrib(nodes, pre, qx, qy, th));
}

/// Lazily produces the tree nodes that should count toward the force on
/// one query point.
///
/// Whether a node is or is not sufficiently far away from a body depends
/// on the quotient s/d, where s is the width of the region represented by
/// the internal node and d is the distance between the body and the node's
/// center of mass. The node is sufficiently far away when this ratio is
/// smaller than a threshold value theta. Larger values of theta increase
/// the speed of the simulation but decrease its accuracy; with theta = 0
/// no internal node is treated as a single body and the algorithm
/// degenerates to a direct-sum algorithm.
pub struct ParticleQuadtreeIterator {
    pub x: i64,
    pub y: i64,
    pub theta: u64,
    pub stack: Vec<(u64, BoundingBox)>,
}

impl ParticleQuadtreeIterator {
    /// The iterator's stack names only nodes of the tree, under
    /// well-formed boxes, for a query point within the coordinate range.
    pub open spec fn wf_for(self, tree: ParticleQuadtree) -> bool {
        &&& -COORD_LIMIT <= self.x <= COORD_LIMIT
        &&& -COORD_LIMIT <= self.y <= COORD_LIMIT
        &&& forall|k: int|
            0 <= k < self.stack@.len() ==> (#[trigger] self.stack@[k]).0 < tree.nodes@.len()
                && self.stack@[k].1.wf()
    }

    /// The contributors this iterator has yet to produce.
    pub open spec fn spec_remaining(self, tree: ParticleQuadtree) -> Seq<u64> {
        spec_stack_contrib(tree.nodes@, self.stack@, self.x as int, self.y as int, self.theta)
    }

    /// Seeds a traversal for one query point with the whole tree.
    pub fn new(x: i64, y: i64, theta: u64, tree: &ParticleQuadtree, bounding_box: BoundingBox)
        -> (r: Self)
        requires
            tree.wf(),
            bounding_box.wf(),
            -COORD_LIMIT <= x <= COORD_LIMIT,
            -COORD_LIMIT <= y <= COORD_LIMIT,
        ensures
            r.wf_for(*tree),
            r.x == x,
            r.y == y,
            r.theta == theta,
            r.spec_remaining(*tree) == spec_contributors(
                tree.nodes@,
                0,
                bounding_box,
                x as int,
                y as int,
                theta,
            ),
    {
        let r = ParticleQuadtreeIterator { x, y, theta, stack: vec![(0u64, bounding_box)] };
        proof {
            let s0 = r.stack@;
            let head = spec_contributors(tree.nodes@, 0, bounding_box, x as int, y as int,
            theta);
            assert(s0.len() == 1);
            assert(s0.last() == (0u64, bounding_box));
            assert(s0.drop_last().len() == 0);
            assert(spec_stack_contrib(tree.nodes@, s0, x as int, y as int, theta) == head
                + spec_stack_contrib(tree.nodes@, s0.drop_last(), x as int, y as int, theta));
            assert(spec_stack_contrib(tree.nodes@, s0.drop_last(), x as int, y as int, theta)
                =~= Seq::<u64>::empty());
            assert(head + Seq::<u64>::empty() =~= head);
        }
        r
    }

    /// Produces the next node that should count toward the force on the
    /// query point, or nothing once the traversal is exhausted. Each call
    /// hands out the head of the contributor sequence still owed, so the
    /// calls together enumerate `spec_contributors` of the seeded root,
    /// once each, never revisiting a node.
    #[verifier::loop_isolation(false)]
    #[verifier::rlimit(100)]
    #[verifier::spinoff_prover]
    pub fn next(&mut self, tree: &ParticleQuadtree) -> (r: Option<u64>)
        requires
            tree.wf(),
            old(self).wf_for(*tree),
        ensures
            final(self).wf_for(*tree),
            final(self).x == old(self).x,
            final(self).y == old(self).y,
            final(self).theta == old(self).theta,
            match r {
                Option::Some(i) => i < tree.nodes@.len() && old(self).spec_remaining(*tree)
                    =~= seq![i] + final(self).spec_remaining(*tree),
                Option::None => old(self).spec_remaining(*tree).len() == 0 && final(self).stack@.len() == 0,
            },
    {
        let ghost nodes = tree.nodes@;
        let ghost qx = self.x as int;
        let ghost qy = self.y as int;
        let ghost th = self.theta;
        while self.stack.len() != 0
            invariant
                self.wf_for(*tree),
                self.x == old(self).x,
                self.y == old(self).y,
                self.theta == old(self).theta,
                self.spec_remaining(*tree) == old(self).spec_remaining(*tree),
            decreases spec_stack_weight(nodes, self.stack@),
        {
            let ghost entry_stack = self.stack@;
            let top = self.stack.pop().unwrap();
            let n: u64 = top.0;
            let bb: BoundingBox = top.1;
            proof {
                assert(entry_stack[entry_stack.len() - 1].0 < tree.nodes@.len());
                assert(entry_stack.last() == top);
                assert(self.stack@ =~= entry_stack.drop_last());
                assert(spec_stack_contrib(nodes, entry_stack, qx, qy, th) == spec_contributors(
                    nodes,
                    n as int,
                    bb,
                    qx,
                    qy,
                    th,
                ) + spec_stack_contrib(nodes, self.stack@, qx, qy, th));
                assert(spec_stack_weight(nodes, entry_stack) == spec_subtree_size(nodes, n as int)
                    + spec_stack_weight(nodes, self.stack@));
                assert(wf_node(nodes, n as int));
            }
            let count = tree.nodes.len();
            proof {
                assert(n < count);
                assert(n as usize as u64 == n);
            }
            let admissible = far_enough(tree, n, bb, self.x, self.y, self.theta);
            if admissible || tree.is_leaf(n as usize) {
                proof {
                    assert(spec_yields(nodes[n as int], bb, qx, qy, th));
                    assert(spec_contributors(nodes, n as int, bb, qx, qy, th) =~= seq![n]);
                }
                return Some(n);
            }
            let ghost popped_stack = self.stack@;
            let c0 = tree.child_index(n as usize, 0);
            if c0 != NO_CHILD {
                self.stack.push((c0, bb.child(0)));
            }
            let ghost stack0 = self.stack@;
            let c1 = tree.child_index(n as usize, 1);
            if c1 != NO_CHILD {
                self.stack.push((c1, bb.child(1)));
            }
            let ghost stack1 = self.stack@;
            let c2 = tree.child_index(n as usize, 2);
            if c2 != NO_CHILD {
                self.stack.push((c2, bb.child(2)));
            }
            let ghost stack2 = self.stack@;
            let c3 = tree.child_index(n as usize, 3);
            if c3 != NO_CHILD {
                self.stack.push((c3, bb.child(3)));
            }
            proof {
                let stack3 = self.stack@;
                lemma_stack_expand(
                    nodes,
                    popped_stack,
                    stack0,
                    stack1,
                    stack2,
                    stack3,
                    n as int,
                    bb,
                    qx,
                    qy,
                    th,
                );
                assert(spec_stack_contrib(nodes, stack3, qx, qy, th) =~= spec_stack_contrib(
                    nodes,
                    entry_stack,
                    qx,
                    qy,
                    th,
                ));
                assert(spec_stack_weight(nodes, stack3) < spec_stack_weight(nodes, entry_stack));
                assert forall|k: int| 0 <= k < stack3.len() implies (#[trigger] stack3[k]).0
                    < tree.nodes@.len() && stack3[k].1.wf() by {
                    if k < popped_stack.len() {
                        assert(stack3[k] == entry_stack[k]);
                    }
                }
            }
        }
        proof {
            assert(self.stack@.len() == 0);
            assert(self.spec_remaining(*tree).len() == 0);
        }
        None
    }
}

} // verus!
