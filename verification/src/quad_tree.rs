//! Adaptive quadtree over a rectangular region.
//!
//! The region is measured in integer tile units.  A tree holds one value
//! per point of its region, splitting a leaf lazily on write and merging
//! four uniform sibling leaves back into one, so that a uniform region
//! costs a single shared value no matter its area.  Quadrant selection
//! breaks ties the same way on every path: a point on the horizontal
//! midline belongs to the bottom half, and a point on the vertical
//! midline to the right half.

use vstd::prelude::*;
use std::rc::Rc;
use crate::values::EqValue;

verus! {

/// Axis-aligned rectangle in tile units; the region owned by a node.
#[derive(Clone, Copy)]
pub struct Rect {
    pub x: i64,
    pub y: i64,
    pub width: i64,
    pub height: i64,
}

/// Bound keeping every midpoint computation inside `i64`.
pub open spec fn rect_wf(rect: Rect) -> bool {
    &&& 0 <= rect.width
    &&& 0 <= rect.height
    &&& -0x2000_0000_0000_0000 <= rect.x
    &&& rect.x + rect.width <= 0x2000_0000_0000_0000
    &&& -0x2000_0000_0000_0000 <= rect.y
    &&& rect.y + rect.height <= 0x2000_0000_0000_0000
}

/// One of the four quadrants of a rectangle.
#[derive(Clone, Copy)]
pub enum Quadrant {
    TopLeft,
    TopRight,
    BottomLeft,
    BottomRight,
}

/// Vertical midline of `rect`.
pub open spec fn mid_x(rect: Rect) -> int {
    rect.x + rect.width / 2
}

/// Horizontal midline of `rect`.
pub open spec fn mid_y(rect: Rect) -> int {
    rect.y + rect.height / 2
}

/// Quadrant of `rect` holding the point `(px, py)`: a point above the
/// horizontal midline is top, a point on or below it is bottom; a point
/// strictly left of the vertical midline is left, a point on or right of
/// it is right.
pub open spec fn quad_of(rect: Rect, px: int, py: int) -> Quadrant {
    if py > mid_y(rect) {
        if px < mid_x(rect) {
            Quadrant::TopLeft
        } else {
            Quadrant::TopRight
        }
    } else {
        if px < mid_x(rect) {
            Quadrant::BottomLeft
        } else {
            Quadrant::BottomRight
        }
    }
}

/// The sub-rectangle of `rect` owned by quadrant `q`.
pub open spec fn child_rect(rect: Rect, q: Quadrant) -> Rect {
    let w = (rect.width / 2) as i64;
    let h = (rect.height / 2) as i64;
    match q {
        Quadrant::TopLeft => Rect { x: rect.x, y: (rect.y + h) as i64, width: w, height: h },
        Quadrant::TopRight => Rect {
            x: (rect.x + w) as i64,
            y: (rect.y + h) as i64,
            width: w,
            height: h,
        },
        Quadrant::BottomLeft => Rect { x: rect.x, y: rect.y, width: w, height: h },
        Quadrant::BottomRight => Rect { x: (rect.x + w) as i64, y: rect.y, width: w, height: h },
    }
}

/// The descent path of the point `(px, py)` through `levels` quadrant
/// selections starting from `rect`.  Two points share a maximum-depth
/// cell exactly when their paths agree.
pub open spec fn cell_path(rect: Rect, px: int, py: int, levels: nat) -> Seq<Quadrant>
    decreases levels,
{
    if levels == 0 {
        Seq::empty()
    } else {
        let q = quad_of(rect, px, py);
        seq![q] + cell_path(child_rect(rect, q), px, py, (levels - 1) as nat)
    }
}

/// `2^n`.
pub open spec fn pow2(n: nat) -> int
    decreases n,
{
    if n == 0 {
        1
    } else {
        2 * pow2((n - 1) as nat)
    }
}

/// The points of `rect` whose whole descent stays within `rect`'s
/// quadrants: left edge and top edge included, right edge and bottom
/// edge excluded, matching the tie-breaks of `quad_of`.
pub open spec fn in_cell(rect: Rect, px: int, py: int) -> bool {
    &&& rect.x <= px < rect.x + rect.width
    &&& rect.y < py <= rect.y + rect.height
}

enum Node<D> {
    Leaf(Rc<D>),
    Nodes(Box<Quad<D>>),
}

struct Quad<D> {
    top_left: Node<D>,
    top_right: Node<D>,
    bottom_left: Node<D>,
    bottom_right: Node<D>,
}

impl<D> Quad<D> {
    spec fn child(self, q: Quadrant) -> Node<D> {
        match q {
            Quadrant::TopLeft => self.top_left,
            Quadrant::TopRight => self.top_right,
            Quadrant::BottomLeft => self.bottom_left,
            Quadrant::BottomRight => self.bottom_right,
        }
    }
}

impl<D> Node<D> {
    /// The value the tree rooted at `self`, owning `rect`, holds at the
    /// point `(px, py)`.
    spec fn value_at(self, rect: Rect, px: int, py: int) -> D
        decreases self,
    {
        match self {
            Node::Leaf(d) => *d,
            Node::Nodes(children) => {
                let q = quad_of(rect, px, py);
                children.child(q).value_at(child_rect(rect, q), px, py)
            },
        }
    }

    /// The tree rooted at `self` branches at most `levels` more times.
    spec fn depth_ok(self, levels: nat) -> bool
        decreases self,
    {
        match self {
            Node::Leaf(_) => true,
            Node::Nodes(children) => {
                &&& levels > 0
                &&& children.top_left.depth_ok((levels - 1) as nat)
                &&& children.top_right.depth_ok((levels - 1) as nat)
                &&& children.bottom_left.depth_ok((levels - 1) as nat)
                &&& children.bottom_right.depth_ok((levels - 1) as nat)
            },
        }
    }

    /// No branch anywhere below `self` keeps four sibling leaves of
    /// equal value: such siblings are always collapsed.
    spec fn merged(self) -> bool
        decreases self,
    {
        match self {
            Node::Leaf(_) => true,
            Node::Nodes(children) => {
                &&& children.top_left.merged()
                &&& children.top_right.merged()
                &&& children.bottom_left.merged()
                &&& children.bottom_right.merged()
                &&& !Node::uniform_leaves(*children)
            },
        }
    }

    /// All four children are leaves holding equal values.
    spec fn uniform_leaves(children: Quad<D>) -> bool {
        &&& children.top_left is Leaf
        &&& children.top_right is Leaf
        &&& children.bottom_left is Leaf
        &&& children.bottom_right is Leaf
        &&& *children.top_left->Leaf_0 == *children.top_right->Leaf_0
        &&& *children.top_left->Leaf_0 == *children.bottom_left->Leaf_0
        &&& *children.top_left->Leaf_0 == *children.bottom_right->Leaf_0
    }
}

proof fn lemma_cell_path_step(rect: Rect, px: int, py: int, qx: int, qy: int, levels: nat)
    requires
        levels > 0,
    ensures
        (cell_path(rect, px, py, levels) == cell_path(rect, qx, qy, levels)) <==> {
            &&& quad_of(rect, px, py) == quad_of(rect, qx, qy)
            &&& cell_path(child_rect(rect, quad_of(rect, px, py)), px, py, (levels - 1) as nat)
                == cell_path(child_rect(rect, quad_of(rect, px, py)), qx, qy, (levels - 1) as nat)
        },
{
    let qp = quad_of(rect, px, py);
    let qq = quad_of(rect, qx, qy);
    let tp = cell_path(child_rect(rect, qp), px, py, (levels - 1) as nat);
    let tq = cell_path(child_rect(rect, qq), qx, qy, (levels - 1) as nat);
    let sp = cell_path(rect, px, py, levels);
    let sq = cell_path(rect, qx, qy, levels);
    assert(sp == seq![qp] + tp);
    assert(sq == seq![qq] + tq);
    if sp == sq {
        assert(sp[0] == qp);
        assert(sq[0] == qq);
        assert(tp =~= tq) by {
            assert forall|i: int| 0 <= i < tp.len() implies tp[i] == tq[i] by {
                assert(tp[i] == sp[i + 1]);
                assert(tq[i] == sq[i + 1]);
            }
        }
    }
    if qp == qq && tp == tq {
        assert(sp =~= sq);
    }
}

/// Quadrant of `rect` holding `(px, py)`, with that quadrant's
/// sub-rectangle.
fn index_rect_of_child(rect: &Rect, px: i64, py: i64) -> (r: (Quadrant, Rect))
    requires
        rect_wf(*rect),
    ensures
        r.0 == quad_of(*rect, px as int, py as int),
        r.1 == child_rect(*rect, r.0),
        rect_wf(r.1),
{
    let w = rect.width / 2;
    let h = rect.height / 2;
    let x1 = rect.x + w;
    let y1 = rect.y + h;
    if py > y1 {
        if px < x1 {
            (Quadrant::TopLeft, Rect { x: rect.x, y: y1, width: w, height: h })
        } else {
            (Quadrant::TopRight, Rect { x: x1, y: y1, width: w, height: h })
        }
    } else {
        if px < x1 {
            (Quadrant::BottomLeft, Rect { x: rect.x, y: rect.y, width: w, height: h })
        } else {
            (Quadrant::BottomRight, Rect { x: x1, y: rect.y, width: w, height: h })
        }
    }
}

/// A depth-bounded quadtree holding one value per point of a rectangular
/// region, merging uniform regions automatically.
pub struct QuadTree<D> {
    root: Node<D>,
    rect: Rect,
    max_depth: i32,
}

impl<D> QuadTree<D> {
    /// Region bounds are in range, the configured depth is positive, the
    /// tree never branches deeper than that, and no four sibling leaves
    /// hold equal values.
    pub closed spec fn wf(self) -> bool {
        &&& rect_wf(self.rect)
        &&& 1 <= self.max_depth
        &&& self.root.depth_ok(self.max_depth as nat)
        &&& self.root.merged()
    }

    /// The value held at the point `(px, py)`.
    pub closed spec fn spec_get(self, px: int, py: int) -> D {
        self.root.value_at(self.rect, px, py)
    }

    /// The region this tree subdivides.
    pub closed spec fn region(self) -> Rect {
        self.rect
    }

    /// The configured maximum subdivision depth.
    pub closed spec fn spec_max_depth(self) -> i32 {
        self.max_depth
    }

    /// The points `(px, py)` and `(qx, qy)` fall into the same cell at
    /// maximum subdivision depth, so a write to one is a write to both.
    pub closed spec fn same_cell(self, px: int, py: int, qx: int, qy: int) -> bool {
        cell_path(self.rect, px, py, self.max_depth as nat) == cell_path(
            self.rect,
            qx,
            qy,
            self.max_depth as nat,
        )
    }

    /// The whole tree is one leaf.
    pub closed spec fn spec_single_leaf(self) -> bool {
        self.root is Leaf
    }

    pub fn new(x: i64, y: i64, width: i64, height: i64, max_depth: i32, initial: D) -> (r:
        QuadTree<D>)
        requires
            0 <= width,
            0 <= height,
            -0x2000_0000_0000_0000 <= x,
            x + width <= 0x2000_0000_0000_0000,
            -0x2000_0000_0000_0000 <= y,
            y + height <= 0x2000_0000_0000_0000,
            1 <= max_depth,
        ensures
            r.wf(),
            forall|qx: int, qy: int| r.spec_get(qx, qy) == initial,
            r.region() == (Rect { x, y, width, height }),
            r.spec_max_depth() == max_depth,
            r.spec_single_leaf(),
    {
        QuadTree {
            root: Node::Leaf(Rc::new(initial)),
            rect: Rect { x, y, width, height },
            max_depth,
        }
    }

    /// The tree has collapsed to (or never left) a single uniform leaf.
    pub fn is_single_leaf(&self) -> (r: bool)
        ensures
            r == self.spec_single_leaf(),
    {
        match &self.root {
            Node::Leaf(_) => true,
            Node::Nodes(_) => false,
        }
    }

    /// The value held at the point `(px, py)`.
    pub fn get_data(&self, px: i64, py: i64) -> (r: &D)
        requires
            self.wf(),
        ensures
            *r == self.spec_get(px as int, py as int),
    {
        QuadTree::get_node_data(&self.root, &self.rect, px, py)
    }

    fn get_node_data<'a>(node: &'a Node<D>, rect: &Rect, px: i64, py: i64) -> (r: &'a D)
        requires
            rect_wf(*rect),
        ensures
            *r == node.value_at(*rect, px as int, py as int),
        decreases node,
    {
        match node {
            Node::Leaf(data) => &**data,
            Node::Nodes(children) => {
                let (q, crect) = index_rect_of_child(rect, px, py);
                match q {
                    Quadrant::TopLeft => QuadTree::get_node_data(
                        &children.top_left,
                        &crect,
                        px,
                        py,
                    ),
                    Quadrant::TopRight => QuadTree::get_node_data(
                        &children.top_right,
                        &crect,
                        px,
                        py,
                    ),
                    Quadrant::BottomLeft => QuadTree::get_node_data(
                        &children.bottom_left,
                        &crect,
                        px,
                        py,
                    ),
                    Quadrant::BottomRight => QuadTree::get_node_data(
                        &children.bottom_right,
                        &crect,
                        px,
                        py,
                    ),
                }
            },
        }
    }
}

impl<D: EqValue> QuadTree<D> {
    /// Writes the shared value `data` at the point `(px, py)`: every
    /// point of the maximum-depth cell holding `(px, py)` takes the new
    /// value, and no other point changes.  Writing a value already held
    /// there leaves the tree untouched.
    pub fn set_data(&mut self, px: i64, py: i64, data: &Rc<D>)
        requires
            old(self).wf(),
        ensures
            final(self).wf(),
            final(self).region() == old(self).region(),
            final(self).spec_max_depth() == old(self).spec_max_depth(),
            final(self).spec_get(px as int, py as int) == **data,
            forall|qx: int, qy: int|
                final(self).spec_get(qx, qy) == (if old(self).same_cell(
                    px as int,
                    py as int,
                    qx,
                    qy,
                ) {
                    **data
                } else {
                    old(self).spec_get(qx, qy)
                }),
            old(self).spec_get(px as int, py as int) == **data ==> *final(self) == *old(self),
    {
        let rect = self.rect;
        let md = self.max_depth;
        let _changed = QuadTree::set_node_data(&mut self.root, &rect, px, py, data, 0, md);
    }

    /// A leaf holding a value equal to `data`.
    fn leaf_equals(node: &Node<D>, data: &Rc<D>) -> (r: bool)
        ensures
            r <==> (node is Leaf && *node->Leaf_0 == **data),
    {
        match node {
            Node::Leaf(d) => (&**d).eq_value(&**data),
            Node::Nodes(_) => false,
        }
    }

    fn set_node_data(
        node: &mut Node<D>,
        rect: &Rect,
        px: i64,
        py: i64,
        new_data: &Rc<D>,
        depth: i32,
        max_depth: i32,
    ) -> (changed: bool)
        requires
            rect_wf(*rect),
            0 <= depth <= max_depth,
            old(node).depth_ok((max_depth - depth) as nat),
            old(node).merged(),
        ensures
            final(node).depth_ok((max_depth - depth) as nat),
            final(node).merged(),
            forall|qx: int, qy: int|
                final(node).value_at(*rect, qx, qy) == (if cell_path(
                    *rect,
                    qx,
                    qy,
                    (max_depth - depth) as nat,
                ) == cell_path(*rect, px as int, py as int, (max_depth - depth) as nat) {
                    **new_data
                } else {
                    old(node).value_at(*rect, qx, qy)
                }),
            changed ==> (*final(node)) is Leaf && *(*final(node))->Leaf_0 == **new_data,
            !changed ==> (*final(node)) is Nodes || *final(node) == *old(node),
            old(node).value_at(*rect, px as int, py as int) == **new_data ==> *final(node) == *old(
                node,
            ) && !changed,
        decreases max_depth - depth,
    {
        let ghost rem = (max_depth - depth) as nat;
        match node {
            Node::Leaf(data) => {
                if (&**data).eq_value(&**new_data) {
                    return false;
                }
                if depth < max_depth {
                    let mut children = Box::new(
                        Quad {
                            top_left: Node::Leaf(Rc::clone(data)),
                            top_right: Node::Leaf(Rc::clone(data)),
                            bottom_left: Node::Leaf(Rc::clone(data)),
                            bottom_right: Node::Leaf(Rc::clone(data)),
                        },
                    );
                    let (q, crect) = index_rect_of_child(rect, px, py);
                    let _child_changed = match q {
                        Quadrant::TopLeft => QuadTree::set_node_data(
                            &mut children.top_left,
                            &crect,
                            px,
                            py,
                            new_data,
                            depth + 1,
                            max_depth,
                        ),
                        Quadrant::TopRight => QuadTree::set_node_data(
                            &mut children.top_right,
                            &crect,
                            px,
                            py,
                            new_data,
                            depth + 1,
                            max_depth,
                        ),
                        Quadrant::BottomLeft => QuadTree::set_node_data(
                            &mut children.bottom_left,
                            &crect,
                            px,
                            py,
                            new_data,
                            depth + 1,
                            max_depth,
                        ),
                        Quadrant::BottomRight => QuadTree::set_node_data(
                            &mut children.bottom_right,
                            &crect,
                            px,
                            py,
                            new_data,
                            depth + 1,
                            max_depth,
                        ),
                    };
                    let ghost fq = *children;
                    *node = Node::Nodes(children);
                    proof {
                        let qp = quad_of(*rect, px as int, py as int);
                        assert(node->Nodes_0 == fq);
                        assert(node->Nodes_0.child(qp).value_at(
                            child_rect(*rect, qp),
                            px as int,
                            py as int,
                        ) == **new_data);
                        assert(**new_data != *old(node)->Leaf_0);
                        assert(!(node->Nodes_0.child(qp) is Leaf && *node->Nodes_0.child(
                            qp,
                        )->Leaf_0 == *old(node)->Leaf_0)) by {
                            let child = node->Nodes_0.child(qp);
                            if child is Leaf && *child->Leaf_0 == *old(node)->Leaf_0 {
                                assert(child.value_at(crect, px as int, py as int) == *child->Leaf_0);
                                assert(false);
                            }
                        }
                        assert(!Node::uniform_leaves(*node->Nodes_0)) by {
                            let child = node->Nodes_0.child(qp);
                            let quad = *node->Nodes_0;
                            if Node::uniform_leaves(quad) {
                                match qp {
                                    Quadrant::TopLeft => {
                                        assert(*quad.top_right->Leaf_0 == *old(node)->Leaf_0);
                                    },
                                    Quadrant::TopRight => {
                                        assert(*quad.top_left->Leaf_0 == *old(node)->Leaf_0);
                                    },
                                    Quadrant::BottomLeft => {
                                        assert(*quad.top_left->Leaf_0 == *old(node)->Leaf_0);
                                    },
                                    Quadrant::BottomRight => {
                                        assert(*quad.top_left->Leaf_0 == *old(node)->Leaf_0);
                                    },
                                }
                                assert(child is Leaf && *child->Leaf_0 == *old(node)->Leaf_0);
                                assert(false);
                            }
                        }
                        assert forall|qx: int, qy: int|
                            final(node).value_at(*rect, qx, qy) == (if cell_path(
                                *rect,
                                qx,
                                qy,
                                rem,
                            ) == cell_path(*rect, px as int, py as int, rem) {
                                **new_data
                            } else {
                                old(node).value_at(*rect, qx, qy)
                            }) by {
                            lemma_cell_path_step(*rect, px as int, py as int, qx, qy, rem);
                            let g = quad_of(*rect, qx, qy);
                            assert(node->Nodes_0 == fq);
                            assert(final(node).value_at(*rect, qx, qy) == fq.child(g).value_at(
                                child_rect(*rect, g),
                                qx,
                                qy,
                            ));
                            assert(old(node).value_at(*rect, qx, qy) == *old(node)->Leaf_0);
                            if g == qp {
                                assert(child_rect(*rect, g) == crect);
                            } else {
                                assert(fq.child(g) is Leaf && *fq.child(g)->Leaf_0 == *old(
                                    node,
                                )->Leaf_0);
                            }
                        }
                    }
                    proof {
                        assert(final(node).depth_ok(rem)) by {
                            assert(fq.top_left.depth_ok((rem - 1) as nat));
                            assert(fq.top_right.depth_ok((rem - 1) as nat));
                            assert(fq.bottom_left.depth_ok((rem - 1) as nat));
                            assert(fq.bottom_right.depth_ok((rem - 1) as nat));
                        }
                    }
                    false
                } else {
                    *data = Rc::clone(new_data);
                    proof {
                        assert((*node) is Leaf);
                        assert(final(node).depth_ok(rem));
                    }
                    true
                }
            },
            Node::Nodes(children) => {
                let (q, crect) = index_rect_of_child(rect, px, py);
                let child_changed = match q {
                    Quadrant::TopLeft => QuadTree::set_node_data(
                        &mut children.top_left,
                        &crect,
                        px,
                        py,
                        new_data,
                        depth + 1,
                        max_depth,
                    ),
                    Quadrant::TopRight => QuadTree::set_node_data(
                        &mut children.top_right,
                        &crect,
                        px,
                        py,
                        new_data,
                        depth + 1,
                        max_depth,
                    ),
                    Quadrant::BottomLeft => QuadTree::set_node_data(
                        &mut children.bottom_left,
                        &crect,
                        px,
                        py,
                        new_data,
                        depth + 1,
                        max_depth,
                    ),
                    Quadrant::BottomRight => QuadTree::set_node_data(
                        &mut children.bottom_right,
                        &crect,
                        px,
                        py,
                        new_data,
                        depth + 1,
                        max_depth,
                    ),
                };
                let ghost mid = Node::<D>::Nodes(Box::new(**children));
                proof {
                    let qp = quad_of(*rect, px as int, py as int);
                    assert forall|qx: int, qy: int|
                        mid.value_at(*rect, qx, qy) == (if cell_path(*rect, qx, qy, rem)
                            == cell_path(*rect, px as int, py as int, rem) {
                            **new_data
                        } else {
                            old(node).value_at(*rect, qx, qy)
                        }) by {
                        lemma_cell_path_step(*rect, px as int, py as int, qx, qy, rem);
                        let g = quad_of(*rect, qx, qy);
                        assert(mid->Nodes_0 == **children);
                        assert(mid.value_at(*rect, qx, qy) == mid->Nodes_0.child(g).value_at(
                            child_rect(*rect, g),
                            qx,
                            qy,
                        ));
                        assert(old(node).value_at(*rect, qx, qy) == old(node)->Nodes_0.child(
                            g,
                        ).value_at(child_rect(*rect, g), qx, qy));
                        if g == qp {
                            assert(child_rect(*rect, g) == crect);
                        } else {
                            assert(mid->Nodes_0.child(g) == old(node)->Nodes_0.child(g));
                        }
                    }
                    assert(mid->Nodes_0 == **children);
                }
                if child_changed {
                    let m_tl = QuadTree::leaf_equals(&children.top_left, new_data);
                    let m_tr = QuadTree::leaf_equals(&children.top_right, new_data);
                    let m_bl = QuadTree::leaf_equals(&children.bottom_left, new_data);
                    let m_br = QuadTree::leaf_equals(&children.bottom_right, new_data);
                    let can_merge = m_tl && m_tr && m_bl && m_br;
                    if can_merge {
                        proof {
                            assert(mid->Nodes_0.top_left is Leaf && *mid->Nodes_0.top_left->Leaf_0
                                == **new_data);
                            assert(mid->Nodes_0.top_right is Leaf
                                && *mid->Nodes_0.top_right->Leaf_0 == **new_data);
                            assert(mid->Nodes_0.bottom_left is Leaf
                                && *mid->Nodes_0.bottom_left->Leaf_0 == **new_data);
                            assert(mid->Nodes_0.bottom_right is Leaf
                                && *mid->Nodes_0.bottom_right->Leaf_0 == **new_data);
                            assert forall|qx: int, qy: int|
                                mid.value_at(*rect, qx, qy) == **new_data by {
                                let g = quad_of(*rect, qx, qy);
                                assert(mid->Nodes_0.child(g) is Leaf);
                                assert(mid.value_at(*rect, qx, qy) == mid->Nodes_0.child(
                                    g,
                                ).value_at(child_rect(*rect, g), qx, qy));
                                assert(mid->Nodes_0.child(g).value_at(child_rect(*rect, g), qx, qy)
                                    == *mid->Nodes_0.child(g)->Leaf_0);
                                assert(*mid->Nodes_0.child(g)->Leaf_0 == **new_data);
                            }
                        }
                        *node = Node::Leaf(Rc::clone(new_data));
                        true
                    } else {
                        proof {
                            let qp = quad_of(*rect, px as int, py as int);
                            assert(!(mid->Nodes_0.child(qp) is Leaf) || *mid->Nodes_0.child(
                                qp,
                            )->Leaf_0 == **new_data);
                            assert(!Node::uniform_leaves(**children));
                        }
                        false
                    }
                } else {
                    proof {
                        let qp = quad_of(*rect, px as int, py as int);
                        if mid->Nodes_0.child(qp) is Nodes {
                            assert(!Node::uniform_leaves(**children));
                        } else {
                            assert(mid == *old(node));
                        }
                    }
                    false
                }
            },
        }
    }
}

proof fn lemma_pow2_pos(n: nat)
    ensures
        pow2(n) >= 1,
    decreases n,
{
    if n > 0 {
        lemma_pow2_pos((n - 1) as nat);
    }
}

proof fn lemma_uniform_node<D>(node: Node<D>, rect: Rect, levels: nat, d: D)
    requires
        rect_wf(rect),
        node.merged(),
        node.depth_ok(levels),
        rect.width >= pow2(levels),
        rect.height >= pow2(levels),
        forall|qx: int, qy: int| in_cell(rect, qx, qy) ==> node.value_at(rect, qx, qy) == d,
    ensures
        node is Leaf,
        *node->Leaf_0 == d,
    decreases node,
{
    lemma_pow2_pos(levels);
    let wx = rect.x as int;
    let wy = rect.y + rect.height;
    assert(in_cell(rect, wx, wy));
    match node {
        Node::Leaf(dd) => {
            assert(node.value_at(rect, wx, wy) == *dd);
        },
        Node::Nodes(children) => {
            let sub = (levels - 1) as nat;
            assert(rect.width / 2 >= pow2(sub));
            assert(rect.height / 2 >= pow2(sub));
            let tl = child_rect(rect, Quadrant::TopLeft);
            let tr = child_rect(rect, Quadrant::TopRight);
            let bl = child_rect(rect, Quadrant::BottomLeft);
            let br = child_rect(rect, Quadrant::BottomRight);
            assert forall|qx: int, qy: int| in_cell(tl, qx, qy) implies children.top_left.value_at(
                tl,
                qx,
                qy,
            ) == d by {
                assert(quad_of(rect, qx, qy) == Quadrant::TopLeft);
                assert(in_cell(rect, qx, qy));
                assert(node.value_at(rect, qx, qy) == children.top_left.value_at(tl, qx, qy));
            }
            assert forall|qx: int, qy: int|
                in_cell(tr, qx, qy) implies children.top_right.value_at(tr, qx, qy) == d by {
                assert(quad_of(rect, qx, qy) == Quadrant::TopRight);
                assert(in_cell(rect, qx, qy));
                assert(node.value_at(rect, qx, qy) == children.top_right.value_at(tr, qx, qy));
            }
            assert forall|qx: int, qy: int|
                in_cell(bl, qx, qy) implies children.bottom_left.value_at(bl, qx, qy) == d by {
                assert(quad_of(rect, qx, qy) == Quadrant::BottomLeft);
                assert(in_cell(rect, qx, qy));
                assert(node.value_at(rect, qx, qy) == children.bottom_left.value_at(bl, qx, qy));
            }
            assert forall|qx: int, qy: int|
                in_cell(br, qx, qy) implies children.bottom_right.value_at(br, qx, qy) == d by {
                assert(quad_of(rect, qx, qy) == Quadrant::BottomRight);
                assert(in_cell(rect, qx, qy));
                assert(node.value_at(rect, qx, qy) == children.bottom_right.value_at(br, qx, qy));
            }
            lemma_uniform_node(children.top_left, tl, sub, d);
            lemma_uniform_node(children.top_right, tr, sub, d);
            lemma_uniform_node(children.bottom_left, bl, sub, d);
            lemma_uniform_node(children.bottom_right, br, sub, d);
            assert(Node::uniform_leaves(*children));
            assert(false);
        },
    }
}

impl<D> QuadTree<D> {
    /// Merging leaves nothing to collapse: a tree whose whole region
    /// holds one value is a single leaf, however fragmented it was
    /// before that value was written everywhere.  The region must be at
    /// least `2^maxDepth` wide and tall, so that every cell at every
    /// depth contains a point.
    pub proof fn lemma_uniform_region_collapses(self, d: D)
        requires
            self.wf(),
            self.region().width >= pow2(self.spec_max_depth() as nat),
            self.region().height >= pow2(self.spec_max_depth() as nat),
            forall|qx: int, qy: int|
                in_cell(self.region(), qx, qy) ==> self.spec_get(qx, qy) == d,
        ensures
            self.spec_single_leaf(),
            forall|qx: int, qy: int| self.spec_get(qx, qy) == d,
    {
        assert forall|qx: int, qy: int|
            in_cell(self.rect, qx, qy) implies self.root.value_at(self.rect, qx, qy) == d by {
            assert(self.spec_get(qx, qy) == d);
        }
        lemma_uniform_node(self.root, self.rect, self.max_depth as nat, d);
    }
}

} // verus!
