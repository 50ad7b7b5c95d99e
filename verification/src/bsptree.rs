//! A binary space partitioning tree: it subdivides a bounding rectangle
//! into a binary tree of sub-rectangles. Every node has either zero or two
//! children; each leaf holds at most one payload; exactly one leaf of a
//! non-empty tree carries the focus.

use vstd::prelude::*;

verus! {

/// The four ways in which focus can be moved around the tree.
#[derive(Clone, Copy, PartialEq, Eq, PartialOrd, Ord, Hash, Structural, Debug)]
pub enum MoveDirection {
    Left,
    Right,
    Up,
    Down,
}

/// The way in which a node's rectangle is divided when it gains children.
#[derive(Clone, Copy, PartialEq, Eq, Hash, Structural, Debug)]
pub enum SplitDirection {
    Horizontal,
    Vertical,
}

/// An axis-aligned rectangle. `(x, y)` is the top-left corner; `w` and `h`
/// are the width and height measured from that corner.
#[derive(Clone, Copy, PartialEq, Eq, PartialOrd, Ord, Hash, Structural, Debug)]
pub struct Rectangle {
    pub x: u32,
    pub y: u32,
    pub w: u32,
    pub h: u32,
}

impl Rectangle {
    /// A point is inside a rectangle when it lies between the rectangle's
    /// edges, both edges included: two rectangles that share an edge both
    /// contain the points on it.
    pub open spec fn contains_pt(self, px: int, py: int) -> bool {
        &&& self.x <= px <= self.x + self.w
        &&& self.y <= py <= self.y + self.h
    }

    pub fn new(x: u32, y: u32, w: u32, h: u32) -> (r: Self)
        ensures
            r == (Rectangle { x, y, w, h }),
    {
        Self { x, y, w, h }
    }

    pub fn is_inside(&self, x_: i32, y_: i32) -> (r: bool)
        ensures
            r == self.contains_pt(x_ as int, y_ as int),
    {
        if x_ < 0 || y_ < 0 {
            return false;
        }
        let px: u64 = x_ as u64;
        let py: u64 = y_ as u64;
        px >= self.x as u64 && px <= self.x as u64 + self.w as u64 && py >= self.y as u64
            && py <= self.y as u64 + self.h as u64
    }
}

impl SplitDirection {
    /// The two halves of a rectangle under this split policy. Widths and
    /// heights are halved by integer division: for an odd extent the two
    /// halves cover one unit less than the whole.
    pub open spec fn halves(self, r: Rectangle) -> (Rectangle, Rectangle) {
        match self {
            SplitDirection::Horizontal => (
                Rectangle { x: r.x, y: r.y, w: r.w, h: (r.h / 2) as u32 },
                Rectangle { x: r.x, y: ((r.y + r.h / 2) as u32), w: r.w, h: (r.h / 2) as u32 },
            ),
            SplitDirection::Vertical => (
                Rectangle { x: r.x, y: r.y, w: (r.w / 2) as u32, h: r.h },
                Rectangle { x: ((r.x + r.w / 2) as u32), y: r.y, w: (r.w / 2) as u32, h: r.h },
            ),
        }
    }

    pub fn split(&self, rect: Rectangle) -> (r: (Rectangle, Rectangle))
        requires
            *self == SplitDirection::Horizontal ==> rect.y + rect.h / 2 <= u32::MAX,
            *self == SplitDirection::Vertical ==> rect.x + rect.w / 2 <= u32::MAX,
        ensures
            r == self.halves(rect),
    {
        match self {
            Self::Horizontal => (
                Rectangle::new(rect.x, rect.y, rect.w, rect.h / 2),
                Rectangle::new(rect.x, rect.y + rect.h / 2, rect.w, rect.h / 2),
            ),
            Self::Vertical => (
                Rectangle::new(rect.x, rect.y, rect.w / 2, rect.h),
                Rectangle::new(rect.x + rect.w / 2, rect.y, rect.w / 2, rect.h),
            ),
        }
    }
}

impl MoveDirection {
    /// The probe point for a focus move: one unit beyond the rectangle's
    /// edge on the requested side, aligned with the top-left corner.
    pub open spec fn probe_pt(self, r: Rectangle) -> (int, int) {
        match self {
            MoveDirection::Left => (r.x - 1, r.y as int),
            MoveDirection::Right => (r.x + r.w + 1, r.y as int),
            MoveDirection::Up => (r.x as int, r.y - 1),
            MoveDirection::Down => (r.x as int, r.y + r.h + 1),
        }
    }

    pub fn apply_move(&self, rect: Rectangle) -> (r: (i32, i32))
        requires
            rect.x + rect.w + 1 <= i32::MAX,
            rect.y + rect.h + 1 <= i32::MAX,
        ensures
            (r.0 as int, r.1 as int) == self.probe_pt(rect),
    {
        match self {
            Self::Left => (rect.x as i32 - 1, rect.y as i32),
            Self::Right => (rect.x as i32 + rect.w as i32 + 1, rect.y as i32),
            Self::Up => (rect.x as i32, rect.y as i32 - 1),
            Self::Down => (rect.x as i32, rect.y as i32 + rect.h as i32 + 1),
        }
    }
}

/// A vertex of the partition tree. Children exist in pairs or not at all;
/// the `leaf` flag records whether the node has children, `data` is the
/// payload slot of a leaf, and `right_child` tells whether this node is its
/// parent's second (right/bottom) child.
#[derive(Debug, PartialEq)]
pub struct Node {
    pub rect: Rectangle,
    pub left: Option<Box<Node>>,
    pub right: Option<Box<Node>>,
    pub split: SplitDirection,
    pub leaf: bool,
    pub data: Option<u32>,
    pub focused: bool,
    pub right_child: bool,
}

impl Node {
    /// Every rectangle in the subtree fits the probe arithmetic of
    /// `MoveDirection::apply_move` without overflowing an `i32`.
    pub open spec fn rects_bounded(self) -> bool
        decreases self,
    {
        &&& self.rect.x + self.rect.w + 1 <= i32::MAX
        &&& self.rect.y + self.rect.h + 1 <= i32::MAX
        &&& (self.left is Some ==> self.left.unwrap().rects_bounded())
        &&& (self.right is Some ==> self.right.unwrap().rects_bounded())
    }

    /// The shape invariant: children come in pairs or not at all, the
    /// `leaf` flag agrees with the children, a payload sits exactly on the
    /// leaves, a focused node is a leaf, the two children of an internal
    /// node carry the two halves of its rectangle under its split policy,
    /// and their `right_child` flags name their slots.
    pub open spec fn wf(self) -> bool
        decreases self,
    {
        &&& self.leaf == (self.left is None)
        &&& (self.left is Some <==> self.right is Some)
        &&& self.data is Some <==> self.leaf
        &&& (self.focused ==> self.leaf)
        &&& (self.left is Some ==> {
            let l = *self.left.unwrap();
            let r = *self.right.unwrap();
            &&& (l.rect, r.rect) == self.split.halves(self.rect)
            &&& !l.right_child
            &&& r.right_child
            &&& l.wf()
            &&& r.wf()
        })
    }

    /// How many nodes of the subtree carry the focus flag.
    pub open spec fn focus_count(self) -> nat
        decreases self,
    {
        (if self.focused {
            1nat
        } else {
            0nat
        }) + (if self.left is Some {
            self.left.unwrap().focus_count()
        } else {
            0nat
        }) + (if self.right is Some {
            self.right.unwrap().focus_count()
        } else {
            0nat
        })
    }

    /// The number of leaves of the subtree.
    pub open spec fn leaf_count(self) -> nat
        decreases self,
    {
        if self.left is None && self.right is None {
            1nat
        } else {
            (if self.left is Some {
                self.left.unwrap().leaf_count()
            } else {
                0nat
            }) + (if self.right is Some {
                self.right.unwrap().leaf_count()
            } else {
                0nat
            })
        }
    }

    /// The number of internal (non-leaf) nodes of the subtree.
    pub open spec fn internal_count(self) -> nat
        decreases self,
    {
        if self.left is None && self.right is None {
            0nat
        } else {
            1nat + (if self.left is Some {
                self.left.unwrap().internal_count()
            } else {
                0nat
            }) + (if self.right is Some {
                self.right.unwrap().internal_count()
            } else {
                0nat
            })
        }
    }

    /// The subtree's nodes in document order: a node first, then its left
    /// subtree, then its right subtree.
    pub open spec fn preorder(self) -> Seq<Node>
        decreases self,
    {
        seq![self] + (if self.left is Some {
            self.left.unwrap().preorder()
        } else {
            Seq::empty()
        }) + (if self.right is Some {
            self.right.unwrap().preorder()
        } else {
            Seq::empty()
        })
    }

    pub fn new(rect: Rectangle, split: SplitDirection, data: u32) -> (n: Self)
        ensures
            n == (Node {
                rect,
                left: None,
                right: None,
                split,
                leaf: true,
                data: Some(data),
                focused: false,
                right_child: false,
            }),
    {
        Self {
            rect,
            left: None,
            right: None,
            split,
            leaf: true,
            data: Some(data),
            focused: false,
            right_child: false,
        }
    }

    /// Return true if the node is currently focused.
    pub fn is_focused(&self) -> (r: bool)
        ensures
            r == self.focused,
    {
        self.focused
    }

    /// Get the data stored in the node.
    pub fn get_data(&self) -> (r: Option<u32>)
        ensures
            r == self.data,
    {
        self.data
    }

    /// Get the size of the node.
    pub fn get_rect(&self) -> (r: Rectangle)
        ensures
            r == self.rect,
    {
        self.rect
    }

    /// A structural copy of the subtree rooted at this node.
    fn deep_copy(&self) -> (r: Node)
        ensures
            r == *self,
        decreases *self,
    {
        let left = match &self.left {
            Some(l) => Some(Box::new(l.deep_copy())),
            None => None,
        };
        let right = match &self.right {
            Some(r) => Some(Box::new(r.deep_copy())),
            None => None,
        };
        Node {
            rect: self.rect,
            left,
            right,
            split: self.split,
            leaf: self.leaf,
            data: self.data,
            focused: self.focused,
            right_child: self.right_child,
        }
    }

    /// Append copies of this node's descendants, in document order, to `v`.
    pub fn walk(&self, v: &mut Vec<Node>)
        ensures
            final(v)@ == old(v)@ + self.preorder().drop_first(),
        decreases *self,
    {
        if let Some(l) = &self.left {
            v.push(l.deep_copy());
            l.walk(v);
        }
        if let Some(r) = &self.right {
            v.push(r.deep_copy());
            r.walk(v);
        }
        proof {
            assert(self.preorder().drop_first() =~= (if self.left is Some {
                self.left.unwrap().preorder()
            } else {
                Seq::<Node>::empty()
            }) + (if self.right is Some {
                self.right.unwrap().preorder()
            } else {
                Seq::<Node>::empty()
            }));
            assert(v@ =~= old(v)@ + self.preorder().drop_first());
        }
    }
}

impl Clone for Node {
    /// A clone is spec-equal to the subtree it copies.
    fn clone(&self) -> (r: Self)
        ensures
            r == *self,
    {
        self.deep_copy()
    }
}

/// A rectangle whose far corner leaves room for the one-unit probe of
/// `MoveDirection::apply_move` within an `i32`.
pub open spec fn size_ok(r: Rectangle) -> bool {
    &&& r.x + r.w + 1 <= i32::MAX
    &&& r.y + r.h + 1 <= i32::MAX
}

proof fn lemma_halves_bounded(d: SplitDirection, r: Rectangle)
    requires
        size_ok(r),
    ensures
        size_ok(d.halves(r).0),
        size_ok(d.halves(r).1),
{
    assert(r.h / 2 + r.h / 2 <= r.h);
    assert(r.w / 2 + r.w / 2 <= r.w);
}

/// The leaf created by the very first insertion: it spans the whole
/// bounding rectangle, holds the payload and carries the focus.
pub open spec fn first_leaf(size: Rectangle, data: u32) -> Node {
    Node {
        rect: size,
        left: None,
        right: None,
        split: SplitDirection::Vertical,
        leaf: true,
        data: Some(data),
        focused: true,
        right_child: false,
    }
}

/// The internal node that replaces a focused leaf on insertion: the left
/// child keeps the displaced payload, the right child holds the new one
/// and takes the focus; both inherit the split policy.
pub open spec fn split_leaf(n: Node, data: u32) -> Node {
    let (lr, rr) = n.split.halves(n.rect);
    Node {
        rect: n.rect,
        left: Some(
            Box::new(
                Node {
                    rect: lr,
                    left: None,
                    right: None,
                    split: n.split,
                    leaf: true,
                    data: n.data,
                    focused: false,
                    right_child: false,
                },
            ),
        ),
        right: Some(
            Box::new(
                Node {
                    rect: rr,
                    left: None,
                    right: None,
                    split: n.split,
                    leaf: true,
                    data: Some(data),
                    focused: true,
                    right_child: true,
                },
            ),
        ),
        split: n.split,
        leaf: false,
        data: None,
        focused: false,
        right_child: n.right_child,
    }
}

impl Node {
    /// The subtree after inserting `data` at its focused leaf, together
    /// with whether a focused leaf was found. The leftmost focused node
    /// is the one split.
    pub open spec fn inserted(self, data: u32) -> (Node, bool)
        decreases self,
    {
        if self.focused {
            (split_leaf(self, data), true)
        } else if self.leaf {
            (self, false)
        } else {
            let (l2, fl) = (if self.left is Some {
                self.left.unwrap().inserted(data)
            } else {
                (self, false)
            });
            if self.left is Some && fl {
                (Node { left: Some(Box::new(l2)), ..self }, true)
            } else {
                let (r2, fr) = (if self.right is Some {
                    self.right.unwrap().inserted(data)
                } else {
                    (self, false)
                });
                if self.right is Some && fr {
                    (Node { right: Some(Box::new(r2)), ..self }, true)
                } else {
                    (self, false)
                }
            }
        }
    }
}

proof fn lemma_inserted(n: Node, data: u32)
    requires
        n.wf(),
        n.rects_bounded(),
    ensures
        ({
            let (n2, f) = n.inserted(data);
            &&& f == (n.focus_count() > 0)
            &&& n2.wf()
            &&& n2.rects_bounded()
            &&& n2.rect == n.rect
            &&& n2.right_child == n.right_child
            &&& n2.focus_count() == n.focus_count()
            &&& (f ==> n2.leaf_count() == n.leaf_count() + 1 && n2.internal_count()
                == n.internal_count() + 1)
            &&& (!f ==> n2 == n)
        }),
    decreases n,
{
    if n.focused {
        lemma_halves_bounded(n.split, n.rect);
        let n2 = split_leaf(n, data);
        assert(n2.left.unwrap().wf());
        assert(n2.right.unwrap().wf());
        assert(n2.left.unwrap().rects_bounded());
        assert(n2.right.unwrap().rects_bounded());
        assert(n2.left.unwrap().focus_count() == 0);
        assert(n2.right.unwrap().focus_count() == 1);
        assert(n2.left.unwrap().leaf_count() == 1);
        assert(n2.right.unwrap().leaf_count() == 1);
        assert(n2.left.unwrap().internal_count() == 0);
        assert(n2.right.unwrap().internal_count() == 0);
        assert(n.leaf_count() == 1);
        assert(n.internal_count() == 0);
        assert(n.focus_count() == 1);
    } else if n.leaf {
    } else {
        lemma_inserted(*n.left.unwrap(), data);
        lemma_inserted(*n.right.unwrap(), data);
    }
}

fn insert_rec(n: &mut Node, data: u32) -> (found: bool)
    requires
        old(n).wf(),
        old(n).rects_bounded(),
    ensures
        (*final(n), found) == old(n).inserted(data),
    decreases *old(n),
{
    if n.focused {
        let (lr, rr) = n.split.split(n.rect);
        let prev = n.data.unwrap();
        let lnode = Node::new(lr, n.split, prev);
        let mut rnode = Node::new(rr, n.split, data);
        rnode.focused = true;
        rnode.right_child = true;
        n.leaf = false;
        n.focused = false;
        n.data = None;
        n.left = Some(Box::new(lnode));
        n.right = Some(Box::new(rnode));
        true
    } else if n.leaf {
        false
    } else {
        let mut l = n.left.take().unwrap();
        let found_l = insert_rec(&mut *l, data);
        n.left = Some(l);
        if found_l {
            true
        } else {
            let mut r = n.right.take().unwrap();
            let found_r = insert_rec(&mut *r, data);
            n.right = Some(r);
            found_r
        }
    }
}

impl Node {
    /// The leaf the descent from this node reaches for a point: at an
    /// internal node the right child is preferred when both children
    /// contain the point, and the descent stops when neither does. The
    /// leaf reached is returned only when its own rectangle contains the
    /// point; the result is `None` otherwise, and when the descent stops
    /// on an internal node.
    pub open spec fn find_at(self, px: int, py: int) -> Option<Node>
        decreases self,
    {
        let go_right = self.right is Some && self.right.unwrap().rect.contains_pt(px, py);
        let go_left = self.left is Some && self.left.unwrap().rect.contains_pt(px, py);
        if go_right {
            self.right.unwrap().find_at(px, py)
        } else if go_left {
            self.left.unwrap().find_at(px, py)
        } else if self.leaf && self.rect.contains_pt(px, py) {
            Some(self)
        } else {
            None
        }
    }

    /// The subtree with every focus flag cleared.
    pub open spec fn cleared(self) -> Node
        decreases self,
    {
        Node {
            focused: false,
            left: match self.left {
                Some(l) => Some(Box::new(l.cleared())),
                None => None,
            },
            right: match self.right {
                Some(r) => Some(Box::new(r.cleared())),
                None => None,
            },
            ..self
        }
    }

    /// The subtree after descending exactly as `find_at` does and setting
    /// the focus flag on the leaf reached, with whether one was reached.
    pub open spec fn refocused(self, px: int, py: int) -> (Node, bool)
        decreases self,
    {
        let go_right = self.right is Some && self.right.unwrap().rect.contains_pt(px, py);
        let go_left = self.left is Some && self.left.unwrap().rect.contains_pt(px, py);
        if go_right {
            let (r2, f) = self.right.unwrap().refocused(px, py);
            (Node { right: Some(Box::new(r2)), ..self }, f)
        } else if go_left {
            let (l2, f) = self.left.unwrap().refocused(px, py);
            (Node { left: Some(Box::new(l2)), ..self }, f)
        } else if self.leaf && self.rect.contains_pt(px, py) {
            (Node { focused: true, ..self }, true)
        } else {
            (self, false)
        }
    }

    /// The subtree with its leftmost leaf focused.
    pub open spec fn first_focused(self) -> Node
        decreases self,
    {
        if self.leaf {
            Node { focused: true, ..self }
        } else if self.left is Some {
            Node { left: Some(Box::new(self.left.unwrap().first_focused())), ..self }
        } else {
            self
        }
    }

    /// The rectangle of the leftmost focused node of the subtree, if any.
    pub open spec fn focused_rect(self) -> Option<Rectangle>
        decreases self,
    {
        if self.focused {
            Some(self.rect)
        } else if self.left is Some && self.left.unwrap().focused_rect() is Some {
            self.left.unwrap().focused_rect()
        } else if self.right is Some {
            self.right.unwrap().focused_rect()
        } else {
            None
        }
    }
}

proof fn lemma_cleared(n: Node)
    requires
        n.wf(),
    ensures
        n.cleared().wf(),
        n.cleared().focus_count() == 0,
        n.cleared().rect == n.rect,
        n.cleared().right_child == n.right_child,
        n.cleared().leaf_count() == n.leaf_count(),
        n.cleared().internal_count() == n.internal_count(),
        n.rects_bounded() ==> n.cleared().rects_bounded(),
    decreases n,
{
    if n.left is Some {
        lemma_cleared(*n.left.unwrap());
    }
    if n.right is Some {
        lemma_cleared(*n.right.unwrap());
    }
}

/// Clearing focus flags changes no rectangle and no shape, so the descent
/// of `find_at` reaches a leaf on the cleared tree exactly when it does
/// before clearing.
proof fn lemma_find_cleared(n: Node, px: int, py: int)
    ensures
        n.cleared().find_at(px, py) is Some <==> n.find_at(px, py) is Some,
    decreases n,
{
    if n.left is Some {
        lemma_find_cleared(*n.left.unwrap(), px, py);
    }
    if n.right is Some {
        lemma_find_cleared(*n.right.unwrap(), px, py);
    }
}

proof fn lemma_refocused(n: Node, px: int, py: int)
    requires
        n.wf(),
        n.focus_count() == 0,
    ensures
        ({
            let (n2, f) = n.refocused(px, py);
            &&& f == (n.find_at(px, py) is Some)
            &&& n2.wf()
            &&& n2.rect == n.rect
            &&& n2.right_child == n.right_child
            &&& n2.leaf_count() == n.leaf_count()
            &&& n2.internal_count() == n.internal_count()
            &&& n2.focus_count() == n.focus_count() + (if f {
                1nat
            } else {
                0nat
            })
            &&& (n.rects_bounded() ==> n2.rects_bounded())
            &&& (!f ==> n2 == n)
        }),
    decreases n,
{
    if n.left is Some {
        lemma_refocused(*n.left.unwrap(), px, py);
    }
    if n.right is Some {
        lemma_refocused(*n.right.unwrap(), px, py);
    }
}

proof fn lemma_first_focused(n: Node)
    requires
        n.wf(),
        n.focus_count() == 0,
    ensures
        n.first_focused().wf(),
        n.first_focused().focus_count() == 1,
        n.first_focused().rect == n.rect,
        n.first_focused().right_child == n.right_child,
        n.first_focused().leaf_count() == n.leaf_count(),
        n.first_focused().internal_count() == n.internal_count(),
        n.rects_bounded() ==> n.first_focused().rects_bounded(),
    decreases n,
{
    if !n.leaf && n.left is Some {
        lemma_first_focused(*n.left.unwrap());
    }
}

proof fn lemma_focused_rect(n: Node)
    requires
        n.wf(),
    ensures
        (n.focus_count() > 0) <==> (n.focused_rect() is Some),
        n.rects_bounded() && n.focused_rect() is Some ==> size_ok(n.focused_rect().unwrap()),
    decreases n,
{
    if n.left is Some {
        lemma_focused_rect(*n.left.unwrap());
    }
    if n.right is Some {
        lemma_focused_rect(*n.right.unwrap());
    }
}

/// Law: when the descent of `find_at` yields a leaf, that node is a leaf
/// and its rectangle contains the point looked up.
pub proof fn lemma_find_at_hit(n: Node, px: int, py: int)
    ensures
        n.find_at(px, py) is Some ==> n.find_at(px, py).unwrap().leaf && n.find_at(
            px,
            py,
        ).unwrap().rect.contains_pt(px, py),
    decreases n,
{
    if n.left is Some {
        lemma_find_at_hit(*n.left.unwrap(), px, py);
    }
    if n.right is Some {
        lemma_find_at_hit(*n.right.unwrap(), px, py);
    }
}

/// The descent of `find_at`, returning a copy of the leaf it reaches.
fn find_node(n: &Node, x: i32, y: i32) -> (r: Option<Node>)
    ensures
        r == n.find_at(x as int, y as int),
    decreases *n,
{
    let go_right = match &n.right {
        Some(rc) => rc.rect.is_inside(x, y),
        None => false,
    };
    let go_left = match &n.left {
        Some(lc) => lc.rect.is_inside(x, y),
        None => false,
    };
    if go_right {
        match &n.right {
            Some(rc) => find_node(rc, x, y),
            None => None,
        }
    } else if go_left {
        match &n.left {
            Some(lc) => find_node(lc, x, y),
            None => None,
        }
    } else if n.leaf && n.rect.is_inside(x, y) {
        Some(n.deep_copy())
    } else {
        None
    }
}

/// The descent of `find_at`, reporting only whether a leaf is reached.
fn probe_node(n: &Node, x: i32, y: i32) -> (r: bool)
    ensures
        r == (n.find_at(x as int, y as int) is Some),
    decreases *n,
{
    let go_right = match &n.right {
        Some(rc) => rc.rect.is_inside(x, y),
        None => false,
    };
    let go_left = match &n.left {
        Some(lc) => lc.rect.is_inside(x, y),
        None => false,
    };
    if go_right {
        match &n.right {
            Some(rc) => probe_node(rc, x, y),
            None => false,
        }
    } else if go_left {
        match &n.left {
            Some(lc) => probe_node(lc, x, y),
            None => false,
        }
    } else {
        n.leaf && n.rect.is_inside(x, y)
    }
}

fn clear_rec(n: &mut Node)
    ensures
        *final(n) == old(n).cleared(),
    decreases *old(n),
{
    n.focused = false;
    match n.left.take() {
        Some(mut l) => {
            clear_rec(&mut *l);
            n.left = Some(l);
        },
        None => {},
    }
    match n.right.take() {
        Some(mut r) => {
            clear_rec(&mut *r);
            n.right = Some(r);
        },
        None => {},
    }
}

fn refocus_rec(n: &mut Node, x: i32, y: i32) -> (f: bool)
    ensures
        (*final(n), f) == old(n).refocused(x as int, y as int),
    decreases *old(n),
{
    let go_right = match &n.right {
        Some(rc) => rc.rect.is_inside(x, y),
        None => false,
    };
    let go_left = match &n.left {
        Some(lc) => lc.rect.is_inside(x, y),
        None => false,
    };
    if go_right {
        let mut r = n.right.take().unwrap();
        let f = refocus_rec(&mut *r, x, y);
        n.right = Some(r);
        f
    } else if go_left {
        let mut l = n.left.take().unwrap();
        let f = refocus_rec(&mut *l, x, y);
        n.left = Some(l);
        f
    } else if n.leaf && n.rect.is_inside(x, y) {
        n.focused = true;
        true
    } else {
        false
    }
}

fn first_focus_rec(n: &mut Node)
    ensures
        *final(n) == old(n).first_focused(),
    decreases *old(n),
{
    if n.leaf {
        n.focused = true;
    } else {
        match n.left.take() {
            Some(mut l) => {
                first_focus_rec(&mut *l);
                n.left = Some(l);
            },
            None => {},
        }
    }
}

fn focused_rect_rec(n: &Node) -> (r: Option<Rectangle>)
    ensures
        r == n.focused_rect(),
    decreases *n,
{
    if n.focused {
        return Some(n.rect);
    }
    let from_left = match &n.left {
        Some(l) => focused_rect_rec(l),
        None => None,
    };
    if from_left.is_some() {
        return from_left;
    }
    match &n.right {
        Some(r) => focused_rect_rec(r),
        None => None,
    }
}

/// The decimal digit characters of a number, most significant first.
pub open spec fn dec_digits(v: nat) -> Seq<char>
    decreases v,
{
    if v < 10 {
        seq![digit_char(v)]
    } else {
        dec_digits(v / 10).push(digit_char(v % 10))
    }
}

pub open spec fn digit_char(d: nat) -> char {
    if d == 0 {
        '0'
    } else if d == 1 {
        '1'
    } else if d == 2 {
        '2'
    } else if d == 3 {
        '3'
    } else if d == 4 {
        '4'
    } else if d == 5 {
        '5'
    } else if d == 6 {
        '6'
    } else if d == 7 {
        '7'
    } else if d == 8 {
        '8'
    } else {
        '9'
    }
}

/// Relies on `String::push_str`: it appends the given slice's characters
/// to the string.
#[verifier::external_body]
fn push_str(s: &mut String, t: &str)
    ensures
        final(s)@ == old(s)@ + t@,
{
    s.push_str(t)
}

/// Relies on the `format` macro: formatting a `u32` with `{}` yields its
/// decimal digits, most significant first, with no sign and no leading
/// zeros.
#[verifier::external_body]
fn u32_decimal(n: u32) -> (r: String)
    ensures
        r@ == dec_digits(n as nat),
{
    format!("{}", n)
}

pub open spec fn spaces(k: nat) -> Seq<char> {
    Seq::new(k, |i: int| ' ')
}

pub open spec fn opt_u32_chars(d: Option<u32>) -> Seq<char> {
    match d {
        None => "None"@,
        Some(v) => "Some("@ + dec_digits(v as nat) + ")"@,
    }
}

pub open spec fn rect_chars(r: Rectangle) -> Seq<char> {
    "("@ + dec_digits(r.x as nat) + ", "@ + dec_digits(r.y as nat) + "); ("@ + dec_digits(
        r.w as nat,
    ) + ", "@ + dec_digits(r.h as nat) + ")"@
}

pub open spec fn bool_chars(b: bool) -> Seq<char> {
    if b {
        "true"@
    } else {
        "false"@
    }
}

/// One line of a tree dump: the indentation, then the node's payload,
/// rectangle, focus flag and slot flag.
pub open spec fn line_chars(n: Node, indent: nat) -> Seq<char> {
    spaces(indent) + "value:"@ + opt_u32_chars(n.data) + " size:"@ + rect_chars(n.rect)
        + " focus:"@ + bool_chars(n.focused) + " right_child:"@ + bool_chars(n.right_child) + "\n"@
}

/// The indentation of the next tree level: four more spaces, left
/// unchanged at the far end of `usize`.
pub open spec fn bumped(i: nat) -> nat {
    if i + 4 <= usize::MAX {
        (i + 4) as nat
    } else {
        i
    }
}

pub open spec fn dump_pre(n: Node, indent: nat) -> Seq<char>
    decreases n,
{
    line_chars(n, indent) + (match n.left {
        Some(l) => dump_pre(*l, bumped(indent)),
        None => Seq::empty(),
    }) + (match n.right {
        Some(r) => dump_pre(*r, bumped(indent)),
        None => Seq::empty(),
    })
}

pub open spec fn dump_in(n: Node, indent: nat) -> Seq<char>
    decreases n,
{
    (match n.left {
        Some(l) => dump_in(*l, bumped(indent)),
        None => Seq::empty(),
    }) + line_chars(n, indent) + (match n.right {
        Some(r) => dump_in(*r, bumped(indent)),
        None => Seq::empty(),
    })
}

pub open spec fn dump_post(n: Node, indent: nat) -> Seq<char>
    decreases n,
{
    (match n.left {
        Some(l) => dump_post(*l, bumped(indent)),
        None => Seq::empty(),
    }) + (match n.right {
        Some(r) => dump_post(*r, bumped(indent)),
        None => Seq::empty(),
    }) + line_chars(n, indent)
}

/// The whole dump of a tree, by mode: `0` is pre-order, `1` in-order,
/// anything else post-order. An empty tree prints nothing.
pub open spec fn tree_dump(root: Option<Node>, mode: i32) -> Seq<char> {
    match root {
        None => Seq::empty(),
        Some(n) => if mode == 0 {
            dump_pre(n, 0)
        } else if mode == 1 {
            dump_in(n, 0)
        } else {
            dump_post(n, 0)
        },
    }
}

fn push_spaces(out: &mut String, k: usize)
    ensures
        final(out)@ == old(out)@ + spaces(k as nat),
{
    let mut i: usize = 0;
    while i < k
        invariant
            i <= k,
            out@ == old(out)@ + spaces(i as nat),
        decreases k - i,
    {
        push_str(out, " ");
        i = i + 1;
        proof {
            reveal_strlit(" ");
            assert(out@ =~= old(out)@ + spaces(i as nat));
        }
    }
    proof {
        assert(out@ =~= old(out)@ + spaces(k as nat));
    }
}

#[verifier::rlimit(100)]
fn push_line(out: &mut String, n: &Node, indent: usize)
    ensures
        final(out)@ == old(out)@ + line_chars(*n, indent as nat),
{
    push_spaces(out, indent);
    push_str(out, "value:");
    match n.data {
        Some(v) => {
            push_str(out, "Some(");
            let s = u32_decimal(v);
            push_str(out, s.as_str());
            push_str(out, ")");
        },
        None => {
            push_str(out, "None");
        },
    }
    proof {
        assert(out@ =~= old(out)@ + spaces(indent as nat) + "value:"@ + opt_u32_chars(n.data));
    }
    push_str(out, " size:");
    push_str(out, "(");
    let sx = u32_decimal(n.rect.x);
    push_str(out, sx.as_str());
    push_str(out, ", ");
    let sy = u32_decimal(n.rect.y);
    push_str(out, sy.as_str());
    push_str(out, "); (");
    let sw = u32_decimal(n.rect.w);
    push_str(out, sw.as_str());
    push_str(out, ", ");
    let sh = u32_decimal(n.rect.h);
    push_str(out, sh.as_str());
    push_str(out, ")");
    proof {
        assert(out@ =~= old(out)@ + spaces(indent as nat) + "value:"@ + opt_u32_chars(n.data)
            + " size:"@ + rect_chars(n.rect));
    }
    push_str(out, " focus:");
    if n.focused {
        push_str(out, "true");
    } else {
        push_str(out, "false");
    }
    push_str(out, " right_child:");
    if n.right_child {
        push_str(out, "true");
    } else {
        push_str(out, "false");
    }
    push_str(out, "\n");
    proof {
        assert(out@ =~= old(out)@ + line_chars(*n, indent as nat));
    }
}

fn next_indent(indent: usize) -> (r: usize)
    ensures
        r as nat == bumped(indent as nat),
{
    if indent <= usize::MAX - 4 {
        indent + 4
    } else {
        indent
    }
}

#[verifier::rlimit(50)]
fn dump_pre_rec(n: &Node, indent: usize, out: &mut String)
    ensures
        final(out)@ == old(out)@ + dump_pre(*n, indent as nat),
    decreases *n,
{
    push_line(out, n, indent);
    let next = next_indent(indent);
    if let Some(l) = &n.left {
        dump_pre_rec(l, next, out);
    }
    if let Some(r) = &n.right {
        dump_pre_rec(r, next, out);
    }
    proof {
        assert(out@ =~= old(out)@ + dump_pre(*n, indent as nat));
    }
}

#[verifier::rlimit(50)]
fn dump_in_rec(n: &Node, indent: usize, out: &mut String)
    ensures
        final(out)@ == old(out)@ + dump_in(*n, indent as nat),
    decreases *n,
{
    let next = next_indent(indent);
    if let Some(l) = &n.left {
        dump_in_rec(l, next, out);
    }
    push_line(out, n, indent);
    if let Some(r) = &n.right {
        dump_in_rec(r, next, out);
    }
    proof {
        assert(out@ =~= old(out)@ + dump_in(*n, indent as nat));
    }
}

#[verifier::rlimit(50)]
fn dump_post_rec(n: &Node, indent: usize, out: &mut String)
    ensures
        final(out)@ == old(out)@ + dump_post(*n, indent as nat),
    decreases *n,
{
    let next = next_indent(indent);
    if let Some(l) = &n.left {
        dump_post_rec(l, next, out);
    }
    if let Some(r) = &n.right {
        dump_post_rec(r, next, out);
    }
    push_line(out, n, indent);
    proof {
        assert(out@ =~= old(out)@ + dump_post(*n, indent as nat));
    }
}

/// Law: a well-formed subtree is a full binary tree, so it has exactly one
/// internal node less than it has leaves. Together with the leaf counts
/// ensured by `BSPTree::insert`, inserting N payloads into an empty tree
/// yields exactly N leaves and N - 1 internal nodes.
pub proof fn lemma_full_binary(n: Node)
    requires
        n.wf(),
    ensures
        n.internal_count() + 1 == n.leaf_count(),
    decreases n,
{
    if !n.leaf {
        lemma_full_binary(*n.left.unwrap());
        lemma_full_binary(*n.right.unwrap());
    }
}

/// Law: in any well-formed non-empty tree the number of internal nodes is
/// exactly the number of leaves minus one.
pub proof fn lemma_tree_counts(t: BSPTree)
    requires
        t.wf(),
        t@ is Some,
    ensures
        t.internals() + 1 == t.leaves(),
{
    lemma_full_binary(t@.unwrap());
}

/// The partition tree: an optional root node and the fixed bounding
/// rectangle supplied at construction.
#[derive(Debug, PartialEq)]
pub struct BSPTree {
    root: Option<Box<Node>>,
    size: Rectangle,
}

impl Clone for BSPTree {
    /// A clone is spec-equal to the tree it copies.
    fn clone(&self) -> (r: Self)
        ensures
            r == *self,
    {
        BSPTree {
            root: match &self.root {
                Some(b) => Some(Box::new(b.deep_copy())),
                None => None,
            },
            size: self.size,
        }
    }
}

impl View for BSPTree {
    type V = Option<Node>;

    closed spec fn view(&self) -> Option<Node> {
        match self.root {
            Some(b) => Some(*b),
            None => None,
        }
    }
}

impl BSPTree {
    /// The bounding rectangle the tree was created with.
    pub closed spec fn bounds(self) -> Rectangle {
        self.size
    }

    /// The number of leaves of the tree.
    pub open spec fn leaves(self) -> nat {
        match self@ {
            Some(n) => n.leaf_count(),
            None => 0,
        }
    }

    /// The number of internal nodes of the tree.
    pub open spec fn internals(self) -> nat {
        match self@ {
            Some(n) => n.internal_count(),
            None => 0,
        }
    }

    /// The tree invariant: the bounding rectangle leaves probe room, and a
    /// non-empty tree is a well-formed node spanning the whole bounding
    /// rectangle, with exactly one focused node.
    pub open spec fn wf(self) -> bool {
        &&& size_ok(self.bounds())
        &&& match self@ {
            Some(n) => {
                &&& n.wf()
                &&& n.rects_bounded()
                &&& n.rect == self.bounds()
                &&& !n.right_child
                &&& n.focus_count() == 1
            },
            None => true,
        }
    }

    /// Create a new tree with a given bounding rectangle `size` and no
    /// nodes.
    pub fn new(size: Rectangle) -> (t: Self)
        requires
            size_ok(size),
        ensures
            t.wf(),
            t@ is None,
            t.bounds() == size,
    {
        Self { root: None, size }
    }

    /// Insert a new payload at the currently focused leaf. If the tree is
    /// empty, the payload becomes the root leaf; otherwise the focused
    /// leaf splits into two halves, the left keeping the displaced
    /// payload, the right holding `data` and taking the focus.
    pub fn insert(&mut self, data: u32)
        requires
            old(self).wf(),
        ensures
            final(self).wf(),
            final(self).bounds() == old(self).bounds(),
            final(self)@ == match old(self)@ {
                None => Some(first_leaf(old(self).bounds(), data)),
                Some(n) => Some(n.inserted(data).0),
            },
            final(self).leaves() == old(self).leaves() + 1,
            final(self).internals() == if old(self)@ is None {
                0nat
            } else {
                old(self).internals() + 1
            },
    {
        match self.root.take() {
            None => {
                let mut n = Node::new(self.size, SplitDirection::Vertical, data);
                n.focused = true;
                self.root = Some(Box::new(n));
            },
            Some(mut b) => {
                proof {
                    lemma_inserted(*b, data);
                }
                insert_rec(&mut *b, data);
                self.root = Some(b);
            },
        }
    }

    /// The tree after `focus_coords(x, y)`: unchanged when the descent
    /// reaches no leaf, otherwise the old focus is cleared and the leaf
    /// reached takes it.
    pub open spec fn focused_at(root: Option<Node>, px: int, py: int) -> Option<Node> {
        match root {
            None => None,
            Some(n) => if n.find_at(px, py) is Some {
                Some(n.cleared().refocused(px, py).0)
            } else {
                Some(n)
            },
        }
    }

    /// Find the leaf whose rectangle contains the given coordinates, as
    /// `find_at` descends: the right child is preferred on shared edges.
    /// Returns a copy of the leaf, or nothing when the tree is empty, the
    /// point lies outside the leaf the descent reaches, or the descent
    /// stops on an internal node.
    pub fn get_node(&self, x: i32, y: i32) -> (r: Option<Node>)
        ensures
            r == match self@ {
                None => None::<Node>,
                Some(n) => n.find_at(x as int, y as int),
            },
    {
        match &self.root {
            None => None,
            Some(b) => find_node(b, x, y),
        }
    }

    /// Try to focus the leaf at the given coordinates; when no leaf is
    /// there, the focus stays where it was.
    pub fn focus_coords(&mut self, x: i32, y: i32)
        requires
            old(self).wf(),
        ensures
            final(self).wf(),
            final(self).bounds() == old(self).bounds(),
            final(self)@ == Self::focused_at(old(self)@, x as int, y as int),
            final(self).leaves() == old(self).leaves(),
            final(self).internals() == old(self).internals(),
    {
        match self.root.take() {
            None => {},
            Some(mut b) => {
                if probe_node(&b, x, y) {
                    proof {
                        lemma_cleared(*b);
                        lemma_find_cleared(*b, x as int, y as int);
                        lemma_refocused(b.cleared(), x as int, y as int);
                    }
                    clear_rec(&mut *b);
                    refocus_rec(&mut *b, x, y);
                }
                self.root = Some(b);
            },
        }
    }

    /// The tree after `move_focus(direction)`: the probe point one unit
    /// beyond the focused rectangle's edge is looked up, and focus moves
    /// to the leaf found there, if any.
    pub open spec fn moved(root: Option<Node>, direction: MoveDirection) -> Option<Node> {
        match root {
            None => None,
            Some(n) => {
                let p = direction.probe_pt(n.focused_rect().unwrap());
                Self::focused_at(root, p.0, p.1)
            },
        }
    }

    /// Try to move focus one step in the given direction. When no leaf
    /// lies beyond that edge, the focus stays where it was.
    pub fn move_focus(&mut self, direction: MoveDirection)
        requires
            old(self).wf(),
        ensures
            final(self).wf(),
            final(self).bounds() == old(self).bounds(),
            final(self)@ == Self::moved(old(self)@, direction),
            final(self).leaves() == old(self).leaves(),
            final(self).internals() == old(self).internals(),
    {
        let fr = match &self.root {
            None => {
                return ;
            },
            Some(b) => {
                proof {
                    lemma_focused_rect(**b);
                }
                focused_rect_rec(b).unwrap()
            },
        };
        let (px, py) = direction.apply_move(fr);
        self.focus_coords(px, py);
    }
}

impl Node {
    /// The subtree with its rectangle set to `rect` and every descendant's
    /// rectangle recomputed top-down from its parent's split policy.
    pub open spec fn resized(self, rect: Rectangle) -> Node
        decreases self,
    {
        let (lr, rr) = self.split.halves(rect);
        Node {
            rect,
            left: match self.left {
                Some(l) => Some(Box::new(l.resized(lr))),
                None => None,
            },
            right: match self.right {
                Some(r) => Some(Box::new(r.resized(rr))),
                None => None,
            },
            ..self
        }
    }

    /// Update the size of this node and recompute its children's sizes,
    /// recursively.
    pub fn update(&mut self, rect: Rectangle)
        requires
            size_ok(rect),
        ensures
            *final(self) == old(self).resized(rect),
        decreases *old(self),
    {
        self.rect = rect;
        let (lrect, rrect) = self.split.split(rect);
        proof {
            lemma_halves_bounded(self.split, rect);
        }
        match self.left.take() {
            Some(mut l) => {
                l.update(lrect);
                self.left = Some(l);
            },
            None => {},
        }
        match self.right.take() {
            Some(mut r) => {
                r.update(rrect);
                self.right = Some(r);
            },
            None => {},
        }
    }
}

proof fn lemma_resized(n: Node, rect: Rectangle)
    requires
        n.wf(),
        size_ok(rect),
    ensures
        ({
            let n2 = n.resized(rect);
            &&& n2.wf()
            &&& n2.rects_bounded()
            &&& n2.rect == rect
            &&& n2.right_child == n.right_child
            &&& n2.focus_count() == n.focus_count()
            &&& n2.leaf_count() == n.leaf_count()
            &&& n2.internal_count() == n.internal_count()
        }),
    decreases n,
{
    lemma_halves_bounded(n.split, rect);
    let (lr, rr) = n.split.halves(rect);
    if n.left is Some {
        lemma_resized(*n.left.unwrap(), lr);
    }
    if n.right is Some {
        lemma_resized(*n.right.unwrap(), rr);
    }
}

impl Node {
    /// The subtree after removing its focused leaf: the leaf's sibling is
    /// promoted into their parent's place, taking the parent's rectangle
    /// and slot, and the promoted subtree's rectangles are recomputed.
    /// The second component is the removed leaf's rectangle, when the
    /// focused leaf was a descendant.
    pub open spec fn spliced(self) -> (Node, Option<Rectangle>)
        decreases self,
    {
        if self.leaf {
            (self, None)
        } else if self.left is None || self.right is None {
            (self, None)
        } else {
            let l = *self.left.unwrap();
            let r = *self.right.unwrap();
            if l.focused {
                (Node { right_child: self.right_child, ..r.resized(self.rect) }, Some(l.rect))
            } else if r.focused {
                (Node { right_child: self.right_child, ..l.resized(self.rect) }, Some(r.rect))
            } else {
                let (l2, dl) = l.spliced();
                if dl is Some {
                    (Node { left: Some(Box::new(l2)), ..self }, dl)
                } else {
                    let (r2, dr) = r.spliced();
                    if dr is Some {
                        (Node { right: Some(Box::new(r2)), ..self }, dr)
                    } else {
                        (self, None)
                    }
                }
            }
        }
    }
}

proof fn lemma_spliced_nofocus(n: Node)
    requires
        n.wf(),
        n.focus_count() == 0,
    ensures
        n.spliced() == (n, None::<Rectangle>),
    decreases n,
{
    if !n.leaf && n.left is Some && n.right is Some {
        lemma_spliced_nofocus(*n.left.unwrap());
        lemma_spliced_nofocus(*n.right.unwrap());
    }
}

proof fn lemma_spliced(n: Node)
    requires
        n.wf(),
        n.rects_bounded(),
        n.focus_count() == 1,
        !n.focused,
    ensures
        ({
            let (n2, d) = n.spliced();
            &&& d is Some
            &&& size_ok(d.unwrap())
            &&& n2.wf()
            &&& n2.rects_bounded()
            &&& n2.rect == n.rect
            &&& n2.right_child == n.right_child
            &&& n2.focus_count() == 0
            &&& n2.leaf_count() == n.leaf_count() - 1
            &&& n2.internal_count() == n.internal_count() - 1
        }),
    decreases n,
{
    reveal_with_fuel(Node::wf, 3);
    reveal_with_fuel(Node::leaf_count, 3);
    reveal_with_fuel(Node::internal_count, 3);
    reveal_with_fuel(Node::focus_count, 3);
    let l = *n.left.unwrap();
    let r = *n.right.unwrap();
    if l.focused {
        lemma_resized(r, n.rect);
        assert(l.leaf_count() == 1);
        assert(l.internal_count() == 0);
    } else if r.focused {
        lemma_resized(l, n.rect);
        assert(r.leaf_count() == 1);
        assert(r.internal_count() == 0);
    } else {
        if l.focus_count() == 1 {
            lemma_spliced(l);
        } else {
            lemma_spliced_nofocus(l);
            lemma_spliced(r);
        }
    }
}

fn delete_rec(n: &mut Node) -> (d: Option<Rectangle>)
    requires
        old(n).wf(),
        old(n).rects_bounded(),
    ensures
        (*final(n), d) == old(n).spliced(),
    decreases *old(n),
{
    if n.leaf {
        return None;
    }
    let l = n.left.take().unwrap();
    let r = n.right.take().unwrap();
    if l.focused {
        let deleted = l.rect;
        let mut s = r;
        s.right_child = n.right_child;
        s.update(n.rect);
        *n = *s;
        Some(deleted)
    } else if r.focused {
        let deleted = r.rect;
        let mut s = l;
        s.right_child = n.right_child;
        s.update(n.rect);
        *n = *s;
        Some(deleted)
    } else {
        let mut l = l;
        let mut r = r;
        let dl = delete_rec(&mut *l);
        if dl.is_some() {
            n.left = Some(l);
            n.right = Some(r);
            dl
        } else {
            let dr = delete_rec(&mut *r);
            n.left = Some(l);
            n.right = Some(r);
            dr
        }
    }
}

impl BSPTree {
    /// The tree after `delete_focused`: empty when the focus was on the
    /// root; otherwise the focused leaf's sibling subtree is promoted and
    /// focus is reassigned by looking up the removed leaf's top-left
    /// corner, falling back to the leftmost leaf when that lookup reaches
    /// no leaf.
    pub open spec fn focus_deleted(root: Option<Node>) -> Option<Node> {
        match root {
            None => None,
            Some(n) => if n.focused {
                None
            } else {
                let (n2, d) = n.spliced();
                match d {
                    Some(rect) => if n2.find_at(rect.x as int, rect.y as int) is Some {
                        Some(n2.refocused(rect.x as int, rect.y as int).0)
                    } else {
                        Some(n2.first_focused())
                    },
                    None => Some(n2),
                }
            },
        }
    }

    /// Delete the currently focused leaf. Deleting the root leaf empties
    /// the tree; otherwise the sibling subtree fills the freed space and
    /// a nearby leaf takes the focus.
    pub fn delete_focused(&mut self)
        requires
            old(self).wf(),
        ensures
            final(self).wf(),
            final(self).bounds() == old(self).bounds(),
            final(self)@ == Self::focus_deleted(old(self)@),
            final(self).leaves() == if old(self)@ is None {
                0nat
            } else {
                (old(self).leaves() - 1) as nat
            },
            final(self).internals() == if old(self)@ is None || old(self)@.unwrap().focused {
                0nat
            } else {
                (old(self).internals() - 1) as nat
            },
    {
        match self.root.take() {
            None => {},
            Some(mut b) => {
                if b.focused {
                    // the focused node is the root: the tree becomes empty
                } else {
                    proof {
                        lemma_spliced(*b);
                    }
                    let d = delete_rec(&mut *b);
                    let rect = d.unwrap();
                    proof {
                        lemma_refocused(*b, rect.x as int, rect.y as int);
                        lemma_first_focused(*b);
                    }
                    if probe_node(&b, rect.x as i32, rect.y as i32) {
                        refocus_rec(&mut *b, rect.x as i32, rect.y as i32);
                    } else {
                        first_focus_rec(&mut *b);
                    }
                    self.root = Some(b);
                }
            },
        }
    }
}

/// The opposite split policy.
pub open spec fn flipped(d: SplitDirection) -> SplitDirection {
    match d {
        SplitDirection::Horizontal => SplitDirection::Vertical,
        SplitDirection::Vertical => SplitDirection::Horizontal,
    }
}

impl Node {
    /// The subtree after setting the focused node's split policy to `s`
    /// (the leftmost focused node, as `inserted` finds it), with whether
    /// one was found.
    pub open spec fn split_set(self, s: SplitDirection) -> (Node, bool)
        decreases self,
    {
        if self.focused {
            (Node { split: s, ..self }, true)
        } else if self.leaf {
            (self, false)
        } else {
            let (l2, fl) = (if self.left is Some {
                self.left.unwrap().split_set(s)
            } else {
                (self, false)
            });
            if self.left is Some && fl {
                (Node { left: Some(Box::new(l2)), ..self }, true)
            } else {
                let (r2, fr) = (if self.right is Some {
                    self.right.unwrap().split_set(s)
                } else {
                    (self, false)
                });
                if self.right is Some && fr {
                    (Node { right: Some(Box::new(r2)), ..self }, true)
                } else {
                    (self, false)
                }
            }
        }
    }

    /// The subtree after flipping the focused node's split policy.
    pub open spec fn split_toggled(self) -> (Node, bool)
        decreases self,
    {
        if self.focused {
            (Node { split: flipped(self.split), ..self }, true)
        } else if self.leaf {
            (self, false)
        } else {
            let (l2, fl) = (if self.left is Some {
                self.left.unwrap().split_toggled()
            } else {
                (self, false)
            });
            if self.left is Some && fl {
                (Node { left: Some(Box::new(l2)), ..self }, true)
            } else {
                let (r2, fr) = (if self.right is Some {
                    self.right.unwrap().split_toggled()
                } else {
                    (self, false)
                });
                if self.right is Some && fr {
                    (Node { right: Some(Box::new(r2)), ..self }, true)
                } else {
                    (self, false)
                }
            }
        }
    }
}

proof fn lemma_split_set(n: Node, s: SplitDirection)
    requires
        n.wf(),
    ensures
        ({
            let (n2, f) = n.split_set(s);
            &&& n2.wf()
            &&& n2.rect == n.rect
            &&& n2.right_child == n.right_child
            &&& n2.focus_count() == n.focus_count()
            &&& n2.leaf_count() == n.leaf_count()
            &&& n2.internal_count() == n.internal_count()
            &&& (n.rects_bounded() ==> n2.rects_bounded())
            &&& (!f ==> n2 == n)
        }),
    decreases n,
{
    if n.left is Some {
        lemma_split_set(*n.left.unwrap(), s);
    }
    if n.right is Some {
        lemma_split_set(*n.right.unwrap(), s);
    }
}

proof fn lemma_split_toggled(n: Node)
    requires
        n.wf(),
    ensures
        ({
            let (n2, f) = n.split_toggled();
            &&& n2.wf()
            &&& n2.rect == n.rect
            &&& n2.right_child == n.right_child
            &&& n2.focus_count() == n.focus_count()
            &&& n2.leaf_count() == n.leaf_count()
            &&& n2.internal_count() == n.internal_count()
            &&& (n.rects_bounded() ==> n2.rects_bounded())
            &&& (!f ==> n2 == n)
        }),
    decreases n,
{
    if n.left is Some {
        lemma_split_toggled(*n.left.unwrap());
    }
    if n.right is Some {
        lemma_split_toggled(*n.right.unwrap());
    }
}

fn split_set_rec(n: &mut Node, s: SplitDirection) -> (f: bool)
    ensures
        (*final(n), f) == old(n).split_set(s),
    decreases *old(n),
{
    if n.focused {
        n.split = s;
        true
    } else if n.leaf {
        false
    } else {
        let found_l = match n.left.take() {
            Some(mut l) => {
                let f = split_set_rec(&mut *l, s);
                n.left = Some(l);
                f
            },
            None => false,
        };
        if found_l {
            true
        } else {
            match n.right.take() {
                Some(mut r) => {
                    let f = split_set_rec(&mut *r, s);
                    n.right = Some(r);
                    f
                },
                None => false,
            }
        }
    }
}

fn split_toggle_rec(n: &mut Node) -> (f: bool)
    ensures
        (*final(n), f) == old(n).split_toggled(),
    decreases *old(n),
{
    if n.focused {
        n.split = match n.split {
            SplitDirection::Horizontal => SplitDirection::Vertical,
            SplitDirection::Vertical => SplitDirection::Horizontal,
        };
        true
    } else if n.leaf {
        false
    } else {
        let found_l = match n.left.take() {
            Some(mut l) => {
                let f = split_toggle_rec(&mut *l);
                n.left = Some(l);
                f
            },
            None => false,
        };
        if found_l {
            true
        } else {
            match n.right.take() {
                Some(mut r) => {
                    let f = split_toggle_rec(&mut *r);
                    n.right = Some(r);
                    f
                },
                None => false,
            }
        }
    }
}

impl BSPTree {
    /// Set the split policy of the currently focused node. It takes
    /// effect on that leaf's next split; a no-op on an empty tree.
    pub fn set_split(&mut self, split: SplitDirection)
        requires
            old(self).wf(),
        ensures
            final(self).wf(),
            final(self).bounds() == old(self).bounds(),
            final(self)@ == match old(self)@ {
                None => None::<Node>,
                Some(n) => Some(n.split_set(split).0),
            },
            final(self).leaves() == old(self).leaves(),
            final(self).internals() == old(self).internals(),
    {
        match self.root.take() {
            None => {},
            Some(mut b) => {
                proof {
                    lemma_split_set(*b, split);
                }
                split_set_rec(&mut *b, split);
                self.root = Some(b);
            },
        }
    }

    /// Flip the split policy of the currently focused node between
    /// horizontal and vertical; a no-op on an empty tree.
    pub fn toggle_split(&mut self)
        requires
            old(self).wf(),
        ensures
            final(self).wf(),
            final(self).bounds() == old(self).bounds(),
            final(self)@ == match old(self)@ {
                None => None::<Node>,
                Some(n) => Some(n.split_toggled().0),
            },
            final(self).leaves() == old(self).leaves(),
            final(self).internals() == old(self).internals(),
    {
        match self.root.take() {
            None => {},
            Some(mut b) => {
                proof {
                    lemma_split_toggled(*b);
                }
                split_toggle_rec(&mut *b);
                self.root = Some(b);
            },
        }
    }

    /// Print the tree: a textual dump with one line per node, each line
    /// indented by four spaces per level of depth.
    ///
    /// The `print_type` can be:
    /// - `0` - the `pre-order` dump
    /// - `1` - the `in-order` dump
    /// - `any other` - the `post-order` dump
    pub fn print(&self, print_type: i32) -> (r: String)
        ensures
            r@ == tree_dump(self@, print_type),
    {
        let mut out = String::new();
        match &self.root {
            Some(b) => {
                if print_type == 0 {
                    dump_pre_rec(b, 0, &mut out);
                } else if print_type == 1 {
                    dump_in_rec(b, 0, &mut out);
                } else {
                    dump_post_rec(b, 0, &mut out);
                }
                proof {
                    assert(out@ =~= tree_dump(self@, print_type));
                }
            },
            None => {},
        }
        out
    }

    /// Copies of all nodes of the tree in document order: the root first,
    /// then each node's left subtree before its right subtree.
    pub fn walk(&self) -> (v: Vec<Node>)
        ensures
            v@ == match self@ {
                None => Seq::<Node>::empty(),
                Some(n) => n.preorder(),
            },
    {
        let mut v: Vec<Node> = Vec::new();
        if let Some(rt) = &self.root {
            v.push(rt.deep_copy());
            rt.walk(&mut v);
            proof {
                assert(v@ =~= rt.preorder());
            }
        }
        v
    }
}

} // verus!
