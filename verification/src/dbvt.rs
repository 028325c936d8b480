//! A dynamic tree of bounding boxes.
//!
//! Each leaf holds a box and a number; each branch holds the smallest box
//! around the boxes of its two children. A query that a box does not satisfy
//! is not satisfied by anything inside the box, so whole branches are passed
//! over. A new leaf goes down to where the boxes grow least, and a tree in
//! which it would land too deep is built anew with its leaves spread evenly.

use crate::bounding_volume::AABB;
use vstd::prelude::*;

verus! {

/// A test on boxes such that a box that passes lies in no box that fails.
pub trait BoxTest {
    /// Whether the box passes.
    spec fn passes(&self, aabb: AABB) -> bool;

    /// Tests whether the box passes.
    fn check(&self, aabb: &AABB) -> (r: bool)
        ensures
            r == self.passes(*aabb),
    ;

    /// A box around a box that passes passes.
    proof fn lemma_grows(&self, inner: AABB, outer: AABB)
        requires
            self.passes(inner),
            outer.encloses(inner),
        ensures
            self.passes(outer),
    ;
}

/// The number of levels that a tree may have.
pub const MAX_DEPTH: usize = 65;

/// The number of levels of a tree of `n` leaves in which the two children of
/// every branch have as many leaves, or the left one has one less.
pub open spec fn levels(n: int) -> nat
    decreases n,
{
    if n <= 1 {
        1
    } else {
        1 + levels(n - n / 2)
    }
}

/// Two to the power of `k`.
pub open spec fn two_to(k: nat) -> int
    decreases k,
{
    if k == 0 {
        1
    } else {
        2 * two_to((k - 1) as nat)
    }
}

/// A tree of at most two to the power of `k` leaves, built as `levels` says,
/// has at most `k + 1` levels.
pub proof fn lemma_levels(n: int, k: nat)
    requires
        n <= two_to(k),
    ensures
        levels(n) <= k + 1,
    decreases k,
{
    if n > 1 {
        if k == 0 {
            assert(two_to(0) == 1);
        } else {
            assert(two_to(k) == 2 * two_to((k - 1) as nat));
            lemma_levels(n - n / 2, (k - 1) as nat);
        }
    }
}

/// Of two parts that differ by at most one leaf, neither needs more levels
/// than the larger one.
pub proof fn lemma_levels_grow(a: int, b: int)
    requires
        1 <= a <= b <= a + 1,
    ensures
        levels(a) <= levels(b),
    decreases b,
{
    if a < b && a > 1 {
        // a - a / 2 and b - b / 2 differ by at most one, too.
        lemma_levels_grow(a - a / 2, b - b / 2);
    }
}

/// A tree of boxes that is not empty.
pub enum DBVTNode {
    /// A box and the number that stands for what lies in it.
    Leaf { aabb: AABB, data: usize },
    /// Two trees, and the smallest box around their boxes.
    Branch { aabb: AABB, left: Box<DBVTNode>, right: Box<DBVTNode> },
}

/// The sum of the three extents of a box.
pub open spec fn girth(aabb: AABB) -> int {
    (aabb.maxs.x - aabb.mins.x) + (aabb.maxs.y - aabb.mins.y) + (aabb.maxs.z - aabb.mins.z)
}

/// By how much the girth of `around` grows when it is to hold `aabb` too.
pub open spec fn growth(around: AABB, aabb: AABB) -> int {
    girth(around.merged_with(aabb)) - girth(around)
}

/// Computes `girth`.
fn girth_of(aabb: &AABB) -> (g: i128)
    ensures
        g == girth(*aabb),
{
    (aabb.maxs.x as i128 - aabb.mins.x as i128) + (aabb.maxs.y as i128 - aabb.mins.y as i128) + (
    aabb.maxs.z as i128 - aabb.mins.z as i128)
}

/// Computes `growth`.
fn growth_of(around: &AABB, aabb: &AABB) -> (g: i128)
    ensures
        g == growth(*around, *aabb),
{
    girth_of(&around.merged(aabb)) - girth_of(around)
}

impl DBVTNode {
    /// The box of the tree.
    pub open spec fn volume(self) -> AABB {
        match self {
            DBVTNode::Leaf { aabb, .. } => aabb,
            DBVTNode::Branch { aabb, .. } => aabb,
        }
    }

    /// The box of each branch is the smallest around those of its children.
    pub open spec fn wf(self) -> bool
        decreases self,
    {
        match self {
            DBVTNode::Leaf { .. } => true,
            DBVTNode::Branch { aabb, left, right } => {
                &&& aabb == left.volume().merged_with(right.volume())
                &&& left.wf()
                &&& right.wf()
            },
        }
    }

    /// Whether the tree has a leaf with this number and this box.
    pub open spec fn has(self, data: usize, aabb: AABB) -> bool
        decreases self,
    {
        match self {
            DBVTNode::Leaf { aabb: mine, data: d } => d == data && mine == aabb,
            DBVTNode::Branch { left, right, .. } => left.has(data, aabb) || right.has(data, aabb),
        }
    }

    /// Whether the tree has a leaf with this number.
    pub open spec fn holds(self, data: usize) -> bool
        decreases self,
    {
        match self {
            DBVTNode::Leaf { data: d, .. } => d == data,
            DBVTNode::Branch { left, right, .. } => left.holds(data) || right.holds(data),
        }
    }

    /// No two leaves have the same number.
    pub open spec fn unique(self) -> bool
        decreases self,
    {
        match self {
            DBVTNode::Leaf { .. } => true,
            DBVTNode::Branch { left, right, .. } => {
                &&& left.unique()
                &&& right.unique()
                &&& forall|d: usize| !(left.holds(d) && right.holds(d))
            },
        }
    }

    /// The numbers of the leaves whose box passes a test, from left to right.
    pub open spec fn hits<Q: BoxTest>(self, query: Q) -> Seq<usize>
        decreases self,
    {
        match self {
            DBVTNode::Leaf { aabb, data } => if query.passes(aabb) {
                seq![data]
            } else {
                Seq::empty()
            },
            DBVTNode::Branch { left, right, .. } => left.hits(query) + right.hits(query),
        }
    }

    /// The tree with one more leaf. The leaf goes down into the child whose
    /// box grows less by it, into the left one where both grow alike, and
    /// takes the place of the leaf it arrives at, together with that leaf.
    pub open spec fn inserted(self, aabb: AABB, data: usize) -> DBVTNode
        decreases self,
    {
        match self {
            DBVTNode::Leaf { aabb: mine, data: d } => DBVTNode::Branch {
                aabb: mine.merged_with(aabb),
                left: Box::new(DBVTNode::Leaf { aabb: mine, data: d }),
                right: Box::new(DBVTNode::Leaf { aabb, data }),
            },
            DBVTNode::Branch { left, right, .. } => if growth(left.volume(), aabb) <= growth(
                right.volume(),
                aabb,
            ) {
                let grown = left.inserted(aabb, data);
                DBVTNode::Branch {
                    aabb: grown.volume().merged_with(right.volume()),
                    left: Box::new(grown),
                    right,
                }
            } else {
                let grown = right.inserted(aabb, data);
                DBVTNode::Branch {
                    aabb: left.volume().merged_with(grown.volume()),
                    left,
                    right: Box::new(grown),
                }
            },
        }
    }

    /// Whether `removed` finds the leaf: it looks only into children whose
    /// box holds the box of the leaf, the left one first.
    pub open spec fn finds(self, aabb: AABB, data: usize) -> bool
        decreases self,
    {
        match self {
            DBVTNode::Leaf { aabb: mine, data: d } => d == data && mine == aabb,
            DBVTNode::Branch { left, right, .. } => (left.volume().encloses(aabb) && left.finds(
                aabb,
                data,
            )) || (right.volume().encloses(aabb) && right.finds(aabb, data)),
        }
    }

    /// The tree without the first leaf with this box and this number, where
    /// `finds` holds; `None` where the tree was that leaf. The sibling of
    /// the leaf takes the place of their parent.
    pub open spec fn removed(self, aabb: AABB, data: usize) -> Option<DBVTNode>
        decreases self,
    {
        match self {
            DBVTNode::Leaf { .. } => if self.finds(aabb, data) {
                None
            } else {
                Some(self)
            },
            DBVTNode::Branch { left, right, .. } => if left.volume().encloses(aabb) && left.finds(
                aabb,
                data,
            ) {
                match left.removed(aabb, data) {
                    Some(rest) => Some(
                        DBVTNode::Branch {
                            aabb: rest.volume().merged_with(right.volume()),
                            left: Box::new(rest),
                            right,
                        },
                    ),
                    None => Some(*right),
                }
            } else if right.volume().encloses(aabb) && right.finds(aabb, data) {
                match right.removed(aabb, data) {
                    Some(rest) => Some(
                        DBVTNode::Branch {
                            aabb: left.volume().merged_with(rest.volume()),
                            left,
                            right: Box::new(rest),
                        },
                    ),
                    None => Some(*left),
                }
            } else {
                Some(self)
            },
        }
    }

    /// The number of levels of the tree.
    pub open spec fn height(self) -> nat
        decreases self,
    {
        match self {
            DBVTNode::Leaf { .. } => 1,
            DBVTNode::Branch { left, right, .. } => 1 + (if left.height() >= right.height() {
                left.height()
            } else {
                right.height()
            }),
        }
    }

    /// The leaves, from left to right.
    pub open spec fn leaves(self) -> Seq<(AABB, usize)>
        decreases self,
    {
        match self {
            DBVTNode::Leaf { aabb, data } => seq![(aabb, data)],
            DBVTNode::Branch { left, right, .. } => left.leaves() + right.leaves(),
        }
    }

    /// The level at which `inserted` puts a leaf with this box.
    pub open spec fn landing(self, aabb: AABB) -> nat
        decreases self,
    {
        match self {
            DBVTNode::Leaf { .. } => 2,
            DBVTNode::Branch { left, right, .. } => 1 + (if growth(left.volume(), aabb) <= growth(
                right.volume(),
                aabb,
            ) {
                left.landing(aabb)
            } else {
                right.landing(aabb)
            }),
        }
    }

    /// The tree of the items from `lo` up to `hi` in which the two children
    /// of every branch have as many leaves, or the left one has one less.
    pub open spec fn balanced(items: Seq<(AABB, usize)>, lo: int, hi: int) -> DBVTNode
        decreases hi - lo,
    {
        if hi - lo <= 1 {
            DBVTNode::Leaf { aabb: items[lo].0, data: items[lo].1 }
        } else {
            let mid = lo + (hi - lo) / 2;
            let left = Self::balanced(items, lo, mid);
            let right = Self::balanced(items, mid, hi);
            DBVTNode::Branch {
                aabb: left.volume().merged_with(right.volume()),
                left: Box::new(left),
                right: Box::new(right),
            }
        }
    }

    /// The tree built anew from its leaves: see `balanced`.
    pub open spec fn rebuilt(self) -> DBVTNode {
        Self::balanced(self.leaves(), 0, self.leaves().len() as int)
    }

    /// Whether `inserted` puts a leaf with this box below level `budget`.
    pub fn lands_deeper(&self, aabb: &AABB, budget: usize) -> (r: bool)
        ensures
            r == (self.landing(*aabb) > budget),
        decreases self,
    {
        match self {
            DBVTNode::Leaf { .. } => budget < 2,
            DBVTNode::Branch { left, right, .. } => {
                if budget == 0 {
                    true
                } else if growth_of(&left.aabb(), aabb) <= growth_of(&right.aabb(), aabb) {
                    left.lands_deeper(aabb, budget - 1)
                } else {
                    right.lands_deeper(aabb, budget - 1)
                }
            },
        }
    }

    /// Appends the leaves to `out`, from left to right.
    pub fn gather(&self, out: &mut Vec<(AABB, usize)>)
        ensures
            final(out)@ == old(out)@ + self.leaves(),
        decreases self,
    {
        match self {
            DBVTNode::Leaf { aabb, data } => {
                out.push((*aabb, *data));
                proof {
                    assert(out@ =~= old(out)@ + self.leaves());
                }
            },
            DBVTNode::Branch { left, right, .. } => {
                left.gather(out);
                right.gather(out);
                proof {
                    assert(out@ =~= old(out)@ + self.leaves());
                }
            },
        }
    }

    /// Builds the tree of the items from `lo` up to `hi`: see `balanced`.
    pub fn build(items: &Vec<(AABB, usize)>, lo: usize, hi: usize) -> (r: DBVTNode)
        requires
            lo < hi <= items@.len(),
        ensures
            r == Self::balanced(items@, lo as int, hi as int),
        decreases hi - lo,
    {
        if hi - lo <= 1 {
            DBVTNode::Leaf { aabb: items[lo].0, data: items[lo].1 }
        } else {
            let mid: usize = lo + (hi - lo) / 2;
            let left = Self::build(items, lo, mid);
            let right = Self::build(items, mid, hi);
            DBVTNode::Branch {
                aabb: left.aabb().merged(&right.aabb()),
                left: Box::new(left),
                right: Box::new(right),
            }
        }
    }

    /// Builds the tree anew from its leaves: see `rebuilt`.
    pub fn rebuild(self) -> (r: DBVTNode)
        ensures
            r == self.rebuilt(),
    {
        let mut items: Vec<(AABB, usize)> = Vec::new();
        self.gather(&mut items);
        proof {
            self.lemma_leaves();
            assert(items@ =~= self.leaves());
        }
        Self::build(&items, 0, items.len())
    }

    /// What the leaves say of a tree: which leaves it has, which numbers it
    /// holds, and whether a number stands twice.
    pub proof fn lemma_leaves(self)
        ensures
            self.leaves().len() >= 1,
            forall|d: usize, b: AABB| self.has(d, b) <==> #[trigger] self.leaves().contains((b, d)),
            forall|d: usize| #[trigger]
                self.holds(d) <==> exists|k: int|
                    0 <= k < self.leaves().len() && (#[trigger] self.leaves()[k]).1 == d,
            self.unique() <==> forall|i: int, j: int|
                0 <= i < j < self.leaves().len() ==> (#[trigger] self.leaves()[i]).1 != (
                #[trigger] self.leaves()[j]).1,
        decreases self,
    {
        let all = self.leaves();
        match self {
            DBVTNode::Leaf { aabb, data } => {
                assert(all[0] == (aabb, data));
                assert forall|d: usize, b: AABB| self.has(d, b) <==> #[trigger] all.contains(
                    (b, d),
                ) by {
                    if all.contains((b, d)) {
                        let k = choose|k: int| 0 <= k < all.len() && all[k] == (b, d);
                    }
                }
                assert forall|d: usize| #[trigger]
                    self.holds(d) <==> exists|k: int|
                        0 <= k < all.len() && (#[trigger] all[k]).1 == d by {
                    if self.holds(d) {
                        assert(all[0].1 == d);
                    }
                }
            },
            DBVTNode::Branch { left, right, .. } => {
                left.lemma_leaves();
                right.lemma_leaves();
                let l = left.leaves();
                let r = right.leaves();
                assert forall|d: usize, b: AABB| self.has(d, b) <==> #[trigger] all.contains(
                    (b, d),
                ) by {
                    if left.has(d, b) {
                        assert(l.contains((b, d)));
                        let k = choose|k: int| 0 <= k < l.len() && l[k] == (b, d);
                        assert(all[k] == (b, d));
                    }
                    if right.has(d, b) {
                        assert(r.contains((b, d)));
                        let k = choose|k: int| 0 <= k < r.len() && r[k] == (b, d);
                        assert(all[l.len() + k] == (b, d));
                    }
                    if all.contains((b, d)) {
                        let k = choose|k: int| 0 <= k < all.len() && all[k] == (b, d);
                        if k < l.len() {
                            assert(l[k] == (b, d));
                            assert(l.contains((b, d)));
                        } else {
                            assert(r[k - l.len()] == (b, d));
                            assert(r.contains((b, d)));
                        }
                    }
                }
                assert forall|d: usize| #[trigger]
                    self.holds(d) <==> exists|k: int|
                        0 <= k < all.len() && (#[trigger] all[k]).1 == d by {
                    if left.holds(d) {
                        let k = choose|k: int| 0 <= k < l.len() && (#[trigger] l[k]).1 == d;
                        assert(all[k].1 == d);
                    }
                    if right.holds(d) {
                        let k = choose|k: int| 0 <= k < r.len() && (#[trigger] r[k]).1 == d;
                        assert(all[l.len() + k].1 == d);
                    }
                    if exists|k: int| 0 <= k < all.len() && (#[trigger] all[k]).1 == d {
                        let k = choose|k: int| 0 <= k < all.len() && (#[trigger] all[k]).1 == d;
                        if k < l.len() {
                            assert(l[k].1 == d);
                        } else {
                            assert(r[k - l.len()].1 == d);
                        }
                    }
                }
                if self.unique() {
                    assert forall|i: int, j: int| 0 <= i < j < all.len() implies (
                    #[trigger] all[i]).1 != (#[trigger] all[j]).1 by {
                        if j < l.len() {
                            assert(all[i] == l[i] && all[j] == l[j]);
                        } else if i >= l.len() {
                            assert(all[i] == r[i - l.len()] && all[j] == r[j - l.len()]);
                        } else {
                            assert(all[i] == l[i] && all[j] == r[j - l.len()]);
                            assert(left.holds(l[i].1));
                            assert(right.holds(r[j - l.len()].1));
                        }
                    }
                }
                if forall|i: int, j: int|
                    0 <= i < j < all.len() ==> (#[trigger] all[i]).1 != (#[trigger] all[j]).1 {
                    assert forall|i: int, j: int| 0 <= i < j < l.len() implies (#[trigger] l[i]).1
                        != (#[trigger] l[j]).1 by {
                        assert(all[i] == l[i] && all[j] == l[j]);
                    }
                    assert forall|i: int, j: int| 0 <= i < j < r.len() implies (#[trigger] r[i]).1
                        != (#[trigger] r[j]).1 by {
                        assert(all[l.len() + i] == r[i] && all[l.len() + j] == r[j]);
                    }
                    assert forall|d: usize| !(left.holds(d) && right.holds(d)) by {
                        if left.holds(d) && right.holds(d) {
                            let i = choose|k: int| 0 <= k < l.len() && (#[trigger] l[k]).1 == d;
                            let j = choose|k: int| 0 <= k < r.len() && (#[trigger] r[k]).1 == d;
                            assert(all[i] == l[i] && all[l.len() + j] == r[j]);
                        }
                    }
                }
            },
        }
    }

    /// What `balanced` builds: a tree with the items as leaves, and with as
    /// few levels as `levels` says.
    pub proof fn lemma_balanced(items: Seq<(AABB, usize)>, lo: int, hi: int)
        requires
            0 <= lo < hi <= items.len(),
        ensures
            Self::balanced(items, lo, hi).wf(),
            Self::balanced(items, lo, hi).leaves() == items.subrange(lo, hi),
            Self::balanced(items, lo, hi).height() <= levels(hi - lo),
        decreases hi - lo,
    {
        let out = Self::balanced(items, lo, hi);
        if hi - lo <= 1 {
            assert(out.leaves() =~= items.subrange(lo, hi));
        } else {
            let mid = lo + (hi - lo) / 2;
            Self::lemma_balanced(items, lo, mid);
            Self::lemma_balanced(items, mid, hi);
            assert(out.leaves() =~= items.subrange(lo, hi));
            lemma_levels_grow(mid - lo, hi - mid);
            assert(hi - mid == (hi - lo) - (hi - lo) / 2);
        }
    }

    /// A tree in which no number stands twice has no more leaves than there
    /// are numbers.
    pub proof fn lemma_count(self)
        requires
            self.unique(),
        ensures
            self.leaves().len() <= usize::MAX + 1,
    {
        self.lemma_leaves();
        let all = self.leaves();
        let numbers = Seq::new(all.len(), |i: int| all[i].1 as int);
        assert forall|i: int, j: int| 0 <= i < numbers.len() && 0 <= j < numbers.len() && i
            != j implies numbers[i] != numbers[j] by {
            if i < j {
                assert(all[i].1 != all[j].1);
            } else {
                assert(all[j].1 != all[i].1);
            }
        }
        numbers.unique_seq_to_set();
        let range = vstd::set_lib::set_int_range(0, usize::MAX + 1);
        vstd::set_lib::lemma_int_range(0, usize::MAX + 1);
        assert forall|x: int| numbers.to_set().contains(x) implies range.contains(x) by {
            let i = choose|i: int| 0 <= i < numbers.len() && numbers[i] == x;
        }
        vstd::set_lib::lemma_len_subset(numbers.to_set(), range);
    }

    /// A tree built anew has the same leaves, and no more levels than a tree
    /// may have.
    pub proof fn lemma_rebuilt(self)
        requires
            self.wf(),
            self.unique(),
        ensures
            self.rebuilt().wf(),
            self.rebuilt().unique(),
            self.rebuilt().leaves() == self.leaves(),
            self.rebuilt().height() <= MAX_DEPTH,
            forall|d: usize, b: AABB| #[trigger] self.rebuilt().has(d, b) <==> self.has(d, b),
            forall|d: usize| #[trigger] self.rebuilt().holds(d) <==> self.holds(d),
    {
        let all = self.leaves();
        let out = self.rebuilt();
        self.lemma_leaves();
        self.lemma_count();
        Self::lemma_balanced(all, 0, all.len() as int);
        assert(all.subrange(0, all.len() as int) =~= all);
        out.lemma_leaves();
        assert(two_to(64) == 0x1_0000_0000_0000_0000) by {
            reveal_with_fuel(two_to, 65);
        }
        lemma_levels(all.len() as int, 64);
        assert forall|d: usize, b: AABB| #[trigger] out.has(d, b) <==> self.has(d, b) by {
            assert(out.has(d, b) <==> out.leaves().contains((b, d)));
            assert(self.has(d, b) <==> self.leaves().contains((b, d)));
        }
    }

    /// A new leaf makes a tree as deep as the level at which it lands, where
    /// the tree was not deeper.
    pub proof fn lemma_inserted_height(self, aabb: AABB, data: usize)
        ensures
            self.inserted(aabb, data).height() == (if self.height() >= self.landing(aabb) {
                self.height()
            } else {
                self.landing(aabb)
            }),
        decreases self,
    {
        match self {
            DBVTNode::Leaf { aabb: mine, data: d } => {
                let l = DBVTNode::Leaf { aabb: mine, data: d };
                let r = DBVTNode::Leaf { aabb, data };
                assert(l.height() == 1 && r.height() == 1);
            },
            DBVTNode::Branch { left, right, .. } => {
                if growth(left.volume(), aabb) <= growth(right.volume(), aabb) {
                    left.lemma_inserted_height(aabb, data);
                } else {
                    right.lemma_inserted_height(aabb, data);
                }
            },
        }
    }

    /// A tree without a leaf is no deeper than it was.
    pub proof fn lemma_removed_height(self, aabb: AABB, data: usize)
        ensures
            self.removed(aabb, data) matches Some(rest) ==> rest.height() <= self.height(),
        decreases self,
    {
        match self {
            DBVTNode::Leaf { .. } => {},
            DBVTNode::Branch { left, right, .. } => {
                left.lemma_removed_height(aabb, data);
                right.lemma_removed_height(aabb, data);
            },
        }
    }

    /// The box of the tree.
    pub fn aabb(&self) -> (aabb: AABB)
        ensures
            aabb == self.volume(),
    {
        match self {
            DBVTNode::Leaf { aabb, .. } => *aabb,
            DBVTNode::Branch { aabb, .. } => *aabb,
        }
    }

    /// Adds a leaf: see `inserted`.
    pub fn insert(self, aabb: AABB, data: usize) -> (r: DBVTNode)
        ensures
            r == self.inserted(aabb, data),
        decreases self,
    {
        match self {
            DBVTNode::Leaf { aabb: mine, data: d } => DBVTNode::Branch {
                aabb: mine.merged(&aabb),
                left: Box::new(DBVTNode::Leaf { aabb: mine, data: d }),
                right: Box::new(DBVTNode::Leaf { aabb, data }),
            },
            DBVTNode::Branch { aabb: _, left, right } => {
                if growth_of(&left.aabb(), &aabb) <= growth_of(&right.aabb(), &aabb) {
                    let grown = (*left).insert(aabb, data);
                    DBVTNode::Branch {
                        aabb: grown.aabb().merged(&right.aabb()),
                        left: Box::new(grown),
                        right,
                    }
                } else {
                    let grown = (*right).insert(aabb, data);
                    DBVTNode::Branch {
                        aabb: left.aabb().merged(&grown.aabb()),
                        left,
                        right: Box::new(grown),
                    }
                }
            },
        }
    }

    /// Takes a leaf out: see `removed`. Says too whether the leaf was found.
    pub fn remove(self, aabb: &AABB, data: usize) -> (r: (Option<DBVTNode>, bool))
        ensures
            r.0 == self.removed(*aabb, data),
            r.1 == self.finds(*aabb, data),
        decreases self, 0nat,
    {
        match self {
            DBVTNode::Leaf { aabb: mine, data: d } => {
                if d == data && mine == *aabb {
                    (None, true)
                } else {
                    (Some(DBVTNode::Leaf { aabb: mine, data: d }), false)
                }
            },
            DBVTNode::Branch { aabb: mine, left, right } => {
                if left.aabb().contains(aabb) {
                    let (rest, found) = (*left).remove(aabb, data);
                    if found {
                        return match rest {
                            Some(rest) => (
                                Some(
                                    DBVTNode::Branch {
                                        aabb: rest.aabb().merged(&right.aabb()),
                                        left: Box::new(rest),
                                        right,
                                    },
                                ),
                                true,
                            ),
                            None => (Some(*right), true),
                        };
                    }
                    let left = match rest {
                        Some(same) => Box::new(same),
                        None => vstd::pervasive::unreached(),
                    };
                    Self::remove_right(mine, left, right, aabb, data)
                } else {
                    Self::remove_right(mine, left, right, aabb, data)
                }
            },
        }
    }

    /// Takes a leaf out of the right child of a branch whose left child does
    /// not have it.
    fn remove_right(
        mine: AABB,
        left: Box<DBVTNode>,
        right: Box<DBVTNode>,
        aabb: &AABB,
        data: usize,
    ) -> (r: (Option<DBVTNode>, bool))
        requires
            !(left.volume().encloses(*aabb) && left.finds(*aabb, data)),
        ensures
            r.0 == (DBVTNode::Branch { aabb: mine, left, right }).removed(*aabb, data),
            r.1 == (DBVTNode::Branch { aabb: mine, left, right }).finds(*aabb, data),
        decreases *right, 1nat,
    {
        if right.aabb().contains(aabb) {
            let (rest, found) = (*right).remove(aabb, data);
            if found {
                match rest {
                    Some(rest) => (
                        Some(
                            DBVTNode::Branch {
                                aabb: left.aabb().merged(&rest.aabb()),
                                left,
                                right: Box::new(rest),
                            },
                        ),
                        true,
                    ),
                    None => (Some(*left), true),
                }
            } else {
                match rest {
                    Some(same) => (
                        Some(DBVTNode::Branch { aabb: mine, left, right: Box::new(same) }),
                        false,
                    ),
                    None => vstd::pervasive::unreached(),
                }
            }
        } else {
            (Some(DBVTNode::Branch { aabb: mine, left, right }), false)
        }
    }

    /// Appends to `out` the numbers of the leaves whose box passes the test,
    /// from left to right.
    pub fn collect<Q: BoxTest>(&self, query: &Q, out: &mut Vec<usize>)
        requires
            self.wf(),
        ensures
            final(out)@ == old(out)@ + self.hits(*query),
        decreases self,
    {
        match self {
            DBVTNode::Leaf { aabb, data } => {
                if query.check(aabb) {
                    out.push(*data);
                }
                proof {
                    assert(out@ =~= old(out)@ + self.hits(*query));
                }
            },
            DBVTNode::Branch { aabb, left, right } => {
                if query.check(aabb) {
                    left.collect(query, out);
                    right.collect(query, out);
                    proof {
                        assert(out@ =~= old(out)@ + self.hits(*query));
                    }
                } else {
                    proof {
                        self.lemma_pruned(*query);
                        assert(out@ =~= old(out)@ + self.hits(*query));
                    }
                }
            },
        }
    }

    /// The box of a tree holds the box of each of its leaves.
    pub proof fn lemma_volume_encloses(self, data: usize, aabb: AABB)
        requires
            self.wf(),
            self.has(data, aabb),
        ensures
            self.volume().encloses(aabb),
        decreases self,
    {
        match self {
            DBVTNode::Leaf { .. } => {},
            DBVTNode::Branch { left, right, .. } => {
                if left.has(data, aabb) {
                    left.lemma_volume_encloses(data, aabb);
                } else {
                    right.lemma_volume_encloses(data, aabb);
                }
            },
        }
    }

    /// Where the box of a tree fails a test, no leaf passes.
    pub proof fn lemma_pruned<Q: BoxTest>(self, query: Q)
        requires
            self.wf(),
            !query.passes(self.volume()),
        ensures
            self.hits(query) == Seq::<usize>::empty(),
        decreases self,
    {
        match self {
            DBVTNode::Leaf { .. } => {},
            DBVTNode::Branch { aabb, left, right } => {
                if query.passes(left.volume()) {
                    query.lemma_grows(left.volume(), aabb);
                }
                if query.passes(right.volume()) {
                    query.lemma_grows(right.volume(), aabb);
                }
                left.lemma_pruned(query);
                right.lemma_pruned(query);
            },
        }
    }

    /// A leaf with a number is a leaf.
    pub proof fn lemma_has_holds(self, data: usize, aabb: AABB)
        requires
            self.has(data, aabb),
        ensures
            self.holds(data),
        decreases self,
    {
        match self {
            DBVTNode::Leaf { .. } => {},
            DBVTNode::Branch { left, right, .. } => {
                if left.has(data, aabb) {
                    left.lemma_has_holds(data, aabb);
                } else {
                    right.lemma_has_holds(data, aabb);
                }
            },
        }
    }

    /// A number that the tree holds is that of a leaf with some box.
    pub proof fn lemma_holds_has(self, data: usize) -> (aabb: AABB)
        requires
            self.holds(data),
        ensures
            self.has(data, aabb),
        decreases self,
    {
        match self {
            DBVTNode::Leaf { aabb, .. } => aabb,
            DBVTNode::Branch { left, right, .. } => {
                if left.holds(data) {
                    left.lemma_holds_has(data)
                } else {
                    right.lemma_holds_has(data)
                }
            },
        }
    }

    /// The numbers that a query yields are those of the leaves whose box
    /// passes, each once where no two leaves have the same number.
    pub proof fn lemma_hits<Q: BoxTest>(self, query: Q)
        ensures
            forall|k: int|
                0 <= k < self.hits(query).len() ==> self.passing(query, #[trigger] self.hits(query)[k]),
            forall|d: usize| self.passing(query, d) ==> self.hits(query).contains(d),
            self.unique() ==> forall|k: int, l: int|
                0 <= k < l < self.hits(query).len() ==> self.hits(query)[k] != self.hits(query)[l],
        decreases self,
    {
        let out = self.hits(query);
        match self {
            DBVTNode::Leaf { aabb, data } => {
                assert forall|k: int| 0 <= k < out.len() implies self.passing(
                    query,
                    #[trigger] out[k],
                ) by {
                    assert(self.has(data, aabb) && query.passes(aabb));
                }
                assert forall|d: usize| self.passing(query, d) implies out.contains(d) by {
                    assert(out[0] == d);
                }
            },
            DBVTNode::Branch { left, right, .. } => {
                left.lemma_hits(query);
                right.lemma_hits(query);
                let l = left.hits(query);
                let r = right.hits(query);
                assert forall|k: int| 0 <= k < out.len() implies self.passing(
                    query,
                    #[trigger] out[k],
                ) by {
                    if k < l.len() {
                        assert(out[k] == l[k]);
                        assert(left.passing(query, l[k]));
                        let b = choose|b: AABB| left.has(l[k], b) && query.passes(b);
                        assert(self.has(out[k], b) && query.passes(b));
                    } else {
                        assert(out[k] == r[k - l.len()]);
                        assert(right.passing(query, r[k - l.len()]));
                        let b = choose|b: AABB| right.has(r[k - l.len()], b) && query.passes(b);
                        assert(self.has(out[k], b) && query.passes(b));
                    }
                }
                assert forall|d: usize| self.passing(query, d) implies out.contains(d) by {
                    let b = choose|b: AABB| self.has(d, b) && query.passes(b);
                    if left.has(d, b) {
                        assert(left.passing(query, d));
                        assert(l.contains(d));
                        let k = choose|k: int| 0 <= k < l.len() && l[k] == d;
                        assert(out[k] == d);
                    } else {
                        assert(right.passing(query, d));
                        assert(r.contains(d));
                        let k = choose|k: int| 0 <= k < r.len() && r[k] == d;
                        assert(out[l.len() + k] == d);
                    }
                }
                if self.unique() {
                    assert forall|k: int, m: int| 0 <= k < m < out.len() implies out[k] != out[m] by {
                        if m < l.len() {
                            assert(out[k] == l[k] && out[m] == l[m]);
                        } else if k >= l.len() {
                            assert(out[k] == r[k - l.len()] && out[m] == r[m - l.len()]);
                        } else {
                            assert(out[k] == l[k] && out[m] == r[m - l.len()]);
                            assert(left.passing(query, l[k]));
                            assert(right.passing(query, r[m - l.len()]));
                            let b1 = choose|b: AABB| left.has(l[k], b) && query.passes(b);
                            let b2 = choose|b: AABB|
                                right.has(r[m - l.len()], b) && query.passes(b);
                            left.lemma_has_holds(l[k], b1);
                            right.lemma_has_holds(r[m - l.len()], b2);
                        }
                    }
                }
            },
        }
    }

    /// Whether a leaf with this number has a box that passes the test.
    pub open spec fn passing<Q: BoxTest>(self, query: Q, data: usize) -> bool {
        exists|b: AABB| self.has(data, b) && query.passes(b)
    }

    /// What a tree with one more leaf holds: what it held, and the new leaf.
    pub proof fn lemma_inserted(self, aabb: AABB, data: usize)
        requires
            self.wf(),
        ensures
            self.inserted(aabb, data).wf(),
            forall|d: usize, b: AABB|
                #[trigger] self.inserted(aabb, data).has(d, b) <==> self.has(d, b) || (d == data && b
                    == aabb),
            forall|d: usize|
                #[trigger] self.inserted(aabb, data).holds(d) <==> self.holds(d) || d == data,
            self.unique() && !self.holds(data) ==> self.inserted(aabb, data).unique(),
        decreases self,
    {
        let out = self.inserted(aabb, data);
        match self {
            DBVTNode::Leaf { aabb: mine, data: d0 } => {
                let l = DBVTNode::Leaf { aabb: mine, data: d0 };
                let r = DBVTNode::Leaf { aabb, data };
                assert(out == DBVTNode::Branch {
                    aabb: mine.merged_with(aabb),
                    left: Box::new(l),
                    right: Box::new(r),
                });
                assert(l.wf() && r.wf());
                assert(out.wf());
                assert forall|d: usize, b: AABB| #[trigger]
                    out.has(d, b) <==> self.has(d, b) || (d == data && b == aabb) by {
                    assert(out.has(d, b) == (l.has(d, b) || r.has(d, b)));
                }
                assert forall|d: usize| #[trigger] out.holds(d) <==> self.holds(d) || d == data by {
                    assert(out.holds(d) == (l.holds(d) || r.holds(d)));
                }
                if self.unique() && !self.holds(data) {
                    assert(l.unique() && r.unique());
                    assert forall|d: usize| !(l.holds(d) && r.holds(d)) by {}
                    assert(out.unique());
                }
            },
            DBVTNode::Branch { left, right, .. } => {
                if growth(left.volume(), aabb) <= growth(right.volume(), aabb) {
                    left.lemma_inserted(aabb, data);
                    let grown = left.inserted(aabb, data);
                    assert forall|d: usize, b: AABB| #[trigger]
                        out.has(d, b) <==> self.has(d, b) || (d == data && b == aabb) by {
                        assert(out.has(d, b) == (grown.has(d, b) || right.has(d, b)));
                    }
                    assert forall|d: usize| #[trigger]
                        out.holds(d) <==> self.holds(d) || d == data by {
                        assert(out.holds(d) == (grown.holds(d) || right.holds(d)));
                    }
                    if self.unique() && !self.holds(data) {
                        assert forall|d: usize| !(grown.holds(d) && right.holds(d)) by {
                            assert(grown.holds(d) <==> left.holds(d) || d == data);
                        }
                    }
                } else {
                    right.lemma_inserted(aabb, data);
                    let grown = right.inserted(aabb, data);
                    assert forall|d: usize, b: AABB| #[trigger]
                        out.has(d, b) <==> self.has(d, b) || (d == data && b == aabb) by {
                        assert(out.has(d, b) == (left.has(d, b) || grown.has(d, b)));
                    }
                    assert forall|d: usize| #[trigger]
                        out.holds(d) <==> self.holds(d) || d == data by {
                        assert(out.holds(d) == (left.holds(d) || grown.holds(d)));
                    }
                    if self.unique() && !self.holds(data) {
                        assert forall|d: usize| !(left.holds(d) && grown.holds(d)) by {
                            assert(grown.holds(d) <==> right.holds(d) || d == data);
                        }
                    }
                }
            },
        }
    }

    /// `removed` finds every leaf that there is.
    pub proof fn lemma_finds(self, aabb: AABB, data: usize)
        requires
            self.wf(),
        ensures
            self.finds(aabb, data) <==> self.has(data, aabb),
        decreases self,
    {
        match self {
            DBVTNode::Leaf { .. } => {},
            DBVTNode::Branch { left, right, .. } => {
                left.lemma_finds(aabb, data);
                right.lemma_finds(aabb, data);
                if left.has(data, aabb) {
                    left.lemma_volume_encloses(data, aabb);
                }
                if right.has(data, aabb) {
                    right.lemma_volume_encloses(data, aabb);
                }
            },
        }
    }

    /// What a tree without a leaf holds: what it held, but for that leaf.
    pub proof fn lemma_removed(self, aabb: AABB, data: usize)
        requires
            self.wf(),
            self.unique(),
        ensures
            self.removed(aabb, data) is None <==> self is Leaf && self.has(data, aabb),
            self.removed(aabb, data) matches Some(rest) ==> {
                &&& rest.wf()
                &&& rest.unique()
                &&& forall|d: usize, b: AABB|
                    #[trigger] rest.has(d, b) <==> self.has(d, b) && !(self.has(data, aabb) && d
                        == data)
                &&& forall|d: usize|
                    #[trigger] rest.holds(d) <==> self.holds(d) && !(self.has(data, aabb) && d == data)
            },
        decreases self,
    {
        self.lemma_finds(aabb, data);
        match self {
            DBVTNode::Leaf { .. } => {},
            DBVTNode::Branch { left, right, .. } => {
                left.lemma_finds(aabb, data);
                right.lemma_finds(aabb, data);
                left.lemma_removed(aabb, data);
                right.lemma_removed(aabb, data);
                if left.has(data, aabb) {
                    left.lemma_volume_encloses(data, aabb);
                    left.lemma_has_holds(data, aabb);
                    assert(!right.holds(data));
                    assert forall|b: AABB| !right.has(data, b) by {
                        if right.has(data, b) {
                            right.lemma_has_holds(data, b);
                        }
                    }
                    match left.removed(aabb, data) {
                        Some(rest) => {
                            let out = DBVTNode::Branch {
                                aabb: rest.volume().merged_with(right.volume()),
                                left: Box::new(rest),
                                right,
                            };
                            assert(self.removed(aabb, data) == Some(out));
                            assert forall|d: usize, b: AABB| #[trigger]
                                out.has(d, b) <==> self.has(d, b) && !(self.has(data, aabb) && d
                                    == data) by {
                                assert(out.has(d, b) == (rest.has(d, b) || right.has(d, b)));
                                assert(rest.has(d, b) <==> left.has(d, b) && !(left.has(data, aabb)
                                    && d == data));
                            }
                            assert forall|d: usize| #[trigger]
                                out.holds(d) <==> self.holds(d) && !(self.has(data, aabb) && d
                                    == data) by {
                                assert(out.holds(d) == (rest.holds(d) || right.holds(d)));
                                assert(rest.holds(d) <==> left.holds(d) && !(left.has(data, aabb)
                                    && d == data));
                            }
                            assert forall|d: usize| !(rest.holds(d) && right.holds(d)) by {
                                assert(rest.holds(d) <==> left.holds(d) && !(left.has(data, aabb)
                                    && d == data));
                            }
                            assert(out.wf());
                            assert(out.unique());
                        },
                        None => {
                            let out = *right;
                            assert(self.removed(aabb, data) == Some(out));
                            assert(*left is Leaf);
                            assert forall|d: usize, b: AABB| #[trigger]
                                out.has(d, b) <==> self.has(d, b) && !(self.has(data, aabb) && d
                                    == data) by {
                                assert(self.has(d, b) == (left.has(d, b) || right.has(d, b)));
                                if left.has(d, b) {
                                    assert(d == data);
                                }
                                if right.has(d, b) {
                                    right.lemma_has_holds(d, b);
                                }
                            }
                            assert forall|d: usize| #[trigger]
                                out.holds(d) <==> self.holds(d) && !(self.has(data, aabb) && d
                                    == data) by {
                                assert(self.holds(d) == (left.holds(d) || right.holds(d)));
                                if left.holds(d) {
                                    assert(d == data);
                                }
                            }
                        },
                    }
                } else if right.has(data, aabb) {
                    right.lemma_volume_encloses(data, aabb);
                    right.lemma_has_holds(data, aabb);
                    assert(!left.holds(data));
                    assert forall|b: AABB| !left.has(data, b) by {
                        if left.has(data, b) {
                            left.lemma_has_holds(data, b);
                        }
                    }
                    match right.removed(aabb, data) {
                        Some(rest) => {
                            let out = DBVTNode::Branch {
                                aabb: left.volume().merged_with(rest.volume()),
                                left,
                                right: Box::new(rest),
                            };
                            assert(self.removed(aabb, data) == Some(out));
                            assert forall|d: usize, b: AABB| #[trigger]
                                out.has(d, b) <==> self.has(d, b) && !(self.has(data, aabb) && d
                                    == data) by {
                                assert(out.has(d, b) == (left.has(d, b) || rest.has(d, b)));
                                assert(rest.has(d, b) <==> right.has(d, b) && !(right.has(
                                    data,
                                    aabb,
                                ) && d == data));
                            }
                            assert forall|d: usize| #[trigger]
                                out.holds(d) <==> self.holds(d) && !(self.has(data, aabb) && d
                                    == data) by {
                                assert(out.holds(d) == (left.holds(d) || rest.holds(d)));
                                assert(rest.holds(d) <==> right.holds(d) && !(right.has(
                                    data,
                                    aabb,
                                ) && d == data));
                            }
                            assert forall|d: usize| !(left.holds(d) && rest.holds(d)) by {
                                assert(rest.holds(d) <==> right.holds(d) && !(right.has(
                                    data,
                                    aabb,
                                ) && d == data));
                            }
                            assert(out.wf());
                            assert(out.unique());
                        },
                        None => {
                            let out = *left;
                            assert(self.removed(aabb, data) == Some(out));
                            assert(*right is Leaf);
                            assert forall|d: usize, b: AABB| #[trigger]
                                out.has(d, b) <==> self.has(d, b) && !(self.has(data, aabb) && d
                                    == data) by {
                                assert(self.has(d, b) == (left.has(d, b) || right.has(d, b)));
                                if right.has(d, b) {
                                    assert(d == data);
                                }
                                if left.has(d, b) {
                                    left.lemma_has_holds(d, b);
                                }
                            }
                            assert forall|d: usize| #[trigger]
                                out.holds(d) <==> self.holds(d) && !(self.has(data, aabb) && d
                                    == data) by {
                                assert(self.holds(d) == (left.holds(d) || right.holds(d)));
                                if right.holds(d) {
                                    assert(d == data);
                                }
                            }
                        },
                    }
                } else {
                    assert(self.removed(aabb, data) == Some(self));
                }
            },
        }
    }
}


/// A tree of boxes, which may be empty.
pub struct DBVT {
    pub root: Option<DBVTNode>,
}

impl DBVT {
    /// The tree, where it is not empty.
    pub open spec fn root(self) -> Option<DBVTNode> {
        self.root
    }

    /// The tree with one more leaf: see `DBVTNode::inserted`.
    pub open spec fn with(self, aabb: AABB, data: usize) -> DBVT {
        DBVT { root: self.root_with(aabb, data) }
    }

    /// The tree without a leaf: see `DBVTNode::removed`.
    pub open spec fn without(self, aabb: AABB, data: usize) -> DBVT {
        DBVT { root: self.root_without(aabb, data) }
    }

    /// The box of each branch is the smallest around those of its children,
    /// no two leaves have the same number, and the tree has no more levels
    /// than a tree may have.
    pub open spec fn wf(self) -> bool {
        match self.root() {
            Some(node) => node.wf() && node.unique() && node.height() <= MAX_DEPTH,
            None => true,
        }
    }

    /// Whether the tree has a leaf with this number and this box.
    pub open spec fn has(self, data: usize, aabb: AABB) -> bool {
        match self.root() {
            Some(node) => node.has(data, aabb),
            None => false,
        }
    }

    /// Whether the tree has a leaf with this number.
    pub open spec fn holds(self, data: usize) -> bool {
        match self.root() {
            Some(node) => node.holds(data),
            None => false,
        }
    }

    /// The numbers of the leaves whose box passes a test, from left to right.
    pub open spec fn hits<Q: BoxTest>(self, query: Q) -> Seq<usize> {
        match self.root() {
            Some(node) => node.hits(query),
            None => Seq::empty(),
        }
    }

    /// The root of the tree with one more leaf: see `DBVTNode::inserted`.
    /// Where the leaf lands below the last level that a tree may have, the
    /// tree is built anew from its leaves: see `DBVTNode::rebuilt`.
    pub open spec fn root_with(self, aabb: AABB, data: usize) -> Option<DBVTNode> {
        match self.root() {
            Some(node) => if node.landing(aabb) > MAX_DEPTH {
                Some(node.inserted(aabb, data).rebuilt())
            } else {
                Some(node.inserted(aabb, data))
            },
            None => Some(DBVTNode::Leaf { aabb, data }),
        }
    }

    /// The root of the tree without a leaf: see `DBVTNode::removed`.
    pub open spec fn root_without(self, aabb: AABB, data: usize) -> Option<DBVTNode> {
        match self.root() {
            Some(node) => node.removed(aabb, data),
            None => None,
        }
    }

    /// An empty tree.
    pub fn new() -> (tree: DBVT)
        ensures
            tree.root() is None,
            tree.wf(),
    {
        DBVT { root: None }
    }

    /// Whether the tree has no leaf.
    pub fn is_empty(&self) -> (r: bool)
        ensures
            r == (self.root() is None),
    {
        self.root.is_none()
    }

    /// Adds a leaf.
    pub fn insert(&mut self, aabb: AABB, data: usize)
        ensures
            *final(self) == old(self).with(aabb, data),
    {
        let root = self.root.take();
        self.root = Some(
            match root {
                Some(node) => {
                    let deep = node.lands_deeper(&aabb, MAX_DEPTH);
                    let grown = node.insert(aabb, data);
                    if deep {
                        grown.rebuild()
                    } else {
                        grown
                    }
                },
                None => DBVTNode::Leaf { aabb, data },
            },
        );
    }

    /// Takes out the leaf with this box and this number, and says whether
    /// there was one.
    pub fn remove(&mut self, aabb: &AABB, data: usize) -> (found: bool)
        requires
            old(self).wf(),
        ensures
            *final(self) == old(self).without(*aabb, data),
            found == old(self).has(data, *aabb),
    {
        let root = self.root.take();
        match root {
            Some(node) => {
                proof {
                    node.lemma_finds(*aabb, data);
                }
                let (rest, found) = node.remove(aabb, data);
                self.root = rest;
                found
            },
            None => false,
        }
    }

    /// Appends to `out` the numbers of the leaves whose box passes the test,
    /// from left to right.
    pub fn collect<Q: BoxTest>(&self, query: &Q, out: &mut Vec<usize>)
        requires
            self.wf(),
        ensures
            final(out)@ == old(out)@ + self.hits(*query),
    {
        match &self.root {
            Some(node) => node.collect(query, out),
            None => {
                proof {
                    assert(out@ =~= old(out)@ + self.hits(*query));
                }
            },
        }
    }

    /// What a tree with one more leaf holds: what it held, and the new leaf.
    pub proof fn lemma_with(self, aabb: AABB, data: usize)
        requires
            self.wf(),
            !self.holds(data),
        ensures
            self.with(aabb, data).wf(),
            forall|d: usize, b: AABB|
                #[trigger] self.with(aabb, data).has(d, b) <==> self.has(d, b) || (d == data && b
                    == aabb),
    {
        match self.root() {
            Some(node) => {
                node.lemma_inserted(aabb, data);
                node.lemma_inserted_height(aabb, data);
                if node.landing(aabb) > MAX_DEPTH {
                    node.inserted(aabb, data).lemma_rebuilt();
                }
            },
            None => {},
        }
    }

    /// What a tree without a leaf holds: what it held, but for that leaf.
    pub proof fn lemma_without(self, aabb: AABB, data: usize)
        requires
            self.wf(),
        ensures
            self.without(aabb, data).wf(),
            forall|d: usize, b: AABB|
                #[trigger] self.without(aabb, data).has(d, b) <==> self.has(d, b) && !(self.has(
                    data,
                    aabb,
                ) && d == data),
            forall|d: usize|
                #[trigger] self.without(aabb, data).holds(d) <==> self.holds(d) && !(self.has(
                    data,
                    aabb,
                ) && d == data),
    {
        match self.root() {
            Some(node) => {
                node.lemma_removed(aabb, data);
                node.lemma_removed_height(aabb, data);
            },
            None => {},
        }
    }

    /// Whether a leaf with this number has a box that passes the test.
    pub open spec fn passing<Q: BoxTest>(self, query: Q, data: usize) -> bool {
        exists|b: AABB| self.has(data, b) && query.passes(b)
    }

    /// The numbers that a query yields are those of the leaves whose box
    /// passes, each once.
    pub proof fn lemma_hits<Q: BoxTest>(self, query: Q)
        requires
            self.wf(),
        ensures
            forall|k: int|
                0 <= k < self.hits(query).len() ==> self.passing(query, #[trigger] self.hits(query)[k]),
            forall|d: usize| self.passing(query, d) ==> self.hits(query).contains(d),
            forall|k: int, l: int|
                0 <= k < l < self.hits(query).len() ==> self.hits(query)[k] != self.hits(query)[l],
    {
        match self.root() {
            Some(node) => {
                node.lemma_hits(query);
                assert forall|k: int| 0 <= k < self.hits(query).len() implies self.passing(
                    query,
                    #[trigger] self.hits(query)[k],
                ) by {
                    assert(node.passing(query, node.hits(query)[k]));
                    let b = choose|b: AABB| node.has(node.hits(query)[k], b) && query.passes(b);
                    assert(self.has(self.hits(query)[k], b) && query.passes(b));
                }
                assert forall|d: usize| self.passing(query, d) implies self.hits(query).contains(
                    d,
                ) by {
                    let b = choose|b: AABB| self.has(d, b) && query.passes(b);
                    assert(node.has(d, b) && query.passes(b));
                    assert(node.passing(query, d));
                }
            },
            None => {},
        }
    }

    /// A leaf with a number is a leaf, and a number that the tree holds is
    /// that of a leaf with some box.
    pub proof fn lemma_holds(self, data: usize)
        ensures
            self.holds(data) <==> exists|b: AABB| self.has(data, b),
    {
        match self.root() {
            Some(node) => {
                if self.holds(data) {
                    let b = node.lemma_holds_has(data);
                    assert(self.has(data, b));
                }
                if exists|b: AABB| self.has(data, b) {
                    let b = choose|b: AABB| self.has(data, b);
                    node.lemma_has_holds(data, b);
                }
            },
            None => {},
        }
    }
}

} // verus!
