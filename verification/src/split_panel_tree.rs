//! A tree of dockable panels stored as an implicit binary tree in a flat
//! vector: the children of node `i` sit at `2 * i + 1` and `2 * i + 2`.
use vstd::prelude::*;
use vstd::arithmetic::power2::{
    pow2, lemma_pow2_adds, lemma_pow2_pos, lemma_pow2_strictly_increases,
    lemma_pow2_unfold,
};
use vstd::bits::lemma_usize_shl_is_mul;
use vstd::std_specs::bits::u64_leading_zeros;

use crate::tab_inventory::{
    all_tabs, law_clean_keeps_tabs, law_insert_adds_tab, law_split_keeps_tabs,
    lemma_all_tabs_root_only, lemma_cleaned_all_keeps,
};
use crate::tree_shape::{
    lemma_cleaned_all_done, lemma_leaf_root, lemma_occupied_count_bound,
    is_layout, law_clean_keeps_well_formed, law_insert_keeps_well_formed,
    law_split_keeps_well_formed, may_hold, well_formed,
};

verus! {

/// Represents a reference to a node.
pub type Index = usize;

/// Number of binary digits needed to write `x` (zero for zero).
pub open spec fn bit_length(x: nat) -> nat
    decreases x,
{
    if x == 0 {
        0
    } else {
        1 + bit_length(x / 2)
    }
}

/// The level reported for node `i`: zero for the root, otherwise the
/// number of binary digits of `i + 1`.
pub open spec fn level_of(i: int) -> nat {
    if i == 0 {
        0
    } else {
        bit_length((i + 1) as nat)
    }
}

/// Position of the `k`-th node (counting from the left) that lies `d`
/// levels below node `r`.
pub open spec fn subtree_pos(r: int, d: nat, k: int) -> int {
    (r + 1) * pow2(d) - 1 + k
}

/// Index arithmetic of an implicit binary tree.
pub trait BinaryOps {
    /// The node this value designates.
    spec fn node(&self) -> int;

    /// Index of the left child.
    fn left(&self) -> (r: usize)
        requires
            2 * self.node() + 1 <= usize::MAX,
        ensures
            r == 2 * self.node() + 1,
    ;

    /// Index of the right child.
    fn right(&self) -> (r: usize)
        requires
            2 * self.node() + 2 <= usize::MAX,
        ensures
            r == 2 * self.node() + 2,
    ;

    /// Level of the node (see `level_of`).
    fn level(&self) -> (r: usize)
        requires
            self.node() < usize::MAX,
        ensures
            r == level_of(self.node()),
    ;

    /// Index of the parent node.
    fn parent(&self) -> (r: usize)
        requires
            self.node() >= 1,
        ensures
            r == (self.node() - 1) / 2,
    ;

    /// Whether the node is the left child of its parent.
    fn is_left(&self) -> (r: bool)
        ensures
            r == (self.node() % 2 != 0),
    ;

    /// Whether the node is the right child of its parent (the root counts).
    fn is_right(&self) -> (r: bool)
        ensures
            r == (self.node() % 2 == 0),
    ;

    /// The nodes lying `level` levels below this one.
    fn children_at(&self, level: usize) -> (r: core::ops::Range<usize>)
        requires
            (self.node() + 2) * pow2(level as nat) <= usize::MAX,
        ensures
            r.start == subtree_pos(self.node(), level as nat, 0),
            r.end == subtree_pos(self.node(), level as nat, pow2(level as nat) as int),
    ;

    /// The left half of the nodes lying `level` levels below this one.
    fn children_left(&self, level: usize) -> (r: core::ops::Range<usize>)
        requires
            (self.node() + 2) * pow2(level as nat) <= usize::MAX,
        ensures
            r.start == subtree_pos(self.node(), level as nat, 0),
            r.end == subtree_pos(self.node(), level as nat, (pow2(level as nat) / 2) as int),
    ;

    /// The right half of the nodes lying `level` levels below this one.
    fn children_right(&self, level: usize) -> (r: core::ops::Range<usize>)
        requires
            (self.node() + 2) * pow2(level as nat) <= usize::MAX,
        ensures
            r.start == subtree_pos(self.node(), level as nat, (pow2(level as nat) / 2) as int),
            r.end == subtree_pos(self.node(), level as nat, pow2(level as nat) as int),
    ;
}

/// `64` minus the leading zeros of a 64-bit word is its number of binary digits.
#[verifier::spinoff_prover]
proof fn lemma_leading_zeros_bit_length(x: u64)
    ensures
        64 - u64_leading_zeros(x) == bit_length(x as nat),
    decreases x,
{
    reveal(u64_leading_zeros);
    if x != 0 {
        lemma_leading_zeros_bit_length(x / 2);
    }
}

/// A power of two that fits in a `usize` has an exponent below `usize::BITS`.
#[verifier::spinoff_prover]
proof fn lemma_pow2_fits_usize(n: nat)
    requires
        pow2(n) <= usize::MAX,
    ensures
        n < usize::BITS,
{
    vstd::layout::unsigned_int_max_values();
    if n >= usize::BITS {
        if n > usize::BITS {
            lemma_pow2_strictly_increases(usize::BITS as nat, n);
        }
    }
}

/// Computes `2^level` as a machine word.
fn pow2_usize(level: usize) -> (r: usize)
    requires
        pow2(level as nat) <= usize::MAX,
    ensures
        r == pow2(level as nat),
{
    proof {
        lemma_pow2_fits_usize(level as nat);
        lemma_usize_shl_is_mul(1, level);
    }
    1 << level
}

impl BinaryOps for Index {
    open spec fn node(&self) -> int {
        *self as int
    }

    fn left(&self) -> (r: usize) {
        self * 2 + 1
    }

    fn right(&self) -> (r: usize) {
        self * 2 + 2
    }

    #[verifier::spinoff_prover]
    fn level(&self) -> (r: usize) {
        if *self == 0 {
            return 0;
        }
        let word: u64 = (*self + 1) as u64;
        let zeros = word.leading_zeros();
        proof {
            lemma_leading_zeros_bit_length(word);
        }
        (64 - zeros) as usize
    }

    fn parent(&self) -> (r: usize) {
        (self - 1) / 2
    }

    fn is_left(&self) -> (r: bool) {
        self % 2 != 0
    }

    fn is_right(&self) -> (r: bool) {
        self % 2 == 0
    }

    fn children_at(&self, level: usize) -> (r: core::ops::Range<usize>) {
        proof {
            lemma_pow2_pos(level as nat);
            lemma_range_bounds(*self as int, pow2(level as nat) as int);
        }
        let base = pow2_usize(level);
        let s = (self + 1) * base - 1;
        let e = (self + 2) * base - 1;
        s..e
    }

    fn children_left(&self, level: usize) -> (r: core::ops::Range<usize>) {
        proof {
            lemma_pow2_pos(level as nat);
            lemma_range_bounds(*self as int, pow2(level as nat) as int);
        }
        let base = pow2_usize(level);
        let s = (self + 1) * base - 1;
        let e = (self + 1) * base + base / 2 - 1;
        s..e
    }

    fn children_right(&self, level: usize) -> (r: core::ops::Range<usize>) {
        proof {
            lemma_pow2_pos(level as nat);
            lemma_range_bounds(*self as int, pow2(level as nat) as int);
        }
        let base = pow2_usize(level);
        let s = (self + 1) * base + base / 2 - 1;
        let e = (self + 2) * base - 1;
        s..e
    }
}

/// Bounds used when computing the children ranges of node `i` with `b`
/// nodes per level.
#[verifier::spinoff_prover]
proof fn lemma_range_bounds(i: int, b: int)
    requires
        i >= 0,
        b > 0,
    ensures
        (i + 1) * b >= b,
        (i + 2) * b == (i + 1) * b + b,
        (i + 2) * b >= i + 2,
{
    assert((i + 2) * b >= i + 2) by (nonlinear_arith)
        requires
            i >= 0,
            b > 0,
    ;
    assert((i + 1) * b >= b) by (nonlinear_arith)
        requires
            i >= 0,
            b > 0,
    ;
    assert((i + 2) * b == (i + 1) * b + b) by (nonlinear_arith);
}

/// Contains the index of the root node, it must be always 0.
pub const ROOT_NODE: usize = 0;

/// A tab shown inside a container panel.
#[derive(Clone)]
pub struct Tab {
    pub title: String,
    pub identification: String,
}

/// Whether `tab` carries the given title and identification.
pub open spec fn tab_is(tab: Tab, title: Seq<char>, identification: Seq<char>) -> bool {
    tab.title@ == title && tab.identification@ == identification
}

/// Horizontal split fraction, measured from the left or from the right.
#[derive(Debug)]
pub enum HFraction<F> {
    Left(F),
    Right(F),
}

/// Vertical split fraction, measured from the top or from the bottom.
#[derive(Debug)]
pub enum VFraction<F> {
    Top(F),
    Bottom(F),
}

/// Side that keeps the previous content in a horizontal split.
#[derive(Copy, Clone, Debug)]
pub enum HSplitDir {
    Left,
    Right,
}

/// Side that keeps the previous content in a vertical split.
#[derive(Copy, Clone, Debug)]
pub enum VSplitDir {
    Top,
    Bottom,
}

/// Represets the layout or item in the tree.
///
/// `R` is the rectangle the node covers on screen and `F` the fraction
/// type of the layouts; a `rect` of `None` means that the node has not
/// been laid out yet.
pub enum PanelNode<R, F> {
    Empty,
    Container { rect: Option<R>, tabs: Vec<Tab>, active_tab: Index },
    HLayout { rect: Option<R>, fraction: HFraction<F> },
    VLayout { rect: Option<R>, fraction: VFraction<F> },
}

/// Whether a node holds anything.
pub open spec fn occupied<R, F>(n: PanelNode<R, F>) -> bool {
    !(n is Empty)
}

/// Whether a node is a container.
pub open spec fn is_container_node<R, F>(n: PanelNode<R, F>) -> bool {
    n is Container
}

/// The tabs of a container (empty for other nodes).
pub open spec fn tabs_of<R, F>(n: PanelNode<R, F>) -> Seq<Tab> {
    match n {
        PanelNode::Container { tabs, .. } => tabs@,
        _ => Seq::empty(),
    }
}

/// Whether `a` and `b` are containers with the same rectangle and active tab.
pub open spec fn same_frame<R, F>(a: PanelNode<R, F>, b: PanelNode<R, F>) -> bool {
    match (a, b) {
        (
            PanelNode::Container { rect: r1, active_tab: a1, .. },
            PanelNode::Container { rect: r2, active_tab: a2, .. },
        ) => r1 == r2 && a1 == a2,
        _ => false,
    }
}

/// Whether a node is a container without tabs.
pub open spec fn empty_container<R, F>(n: PanelNode<R, F>) -> bool {
    n is Container && tabs_of(n).len() == 0
}

/// The node `n` with its rectangle replaced (an empty node stays empty).
pub open spec fn with_rect<R, F>(n: PanelNode<R, F>, r: R) -> PanelNode<R, F> {
    match n {
        PanelNode::Empty => PanelNode::Empty,
        PanelNode::Container { tabs, active_tab, .. } => PanelNode::Container {
            rect: Some(r),
            tabs,
            active_tab,
        },
        PanelNode::HLayout { fraction, .. } => PanelNode::HLayout { rect: Some(r), fraction },
        PanelNode::VLayout { fraction, .. } => PanelNode::VLayout { rect: Some(r), fraction },
    }
}

impl<R, F> PanelNode<R, F> {
    /// Sets the rectangle covered by the node; an empty node is left as is.
    pub fn update_rect(&mut self, new_rect: R)
        ensures
            *final(self) == with_rect(*old(self), new_rect),
    {
        match self {
            PanelNode::Empty => {},
            PanelNode::Container { rect, .. } => {
                *rect = Some(new_rect);
            },
            PanelNode::VLayout { rect, .. } => {
                *rect = Some(new_rect);
            },
            PanelNode::HLayout { rect, .. } => {
                *rect = Some(new_rect);
            },
        }
    }

    /// Whether the node is a container of tabs.
    pub fn is_container(&self) -> (r: bool)
        ensures
            r == is_container_node(*self),
    {
        match self {
            PanelNode::Container { .. } => true,
            _ => false,
        }
    }

    /// Appends a tab to a container; other nodes are left as they are.
    pub fn append_tab(&mut self, tab: Tab)
        ensures
            is_container_node(*old(self)) ==> {
                &&& is_container_node(*final(self))
                &&& same_frame(*old(self), *final(self))
                &&& tabs_of(*final(self)) == tabs_of(*old(self)).push(tab)
            },
            !is_container_node(*old(self)) ==> *final(self) == *old(self),
    {
        match self {
            PanelNode::Container { tabs, .. } => {
                tabs.push(tab);
            },
            _ => {},
        }
    }

    /// Removes the tab at `index` from a container and returns it.
    ///
    /// Returns `None` when the node is not a container, when it has no
    /// tabs, or when `index` lies beyond the number of tabs.
    pub fn extract_tab(&mut self, index: Index) -> (r: Option<Tab>)
        requires
            is_container_node(*old(self)) && tabs_of(*old(self)).len() > 0 ==> index
                != tabs_of(*old(self)).len(),
        ensures
            ({
                let tabs = tabs_of(*old(self));
                if is_container_node(*old(self)) && index < tabs.len() {
                    &&& r == Some(tabs[index as int])
                    &&& is_container_node(*final(self))
                    &&& same_frame(*old(self), *final(self))
                    &&& tabs_of(*final(self)) == tabs.remove(index as int)
                } else {
                    r is None && *final(self) == *old(self)
                }
            }),
    {
        match self {
            PanelNode::Container { tabs, .. } => {
                if tabs.len() < index || tabs.is_empty() {
                    None
                } else {
                    Some(tabs.remove(index))
                }
            },
            _ => None,
        }
    }
}

} // verus!

verus! {

/// This data structure represents the state of all panels within the
/// application, akin to a hierarchical tree.
///
/// Each panel is stored within a flat `Vec`, with parent-child relationships
/// tracked via indices.
pub struct SplitPanelTree<R, F> {
    /// Contains all the nodes in the tree.
    pub tree: Vec<PanelNode<R, F>>,
}

impl<R, F> Default for SplitPanelTree<R, F> {
    /// A tree made of an empty root.
    fn default() -> (r: Self)
        ensures
            r.tree@ == seq![PanelNode::<R, F>::Empty],
    {
        let mut tree = Vec::new();
        tree.push(PanelNode::Empty);
        proof {
            assert(tree@ =~= seq![PanelNode::<R, F>::Empty]);
        }
        Self { tree }
    }
}

/// Index of the last occupied node, or zero when every node is empty.
pub open spec fn last_occupied<R, F>(s: Seq<PanelNode<R, F>>) -> int
    decreases s.len(),
{
    if s.len() == 0 {
        0
    } else if occupied(s.last()) {
        s.len() - 1
    } else {
        last_occupied(s.drop_last())
    }
}

/// `s` cut or padded with empty nodes to length `n`.
pub open spec fn resized<R, F>(s: Seq<PanelNode<R, F>>, n: nat) -> Seq<PanelNode<R, F>> {
    Seq::new(n, |i: int| if i < s.len() { s[i] } else { PanelNode::Empty })
}

/// Length the tree takes when a split needs one more level below its
/// last occupied node.
pub open spec fn grown_len<R, F>(s: Seq<PanelNode<R, F>>) -> nat {
    pow2(level_of(last_occupied(s)) + 1) + 1
}

/// The nodes after node `target` is replaced by `layout` and its previous
/// content is moved to its left child (`keep_left`) or to its right child,
/// the other child being emptied.
pub open spec fn split_tree<R, F>(
    s: Seq<PanelNode<R, F>>,
    target: int,
    layout: PanelNode<R, F>,
    keep_left: bool,
) -> Seq<PanelNode<R, F>> {
    let s0 = s.update(target, layout);
    let s1 = resized(s0, grown_len(s0));
    if keep_left {
        s1.update(2 * target + 1, s[target]).update(2 * target + 2, PanelNode::Empty)
    } else {
        s1.update(2 * target + 2, s[target]).update(2 * target + 1, PanelNode::Empty)
    }
}

/// Bounds of a positive number in terms of its number of binary digits.
#[verifier::spinoff_prover]
proof fn lemma_bit_length_bounds(x: nat)
    requires
        x > 0,
    ensures
        bit_length(x) >= 1,
        pow2((bit_length(x) - 1) as nat) <= x < pow2(bit_length(x)),
    decreases x,
{
    if x == 1 {
        assert(bit_length(0) == 0);
        assert(bit_length(1) == 1);
        vstd::arithmetic::power2::lemma2_to64();
    } else {
        lemma_bit_length_bounds(x / 2);
        lemma_pow2_unfold(bit_length(x));
        lemma_pow2_unfold((bit_length(x) - 1) as nat);
        if bit_length(x / 2) == 1 {
            vstd::arithmetic::power2::lemma2_to64();
        }
    }
}

/// Facts about the last occupied node.
#[verifier::spinoff_prover]
pub(crate) proof fn lemma_last_occupied<R, F>(s: Seq<PanelNode<R, F>>)
    ensures
        s.len() > 0 ==> 0 <= last_occupied(s) < s.len(),
        s.len() == 0 ==> last_occupied(s) == 0,
        forall|j: int|
            0 <= j < s.len() && occupied(#[trigger] s[j]) ==> j <= last_occupied(s),
    decreases s.len(),
{
    if s.len() > 0 && !occupied(s.last()) {
        lemma_last_occupied(s.drop_last());
        assert forall|j: int| 0 <= j < s.len() && occupied(#[trigger] s[j]) implies j
            <= last_occupied(s) by {
            assert(j < s.len() - 1);
            assert(s.drop_last()[j] == s[j]);
        }
    }
}

/// The grown length fits in a word, stays within four times the length,
/// and leaves room for the children of every node up to the last occupied
/// one.
#[verifier::spinoff_prover]
pub proof fn lemma_grown_len<R, F>(s: Seq<PanelNode<R, F>>)
    requires
        0 < s.len() <= usize::MAX / 4,
    ensures
        pow2(level_of(last_occupied(s)) + 1) <= usize::MAX - 3,
        grown_len(s) <= 4 * s.len() + 1,
        2 * last_occupied(s) + 2 < grown_len(s),
{
    lemma_last_occupied(s);
    let lo = last_occupied(s);
    if lo == 0 {
        vstd::arithmetic::power2::lemma2_to64();
        assert(level_of(lo) == 0);
    } else {
        let b = bit_length((lo + 1) as nat);
        lemma_bit_length_bounds((lo + 1) as nat);
        lemma_pow2_adds((b - 1) as nat, 2);
        vstd::arithmetic::power2::lemma2_to64();
        assert(((b - 1) as nat + 2) as nat == b + 1);
        lemma_pow2_unfold(b + 1);
        lemma_pow2_unfold(b);
    }
}

/// Index of the last occupied node of `v`, or zero when there is none.
fn last_occupied_index<R, F>(v: &Vec<PanelNode<R, F>>) -> (r: usize)
    ensures
        r == last_occupied(v@),
{
    let mut i = v.len();
    proof {
        assert(v@.take(i as int) =~= v@);
    }
    while i > 0
        invariant
            i <= v@.len(),
            last_occupied(v@) == last_occupied(v@.take(i as int)),
        decreases i,
    {
        proof {
            let t = v@.take(i as int);
            assert(t.drop_last() =~= v@.take(i - 1));
            assert(t.last() == v@[i - 1]);
        }
        match &v[i - 1] {
            PanelNode::Empty => {},
            _ => {
                return i - 1;
            },
        }
        i = i - 1;
    }
    proof {
        assert(v@.take(0).len() == 0);
    }
    0
}

/// Cuts `v` or pads it with empty nodes to length `n`.
fn resize_with_empty<R, F>(v: &mut Vec<PanelNode<R, F>>, n: usize)
    ensures
        final(v)@ == resized(old(v)@, n as nat),
{
    if n <= v.len() {
        v.truncate(n);
        proof {
            assert(v@ =~= resized(old(v)@, n as nat));
        }
    } else {
        let ghost orig = v@;
        while v.len() < n
            invariant
                orig.len() <= v@.len() <= n,
                v@ =~= resized(orig, v@.len()),
            decreases n - v@.len(),
        {
            v.push(PanelNode::Empty);
            proof {
                assert(v@ =~= resized(orig, v@.len()));
            }
        }
    }
}

impl<R, F> SplitPanelTree<R, F> {
    /// Returns the number of nodes.
    pub fn len(&self) -> (r: usize)
        ensures
            r == self.tree@.len(),
    {
        self.tree.len()
    }

    /// Sets the rectangle of the root node; an empty tree is left as it is.
    pub fn update_root_rect(&mut self, rect: R)
        ensures
            old(self).tree@.len() > 0 ==> final(self).tree@ == old(self).tree@.update(
                0,
                with_rect(old(self).tree@[0], rect),
            ),
            old(self).tree@.len() == 0 ==> final(self).tree@ == old(self).tree@,
    {
        if self.tree.len() > 0 {
            let mut root = PanelNode::Empty;
            self.tree.set_and_swap(0, &mut root);
            root.update_rect(rect);
            self.tree.set(0, root);
        }
    }

    /// Makes room for one more level below the last occupied node.
    #[verifier::spinoff_prover]
    fn grow_one_level(&mut self)
        requires
            0 < old(self).tree@.len() <= usize::MAX / 4,
        ensures
            final(self).tree@ == resized(old(self).tree@, grown_len(old(self).tree@)),
    {
        let right_most_element = last_occupied_index(&self.tree);
        proof {
            lemma_last_occupied(self.tree@);
            lemma_grown_len(self.tree@);
            lemma_pow2_fits_usize(level_of(right_most_element as int) + 1);
        }
        let level = right_most_element.level();
        let number_of_elements_to_fill_level = pow2_usize(level + 1);
        resize_with_empty(&mut self.tree, number_of_elements_to_fill_level + 1);
    }

    /// Replaces the target node with an horizontal node and returns the left
    /// and right index of the children.
    #[verifier::spinoff_prover]
    pub fn horizontal_split(&mut self, target: Index, dir: HSplitDir, fraction: HFraction<F>) -> (r: (
        Index,
        Index,
    ))
        requires
            target < old(self).tree@.len() <= usize::MAX / 4,
        ensures
            r.0 == 2 * target + 1,
            r.1 == 2 * target + 2,
            2 * target + 2 < final(self).tree@.len() <= 4 * old(self).tree@.len() + 1,
            final(self).tree@ == split_tree(
                old(self).tree@,
                target as int,
                PanelNode::HLayout { rect: None, fraction },
                dir is Left,
            ),
            well_formed(old(self).tree@) && !is_layout(old(self).tree@[target as int]) && may_hold(
                old(self).tree@,
                target as int,
            ) ==> well_formed(final(self).tree@),
            well_formed(old(self).tree@) && !is_layout(old(self).tree@[target as int]) ==> all_tabs(
                final(self).tree@,
            ) =~= all_tabs(old(self).tree@),
    {
        let ghost s = self.tree@;
        let ghost layout = PanelNode::HLayout { rect: None, fraction };
        let mut old = PanelNode::HLayout { fraction, rect: None };
        self.tree.set_and_swap(target, &mut old);
        proof {
            let s0 = s.update(target as int, layout);
            assert(occupied(s0[target as int]));
            lemma_last_occupied(s0);
            lemma_grown_len(s0);
        }
        self.grow_one_level();
        match dir {
            HSplitDir::Left => {
                self.tree.set(target.left(), old);
                self.tree.set(target.right(), PanelNode::Empty);
            },
            HSplitDir::Right => {
                self.tree.set(target.right(), old);
                self.tree.set(target.left(), PanelNode::Empty);
            },
        }
        proof {
            if well_formed(s) && !is_layout(s[target as int]) && may_hold(s, target as int) {
                law_split_keeps_well_formed(s, target as int, layout, dir is Left);
            }
            if well_formed(s) && !is_layout(s[target as int]) {
                law_split_keeps_tabs(s, target as int, layout, dir is Left);
            }
        }
        (target.left(), target.right())
    }

    /// Replaces the target node with an vertical node and returns the top
    /// and bottom index of the children.
    #[verifier::spinoff_prover]
    pub fn vertical_split(&mut self, target: Index, dir: VSplitDir, fraction: VFraction<F>) -> (r: (
        Index,
        Index,
    ))
        requires
            target < old(self).tree@.len() <= usize::MAX / 4,
        ensures
            r.0 == 2 * target + 1,
            r.1 == 2 * target + 2,
            2 * target + 2 < final(self).tree@.len() <= 4 * old(self).tree@.len() + 1,
            final(self).tree@ == split_tree(
                old(self).tree@,
                target as int,
                PanelNode::VLayout { rect: None, fraction },
                dir is Top,
            ),
            well_formed(old(self).tree@) && !is_layout(old(self).tree@[target as int]) && may_hold(
                old(self).tree@,
                target as int,
            ) ==> well_formed(final(self).tree@),
            well_formed(old(self).tree@) && !is_layout(old(self).tree@[target as int]) ==> all_tabs(
                final(self).tree@,
            ) =~= all_tabs(old(self).tree@),
    {
        let ghost s = self.tree@;
        let ghost layout = PanelNode::VLayout { rect: None, fraction };
        let mut old = PanelNode::VLayout { fraction, rect: None };
        self.tree.set_and_swap(target, &mut old);
        proof {
            let s0 = s.update(target as int, layout);
            assert(occupied(s0[target as int]));
            lemma_last_occupied(s0);
            lemma_grown_len(s0);
        }
        self.grow_one_level();
        match dir {
            VSplitDir::Top => {
                self.tree.set(target.left(), old);
                self.tree.set(target.right(), PanelNode::Empty);
            },
            VSplitDir::Bottom => {
                self.tree.set(target.right(), old);
                self.tree.set(target.left(), PanelNode::Empty);
            },
        }
        proof {
            if well_formed(s) && !is_layout(s[target as int]) && may_hold(s, target as int) {
                law_split_keeps_well_formed(s, target as int, layout, dir is Top);
            }
            if well_formed(s) && !is_layout(s[target as int]) {
                law_split_keeps_tabs(s, target as int, layout, dir is Top);
            }
        }
        (target.left(), target.right())
    }
}

} // verus!

verus! {

/// Whether `after` is `before` once a tab with the given title and
/// identification has been inserted (see `SplitPanelTree::insert_tab`).
pub open spec fn inserted_tab<R, F>(
    before: PanelNode<R, F>,
    after: PanelNode<R, F>,
    title: Seq<char>,
    identification: Seq<char>,
) -> bool {
    match before {
        PanelNode::Empty => {
            &&& after matches PanelNode::Container { rect, active_tab, .. }
            &&& rect is None
            &&& active_tab == 0
            &&& tabs_of(after).len() == 1
            &&& tab_is(tabs_of(after)[0], title, identification)
        },
        PanelNode::Container { .. } => {
            &&& is_container_node(after)
            &&& same_frame(before, after)
            &&& tabs_of(after).len() == tabs_of(before).len() + 1
            &&& tabs_of(after).drop_last() == tabs_of(before)
            &&& tab_is(tabs_of(after).last(), title, identification)
        },
        _ => after == before,
    }
}

/// Whether `c` is the first container without tabs.
pub open spec fn is_first_empty_container<R, F>(s: Seq<PanelNode<R, F>>, c: int) -> bool {
    &&& 0 <= c < s.len()
    &&& empty_container(s[c])
    &&& forall|j: int| 0 <= j < c ==> !empty_container(#[trigger] s[j])
}

/// Whether no container is without tabs.
pub open spec fn no_empty_container<R, F>(s: Seq<PanelNode<R, F>>) -> bool {
    forall|j: int| 0 <= j < s.len() ==> !empty_container(#[trigger] s[j])
}

/// The first container without tabs (meaningful when there is one).
pub open spec fn first_empty<R, F>(s: Seq<PanelNode<R, F>>) -> int {
    choose|c: int| is_first_empty_container(s, c)
}

/// The nodes once the first container without tabs has been removed, again
/// and again, `n` times at most: it stops when no such container is left or
/// when the first one is the root.
pub open spec fn cleaned_all<R, F>(s: Seq<PanelNode<R, F>>, n: nat) -> Seq<PanelNode<R, F>>
    decreases n,
{
    if n == 0 || no_empty_container(s) || is_first_empty_container(s, 0) {
        s
    } else {
        cleaned_all(cleaned_tree(s, first_empty(s)), (n - 1) as nat)
    }
}

/// There is one first container without tabs.
pub proof fn lemma_first_empty_unique<R, F>(s: Seq<PanelNode<R, F>>, c: int)
    requires
        is_first_empty_container(s, c),
    ensures
        first_empty(s) == c,
        forall|d: int| is_first_empty_container(s, d) ==> d == c,
{
    assert forall|d: int| is_first_empty_container(s, d) implies d == c by {
        if d < c {
            assert(!empty_container(s[d]));
        } else if d > c {
            assert(!empty_container(s[c]));
        }
    }
}

/// Removing empty containers keeps the number of nodes, and does nothing
/// when there are none.
pub proof fn lemma_cleaned_all_facts<R, F>(s: Seq<PanelNode<R, F>>, n: nat)
    ensures
        cleaned_all(s, n).len() == s.len(),
        no_empty_container(s) ==> cleaned_all(s, n) == s,
    decreases n,
{
    if !(n == 0 || no_empty_container(s) || is_first_empty_container(s, 0)) {
        lemma_cleaned_all_facts(cleaned_tree(s, first_empty(s)), (n - 1) as nat);
    }
}

/// How many levels node `x` lies below node `r`, if it lies in the subtree
/// rooted at `r`.
pub open spec fn depth_below(x: int, r: int) -> Option<nat>
    decreases x,
{
    if r < 0 || x < r {
        None
    } else if x == r {
        Some(0)
    } else {
        match depth_below((x - 1) / 2, r) {
            Some(d) => Some(d + 1),
            None => None,
        }
    }
}

/// The sibling of a removed child of `p`: the right child when the removed
/// one was the left child, the left child otherwise.
pub open spec fn sibling_of(p: int, sibling_is_right: bool) -> int {
    if sibling_is_right {
        2 * p + 2
    } else {
        2 * p + 1
    }
}

/// Node `x` once the subtree of the sibling has been lifted into the place
/// of the subtree rooted at `p`: the node at the same place below the
/// sibling moves up when it exists, what was below the sibling is emptied,
/// and everything else stays.
pub open spec fn lifted_node<R, F>(
    t0: Seq<PanelNode<R, F>>,
    p: int,
    sibling_is_right: bool,
    x: int,
) -> PanelNode<R, F> {
    let sib = sibling_of(p, sibling_is_right);
    match depth_below(x, p) {
        Some(d) => {
            let y = subtree_pos(sib, d, x - subtree_pos(p, d, 0));
            if y < t0.len() {
                t0[y]
            } else if depth_below(x, sib) is Some {
                PanelNode::Empty
            } else {
                t0[x]
            }
        },
        None => t0[x],
    }
}

/// The nodes after the empty container `c` is removed: its parent goes
/// away and the sibling of `c` takes the place of the parent.
pub open spec fn cleaned_tree<R, F>(s: Seq<PanelNode<R, F>>, c: int) -> Seq<PanelNode<R, F>> {
    let p = (c - 1) / 2;
    let t0 = s.update(p, PanelNode::Empty).update(c, PanelNode::Empty);
    Seq::new(s.len(), |x: int| lifted_node(t0, p, c % 2 != 0, x))
}

/// Lexicographic order on (level, offset) pairs.
spec fn before_pair(d: nat, k: int, l: nat, kk: int) -> bool {
    d < l || (d == l && k < kk)
}

/// Node `x` when the pairs before (`l`, `kk`) have been lifted.
spec fn partly_lifted_node<R, F>(
    t0: Seq<PanelNode<R, F>>,
    p: int,
    sibling_is_right: bool,
    l: nat,
    kk: int,
    x: int,
) -> PanelNode<R, F> {
    let sib = sibling_of(p, sibling_is_right);
    match depth_below(x, p) {
        Some(d) => {
            let k = x - subtree_pos(p, d, 0);
            let y = subtree_pos(sib, d, k);
            if before_pair(d, k, l, kk) && y < t0.len() {
                t0[y]
            } else {
                match depth_below(x, sib) {
                    Some(d2) => {
                        if before_pair(d2, x - subtree_pos(sib, d2, 0), l, kk) {
                            PanelNode::Empty
                        } else {
                            t0[x]
                        }
                    },
                    None => t0[x],
                }
            }
        },
        None => t0[x],
    }
}

/// The `k`-th node `d` levels below `r` lies `d` levels below `r`.
#[verifier::spinoff_prover]
pub(crate) proof fn lemma_depth_of_pos(r: int, d: nat, k: int)
    requires
        r >= 0,
        0 <= k < pow2(d),
    ensures
        depth_below(subtree_pos(r, d, k), r) == Some(d),
    decreases d,
{
    lemma_pow2_pos(d);
    if d == 0 {
        vstd::arithmetic::power2::lemma2_to64();
    } else {
        let pd = pow2((d - 1) as nat);
        lemma_pow2_unfold(d);
        lemma_pow2_pos((d - 1) as nat);
        let x = subtree_pos(r, d, k);
        assert((r + 1) * pow2(d) == 2 * ((r + 1) * pd)) by (nonlinear_arith)
            requires
                pow2(d) == 2 * pd,
        ;
        assert((r + 1) * pd >= r + 1) by (nonlinear_arith)
            requires
                r >= 0,
                pd > 0,
        ;
        let q = subtree_pos(r, (d - 1) as nat, k / 2);
        assert((x - 1) / 2 == q);
        lemma_depth_of_pos(r, (d - 1) as nat, k / 2);
        assert(depth_below(q, r) == Some((d - 1) as nat));
        assert(x > r);
        assert(depth_below(x, r) == Some(((d - 1) as nat + 1) as nat));
    }
}

/// A node found `d` levels below `r` has an offset below `2^d` on its level.
#[verifier::spinoff_prover]
pub(crate) proof fn lemma_depth_offset(x: int, r: int)
    requires
        depth_below(x, r) is Some,
    ensures
        ({
            let d = depth_below(x, r)->0;
            0 <= x - subtree_pos(r, d, 0) < pow2(d)
        }),
    decreases x,
{
    let d = depth_below(x, r)->0;
    lemma_pow2_pos(d);
    if x == r {
        vstd::arithmetic::power2::lemma2_to64();
    } else {
        lemma_depth_offset((x - 1) / 2, r);
        let pd = pow2((d - 1) as nat);
        lemma_pow2_unfold(d);
        assert((r + 1) * pow2(d) == 2 * ((r + 1) * pd)) by (nonlinear_arith)
            requires
                pow2(d) == 2 * pd,
        ;
    }
}

/// The nodes below a child of `p` are the nodes one level deeper below `p`.
#[verifier::spinoff_prover]
pub(crate) proof fn lemma_sibling_pos(p: int, sibling_is_right: bool, d: nat, k: int)
    ensures
        subtree_pos(sibling_of(p, sibling_is_right), d, k) == subtree_pos(
            p,
            d + 1,
            if sibling_is_right {
                pow2(d) + k
            } else {
                k
            },
        ),
{
    lemma_pow2_unfold(d + 1);
    assert((p + 1) * pow2(d + 1) == (2 * p + 2) * pow2(d)) by (nonlinear_arith)
        requires
            pow2(d + 1) == 2 * pow2(d),
    ;
    assert((2 * p + 3) * pow2(d) == (2 * p + 2) * pow2(d) + pow2(d)) by (nonlinear_arith);
}

/// Positions below a node grow with the (level, offset) pair.
#[verifier::spinoff_prover]
proof fn lemma_pos_monotone(r: int, d: nat, k: int, l: nat, kk: int)
    requires
        r >= 0,
        0 <= k < pow2(d),
        0 <= kk < pow2(l),
        before_pair(d, k, l, kk),
    ensures
        subtree_pos(r, d, k) < subtree_pos(r, l, kk),
{
    if d < l {
        lemma_pow2_strictly_increases(d, l);
        lemma_pow2_adds(d, (l - d) as nat);
        let q = pow2((l - d) as nat);
        lemma_pow2_pos((l - d) as nat);
        if l - d == 1 {
            lemma_pow2_unfold(1);
            vstd::arithmetic::power2::lemma2_to64();
        } else {
            lemma_pow2_strictly_increases(1, (l - d) as nat);
            vstd::arithmetic::power2::lemma2_to64();
        }
        assert((r + 1) * pow2(l) >= (r + 1) * pow2(d) + pow2(d)) by (nonlinear_arith)
            requires
                pow2(l) == pow2(d) * q,
                q >= 2,
                r >= 0,
                pow2(d) > 0,
        ;
    }
}

impl<R, F> SplitPanelTree<R, F> {
    /// Inserts a tab in the target node: an empty node becomes a container
    /// holding just that tab, a container gets it appended, and a layout is
    /// left as it is.
    #[verifier::spinoff_prover]
    pub fn insert_tab(&mut self, target: Index, name: &str, identification: &str)
        requires
            target < old(self).tree@.len(),
        ensures
            final(self).tree@.len() == old(self).tree@.len(),
            forall|j: int|
                0 <= j < old(self).tree@.len() && j != target ==> final(self).tree@[j] == old(self).tree@[j],
            inserted_tab(
                old(self).tree@[target as int],
                final(self).tree@[target as int],
                name@,
                identification@,
            ),
            well_formed(old(self).tree@) && may_hold(old(self).tree@, target as int) ==> well_formed(
                final(self).tree@,
            ),
            !is_layout(old(self).tree@[target as int]) ==> all_tabs(final(self).tree@) =~= all_tabs(
                old(self).tree@,
            ).insert((name@, identification@)),
            is_layout(old(self).tree@[target as int]) ==> final(self).tree@ == old(self).tree@,
    {
        let ghost s0 = self.tree@;
        let mut node = PanelNode::Empty;
        self.tree.set_and_swap(target, &mut node);
        let new_node = match node {
            PanelNode::Empty => {
                let mut tabs = Vec::new();
                tabs.push(Tab { title: name.to_owned(), identification: identification.to_owned() });
                PanelNode::Container { rect: None, tabs, active_tab: 0 }
            },
            PanelNode::Container { rect, mut tabs, active_tab } => {
                let ghost before = tabs@;
                tabs.push(Tab { title: name.to_owned(), identification: identification.to_owned() });
                proof {
                    assert(tabs@.drop_last() =~= before);
                }
                PanelNode::Container { rect, tabs, active_tab }
            },
            other => other,
        };
        self.tree.set(target, new_node);
        proof {
            if well_formed(s0) && may_hold(s0, target as int) {
                law_insert_keeps_well_formed(s0, target as int, name@, identification@, self.tree@);
            }
            if !is_layout(s0[target as int]) {
                law_insert_adds_tab(s0, target as int, name@, identification@, self.tree@);
            } else {
                assert(self.tree@ =~= s0);
            }
        }
    }

    /// The first container without tabs, if any.
    fn first_empty_container(&self) -> (r: Option<Index>)
        ensures
            r is None ==> no_empty_container(self.tree@),
            r is Some ==> is_first_empty_container(self.tree@, r->0 as int),
    {
        let len = self.tree.len();
        let mut found: Option<Index> = None;
        let mut i: usize = 0;
        while i < len
            invariant
                len == self.tree@.len(),
                i <= len,
                forall|j: int| 0 <= j < i ==> !empty_container(#[trigger] self.tree@[j]),
                found is Some ==> is_first_empty_container(self.tree@, found->0 as int),
            ensures
                found is None ==> no_empty_container(self.tree@),
                found is Some ==> is_first_empty_container(self.tree@, found->0 as int),
            decreases len - i,
        {
            let is_empty = match &self.tree[i] {
                PanelNode::Container { tabs, .. } => tabs.is_empty(),
                _ => false,
            };
            if is_empty {
                found = Some(i);
                break;
            }
            i = i + 1;
        }
        found
    }

    /// Removes the container `container`, the first one without tabs, with
    /// its parent layout: the sibling subtree takes the parent's place.
    #[verifier::spinoff_prover]
    #[verifier::rlimit(30)]
    fn remove_container(&mut self, container: Index)
        requires
            old(self).tree@.len() <= usize::MAX / 4,
            is_first_empty_container(old(self).tree@, container as int),
            container != 0,
        ensures
            final(self).tree@ == cleaned_tree(old(self).tree@, container as int),
            well_formed(old(self).tree@) ==> well_formed(final(self).tree@),
            well_formed(old(self).tree@) ==> all_tabs(final(self).tree@) =~= all_tabs(
                old(self).tree@,
            ),
    {
        let len = self.tree.len();
        let ghost s = self.tree@;
        let parent = container.parent();
        self.tree.set(parent, PanelNode::Empty);
        self.tree.set(container, PanelNode::Empty);
        let ghost t0 = self.tree@;
        let sibling_is_right = container.is_left();
        let ghost sib = sibling_of(parent as int, sibling_is_right);
        let mut level: usize = 0;
        let mut done = false;
        proof {
            vstd::arithmetic::power2::lemma2_to64();
            assert forall|x: int| 0 <= x < len implies #[trigger] self.tree@[x]
                == partly_lifted_node(t0, parent as int, sibling_is_right, 0, 0, x) by {
                match depth_below(x, parent as int) {
                    Some(d) => {
                        lemma_depth_offset(x, parent as int);
                        match depth_below(x, sib) {
                            Some(d2) => {
                                lemma_depth_offset(x, sib);
                            },
                            None => {},
                        }
                    },
                    None => {},
                }
            }
        }
        while !done
            invariant
                len == self.tree@.len(),
                len <= usize::MAX / 4,
                t0.len() == len,
                0 <= parent < container < len,
                sib == sibling_of(parent as int, sibling_is_right),
                (parent + 1) * pow2(level as nat) <= len,
                forall|x: int|
                    0 <= x < len ==> #[trigger] self.tree@[x] == (if done {
                        lifted_node(t0, parent as int, sibling_is_right, x)
                    } else {
                        partly_lifted_node(t0, parent as int, sibling_is_right, level as nat, 0, x)
                    }),
            decreases 2 * (len - level) + (if done { 0int } else { 1int }),
        {
            proof {
                lemma_level_bound(parent as int, level as nat, len as int);
            }
            let dst = parent.children_at(level);
            let src = if sibling_is_right {
                parent.children_right(level + 1)
            } else {
                parent.children_left(level + 1)
            };
            let ghost base: int = pow2(level as nat) as int;
            proof {
                lemma_pow2_unfold(level as nat + 1);
                lemma_pow2_pos(level as nat);
                assert(src.start == subtree_pos(sib, level as nat, 0)) by {
                    lemma_sibling_pos(parent as int, sibling_is_right, level as nat, 0);
                }
                assert(src.end == subtree_pos(sib, level as nat, base)) by {
                    lemma_sibling_pos(parent as int, sibling_is_right, level as nat, base);
                }
            }
            let mut d = dst.start;
            let mut s = src.start;
            while d < dst.end && s < src.end
                invariant_except_break
                    !done,
                    d > dst.start ==> (parent + 1) * pow2(level as nat + 1) <= len,
                    forall|x: int|
                        0 <= x < len ==> #[trigger] self.tree@[x] == partly_lifted_node(
                            t0,
                            parent as int,
                            sibling_is_right,
                            level as nat,
                            d - dst.start,
                            x,
                        ),
                invariant
                    len == self.tree@.len(),
                    len <= usize::MAX / 4,
                    t0.len() == len,
                    0 <= parent < container < len,
                    sib == sibling_of(parent as int, sibling_is_right),
                    base == pow2(level as nat),
                    base > 0,
                    dst.start == subtree_pos(parent as int, level as nat, 0),
                    dst.end == subtree_pos(parent as int, level as nat, base),
                    src.start == subtree_pos(sib, level as nat, 0),
                    src.end == subtree_pos(sib, level as nat, base),
                    dst.start <= d <= dst.end,
                    d - dst.start == s - src.start,
                    (parent + 1) * pow2(level as nat) <= len,
                ensures
                    len == self.tree@.len(),
                    done ==> forall|x: int|
                        0 <= x < len ==> #[trigger] self.tree@[x] == lifted_node(
                            t0,
                            parent as int,
                            sibling_is_right,
                            x,
                        ),
                    !done ==> (parent + 1) * pow2(level as nat + 1) <= len,
                    !done ==> forall|x: int|
                        0 <= x < len ==> #[trigger] self.tree@[x] == partly_lifted_node(
                            t0,
                            parent as int,
                            sibling_is_right,
                            level as nat,
                            base,
                            x,
                        ),
                decreases dst.end - d,
            {
                let ghost k = d - dst.start;
                if s >= self.tree.len() {
                    proof {
                        assert forall|x: int| 0 <= x < len implies #[trigger] self.tree@[x]
                            == lifted_node(t0, parent as int, sibling_is_right, x) by {
                            lemma_partly_lifted_at_exit(
                                t0,
                                parent as int,
                                sibling_is_right,
                                level as nat,
                                k,
                                x,
                            );
                        }
                    }
                    done = true;
                    break;
                }
                proof {
                    lemma_lift_step_bounds(parent as int, sibling_is_right, level as nat, k, len as int);
                }
                let ghost before = self.tree@;
                let mut moved = PanelNode::Empty;
                self.tree.set_and_swap(s, &mut moved);
                self.tree.set(d, moved);
                proof {
                    assert(self.tree@ == before.update(s as int, PanelNode::Empty).update(
                        d as int,
                        before[s as int],
                    ));
                    lemma_lift_step(
                        t0,
                        parent as int,
                        sibling_is_right,
                        level as nat,
                        k,
                        before,
                        self.tree@,
                    );
                }
                d = d + 1;
                s = s + 1;
            }
            if !done {
                proof {
                    assert forall|x: int| 0 <= x < len implies #[trigger] self.tree@[x]
                        == partly_lifted_node(
                        t0,
                        parent as int,
                        sibling_is_right,
                        level as nat + 1,
                        0,
                        x,
                    ) by {
                        lemma_partly_lifted_next_level(
                            t0,
                            parent as int,
                            sibling_is_right,
                            level as nat,
                            x,
                        );
                    }
                }
                level = level + 1;
            }
        }
        proof {
            assert(self.tree@ =~= cleaned_tree(s, container as int));
            assert(is_first_empty_container(s, container as int));
            assert(forall|c: int| is_first_empty_container(s, c) ==> c == container);
            if well_formed(s) {
                law_clean_keeps_well_formed(s, container as int);
                law_clean_keeps_tabs(s, container as int);
            }
        }
    }

    /// Removes all the containers which do not have any tab: each one goes
    /// with its parent layout, the sibling subtree taking the parent's
    /// place, until none is left. A root container without tabs, which has
    /// no parent, stays.
    pub fn clean_containers(&mut self)
        requires
            old(self).tree@.len() <= usize::MAX / 4,
            forall|c: int| is_first_empty_container(old(self).tree@, c) ==> c != 0,
        ensures
            final(self).tree@ == cleaned_all(old(self).tree@, old(self).tree@.len()),
            no_empty_container(old(self).tree@) ==> final(self).tree@ == old(self).tree@,
            well_formed(old(self).tree@) ==> well_formed(final(self).tree@),
            well_formed(old(self).tree@) ==> all_tabs(final(self).tree@) =~= all_tabs(
                old(self).tree@,
            ),
            well_formed(old(self).tree@) ==> no_empty_container(final(self).tree@)
                || is_first_empty_container(final(self).tree@, 0),
            well_formed(old(self).tree@) && all_tabs(old(self).tree@).len() > 0 ==> no_empty_container(
                final(self).tree@,
            ),
    {
        let ghost s0 = self.tree@;
        let len = self.tree.len();
        let mut budget: usize = len;
        let mut done = false;
        while !done && budget > 0
            invariant
                self.tree@.len() == len,
                len == s0.len(),
                len <= usize::MAX / 4,
                budget <= len,
                cleaned_all(s0, len as nat) == cleaned_all(self.tree@, budget as nat),
                done ==> cleaned_all(self.tree@, budget as nat) == self.tree@,
            decreases budget + if done {
                0int
            } else {
                1int
            },
        {
            match self.first_empty_container() {
                None => {
                    done = true;
                },
                Some(c) => {
                    if c == 0 {
                        done = true;
                    } else {
                        let ghost cur = self.tree@;
                        proof {
                            lemma_first_empty_unique(cur, c as int);
                            assert(cleaned_all(cur, budget as nat) == cleaned_all(
                                cleaned_tree(cur, c as int),
                                (budget - 1) as nat,
                            ));
                        }
                        self.remove_container(c);
                        budget = budget - 1;
                    }
                },
            }
        }
        proof {
            lemma_cleaned_all_facts(s0, len as nat);
            if well_formed(s0) {
                lemma_occupied_count_bound(s0);
                lemma_cleaned_all_done(s0, len as nat);
                lemma_cleaned_all_keeps(s0, len as nat);
                let f = self.tree@;
                if all_tabs(s0).len() > 0 && is_first_empty_container(f, 0) {
                    lemma_leaf_root(f);
                    lemma_all_tabs_root_only(f);
                }
            }
        }
    }
}

} // verus!

verus! {

/// Every natural number is below its power of two.
#[verifier::spinoff_prover]
proof fn lemma_below_pow2(n: nat)
    ensures
        n < pow2(n),
    decreases n,
{
    if n == 0 {
        vstd::arithmetic::power2::lemma2_to64();
    } else {
        lemma_below_pow2((n - 1) as nat);
        lemma_pow2_unfold(n);
        lemma_pow2_pos((n - 1) as nat);
    }
}

/// Bounds that hold while lifting level `l` below node `p`.
#[verifier::spinoff_prover]
proof fn lemma_level_bound(p: int, l: nat, len: int)
    requires
        p >= 0,
        (p + 1) * pow2(l) <= len,
        len <= usize::MAX / 4,
    ensures
        l < len,
        pow2(l) <= len,
        (p + 2) * pow2(l + 1) <= usize::MAX,
        (p + 2) * pow2(l) <= usize::MAX,
{
    lemma_pow2_pos(l);
    lemma_below_pow2(l);
    lemma_pow2_unfold(l + 1);
    assert(pow2(l) <= (p + 1) * pow2(l)) by (nonlinear_arith)
        requires
            p >= 0,
            pow2(l) > 0,
    ;
    assert((p + 2) * pow2(l + 1) <= 4 * ((p + 1) * pow2(l))) by (nonlinear_arith)
        requires
            p >= 0,
            pow2(l) > 0,
            pow2(l + 1) == 2 * pow2(l),
    ;
    assert((p + 2) * pow2(l) <= (p + 2) * pow2(l + 1)) by (nonlinear_arith)
        requires
            p >= 0,
            pow2(l) > 0,
            pow2(l + 1) == 2 * pow2(l),
    ;
}

/// Bounds of one step of the lift at (level `l`, offset `k`).
#[verifier::spinoff_prover]
proof fn lemma_lift_step_bounds(p: int, sibling_is_right: bool, l: nat, k: int, len: int)
    requires
        p >= 0,
        0 <= k < pow2(l),
        subtree_pos(sibling_of(p, sibling_is_right), l, k) < len,
    ensures
        subtree_pos(p, l, k) < subtree_pos(sibling_of(p, sibling_is_right), l, k),
        (p + 1) * pow2(l + 1) <= len,
{
    let sib = sibling_of(p, sibling_is_right);
    lemma_pow2_pos(l);
    lemma_pow2_unfold(l + 1);
    assert((p + 1) * pow2(l) < (sib + 1) * pow2(l)) by (nonlinear_arith)
        requires
            p < sib,
            pow2(l) > 0,
    ;
    assert((p + 1) * pow2(l + 1) <= (sib + 1) * pow2(l)) by (nonlinear_arith)
        requires
            2 * p + 1 <= sib,
            pow2(l) > 0,
            pow2(l + 1) == 2 * pow2(l),
    ;
}

/// One step of the lift keeps the nodes in the expected shape.
#[verifier::spinoff_prover]
proof fn lemma_lift_step<R, F>(
    t0: Seq<PanelNode<R, F>>,
    p: int,
    sibling_is_right: bool,
    l: nat,
    k: int,
    before: Seq<PanelNode<R, F>>,
    after: Seq<PanelNode<R, F>>,
)
    requires
        p >= 0,
        0 <= k < pow2(l),
        before.len() == t0.len(),
        subtree_pos(sibling_of(p, sibling_is_right), l, k) < t0.len(),
        subtree_pos(p, l, k) < subtree_pos(sibling_of(p, sibling_is_right), l, k),
        forall|x: int|
            0 <= x < t0.len() ==> #[trigger] before[x] == partly_lifted_node(
                t0,
                p,
                sibling_is_right,
                l,
                k,
                x,
            ),
        after == before.update(
            subtree_pos(sibling_of(p, sibling_is_right), l, k),
            PanelNode::Empty,
        ).update(subtree_pos(p, l, k), before[subtree_pos(sibling_of(p, sibling_is_right), l, k)]),
    ensures
        forall|x: int|
            0 <= x < t0.len() ==> #[trigger] after[x] == partly_lifted_node(
                t0,
                p,
                sibling_is_right,
                l,
                k + 1,
                x,
            ),
{
    let sib = sibling_of(p, sibling_is_right);
    let dst = subtree_pos(p, l, k);
    let src = subtree_pos(sib, l, k);
    let off = if sibling_is_right {
        pow2(l) + k
    } else {
        k
    };
    lemma_pow2_unfold(l + 1);
    lemma_depth_of_pos(p, l, k);
    lemma_sibling_pos(p, sibling_is_right, l, k);
    lemma_depth_of_pos(p, l + 1, off);
    lemma_depth_of_pos(sib, l, k);
    assert(before[src] == partly_lifted_node(t0, p, sibling_is_right, l, k, src));
    assert forall|x: int| 0 <= x < t0.len() implies #[trigger] after[x] == partly_lifted_node(
        t0,
        p,
        sibling_is_right,
        l,
        k + 1,
        x,
    ) by {
        if x != dst && x != src {
            assert(before[x] == partly_lifted_node(t0, p, sibling_is_right, l, k, x));
        }
    }
}

/// Once the lift stops at (level `l`, offset `k`) because the sibling's node
/// there lies beyond the end, the nodes are the lifted ones.
#[verifier::spinoff_prover]
proof fn lemma_partly_lifted_at_exit<R, F>(
    t0: Seq<PanelNode<R, F>>,
    p: int,
    sibling_is_right: bool,
    l: nat,
    k: int,
    x: int,
)
    requires
        p >= 0,
        0 <= k < pow2(l),
        subtree_pos(sibling_of(p, sibling_is_right), l, k) >= t0.len(),
        0 <= x < t0.len(),
    ensures
        partly_lifted_node(t0, p, sibling_is_right, l, k, x) == lifted_node(
            t0,
            p,
            sibling_is_right,
            x,
        ),
{
    let sib = sibling_of(p, sibling_is_right);
    match depth_below(x, p) {
        Some(d) => {
            lemma_depth_offset(x, p);
            let kx = x - subtree_pos(p, d, 0);
            if !before_pair(d, kx, l, k) && (d != l || kx != k) {
                lemma_pos_monotone(sib, l, k, d, kx);
            }
            match depth_below(x, sib) {
                Some(d2) => {
                    lemma_depth_offset(x, sib);
                    let k2 = x - subtree_pos(sib, d2, 0);
                    if !before_pair(d2, k2, l, k) && (d2 != l || k2 != k) {
                        lemma_pos_monotone(sib, l, k, d2, k2);
                    }
                },
                None => {},
            }
        },
        None => {},
    }
}

/// Finishing a level is starting the next one.
#[verifier::spinoff_prover]
proof fn lemma_partly_lifted_next_level<R, F>(
    t0: Seq<PanelNode<R, F>>,
    p: int,
    sibling_is_right: bool,
    l: nat,
    x: int,
)
    ensures
        partly_lifted_node(t0, p, sibling_is_right, l, pow2(l) as int, x) == partly_lifted_node(
            t0,
            p,
            sibling_is_right,
            l + 1,
            0,
            x,
        ),
{
    let sib = sibling_of(p, sibling_is_right);
    match depth_below(x, p) {
        Some(d) => {
            lemma_depth_offset(x, p);
            match depth_below(x, sib) {
                Some(d2) => {
                    lemma_depth_offset(x, sib);
                },
                None => {},
            }
        },
        None => {
            match depth_below(x, sib) {
                Some(d2) => {
                    lemma_depth_offset(x, sib);
                },
                None => {},
            }
        },
    }
}

} // verus!

verus! {

/// Splitting a node loses no occupied node: the target holds the new
/// layout, its previous content moves to the kept child, the other child
/// is empty, and every other node keeps its place (occupied nodes, and
/// their children, always stay within the new length).
#[verifier::spinoff_prover]
pub proof fn lemma_split_keeps_nodes<R, F>(
    s: Seq<PanelNode<R, F>>,
    target: int,
    layout: PanelNode<R, F>,
    keep_left: bool,
)
    requires
        0 <= target < s.len() <= usize::MAX / 4,
        occupied(layout),
    ensures
        ({
            let r = split_tree(s, target, layout, keep_left);
            let kept = if keep_left {
                2 * target + 1
            } else {
                2 * target + 2
            };
            let other = if keep_left {
                2 * target + 2
            } else {
                2 * target + 1
            };
            &&& 2 * target + 2 < r.len()
            &&& r[target] == layout
            &&& r[kept] == s[target]
            &&& r[other] is Empty
            &&& forall|j: int|
                0 <= j < s.len() && occupied(#[trigger] s[j]) ==> 2 * j + 2 < r.len()
            &&& forall|j: int|
                0 <= j < s.len() && j < r.len() && j != target && j != 2 * target + 1 && j != 2
                    * target + 2 ==> #[trigger] r[j] == s[j]
            &&& forall|j: int|
                s.len() <= j < r.len() && j != 2 * target + 1 && j != 2 * target + 2
                    ==> #[trigger] r[j] is Empty
        }),
{
    let s0 = s.update(target, layout);
    lemma_last_occupied(s0);
    lemma_grown_len(s0);
    assert(occupied(s0[target]));
    assert(target <= last_occupied(s0));
    assert(split_tree(s, target, layout, keep_left).len() == grown_len(s0));
    assert forall|j: int| 0 <= j < s.len() && occupied(#[trigger] s[j]) implies 2 * j + 2 < split_tree(
        s,
        target,
        layout,
        keep_left,
    ).len() by {
        assert(occupied(s0[j]));
        assert(j <= last_occupied(s0));
    }
    let s1 = resized(s0, grown_len(s0));
    assert forall|j: int|
        s.len() <= j < split_tree(s, target, layout, keep_left).len() && j != 2 * target + 1 && j
            != 2 * target + 2 implies #[trigger] split_tree(s, target, layout, keep_left)[j] is Empty by {
        assert(split_tree(s, target, layout, keep_left)[j] == s1[j]);
    }
}

/// A tab appended to a container is the one extracted again from the last
/// position, and extracting it gives back the tabs there were before.
#[verifier::spinoff_prover]
pub proof fn law_append_then_extract(tabs: Seq<Tab>, tab: Tab)
    ensures
        tabs.push(tab)[tabs.len() as int] == tab,
        tabs.push(tab).remove(tabs.len() as int) == tabs,
{
    assert(tabs.push(tab).remove(tabs.len() as int) =~= tabs);
}

/// A child's parent is the node it was computed from, and a left child is
/// on the left while a right child is on the right.
#[verifier::spinoff_prover]
pub proof fn law_parent_of_children(i: usize)
    requires
        2 * i + 2 <= usize::MAX,
    ensures
        ((2 * i + 1) - 1) / 2 == i,
        ((2 * i + 2) - 1) / 2 == i,
        (2 * i + 1) % 2 != 0,
        (2 * i + 2) % 2 == 0,
{
}

/// Where the node at `x` goes when the empty container `c` is removed: a
/// node below the sibling of `c` takes the same place below their parent,
/// and any other node stays.
pub open spec fn cleaned_position(c: int, x: int) -> int {
    let p = (c - 1) / 2;
    let sib = sibling_of(p, c % 2 != 0);
    match depth_below(x, sib) {
        Some(d) => subtree_pos(p, d, x - subtree_pos(sib, d, 0)),
        None => x,
    }
}

/// A node below a child of `p` lies below `p`, one level deeper, and a node
/// strictly below `p` lies below one of its children.
#[verifier::spinoff_prover]
pub(crate) proof fn lemma_child_subtree(p: int, x: int)
    requires
        p >= 0,
    ensures
        forall|right: bool|
            #![trigger depth_below(x, sibling_of(p, right))]
            depth_below(x, sibling_of(p, right)) is Some ==> depth_below(x, p) == Some(
                (depth_below(x, sibling_of(p, right))->0 + 1) as nat,
            ),
        depth_below(x, p) is Some && x != p ==> depth_below(x, 2 * p + 1) is Some
            || depth_below(x, 2 * p + 2) is Some,
{
    assert forall|right: bool|
        #![trigger depth_below(x, sibling_of(p, right))]
        depth_below(x, sibling_of(p, right)) is Some implies depth_below(x, p) == Some(
            (depth_below(x, sibling_of(p, right))->0 + 1) as nat,
        ) by {
        let sib = sibling_of(p, right);
        let d = depth_below(x, sib)->0;
        lemma_depth_offset(x, sib);
        let k = x - subtree_pos(sib, d, 0);
        lemma_sibling_pos(p, right, d, k);
        lemma_pow2_unfold(d + 1);
        lemma_depth_of_pos(p, d + 1, if right { pow2(d) + k } else { k });
    }
    if depth_below(x, p) is Some && x != p {
        let d = depth_below(x, p)->0;
        lemma_depth_offset(x, p);
        let k = x - subtree_pos(p, d, 0);
        assert(d > 0) by {
            if d == 0 {
                vstd::arithmetic::power2::lemma2_to64();
            }
        }
        let e = (d - 1) as nat;
        lemma_pow2_unfold(d);
        lemma_pow2_pos(e);
        if k < pow2(e) {
            lemma_sibling_pos(p, false, e, k);
            lemma_depth_of_pos(2 * p + 1, e, k);
        } else {
            lemma_sibling_pos(p, true, e, k - pow2(e));
            lemma_depth_of_pos(2 * p + 2, e, k - pow2(e));
        }
    }
}

/// Facts about one node when the empty container `c` is removed.
#[verifier::spinoff_prover]
pub(crate) proof fn lemma_cleaned_node<R, F>(s: Seq<PanelNode<R, F>>, c: int, x: int)
    requires
        is_first_empty_container(s, c),
        c > 0,
        forall|z: int|
            0 <= z < s.len() && z != c && depth_below(z, c) is Some ==> !occupied(#[trigger] s[z]),
        0 <= x < s.len(),
    ensures
        x != c && x != (c - 1) / 2 && occupied(s[x]) ==> {
            &&& 0 <= cleaned_position(c, x) < s.len()
            &&& cleaned_tree(s, c)[cleaned_position(c, x)] == s[x]
            &&& (depth_below(x, (c - 1) / 2) is Some <==> depth_below(
                cleaned_position(c, x),
                (c - 1) / 2,
            ) is Some)
        },
        occupied(cleaned_tree(s, c)[x]) ==> exists|z: int|
            0 <= z < s.len() && z != c && z != (c - 1) / 2 && occupied(s[z]) && cleaned_position(c, z)
                == x,
{
    let p = (c - 1) / 2;
    let right = c % 2 != 0;
    let sib = sibling_of(p, right);
    let t0 = s.update(p, PanelNode::Empty).update(c, PanelNode::Empty);
    assert(c == 2 * p + 1 || c == 2 * p + 2);
    assert(c == sibling_of(p, !right));
    lemma_child_subtree(p, x);
    lemma_child_subtree(c, x);
    if x != c && x != p && occupied(s[x]) {
        match depth_below(x, sib) {
            Some(d) => {
                lemma_depth_offset(x, sib);
                let k = x - subtree_pos(sib, d, 0);
                lemma_pow2_pos(d);
                let x2 = subtree_pos(p, d, k);
                lemma_depth_of_pos(p, d, k);
                assert(x2 < x) by (nonlinear_arith)
                    requires
                        x2 == (p + 1) * pow2(d) - 1 + k,
                        x == (sib + 1) * pow2(d) - 1 + k,
                        p < sib,
                        pow2(d) > 0,
                ;
                assert(x2 >= 0) by (nonlinear_arith)
                    requires
                        x2 == (p + 1) * pow2(d) - 1 + k,
                        p >= 0,
                        k >= 0,
                        pow2(d) > 0,
                ;
                assert(x2 - subtree_pos(p, d, 0) == k);
                assert(cleaned_tree(s, c)[x2] == lifted_node(t0, p, right, x2));
                assert(t0[x] == s[x]);
            },
            None => {
                if depth_below(x, p) is Some {
                    assert(depth_below(x, c) is Some);
                    assert(false);
                }
                assert(cleaned_tree(s, c)[x] == lifted_node(t0, p, right, x));
            },
        }
    }
    if occupied(cleaned_tree(s, c)[x]) {
        assert(cleaned_tree(s, c)[x] == lifted_node(t0, p, right, x));
        match depth_below(x, p) {
            Some(d) => {
                lemma_depth_offset(x, p);
                let k = x - subtree_pos(p, d, 0);
                let y = subtree_pos(sib, d, k);
                if y < t0.len() {
                    lemma_depth_of_pos(sib, d, k);
                    lemma_pow2_pos(d);
                    assert(y >= 0) by (nonlinear_arith)
                        requires
                            y == (sib + 1) * pow2(d) - 1 + k,
                            sib >= 0,
                            k >= 0,
                            pow2(d) > 0,
                    ;
                    assert(y - subtree_pos(sib, d, 0) == k);
                    assert(cleaned_position(c, y) == x);
                    lemma_child_subtree(p, y);
                    if y == p || y == c {
                        assert(t0[y] is Empty);
                    }
                    assert(t0[y] == s[y]);
                } else if depth_below(x, sib) is Some {
                } else {
                    if x != p && x != c {
                        assert(depth_below(x, c) is Some);
                        assert(t0[x] == s[x]);
                    }
                }
            },
            None => {
                lemma_child_subtree(p, x);
                assert(depth_below(x, sib) is None);
                assert(x != p && x != c);
                assert(t0[x] == s[x]);
                assert(cleaned_position(c, x) == x);
            },
        }
    }
}

/// Removing an empty container loses no other panel: every occupied node
/// other than the container and its parent layout moves to its cleaned
/// position, no two of them to the same place, and every occupied node of
/// the cleaned tree is one of them; this holds when nothing lies below the
/// container.
#[verifier::spinoff_prover]
pub proof fn law_clean_keeps_nodes<R, F>(s: Seq<PanelNode<R, F>>, c: int)
    requires
        is_first_empty_container(s, c),
        c > 0,
        forall|z: int|
            0 <= z < s.len() && z != c && depth_below(z, c) is Some ==> !occupied(#[trigger] s[z]),
    ensures
        cleaned_tree(s, c).len() == s.len(),
        forall|x: int|
            0 <= x < s.len() && x != c && x != (c - 1) / 2 && occupied(#[trigger] s[x]) ==> {
                &&& 0 <= cleaned_position(c, x) < s.len()
                &&& cleaned_tree(s, c)[cleaned_position(c, x)] == s[x]
            },
        forall|x: int, y: int|
            0 <= x < s.len() && 0 <= y < s.len() && x != y && x != c && x != (c - 1) / 2 && y != c
                && y != (c - 1) / 2 && occupied(#[trigger] s[x]) && occupied(#[trigger] s[y])
                ==> cleaned_position(c, x) != cleaned_position(c, y),
        forall|x: int|
            0 <= x < s.len() && occupied(#[trigger] cleaned_tree(s, c)[x]) ==> exists|z: int|
                0 <= z < s.len() && z != c && z != (c - 1) / 2 && occupied(s[z]) && cleaned_position(
                    c,
                    z,
                ) == x,
{
    let p = (c - 1) / 2;
    let sib = sibling_of(p, c % 2 != 0);
    assert forall|x: int|
        0 <= x < s.len() && x != c && x != p && occupied(#[trigger] s[x]) implies {
            &&& 0 <= cleaned_position(c, x) < s.len()
            &&& cleaned_tree(s, c)[cleaned_position(c, x)] == s[x]
        } by {
        lemma_cleaned_node(s, c, x);
    }
    assert forall|x: int, y: int|
        0 <= x < s.len() && 0 <= y < s.len() && x != y && x != c && x != p && y != c && y != p
            && occupied(#[trigger] s[x]) && occupied(#[trigger] s[y]) implies cleaned_position(c, x)
        != cleaned_position(c, y) by {
        lemma_cleaned_node(s, c, x);
        lemma_cleaned_node(s, c, y);
        match (depth_below(x, sib), depth_below(y, sib)) {
            (Some(d), Some(e)) => {
                lemma_depth_offset(x, sib);
                lemma_depth_offset(y, sib);
                let k = x - subtree_pos(sib, d, 0);
                let kk = y - subtree_pos(sib, e, 0);
                lemma_depth_of_pos(p, d, k);
                lemma_depth_of_pos(p, e, kk);
                if cleaned_position(c, x) == cleaned_position(c, y) {
                    assert(d == e);
                    assert(k == kk);
                }
            },
            _ => {
                assert(c == 2 * p + 1 || c == 2 * p + 2);
                assert(sib == 2 * p + 1 || sib == 2 * p + 2);
                assert(sib != c);
                lemma_child_subtree(p, x);
                lemma_child_subtree(p, y);
                if depth_below(x, sib) is None && depth_below(x, p) is Some {
                    assert(depth_below(x, c) is Some);
                }
                if depth_below(y, sib) is None && depth_below(y, p) is Some {
                    assert(depth_below(y, c) is Some);
                }
            },
        }
    }
    assert forall|x: int|
        0 <= x < s.len() && occupied(#[trigger] cleaned_tree(s, c)[x]) implies exists|z: int|
        0 <= z < s.len() && z != c && z != p && occupied(s[z]) && cleaned_position(c, z) == x by {
        lemma_cleaned_node(s, c, x);
    }
}

} // verus!
