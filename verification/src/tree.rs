use vstd::prelude::*;
use vstd::std_specs::cmp::PartialEqSpec;

verus! {

/// A binary tree kept as one array in level order: the children of slot `k`
/// are the slots `2k + 1` and `2k + 2`. A slot that compares equal to the
/// sentinel holds no node, and nothing below such a slot belongs to the tree.
#[derive(Debug)]
pub struct BinaryTree<T> {
    mem: Vec<T>,
    empty: T,
}

impl<T> View for BinaryTree<T> {
    type V = Seq<T>;

    /// The array, slot by slot.
    closed spec fn view(&self) -> Seq<T> {
        self.mem@
    }
}

impl<T> BinaryTree<T> {
    /// The value that marks a slot as holding no node.
    pub closed spec fn sentinel(&self) -> T {
        self.empty
    }
}

impl<T: Clone> Clone for BinaryTree<T> {
    /// A tree of as many slots, each a clone of its counterpart, with a
    /// clone of the sentinel.
    fn clone(&self) -> (tree: Self)
        ensures
            tree@.len() == self@.len(),
            forall|i: int| 0 <= i < self@.len() ==> cloned(self@[i], #[trigger] tree@[i]),
            cloned(self.sentinel(), tree.sentinel()),
    {
        BinaryTree { mem: self.mem.clone(), empty: self.empty.clone() }
    }
}

/// Whether slot `k` of `slots` holds a node: it lies inside the array and does
/// not compare equal to `empty`.
pub open spec fn occupied<T: PartialEq>(slots: Seq<T>, empty: T, k: int) -> bool {
    0 <= k < slots.len() && !slots[k].eq_spec(&empty)
}

/// The slots that a postorder walk from slot `k` visits, in the order of the
/// visits: the left subtree, the right subtree, then `k` itself. A vacant slot
/// ends the walk there, whatever lies below it.
pub open spec fn postorder<T: PartialEq>(slots: Seq<T>, empty: T, k: int) -> Seq<int>
    decreases (if k < slots.len() { slots.len() - k } else { 0 }),
{
    if occupied(slots, empty, k) {
        postorder(slots, empty, 2 * k + 1) + postorder(slots, empty, 2 * k + 2) + seq![k]
    } else {
        Seq::empty()
    }
}

/// The slots that an inorder walk from slot `k` visits, in the order of the
/// visits: the left subtree, `k` itself, then the right subtree.
pub open spec fn inorder<T: PartialEq>(slots: Seq<T>, empty: T, k: int) -> Seq<int>
    decreases (if k < slots.len() { slots.len() - k } else { 0 }),
{
    if occupied(slots, empty, k) {
        inorder(slots, empty, 2 * k + 1) + seq![k] + inorder(slots, empty, 2 * k + 2)
    } else {
        Seq::empty()
    }
}

/// The largest power of two that does not exceed `p`: the first position,
/// counted from 1, of the level on which position `p` lies.
pub open spec fn level_start(p: int) -> int
    decreases p,
{
    if p <= 1 {
        1
    } else {
        2 * level_start(p / 2)
    }
}

/// Whether slot `i >= 1` hangs under the right child of the root. Slot 2 is
/// that child itself, and a lower slot goes the way of its parent.
pub open spec fn under_right(i: int) -> bool
    decreases i,
{
    if i <= 2 {
        i == 2
    } else {
        under_right((i - 1) / 2)
    }
}

/// The slot that `i >= 1` has inside the subtree it hangs under, that subtree
/// taken as an array of its own: the two children of the root are its slot 0,
/// and the children of a slot are the children of its counterpart.
pub open spec fn subtree_index(i: int) -> int
    decreases i,
{
    if i <= 2 {
        0
    } else {
        2 * subtree_index((i - 1) / 2) + 1 + (i - 1) % 2
    }
}

/// The length of the array that holds two arrays of lengths `m` and `n` under
/// a new root.
pub open spec fn merged_len(m: int, n: int) -> int {
    2 * (if m >= n { m } else { n }) + 1
}

/// What slot `i >= 1` of the merge of `left` and `right` is taken from: the
/// counterpart of `i` in the subtree it hangs under, or `empty` where that
/// array has no such slot.
pub open spec fn merged_slot<T>(left: Seq<T>, right: Seq<T>, empty: T, i: int) -> T {
    let source = if under_right(i) { right } else { left };
    let j = subtree_index(i);
    if j < source.len() {
        source[j]
    } else {
        empty
    }
}

/// The array of the tree with root `x`, left subtree `left` and right subtree
/// `right`.
pub open spec fn merged<T>(left: Seq<T>, x: T, right: Seq<T>, empty: T) -> Seq<T> {
    Seq::new(
        merged_len(left.len() as int, right.len() as int) as nat,
        |i: int| if i == 0 { x } else { merged_slot(left, right, empty, i) },
    )
}

proof fn lemma_level_start_bounds(p: int)
    requires
        p >= 1,
    ensures
        1 <= level_start(p) <= p < 2 * level_start(p),
    decreases p,
{
    if p > 1 {
        lemma_level_start_bounds(p / 2);
    }
}

proof fn lemma_level_start_next(i: int)
    requires
        i >= 1,
    ensures
        level_start(i + 1) == if i + 1 == 2 * level_start(i) { i + 1 } else { level_start(i) },
    decreases i,
{
    if i == 1 {
        assert(level_start(2) == 2 * level_start(1));
    } else if i % 2 == 1 {
        let a = i / 2;
        lemma_level_start_next(a);
        assert((i + 1) / 2 == a + 1);
    } else {
        assert((i + 1) / 2 == i / 2);
    }
}

/// Where a slot of the merge comes from, reckoned from its number alone.
/// With `mask` the first position of the level of position `i + 1`, a slot
/// in the right half of its level hangs under the right child and is taken
/// from slot `i - mask` there, and one in the left half is taken from slot
/// `i - mask / 2` of the left subtree: one level higher, at the same place
/// within its half.
pub proof fn lemma_merge_closed_form(i: int)
    requires
        i >= 1,
    ensures
        ({
            let mask = level_start(i + 1);
            &&& mask >= 2
            &&& mask % 2 == 0
            &&& mask <= i + 1 < 2 * mask
            &&& under_right(i) == (i + 1 - mask >= mask / 2)
            &&& subtree_index(i) == if under_right(i) { i - mask } else { i - mask / 2 }
        }),
    decreases i,
{
    lemma_level_start_bounds(i + 1);
    if i <= 2 {
        assert(level_start(2) == 2 * level_start(1));
        assert(level_start(3) == 2 * level_start(1));
    } else {
        let q = (i - 1) / 2;
        lemma_merge_closed_form(q);
        assert((i + 1) / 2 == q + 1);
    }
}

proof fn lemma_double_power_of_two(mask: usize, twice: usize)
    by (bit_vector)
    requires
        mask >= 1,
        mask & ((mask - 1) as usize) == 0,
        twice == 2 * mask,
    ensures
        twice & ((twice - 1) as usize) == 0,
{
}

proof fn lemma_xor_clears_top_bit(p: usize, mask: usize)
    by (bit_vector)
    requires
        mask >= 1,
        mask & ((mask - 1) as usize) == 0,
        mask <= p,
        p - mask < mask,
    ensures
        p ^ mask == p - mask,
{
}

proof fn lemma_xor_moves_up_a_level(p: usize, mask: usize)
    by (bit_vector)
    requires
        mask >= 2,
        mask & ((mask - 1) as usize) == 0,
        mask <= p,
        p - mask < mask >> 1,
    ensures
        mask >> 1 == mask / 2,
        p ^ (mask | (mask >> 1)) == p - mask + (mask >> 1),
{
}

proof fn lemma_shift_halves(mask: usize)
    by (bit_vector)
    ensures
        mask >> 1 == mask / 2,
{
}

/// Whether an array of `n` slots holds whole levels only, which is so where
/// `n + 1` is a power of two. The arrays that `new`, `new_with_root` and `bin`
/// make are of this kind.
pub open spec fn whole_levels(n: int) -> bool {
    n >= 0 && level_start(n + 1) == n + 1
}

/// The slot that slot `j >= 0` of a subtree's array takes in the merged
/// array: slot 1 or 2 for its root, and below that the children of a slot
/// are the children of its counterpart.
pub open spec fn slot_under(right: bool, j: int) -> int
    decreases j,
{
    if j <= 0 {
        if right {
            2
        } else {
            1
        }
    } else {
        2 * slot_under(right, (j - 1) / 2) + 1 + (j - 1) % 2
    }
}

/// The values that a postorder walk from slot `k` visits, in the order of the
/// visits.
pub open spec fn postorder_values<T: PartialEq>(slots: Seq<T>, empty: T, k: int) -> Seq<T> {
    postorder(slots, empty, k).map_values(|i: int| slots[i])
}

/// `slot_under` is the inverse of `under_right` and `subtree_index`.
pub proof fn lemma_slot_under_inverse(right: bool, j: int)
    requires
        j >= 0,
    ensures
        slot_under(right, j) >= 1,
        under_right(slot_under(right, j)) == right,
        subtree_index(slot_under(right, j)) == j,
    decreases j,
{
    if j > 0 {
        lemma_slot_under_inverse(right, (j - 1) / 2);
    }
}

proof fn lemma_slot_under_closed_form(right: bool, j: int)
    requires
        j >= 0,
    ensures
        slot_under(right, j) == j + (if right { 2int } else { 1int }) * level_start(j + 1),
    decreases j,
{
    if j > 0 {
        let q = (j - 1) / 2;
        lemma_slot_under_closed_form(right, q);
        assert((j + 1) / 2 == q + 1);
    }
}

proof fn lemma_level_start_below_power(p: int, q: int)
    requires
        1 <= p < q,
        level_start(q) == q,
    ensures
        2 * level_start(p) <= q,
    decreases p,
{
    if p > 1 {
        lemma_level_start_below_power(p / 2, q / 2);
    }
}

/// In an array of whole levels every slot has its place in the merged array.
proof fn lemma_slot_under_in_bounds(right: bool, j: int, n: int)
    requires
        0 <= j < n,
        whole_levels(n),
    ensures
        1 <= slot_under(right, j) < 2 * n + 1,
{
    lemma_slot_under_closed_form(right, j);
    lemma_level_start_below_power(j + 1, n + 1);
    lemma_level_start_bounds(j + 1);
}

/// Merging keeps each subtree as it was: the walk from the counterpart of
/// slot `j` visits the counterparts of what the walk from `j` visited, and
/// finds the same values there.
pub proof fn lemma_merge_keeps_subtree<T: PartialEq>(
    left: Seq<T>,
    x: T,
    right: Seq<T>,
    empty: T,
    side: bool,
    j: int,
)
    requires
        whole_levels(left.len() as int),
        whole_levels(right.len() as int),
        empty.eq_spec(&empty),
        j >= 0,
    ensures
        postorder(merged(left, x, right, empty), empty, slot_under(side, j)) == postorder(
            if side { right } else { left },
            empty,
            j,
        ).map_values(|t: int| slot_under(side, t)),
        postorder_values(merged(left, x, right, empty), empty, slot_under(side, j))
            == postorder_values(if side { right } else { left }, empty, j),
    decreases
            (if j < (if side { right } else { left }).len() {
                (if side { right } else { left }).len() - j
            } else {
                0
            }),
{
    let m = merged(left, x, right, empty);
    let source = if side { right } else { left };
    let i = slot_under(side, j);
    let place = |t: int| slot_under(side, t);
    lemma_slot_under_inverse(side, j);
    if occupied(source, empty, j) {
        lemma_slot_under_in_bounds(side, j, source.len() as int);
        assert(m[i] == source[j]);
        assert(occupied(m, empty, i));
        lemma_merge_keeps_subtree(left, x, right, empty, side, 2 * j + 1);
        lemma_merge_keeps_subtree(left, x, right, empty, side, 2 * j + 2);
        assert(slot_under(side, 2 * j + 1) == 2 * i + 1);
        assert(slot_under(side, 2 * j + 2) == 2 * i + 2);
        let l = postorder(source, empty, 2 * j + 1);
        let r = postorder(source, empty, 2 * j + 2);
        assert((l + r + seq![j]).map_values(place) == l.map_values(place) + r.map_values(place)
            + seq![i]);
        let lv = postorder_values(source, empty, 2 * j + 1);
        let rv = postorder_values(source, empty, 2 * j + 2);
        assert(postorder_values(source, empty, j) == lv + rv + seq![source[j]]);
        assert(postorder_values(m, empty, i) == postorder_values(m, empty, 2 * i + 1)
            + postorder_values(m, empty, 2 * i + 2) + seq![m[i]]);
    } else {
        if i < m.len() {
            assert(m[i] == merged_slot(left, right, empty, i));
        }
        assert(!occupied(m, empty, i));
        assert(postorder(source, empty, j).map_values(place) == Seq::<int>::empty());
        assert(postorder_values(m, empty, i) == Seq::<T>::empty());
        assert(postorder_values(source, empty, j) == Seq::<T>::empty());
    }
}

/// Merging two arrays of whole levels gives an array of whole levels whose
/// length is twice the longer one's and one more. A postorder walk of it
/// visits what a walk of the left subtree visits, then what a walk of the
/// right subtree visits, each at its place in the merged array, and then the
/// root: the walk of the tree that has the two as its children. Under a
/// vacant root it visits nothing.
pub proof fn lemma_merge_postorder<T: PartialEq>(left: Seq<T>, x: T, right: Seq<T>, empty: T)
    requires
        whole_levels(left.len() as int),
        whole_levels(right.len() as int),
        empty.eq_spec(&empty),
    ensures
        merged(left, x, right, empty).len() == merged_len(left.len() as int, right.len() as int),
        whole_levels(merged(left, x, right, empty).len() as int),
        x.eq_spec(&empty) ==> postorder(merged(left, x, right, empty), empty, 0) == Seq::<
            int,
        >::empty(),
        !x.eq_spec(&empty) ==> postorder(merged(left, x, right, empty), empty, 0) == postorder(
            left,
            empty,
            0,
        ).map_values(|t: int| slot_under(false, t)) + postorder(right, empty, 0).map_values(
            |t: int| slot_under(true, t),
        ) + seq![0int],
        !x.eq_spec(&empty) ==> postorder_values(merged(left, x, right, empty), empty, 0)
            == postorder_values(left, empty, 0) + postorder_values(right, empty, 0) + seq![x],
{
    let m = merged(left, x, right, empty);
    let longest = if left.len() >= right.len() { left.len() as int } else { right.len() as int };
    assert(level_start(2 * (longest + 1)) == 2 * level_start(longest + 1));
    lemma_merge_keeps_subtree(left, x, right, empty, false, 0);
    lemma_merge_keeps_subtree(left, x, right, empty, true, 0);
    if !x.eq_spec(&empty) {
        assert(occupied(m, empty, 0));
        assert(postorder_values(m, empty, 0) == postorder_values(m, empty, 1) + postorder_values(
            m,
            empty,
            2,
        ) + seq![m[0]]);
    }
}

impl<T> BinaryTree<T> where T: Clone + PartialEq {
    /// Whether slot `k` holds a node of this tree's array.
    pub open spec fn has_node(&self, k: int) -> bool {
        occupied(self@, self.sentinel(), k)
    }

    /// A tree without slots.
    pub fn new(empty: T) -> (tree: Self)
        ensures
            tree@ == Seq::<T>::empty(),
            tree.sentinel() == empty,
            whole_levels(tree@.len() as int),
    {
        BinaryTree::<T> { mem: Vec::new(), empty }
    }

    /// The number of slots of the array.
    pub fn len(&self) -> (n: usize)
        ensures
            n == self@.len(),
    {
        self.mem.len()
    }

    /// A tree of one slot, which holds `x`.
    pub fn new_with_root(x: T, empty: T) -> (tree: Self)
        ensures
            tree@ == seq![x],
            tree.sentinel() == empty,
            whole_levels(tree@.len() as int),
    {
        let mut mem: Vec<T> = Vec::new();
        mem.push(x);
        assert(level_start(2) == 2 * level_start(1));
        BinaryTree::<T> { mem, empty }
    }

    /// Puts `self` and `b` under the new root `x`: afterwards `self` is the
    /// tree whose left subtree is what `self` was and whose right subtree is
    /// `b`. Every slot below the root is a clone of its counterpart in the
    /// subtree it hangs under, or of the sentinel where there is none.
    pub fn bin(&mut self, x: T, b: BinaryTree<T>) -> (r: &BinaryTree<T>)
        requires
            merged_len(old(self)@.len() as int, b@.len() as int) <= usize::MAX,
        ensures
            final(self).sentinel() == old(self).sentinel(),
            final(self)@.len() == merged_len(old(self)@.len() as int, b@.len() as int),
            final(self)@[0] == x,
            forall|i: int|
                1 <= i < final(self)@.len() ==> cloned(
                    merged_slot(old(self)@, b@, old(self).sentinel(), i),
                    #[trigger] final(self)@[i],
                ),
            (forall|a: T, c: T| #[trigger] cloned(a, c) ==> a == c) ==> final(self)@ == merged(
                old(self)@,
                x,
                b@,
                old(self).sentinel(),
            ),
            whole_levels(old(self)@.len() as int) && whole_levels(b@.len() as int)
                ==> whole_levels(final(self)@.len() as int),
            *r == *final(self),
    {
        let mut mem: Vec<T> = Vec::new();
        mem.push(x);

        let longest = if self.mem.len() >= b.mem.len() {
            self.mem.len()
        } else {
            b.mem.len()
        };
        let new_len = longest * 2 + 1;
        assert(level_start(2 * (longest + 1)) == 2 * level_start(longest + 1));

        // `mask` is the first position of the level that position `i` lies on.
        let mut mask: usize = 1;
        let mut i: usize = 1;
        assert(1usize & 0usize == 0) by (bit_vector);
        while i < new_len
            invariant
                1 <= i <= new_len,
                new_len == merged_len(self.mem@.len() as int, b.mem@.len() as int),
                mem@.len() == i,
                mem@[0] == x,
                mask == level_start(i as int),
                mask >= 1,
                mask & ((mask - 1) as usize) == 0,
                forall|j: int|
                    1 <= j < i ==> cloned(
                        merged_slot(self.mem@, b.mem@, self.empty, j),
                        #[trigger] mem@[j],
                    ),
            decreases new_len - i,
        {
            proof {
                lemma_level_start_bounds(i as int);
                lemma_level_start_next(i as int);
                lemma_merge_closed_form(i as int);
            }
            if i + 1 - mask == mask {
                proof {
                    lemma_double_power_of_two(mask, (i + 1) as usize);
                }
                mask = i + 1;
            }
            proof {
                lemma_shift_halves(mask);
            }
            if (i + 1) ^ mask >= mask >> 1 {
                proof {
                    lemma_xor_clears_top_bit((i + 1) as usize, mask);
                    lemma_xor_clears_top_bit(i, mask);
                }
                let idx = i ^ mask;
                if idx < b.mem.len() {
                    mem.push(b.mem[idx].clone());
                } else {
                    mem.push(self.empty.clone());
                }
            } else {
                proof {
                    lemma_xor_clears_top_bit((i + 1) as usize, mask);
                    lemma_xor_moves_up_a_level((i + 1) as usize, mask);
                }
                let idx = ((i + 1) ^ (mask | (mask >> 1))) - 1;
                if idx < self.mem.len() {
                    mem.push(self.mem[idx].clone());
                } else {
                    mem.push(self.empty.clone());
                }
            }
            i += 1;
        }

        self.mem = mem;
        self
    }

    /// What a walk hands out at slot `k`: the slot and the value in it.
    pub open spec fn visit(&self, k: int) -> (usize, &T) {
        (k as usize, &self@[k])
    }

    /// Whether slot `k` lies inside the array and is not vacant.
    fn is_node(&self, k: usize) -> (r: bool)
        ensures
            r ==> k < self@.len(),
            T::obeys_eq_spec() ==> r == self.has_node(k as int),
    {
        k < self.mem.len() && !(self.mem[k] == self.empty)
    }

    fn postorder_into<'a>(&'a self, k: usize, out: &mut Vec<(usize, &'a T)>)
        ensures
            final(out)@.len() >= old(out)@.len(),
            final(out)@.subrange(0, old(out)@.len() as int) == old(out)@,
            forall|i: int|
                old(out)@.len() <= i < final(out)@.len() ==> (#[trigger] final(out)@[i]).0
                    < self@.len() && final(out)@[i] == self.visit(final(out)@[i].0 as int),
            T::obeys_eq_spec() ==> final(out)@ == old(out)@ + postorder(
                self@,
                self.sentinel(),
                k as int,
            ).map_values(|i: int| self.visit(i)),
        decreases (if k < self@.len() { self@.len() - k } else { 0 }),
    {
        let ghost walk = |i: int| self.visit(i);
        let ghost before = out@;
        if !self.is_node(k) {
            assert(before.subrange(0, before.len() as int) == before);
            assert(before + Seq::<int>::empty().map_values(walk) == before);
            return ;
        }
        let ghost l = postorder(self@, self.sentinel(), 2 * k + 1);
        let ghost r = postorder(self@, self.sentinel(), 2 * k + 2);
        let n = self.mem.len();
        if k <= (usize::MAX - 2) / 2 {
            self.postorder_into(2 * k + 1, out);
            let ghost middle = out@;
            self.postorder_into(2 * k + 2, out);
            proof {
                assert forall|i: int| before.len() <= i < out@.len() implies (#[trigger] out@[i]).0
                    < self@.len() && out@[i] == self.visit(out@[i].0 as int) by {
                    if i < middle.len() {
                        assert(out@.subrange(0, middle.len() as int)[i] == middle[i]);
                    }
                }
                assert(out@.subrange(0, before.len() as int) == middle.subrange(
                    0,
                    before.len() as int,
                ));
                if T::obeys_eq_spec() {
                    assert(out@ == before + l.map_values(walk) + r.map_values(walk));
                }
            }
        } else {
            proof {
                assert(l == Seq::<int>::empty());
                assert(r == Seq::<int>::empty());
                assert(before == before + l.map_values(walk) + r.map_values(walk));
            }
        }
        let ghost below = out@;
        out.push((k, &self.mem[k]));
        proof {
            assert(out@.subrange(0, before.len() as int) == before);
            assert forall|i: int| before.len() <= i < out@.len() implies (#[trigger] out@[i]).0
                < self@.len() && out@[i] == self.visit(out@[i].0 as int) by {
                if i < below.len() {
                    assert(out@[i] == below[i]);
                }
            }
            if T::obeys_eq_spec() {
                assert((l + r + seq![k as int]).map_values(walk) == l.map_values(walk)
                    + r.map_values(walk) + seq![self.visit(k as int)]);
                assert(out@ == before + postorder(self@, self.sentinel(), k as int).map_values(
                    walk,
                ));
            }
        }
    }

    /// The nodes of the subtree at slot `k` in postorder, each as its slot and
    /// its value: the left subtree, the right subtree, then `k` itself. An
    /// empty list where `k` lies outside the array or is vacant.
    pub fn traverse_postorder<'a>(&'a self, k: usize) -> (visits: Vec<(usize, &'a T)>)
        ensures
            forall|i: int|
                0 <= i < visits@.len() ==> (#[trigger] visits@[i]).0 < self@.len() && visits@[i]
                    == self.visit(visits@[i].0 as int),
            T::obeys_eq_spec() ==> visits@ == postorder(
                self@,
                self.sentinel(),
                k as int,
            ).map_values(|i: int| self.visit(i)),
    {
        let mut visits: Vec<(usize, &'a T)> = Vec::new();
        self.postorder_into(k, &mut visits);
        assert(Seq::<(usize, &T)>::empty() + visits@ == visits@);
        visits
    }

    fn inorder_into<'a>(&'a self, k: usize, out: &mut Vec<(usize, &'a T)>)
        ensures
            final(out)@.len() >= old(out)@.len(),
            final(out)@.subrange(0, old(out)@.len() as int) == old(out)@,
            forall|i: int|
                old(out)@.len() <= i < final(out)@.len() ==> (#[trigger] final(out)@[i]).0
                    < self@.len() && final(out)@[i] == self.visit(final(out)@[i].0 as int),
            T::obeys_eq_spec() ==> final(out)@ == old(out)@ + inorder(
                self@,
                self.sentinel(),
                k as int,
            ).map_values(|i: int| self.visit(i)),
        decreases (if k < self@.len() { self@.len() - k } else { 0 }),
    {
        let ghost walk = |i: int| self.visit(i);
        let ghost before = out@;
        if !self.is_node(k) {
            assert(before.subrange(0, before.len() as int) == before);
            assert(before + Seq::<int>::empty().map_values(walk) == before);
            return ;
        }
        let ghost l = inorder(self@, self.sentinel(), 2 * k + 1);
        let ghost r = inorder(self@, self.sentinel(), 2 * k + 2);
        let n = self.mem.len();
        let has_children = k <= (usize::MAX - 2) / 2;
        if has_children {
            self.inorder_into(2 * k + 1, out);
        }
        let ghost middle = out@;
        out.push((k, &self.mem[k]));
        let ghost with_node = out@;
        if has_children {
            self.inorder_into(2 * k + 2, out);
        }
        proof {
            assert forall|i: int| before.len() <= i < out@.len() implies (#[trigger] out@[i]).0
                < self@.len() && out@[i] == self.visit(out@[i].0 as int) by {
                if i < with_node.len() {
                    assert(out@.subrange(0, with_node.len() as int)[i] == with_node[i]);
                    if i < middle.len() {
                        assert(with_node[i] == middle[i]);
                    }
                }
            }
            assert(out@.subrange(0, with_node.len() as int) == with_node);
            assert(out@.subrange(0, before.len() as int) == with_node.subrange(
                0,
                before.len() as int,
            ));
            assert(with_node.subrange(0, before.len() as int) == middle.subrange(
                0,
                before.len() as int,
            ));
            if T::obeys_eq_spec() {
                if !has_children {
                    assert(l == Seq::<int>::empty());
                    assert(r == Seq::<int>::empty());
                    assert(out@ == with_node + r.map_values(walk));
                    assert(middle == before + l.map_values(walk));
                }
                assert((l + seq![k as int] + r).map_values(walk) == l.map_values(walk)
                    + seq![self.visit(k as int)] + r.map_values(walk));
                assert(out@ == before + inorder(self@, self.sentinel(), k as int).map_values(
                    walk,
                ));
            }
        }
    }

    /// The nodes of the subtree at slot `k` in inorder, each as its slot and
    /// its value: the left subtree, `k` itself, then the right subtree. An
    /// empty list where `k` lies outside the array or is vacant.
    pub fn traverse_inorder<'a>(&'a self, k: usize) -> (visits: Vec<(usize, &'a T)>)
        ensures
            forall|i: int|
                0 <= i < visits@.len() ==> (#[trigger] visits@[i]).0 < self@.len() && visits@[i]
                    == self.visit(visits@[i].0 as int),
            T::obeys_eq_spec() ==> visits@ == inorder(
                self@,
                self.sentinel(),
                k as int,
            ).map_values(|i: int| self.visit(i)),
    {
        let mut visits: Vec<(usize, &'a T)> = Vec::new();
        self.inorder_into(k, &mut visits);
        assert(Seq::<(usize, &T)>::empty() + visits@ == visits@);
        visits
    }

    /// The slot of the left child of slot `k`.
    pub fn left_idx(k: usize) -> (idx: usize)
        requires
            2 * k + 1 <= usize::MAX,
        ensures
            idx == 2 * k + 1,
    {
        2 * k + 1
    }

    /// The slot of the right child of slot `k`.
    pub fn right_idx(k: usize) -> (idx: usize)
        requires
            2 * k + 2 <= usize::MAX,
        ensures
            idx == 2 * k + 2,
    {
        2 * k + 2
    }

    /// The slot of the parent of slot `k`; the root has none.
    pub fn parent_idx(k: usize) -> (idx: Option<usize>)
        ensures
            k == 0 ==> idx is None,
            k > 0 ==> idx == Some(((k - 1) / 2) as usize),
    {
        if k == 0 {
            return None;
        }
        Some((k - 1) / 2)
    }

    /// The node at slot `idx`, if the slot lies inside the array and is not
    /// vacant.
    fn node_at(&self, idx: usize) -> (r: (Option<usize>, Option<&T>))
        ensures
            r.0 is Some <==> r.1 is Some,
            r.0 is Some ==> idx < self@.len() && r.0 == Some(idx) && r.1 == Some(
                &self@[idx as int],
            ),
            T::obeys_eq_spec() ==> (r.0 is Some <==> self.has_node(idx as int)),
    {
        if idx < self.mem.len() {
            let node = &self.mem[idx];
            if *node == self.empty {
                (None, None)
            } else {
                (Some(idx), Some(node))
            }
        } else {
            (None, None)
        }
    }

    /// The left child of slot `k`, as its slot and its value: both `None`
    /// where that slot lies outside the array or is vacant.
    pub fn left(&self, k: usize) -> (r: (Option<usize>, Option<&T>))
        ensures
            r.0 is Some <==> r.1 is Some,
            r.0 is Some ==> 2 * k + 1 < self@.len() && r.0 == Some((2 * k + 1) as usize) && r.1
                == Some(&self@[2 * k + 1]),
            T::obeys_eq_spec() ==> (r.0 is Some <==> self.has_node(2 * k + 1)),
    {
        if k >= self.mem.len() || k > (usize::MAX - 1) / 2 {
            return (None, None);
        }
        self.node_at(BinaryTree::<T>::left_idx(k))
    }

    /// The right child of slot `k`, as its slot and its value: both `None`
    /// where that slot lies outside the array or is vacant.
    pub fn right(&self, k: usize) -> (r: (Option<usize>, Option<&T>))
        ensures
            r.0 is Some <==> r.1 is Some,
            r.0 is Some ==> 2 * k + 2 < self@.len() && r.0 == Some((2 * k + 2) as usize) && r.1
                == Some(&self@[2 * k + 2]),
            T::obeys_eq_spec() ==> (r.0 is Some <==> self.has_node(2 * k + 2)),
    {
        if k >= self.mem.len() || k > (usize::MAX - 2) / 2 {
            return (None, None);
        }
        self.node_at(BinaryTree::<T>::right_idx(k))
    }

    /// The parent of slot `k`, as its slot and the value stored there. The
    /// root has no parent; a parent slot outside the array has no value.
    pub fn parent(&self, k: usize) -> (r: (Option<usize>, Option<&T>))
        ensures
            k == 0 ==> r == (None::<usize>, None::<&T>),
            k > 0 ==> r.0 == Some(((k - 1) / 2) as usize),
            k > 0 && (k - 1) / 2 < self@.len() ==> r.1 == Some(&self@[(k - 1) / 2]),
            k > 0 && (k - 1) / 2 >= self@.len() ==> r.1 is None,
    {
        match BinaryTree::<T>::parent_idx(k) {
            Some(idx) => {
                if idx < self.mem.len() {
                    (Some(idx), Some(&self.mem[idx]))
                } else {
                    (Some(idx), None)
                }
            },
            None => (None, None),
        }
    }
}

} // verus!
