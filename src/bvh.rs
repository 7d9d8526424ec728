use vstd::prelude::*;
use vstd::seq_lib::{to_multiset_contains, to_multiset_update};
use crate::random::random_axis;

verus! {

/// Sort key of each object's bounding box: for each axis, a key whose integer
/// order is the order of the box's minimum coordinate on that axis.
pub type AxisKeys = [u64; 3];

/// Key of object `o` on `axis`.
pub open spec fn key_of(keys: Seq<AxisKeys>, o: usize, axis: usize) -> u64 {
    keys[o as int]@[axis as int]
}

/// `objs` lists objects in non-decreasing order of their key on `axis`.
pub open spec fn sorted_on(keys: Seq<AxisKeys>, objs: Seq<usize>, axis: usize) -> bool {
    forall|a: int, b: int|
        0 <= a < b < objs.len() ==> key_of(keys, #[trigger] objs[a], axis) <= key_of(
            keys,
            #[trigger] objs[b],
            axis,
        )
}

/// Every object named by `objs` has a key.
pub open spec fn all_keyed(keys: Seq<AxisKeys>, objs: Seq<usize>) -> bool {
    forall|i: int| 0 <= i < objs.len() ==> (#[trigger] objs[i] as int) < keys.len()
}

/// A node of the bounding volume hierarchy over a list of objects, named by
/// their position in the list. Each split node records the axis along which
/// its objects were ordered; the bounding boxes themselves belong to whoever
/// holds the geometry.
pub enum BvhNode {
    Object(usize),
    Split { axis: usize, left: Box<BvhNode>, right: Box<BvhNode> },
}

/// Why a hierarchy could not be built.
#[derive(Debug, PartialEq, Eq, Structural)]
pub enum BvhError {
    /// The scene holds no object.
    EmptyScene,
}

impl BvhNode {
    /// The objects at the leaves, left to right.
    pub open spec fn leaves(self) -> Seq<usize>
        decreases self,
    {
        match self {
            BvhNode::Object(o) => seq![o],
            BvhNode::Split { left, right, .. } => left.leaves() + right.leaves(),
        }
    }

    /// Number of split nodes on the longest path from this node down to a leaf.
    pub open spec fn height(self) -> nat
        decreases self,
    {
        match self {
            BvhNode::Object(_) => 0,
            BvhNode::Split { left, right, .. } => 1 + vstd::math::max(
                left.height() as int,
                right.height() as int,
            ) as nat,
        }
    }

    /// At every split, no object on the left has a larger key on the split's
    /// axis than any object on the right, and every axis is one of three.
    pub open spec fn ordered_by(self, keys: Seq<AxisKeys>) -> bool
        decreases self,
    {
        match self {
            BvhNode::Object(_) => true,
            BvhNode::Split { axis, left, right } => {
                &&& axis < 3
                &&& left.ordered_by(keys)
                &&& right.ordered_by(keys)
                &&& forall|a: int, b: int|
                    0 <= a < left.leaves().len() && 0 <= b < right.leaves().len() ==> key_of(
                        keys,
                        #[trigger] left.leaves()[a],
                        axis,
                    ) <= key_of(keys, #[trigger] right.leaves()[b], axis)
            },
        }
    }
}

/// Two to the power `h`.
pub open spec fn two_to(h: nat) -> nat
    decreases h,
{
    if h == 0 {
        1
    } else {
        2 * two_to((h - 1) as nat)
    }
}

/// Hit parameter `t` lies before the query's end (`None`: no end).
pub open spec fn before_end(t: int, end: Option<int>) -> bool {
    match end {
        Some(e) => t < e,
        None => true,
    }
}

/// What object `o` reports for a query ending at `end`, where `ts[o]` is its
/// nearest hit parameter from the query's start on, if any.
pub open spec fn object_hit(ts: Seq<Option<int>>, o: usize, end: Option<int>) -> Option<int> {
    match ts[o as int] {
        Some(t) => if before_end(t, end) {
            Some(t)
        } else {
            None
        },
        None => None,
    }
}

/// Closest hit reported by a list scan: each object is asked in turn, with the
/// query's end narrowed to the closest hit found so far.
pub open spec fn list_closest(objs: Seq<usize>, ts: Seq<Option<int>>, end: Option<int>) -> Option<
    int,
>
    decreases objs.len(),
{
    if objs.len() == 0 {
        None
    } else {
        let closest = list_closest(objs.drop_last(), ts, end);
        let bound = if closest is Some {
            closest
        } else {
            end
        };
        match object_hit(ts, objs.last(), bound) {
            Some(t) => Some(t),
            None => closest,
        }
    }
}

/// Closest hit reported by a hierarchy walk: the left child first, then the
/// right child with the query's end narrowed to the left hit, preferring the
/// right hit when both exist.
pub open spec fn tree_closest(node: BvhNode, ts: Seq<Option<int>>, end: Option<int>) -> Option<int>
    decreases node,
{
    match node {
        BvhNode::Object(o) => object_hit(ts, o, end),
        BvhNode::Split { left, right, .. } => {
            let l = tree_closest(*left, ts, end);
            let r = tree_closest(*right, ts, if l is Some {
                l
            } else {
                end
            });
            if r is Some {
                r
            } else {
                l
            }
        },
    }
}

/// `found` is the least hit parameter before `end` among the objects that
/// `member` admits, or `None` when none of them has one.
pub open spec fn is_nearest(
    found: Option<int>,
    member: spec_fn(usize) -> bool,
    ts: Seq<Option<int>>,
    end: Option<int>,
) -> bool {
    match found {
        None => forall|o: usize| #[trigger] member(o) ==> object_hit(ts, o, end) is None,
        Some(m) => {
            &&& before_end(m, end)
            &&& exists|o: usize| #[trigger] member(o) && ts[o as int] == Some(m)
            &&& forall|o: usize| #[trigger] member(o) ==> (object_hit(ts, o, end) matches Some(t)
                ==> m <= t)
        },
    }
}

/// Two answers that are both the nearest over the same objects are equal.
proof fn lemma_nearest_unique(
    a: Option<int>,
    b: Option<int>,
    member: spec_fn(usize) -> bool,
    ts: Seq<Option<int>>,
    end: Option<int>,
)
    requires
        is_nearest(a, member, ts, end),
        is_nearest(b, member, ts, end),
    ensures
        a == b,
{
    if let Some(x) = a {
        let ox = choose|o: usize| #[trigger] member(o) && ts[o as int] == Some(x);
        assert(object_hit(ts, ox, end) == Some(x));
        if let Some(y) = b {
            let oy = choose|o: usize| #[trigger] member(o) && ts[o as int] == Some(y);
            assert(object_hit(ts, oy, end) == Some(y));
        }
    } else if let Some(y) = b {
        let oy = choose|o: usize| #[trigger] member(o) && ts[o as int] == Some(y);
        assert(object_hit(ts, oy, end) == Some(y));
    }
}

/// A hierarchy walk finds the nearest hit among the tree's leaves.
proof fn lemma_tree_nearest(node: BvhNode, ts: Seq<Option<int>>, end: Option<int>)
    requires
        forall|i: int| 0 <= i < node.leaves().len() ==> (#[trigger] node.leaves()[i] as int) < ts.len(),
    ensures
        is_nearest(tree_closest(node, ts, end), |o: usize| node.leaves().contains(o), ts, end),
    decreases node,
{
    let member = |o: usize| node.leaves().contains(o);
    match node {
        BvhNode::Object(o) => {
            assert(node.leaves() =~= seq![o]);
            assert forall|x: usize| #[trigger] member(x) implies x == o by {
                assert(node.leaves().contains(x));
            }
            assert(member(o)) by {
                assert(node.leaves()[0] == o);
            }
        },
        BvhNode::Split { left, right, .. } => {
            let ll = left.leaves();
            let rl = right.leaves();
            assert(node.leaves() == ll + rl);
            assert forall|i: int| 0 <= i < ll.len() implies (#[trigger] ll[i] as int) < ts.len() by {
                assert(node.leaves()[i] == ll[i]);
            }
            assert forall|i: int| 0 <= i < rl.len() implies (#[trigger] rl[i] as int) < ts.len() by {
                assert(node.leaves()[ll.len() + i] == rl[i]);
            }
            let l = tree_closest(*left, ts, end);
            let bound = if l is Some {
                l
            } else {
                end
            };
            lemma_tree_nearest(*left, ts, end);
            lemma_tree_nearest(*right, ts, bound);
            let lm = |o: usize| ll.contains(o);
            let rm = |o: usize| rl.contains(o);
            assert forall|x: usize| #[trigger] member(x) == (lm(x) || rm(x)) by {
                lemma_concat_contains(ll, rl, x);
            }
            let r = tree_closest(*right, ts, bound);
            if let Some(m) = r {
                let o = choose|o: usize| #[trigger] rm(o) && ts[o as int] == Some(m);
                assert(member(o));
                assert forall|x: usize| #[trigger] member(x) implies (object_hit(ts, x, end) matches Some(t) ==> m <= t) by {
                    if lm(x) {
                    } else {
                        assert(rm(x));
                        if let Some(t) = object_hit(ts, x, end) {
                            if let Some(b) = bound {
                                if t < b {
                                    assert(object_hit(ts, x, bound) == Some(t));
                                }
                            } else {
                                assert(object_hit(ts, x, bound) == Some(t));
                            }
                        }
                    }
                }
                if let Some(lt) = l {
                    assert(before_end(m, bound));
                }
            } else {
                if let Some(m) = l {
                    let o = choose|o: usize| #[trigger] lm(o) && ts[o as int] == Some(m);
                    assert(member(o));
                    assert forall|x: usize| #[trigger] member(x) implies (object_hit(ts, x, end) matches Some(t) ==> m <= t) by {
                        if lm(x) {
                        } else {
                            assert(rm(x));
                            if let Some(t) = object_hit(ts, x, end) {
                                if t < m {
                                    assert(object_hit(ts, x, bound) == Some(t));
                                }
                            }
                        }
                    }
                } else {
                    assert forall|x: usize| #[trigger] member(x) implies object_hit(ts, x, end) is None by {
                        if rm(x) {
                            assert(bound == end);
                        }
                    }
                }
            }
        },
    }
}

/// A list scan finds the nearest hit among the list's objects.
proof fn lemma_list_nearest(objs: Seq<usize>, ts: Seq<Option<int>>, end: Option<int>)
    requires
        forall|i: int| 0 <= i < objs.len() ==> (#[trigger] objs[i] as int) < ts.len(),
    ensures
        is_nearest(list_closest(objs, ts, end), |o: usize| objs.contains(o), ts, end),
    decreases objs.len(),
{
    let member = |o: usize| objs.contains(o);
    if objs.len() == 0 {
        assert forall|x: usize| #[trigger] member(x) implies object_hit(ts, x, end) is None by {
            assert(!objs.contains(x));
        }
    } else {
        let init = objs.drop_last();
        let last = objs.last();
        assert(objs == init.push(last));
        assert forall|i: int| 0 <= i < init.len() implies (#[trigger] init[i] as int) < ts.len() by {
            assert(init[i] == objs[i]);
        }
        lemma_list_nearest(init, ts, end);
        let im = |o: usize| init.contains(o);
        assert forall|x: usize| #[trigger] member(x) == (im(x) || x == last) by {
            lemma_concat_contains(init, seq![last], x);
            assert(objs == init + seq![last]);
            if seq![last].contains(x) {
                assert(seq![last][0] == last);
            }
            if x == last {
                assert(seq![last][0] == last);
            }
        }
        let closest = list_closest(init, ts, end);
        let bound = if closest is Some {
            closest
        } else {
            end
        };
        assert(member(last));
        match object_hit(ts, last, bound) {
            Some(t) => {
                assert forall|x: usize| #[trigger] member(x) implies (object_hit(ts, x, end) matches Some(u) ==> t <= u) by {
                    if im(x) {
                    }
                }
                if let Some(c) = closest {
                    assert(before_end(t, bound));
                }
            },
            None => {
                if let Some(m) = closest {
                    let o = choose|o: usize| #[trigger] im(o) && ts[o as int] == Some(m);
                    assert(member(o));
                } else {
                    assert(bound == end);
                }
            },
        }
    }
}

/// The hierarchy answers a closest-hit query as the list does: for every tree
/// whose leaves are exactly the objects `0..n` (as `build` returns), and every
/// assignment of nearest hit parameters `ts` to the objects, the hierarchy walk
/// and the list scan report the same hit parameter for a query ending at `end`.
pub proof fn lemma_bvh_matches_list(tree: BvhNode, n: nat, ts: Seq<Option<int>>, end: Option<int>)
    requires
        forall|o: usize| #[trigger] tree.leaves().contains(o) <==> (o as int) < n,
        ts.len() == n,
    ensures
        tree_closest(tree, ts, end) == list_closest(Seq::new(n, |i: int| i as usize), ts, end),
{
    let objs = Seq::new(n, |i: int| i as usize);
    assert forall|i: int| 0 <= i < tree.leaves().len() implies (#[trigger] tree.leaves()[i] as int)
        < ts.len() by {
        assert(tree.leaves().contains(tree.leaves()[i]));
    }
    assert forall|i: int| 0 <= i < objs.len() implies (#[trigger] objs[i] as int) < ts.len() by {}
    lemma_tree_nearest(tree, ts, end);
    lemma_list_nearest(objs, ts, end);
    let tm = |o: usize| tree.leaves().contains(o);
    let lm = |o: usize| objs.contains(o);
    assert forall|o: usize| #[trigger] lm(o) <==> (o as int) < n by {
        if (o as int) < n {
            assert(objs[o as int] == o);
        }
    }
    assert(tm == lm) by {
        assert forall|o: usize| #[trigger] tm(o) == lm(o) by {
            assert(lm(o) <==> (o as int) < n);
        }
        assert(tm =~= lm);
    }
    lemma_nearest_unique(tree_closest(tree, ts, end), list_closest(objs, ts, end), lm, ts, end);
}

/// Sorts `objs` by their key on `axis`, moving only by swaps of neighbours.
fn sort_on_axis(keys: &Vec<AxisKeys>, objs: &mut Vec<usize>, axis: usize)
    requires
        axis < 3,
        all_keyed(keys@, old(objs)@),
    ensures
        final(objs)@.len() == old(objs)@.len(),
        final(objs)@.to_multiset() == old(objs)@.to_multiset(),
        all_keyed(keys@, final(objs)@),
        sorted_on(keys@, final(objs)@, axis),
{
    let n = objs.len();
    let mut i: usize = 1;
    while i < n
        invariant
            axis < 3,
            n == objs@.len(),
            n == 0 || 1 <= i <= n,
            objs@.to_multiset() == old(objs)@.to_multiset(),
            all_keyed(keys@, objs@),
            n == 0 || sorted_on(keys@, objs@.subrange(0, i as int), axis),
        decreases n - i,
    {
        proof {
            assert forall|a: int, b: int| 0 <= a < b < i implies key_of(
                keys@,
                #[trigger] objs@[a],
                axis,
            ) <= key_of(keys@, #[trigger] objs@[b], axis) by {
                assert(objs@.subrange(0, i as int)[a] == objs@[a]);
                assert(objs@.subrange(0, i as int)[b] == objs@[b]);
            }
        }
        let mut j: usize = i;
        while j > 0 && keys[objs[j - 1]][axis] > keys[objs[j]][axis]
            invariant
                axis < 3,
                n == objs@.len(),
                1 <= i < n,
                j <= i,
                objs@.to_multiset() == old(objs)@.to_multiset(),
                all_keyed(keys@, objs@),
                forall|a: int, b: int|
                    0 <= a < b < j ==> key_of(keys@, #[trigger] objs@[a], axis) <= key_of(
                        keys@,
                        #[trigger] objs@[b],
                        axis,
                    ),
                forall|a: int, b: int|
                    j <= a < b <= i ==> key_of(keys@, #[trigger] objs@[a], axis) <= key_of(
                        keys@,
                        #[trigger] objs@[b],
                        axis,
                    ),
                forall|a: int, b: int|
                    0 <= a < j && j < b <= i ==> key_of(keys@, #[trigger] objs@[a], axis)
                        <= key_of(keys@, #[trigger] objs@[b], axis),
            decreases j,
        {
            let lower = objs[j - 1];
            let upper = objs[j];
            proof {
                broadcast use vstd::multiset::group_multiset_axioms;

                let s0 = objs@;
                to_multiset_update(s0, j - 1, upper);
                to_multiset_update(s0.update(j - 1, upper), j as int, lower);
                assert(s0.update(j - 1, upper)[j as int] == upper);
                to_multiset_contains(s0, lower);
                assert(s0.to_multiset().insert(upper).remove(lower).insert(lower).remove(upper)
                    =~= s0.to_multiset());
            }
            objs.set(j - 1, upper);
            objs.set(j, lower);
            j = j - 1;
        }
        proof {
            assert forall|a: int, b: int| 0 <= a < b < i + 1 implies key_of(
                keys@,
                #[trigger] objs@.subrange(0, i + 1)[a],
                axis,
            ) <= key_of(keys@, #[trigger] objs@.subrange(0, i + 1)[b], axis) by {
                if b < j {
                } else if a >= j {
                } else if b > j {
                } else {
                    assert(j > 0);
                    if a < j - 1 {
                        assert(key_of(keys@, objs@[a], axis) <= key_of(keys@, objs@[j - 1], axis));
                    }
                }
            }
        }
        i = i + 1;
    }
    proof {
        if n > 0 {
            assert(objs@.subrange(0, n as int) =~= objs@);
        } else {
            assert(objs@.len() == 0);
        }
    }
}

impl BvhNode {
    /// Builds the hierarchy over objects `0..keys.len()`, where `keys[o]` holds
    /// the sort keys of object `o`'s bounding box. Each split draws its axis from
    /// `rng`. The tree names every object and no other, orders each split on its
    /// axis, and is no deeper than a balanced binary tree over as many objects.
    pub fn build(keys: &Vec<AxisKeys>, rng: &mut rand::rngs::StdRng) -> (r: Result<
        BvhNode,
        BvhError,
    >)
        ensures
            keys@.len() == 0 <==> r == Err::<BvhNode, BvhError>(BvhError::EmptyScene),
            r matches Ok(t) ==> {
                &&& t is Split
                &&& forall|o: usize| #[trigger] t.leaves().contains(o) <==> (o as int) < keys@.len()
                &&& t.ordered_by(keys@)
                &&& forall|h: nat| h >= 1 && keys@.len() <= #[trigger] two_to(h) ==> t.height() <= h
            },
    {
        let n = keys.len();
        if n == 0 {
            return Err(BvhError::EmptyScene);
        }
        let mut objs: Vec<usize> = Vec::new();
        let mut o: usize = 0;
        while o < n
            invariant
                o <= n,
                n == keys@.len(),
                objs@ =~= Seq::new(o as nat, |i: int| i as usize),
            decreases n - o,
        {
            objs.push(o);
            o = o + 1;
        }
        let ghost all = objs@;
        proof {
            assert forall|x: usize| all.contains(x) <==> (x as int) < n by {
                if (x as int) < n {
                    assert(all[x as int] == x);
                }
            }
        }
        Ok(build_node(keys, objs, rng))
    }
}

/// Builds the subtree over `objs`: one object is paired with itself, two are
/// put in key order, more are sorted on a random axis and halved.
fn build_node(keys: &Vec<AxisKeys>, objs: Vec<usize>, rng: &mut rand::rngs::StdRng) -> (r: BvhNode)
    requires
        objs@.len() >= 1,
        all_keyed(keys@, objs@),
    ensures
        r is Split,
        forall|o: usize| #[trigger] r.leaves().contains(o) <==> objs@.contains(o),
        r.ordered_by(keys@),
        forall|h: nat| h >= 1 && objs@.len() <= #[trigger] two_to(h) ==> r.height() <= h,
    decreases objs@.len(),
{
    let axis = random_axis(rng);
    let n = objs.len();
    if n == 1 {
        let o = objs[0];
        let r = BvhNode::Split {
            axis,
            left: Box::new(BvhNode::Object(o)),
            right: Box::new(BvhNode::Object(o)),
        };
        proof {
            assert(BvhNode::Object(o).leaves() == seq![o]);
            assert(r.leaves() =~= seq![o, o]);
            assert(objs@ =~= seq![o]);
            assert(BvhNode::Object(o).ordered_by(keys@));
            assert(BvhNode::Object(o).height() == 0);
            assert(r.height() == 1);
        }
        r
    } else if n == 2 {
        let a = objs[0];
        let b = objs[1];
        let (first, second) = if keys[a][axis] <= keys[b][axis] {
            (a, b)
        } else {
            (b, a)
        };
        let r = BvhNode::Split {
            axis,
            left: Box::new(BvhNode::Object(first)),
            right: Box::new(BvhNode::Object(second)),
        };
        proof {
            assert(BvhNode::Object(first).leaves() == seq![first]);
            assert(BvhNode::Object(second).leaves() == seq![second]);
            assert(r.leaves() =~= seq![first, second]);
            assert(objs@ =~= seq![a, b]);
            assert(BvhNode::Object(first).ordered_by(keys@));
            assert(BvhNode::Object(second).ordered_by(keys@));
            assert(BvhNode::Object(first).height() == 0);
            assert(BvhNode::Object(second).height() == 0);
            assert(r.height() == 1);
            assert(key_of(keys@, first, axis) <= key_of(keys@, second, axis));
        }
        r
    } else {
        let mut lower = objs;
        sort_on_axis(keys, &mut lower, axis);
        let ghost sorted = lower@;
        proof {
            assert forall|o: usize| sorted.contains(o) <==> objs@.contains(o) by {
                to_multiset_contains(sorted, o);
                to_multiset_contains(objs@, o);
            }
        }
        let mid = n / 2;
        let upper = lower.split_off(mid);
        proof {
            assert(sorted =~= lower@ + upper@);
            assert(all_keyed(keys@, lower@)) by {
                assert forall|i: int| 0 <= i < lower@.len() implies (#[trigger] lower@[i] as int)
                    < keys@.len() by {
                    assert(lower@[i] == sorted[i]);
                }
            }
            assert(all_keyed(keys@, upper@)) by {
                assert forall|i: int| 0 <= i < upper@.len() implies (#[trigger] upper@[i] as int)
                    < keys@.len() by {
                    assert(upper@[i] == sorted[mid + i]);
                }
            }
        }
        let ghost lower_seq = lower@;
        let ghost upper_seq = upper@;
        let left = build_node(keys, lower, rng);
        let right = build_node(keys, upper, rng);
        let r = BvhNode::Split { axis, left: Box::new(left), right: Box::new(right) };
        proof {
            assert forall|o: usize| #[trigger] r.leaves().contains(o) <==> objs@.contains(o) by {
                lemma_concat_contains(left.leaves(), right.leaves(), o);
                lemma_concat_contains(lower_seq, upper_seq, o);
            }
            assert forall|a: int, b: int|
                0 <= a < left.leaves().len() && 0 <= b < right.leaves().len() implies key_of(
                keys@,
                #[trigger] left.leaves()[a],
                axis,
            ) <= key_of(keys@, #[trigger] right.leaves()[b], axis) by {
                let x = left.leaves()[a];
                let y = right.leaves()[b];
                assert(left.leaves().contains(x));
                assert(right.leaves().contains(y));
                let ia = choose|ia: int| 0 <= ia < lower_seq.len() && lower_seq[ia] == x;
                let ib = choose|ib: int| 0 <= ib < upper_seq.len() && upper_seq[ib] == y;
                assert(sorted[ia] == x);
                assert(sorted[mid + ib] == y);
            }
            assert(r.ordered_by(keys@));
            assert forall|h: nat| h >= 1 && n <= #[trigger] two_to(h) implies r.height() <= h by {
                if h == 1 {
                    assert(two_to(1) == 2 * two_to(0));
                } else {
                    assert(two_to(h) == 2 * two_to((h - 1) as nat));
                    assert(lower_seq.len() <= two_to((h - 1) as nat));
                    assert(upper_seq.len() <= two_to((h - 1) as nat));
                }
            }
        }
        r
    }
}

/// A value lies in the concatenation of two sequences exactly when it lies in one of them.
proof fn lemma_concat_contains(s: Seq<usize>, t: Seq<usize>, o: usize)
    ensures
        (s + t).contains(o) <==> (s.contains(o) || t.contains(o)),
{
    if (s + t).contains(o) {
        let i = choose|i: int| 0 <= i < (s + t).len() && (s + t)[i] == o;
        if i >= s.len() {
            assert(t[i - s.len()] == o);
        }
    }
    if s.contains(o) {
        let i = choose|i: int| 0 <= i < s.len() && s[i] == o;
        assert((s + t)[i] == o);
    }
    if t.contains(o) {
        let i = choose|i: int| 0 <= i < t.len() && t[i] == o;
        assert((s + t)[s.len() + i] == o);
    }
}

} // verus!
