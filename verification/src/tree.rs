//! A generic self-balancing (AVL) ordered map, keyed by any type with a
//! verified total order on its views. It is a standalone utility: nothing
//! in the request pipeline depends on it.

use vstd::prelude::*;

verus! {

/// The outcome of a three-way comparison.
pub enum Cmp {
    Less,
    Equal,
    Greater,
}

/// A key type whose views carry a total order, with an executable
/// three-way comparison agreeing with it.
pub trait OrderedKey: View + Sized {
    /// The order on key views.
    spec fn key_le(a: Self::V, b: Self::V) -> bool;

    proof fn lemma_reflexive(x: Self::V)
        ensures
            Self::key_le(x, x),
    ;

    proof fn lemma_transitive(x: Self::V, y: Self::V, z: Self::V)
        requires
            Self::key_le(x, y),
            Self::key_le(y, z),
        ensures
            Self::key_le(x, z),
    ;

    proof fn lemma_antisymmetric(x: Self::V, y: Self::V)
        requires
            Self::key_le(x, y),
            Self::key_le(y, x),
        ensures
            x == y,
    ;

    proof fn lemma_total(x: Self::V, y: Self::V)
        ensures
            Self::key_le(x, y) || Self::key_le(y, x),
    ;

    fn compare(&self, other: &Self) -> (c: Cmp)
        ensures
            (match c {
                Cmp::Less => Self::key_le(self@, other@) && self@ != other@,
                Cmp::Equal => self@ == other@,
                Cmp::Greater => Self::key_le(other@, self@) && self@ != other@,
            }),
    ;
}

/// The larger of two heights.
pub open spec fn hmax(a: nat, b: nat) -> nat {
    if a >= b {
        a
    } else {
        b
    }
}

/// One node of the tree.
pub struct Node<K: OrderedKey, D> {
    pub left: Option<Box<Node<K, D>>>,
    pub right: Option<Box<Node<K, D>>>,
    pub key: K,
    pub data: D,
    pub height: usize,
}

impl<K: OrderedKey, D> Node<K, D> {
    /// The map held under an optional subtree.
    pub open spec fn optional_as_map(node: Option<Box<Node<K, D>>>) -> Map<K::V, D>
        decreases node,
    {
        match node {
            None => Map::empty(),
            Some(n) => n.as_map(),
        }
    }

    /// The map this subtree holds.
    pub open spec fn as_map(self) -> Map<K::V, D>
        decreases self,
    {
        Self::optional_as_map(self.left).union_prefer_right(
            Self::optional_as_map(self.right),
        ).insert(self.key@, self.data)
    }

    /// The structural height of an optional subtree.
    pub open spec fn spec_height(node: Option<Box<Node<K, D>>>) -> nat
        decreases node,
    {
        match node {
            None => 0,
            Some(n) => 1 + if Self::spec_height(n.left) >= Self::spec_height(n.right) {
                Self::spec_height(n.left)
            } else {
                Self::spec_height(n.right)
            },
        }
    }

    /// The structural height of the tree rooted at this node.
    pub open spec fn spec_height_node(self) -> nat {
        1 + if Self::spec_height(self.left) >= Self::spec_height(self.right) {
            Self::spec_height(self.left)
        } else {
            Self::spec_height(self.right)
        }
    }

    /// Well-formed: the keys under the left child come strictly before this
    /// node's key, those under the right child strictly after, both children
    /// are well-formed, and the stored height is the structural height.
    pub open spec fn wf(self) -> bool
        decreases self,
    {
        &&& (forall|k: K::V| #[trigger] Self::optional_as_map(self.left).dom().contains(k)
            ==> K::key_le(k, self.key@) && k != self.key@)
        &&& (forall|k: K::V| #[trigger] Self::optional_as_map(self.right).dom().contains(k)
            ==> K::key_le(self.key@, k) && k != self.key@)
        &&& (match self.left {
            Some(l) => l.wf(),
            None => true,
        })
        &&& (match self.right {
            Some(r) => r.wf(),
            None => true,
        })
        &&& self.height == self.spec_height_node()
    }

    /// Well-formedness of an optional subtree.
    pub open spec fn wf_opt(node: Option<Box<Node<K, D>>>) -> bool {
        match node {
            None => true,
            Some(n) => n.wf(),
        }
    }

    pub fn new(key: K, data: D) -> (r: Self)
        ensures
            r.wf(),
            r.as_map() == Map::<K::V, D>::empty().insert(key@, data),
            r.height == 1,
            r.left is None,
            r.right is None,
    {
        let r = Self { left: None, right: None, key, data, height: 1 };
        proof {
            assert(Self::optional_as_map(r.left) =~= Map::<K::V, D>::empty());
            assert(Self::optional_as_map(r.right) =~= Map::<K::V, D>::empty());
            assert(r.as_map() =~= Map::<K::V, D>::empty().insert(r.key@, r.data));
        }
        r
    }

    /// The stored height of an optional subtree.
    pub fn height(node: &Option<Box<Self>>) -> (r: usize)
        requires
            Self::wf_opt(*node),
        ensures
            r == Self::spec_height(*node),
    {
        match node {
            Some(n) => n.height,
            None => 0,
        }
    }

    /// Rotates the tree left: the right child becomes the root. The held
    /// map and well-formedness are preserved; the new structural height is
    /// determined by the heights of the three reattached subtrees.
    pub fn rotate_left(n: Box<Node<K, D>>) -> (r: Box<Node<K, D>>)
        requires
            n.wf(),
            n.right is Some,
            n.height < usize::MAX,
        ensures
            r.wf(),
            r.as_map() == n.as_map(),
            Self::spec_height(Some(r)) == 1 + hmax(
                1 + hmax(Self::spec_height(n.left), Self::spec_height(n.right.unwrap().left)),
                Self::spec_height(n.right.unwrap().right),
            ),
            Self::spec_height(r.left) == 1 + hmax(
                Self::spec_height(n.left),
                Self::spec_height(n.right.unwrap().left),
            ),
            Self::spec_height(r.right) == Self::spec_height(n.right.unwrap().right),
    {
        let ghost n0 = *n;
        let ghost r0 = *n0.right.unwrap();
        let inner = *n;
        let Node { left: nl, right: nr, key: nk, data: nd, height: _ } = inner;
        let r_box = nr.unwrap();
        let r_inner = *r_box;
        let Node { left: rl, right: rr, key: rk, data: rd, height: _ } = r_inner;
        proof {
            assert(Self::optional_as_map(n0.right) == r0.as_map());
            assert(r0.wf());
            assert(rl == r0.left && rr == r0.right);
            assert(Self::wf_opt(rl) && Self::wf_opt(rr) && Self::wf_opt(nl));
        }
        let h_nl = Self::height(&nl);
        let h_rl = Self::height(&rl);
        let m1 = if h_nl >= h_rl {
            h_nl
        } else {
            h_rl
        };
        let new_left = Box::new(Node { left: nl, right: rl, key: nk, data: nd, height: m1 + 1 });
        let h_rr = Self::height(&rr);
        let m2 = if m1 + 1 >= h_rr {
            m1 + 1
        } else {
            h_rr
        };
        let result = Box::new(
            Node { left: Some(new_left), right: rr, key: rk, data: rd, height: m2 + 1 },
        );
        proof {
            let lm = Self::optional_as_map(n0.left);
            let rlm = Self::optional_as_map(r0.left);
            let rrm = Self::optional_as_map(r0.right);
            let rmap = r0.as_map();
            assert(Self::optional_as_map(n0.right) == rmap);
            // The right child's key sits in the right subtree's map.
            assert(Self::optional_as_map(n0.right).dom().contains(r0.key@));
            assert(K::key_le(n0.key@, r0.key@) && r0.key@ != n0.key@);
            // The inner node keeps the order on both sides.
            assert forall|k: K::V| rlm.dom().contains(k) implies K::key_le(k, r0.key@)
                && k != r0.key@ by {}
            assert forall|k: K::V| rlm.dom().contains(k) implies K::key_le(n0.key@, k)
                && k != n0.key@ by {
                assert(Self::optional_as_map(n0.right).dom().contains(k));
            }
            let new_left_node = *result.left.unwrap();
            assert(new_left_node.wf());
            let nlm = new_left_node.as_map();
            // Every key under the new left child comes before the new root's key.
            assert forall|k: K::V| nlm.dom().contains(k) implies K::key_le(k, r0.key@) && k
                != r0.key@ by {
                if lm.dom().contains(k) {
                    K::lemma_transitive(k, n0.key@, r0.key@);
                    if k == r0.key@ {
                        K::lemma_antisymmetric(n0.key@, r0.key@);
                    }
                } else if k == n0.key@ {
                } else {
                    assert(rlm.dom().contains(k));
                }
            }
            assert(result.wf());
            // The held map is untouched: both sides hold exactly the keys of
            // the three subtrees and the two node keys.
            assert forall|k: K::V| result.as_map().dom().contains(k) implies n0.as_map(
            ).dom().contains(k) && result.as_map()[k] == n0.as_map()[k] by {
                Self::lemma_rotate_value(n0, r0, k);
            }
            assert forall|k: K::V| n0.as_map().dom().contains(k) implies result.as_map(
            ).dom().contains(k) by {}
            assert(result.as_map() =~= n0.as_map());
        }
        result
    }

    /// In a rotation, every key keeps its datum: the value of `k` on either
    /// side of the rotation is the value `k` has in the subtree it sits in.
    proof fn lemma_rotate_value(n0: Node<K, D>, r0: Node<K, D>, k: K::V)
        requires
            n0.wf(),
            n0.right is Some,
            *n0.right.unwrap() == r0,
        ensures
            ({
                let lm = Self::optional_as_map(n0.left);
                let rlm = Self::optional_as_map(r0.left);
                let rrm = Self::optional_as_map(r0.right);
                &&& (lm.dom().contains(k) ==> n0.as_map()[k] == lm[k] && k != n0.key@ && k
                    != r0.key@ && !rlm.dom().contains(k) && !rrm.dom().contains(k))
                &&& (rlm.dom().contains(k) ==> n0.as_map()[k] == rlm[k] && k != n0.key@ && k
                    != r0.key@ && !rrm.dom().contains(k))
                &&& (rrm.dom().contains(k) ==> n0.as_map()[k] == rrm[k] && k != n0.key@ && k
                    != r0.key@)
                &&& n0.as_map()[n0.key@] == n0.data
                &&& n0.as_map()[r0.key@] == r0.data
                &&& n0.key@ != r0.key@
            }),
    {
        let lm = Self::optional_as_map(n0.left);
        let rlm = Self::optional_as_map(r0.left);
        let rrm = Self::optional_as_map(r0.right);
        let rmap = r0.as_map();
        assert(Self::optional_as_map(n0.right) == rmap);
        assert(r0.wf());
        assert(Self::optional_as_map(n0.right).dom().contains(r0.key@));
        assert(K::key_le(n0.key@, r0.key@) && r0.key@ != n0.key@);
        if lm.dom().contains(k) {
            assert(K::key_le(k, n0.key@) && k != n0.key@);
            if k == r0.key@ {
                K::lemma_antisymmetric(n0.key@, r0.key@);
            }
            if rlm.dom().contains(k) || rrm.dom().contains(k) {
                assert(Self::optional_as_map(n0.right).dom().contains(k));
                assert(K::key_le(n0.key@, k));
                K::lemma_antisymmetric(k, n0.key@);
            }
        }
        if rlm.dom().contains(k) {
            assert(Self::optional_as_map(n0.right).dom().contains(k));
            if rrm.dom().contains(k) {
                K::lemma_antisymmetric(k, r0.key@);
            }
        }
        if rrm.dom().contains(k) {
            assert(Self::optional_as_map(n0.right).dom().contains(k));
        }
    }

    /// Rotates the tree right: the left child becomes the root. The mirror
    /// image of `rotate_left`.
    pub fn rotate_right(n: Box<Node<K, D>>) -> (r: Box<Node<K, D>>)
        requires
            n.wf(),
            n.left is Some,
            n.height < usize::MAX,
        ensures
            r.wf(),
            r.as_map() == n.as_map(),
            Self::spec_height(Some(r)) == 1 + hmax(
                Self::spec_height(n.left.unwrap().left),
                1 + hmax(Self::spec_height(n.left.unwrap().right), Self::spec_height(n.right)),
            ),
            Self::spec_height(r.right) == 1 + hmax(
                Self::spec_height(n.left.unwrap().right),
                Self::spec_height(n.right),
            ),
            Self::spec_height(r.left) == Self::spec_height(n.left.unwrap().left),
    {
        let ghost n0 = *n;
        let ghost l0 = *n0.left.unwrap();
        let inner = *n;
        let Node { left: nl, right: nr, key: nk, data: nd, height: _ } = inner;
        let l_box = nl.unwrap();
        let l_inner = *l_box;
        let Node { left: ll, right: lr, key: lk, data: ld, height: _ } = l_inner;
        proof {
            assert(Self::optional_as_map(n0.left) == l0.as_map());
            assert(l0.wf());
            assert(ll == l0.left && lr == l0.right);
            assert(Self::wf_opt(ll) && Self::wf_opt(lr) && Self::wf_opt(nr));
        }
        let h_nr = Self::height(&nr);
        let h_lr = Self::height(&lr);
        let m1 = if h_lr >= h_nr {
            h_lr
        } else {
            h_nr
        };
        let new_right = Box::new(Node { left: lr, right: nr, key: nk, data: nd, height: m1 + 1 });
        let h_ll = Self::height(&ll);
        let m2 = if h_ll >= m1 + 1 {
            h_ll
        } else {
            m1 + 1
        };
        let result = Box::new(
            Node { left: ll, right: Some(new_right), key: lk, data: ld, height: m2 + 1 },
        );
        proof {
            let rm = Self::optional_as_map(n0.right);
            let llm = Self::optional_as_map(l0.left);
            let lrm = Self::optional_as_map(l0.right);
            let lmap = l0.as_map();
            assert(Self::optional_as_map(n0.left) == lmap);
            assert(Self::optional_as_map(n0.left).dom().contains(l0.key@));
            assert(K::key_le(l0.key@, n0.key@) && l0.key@ != n0.key@);
            assert forall|k: K::V| lrm.dom().contains(k) implies K::key_le(l0.key@, k)
                && k != l0.key@ by {}
            assert forall|k: K::V| lrm.dom().contains(k) implies K::key_le(k, n0.key@)
                && k != n0.key@ by {
                assert(Self::optional_as_map(n0.left).dom().contains(k));
            }
            let new_right_node = *result.right.unwrap();
            assert(new_right_node.wf());
            let nrm = new_right_node.as_map();
            assert forall|k: K::V| nrm.dom().contains(k) implies K::key_le(l0.key@, k) && k
                != l0.key@ by {
                if rm.dom().contains(k) {
                    K::lemma_transitive(l0.key@, n0.key@, k);
                    if k == l0.key@ {
                        K::lemma_antisymmetric(l0.key@, n0.key@);
                    }
                } else if k == n0.key@ {
                } else {
                    assert(lrm.dom().contains(k));
                }
            }
            assert(result.wf());
            assert forall|k: K::V| result.as_map().dom().contains(k) implies n0.as_map(
            ).dom().contains(k) && result.as_map()[k] == n0.as_map()[k] by {
                Self::lemma_rotate_value_right(n0, l0, k);
            }
            assert forall|k: K::V| n0.as_map().dom().contains(k) implies result.as_map(
            ).dom().contains(k) by {}
            assert(result.as_map() =~= n0.as_map());
        }
        result
    }

    /// The mirror of `lemma_rotate_value`, for right rotations.
    proof fn lemma_rotate_value_right(n0: Node<K, D>, l0: Node<K, D>, k: K::V)
        requires
            n0.wf(),
            n0.left is Some,
            *n0.left.unwrap() == l0,
        ensures
            ({
                let rm = Self::optional_as_map(n0.right);
                let llm = Self::optional_as_map(l0.left);
                let lrm = Self::optional_as_map(l0.right);
                &&& (rm.dom().contains(k) ==> n0.as_map()[k] == rm[k] && k != n0.key@ && k
                    != l0.key@ && !llm.dom().contains(k) && !lrm.dom().contains(k))
                &&& (lrm.dom().contains(k) ==> n0.as_map()[k] == lrm[k] && k != n0.key@ && k
                    != l0.key@ && !llm.dom().contains(k))
                &&& (llm.dom().contains(k) ==> n0.as_map()[k] == llm[k] && k != n0.key@ && k
                    != l0.key@)
                &&& n0.as_map()[n0.key@] == n0.data
                &&& n0.as_map()[l0.key@] == l0.data
                &&& n0.key@ != l0.key@
            }),
    {
        let rm = Self::optional_as_map(n0.right);
        let llm = Self::optional_as_map(l0.left);
        let lrm = Self::optional_as_map(l0.right);
        let lmap = l0.as_map();
        assert(Self::optional_as_map(n0.left) == lmap);
        assert(l0.wf());
        assert(Self::optional_as_map(n0.left).dom().contains(l0.key@));
        assert(K::key_le(l0.key@, n0.key@) && l0.key@ != n0.key@);
        if rm.dom().contains(k) {
            assert(K::key_le(n0.key@, k) && k != n0.key@);
            if k == l0.key@ {
                K::lemma_antisymmetric(l0.key@, n0.key@);
            }
            if llm.dom().contains(k) || lrm.dom().contains(k) {
                assert(Self::optional_as_map(n0.left).dom().contains(k));
                assert(K::key_le(k, n0.key@));
                K::lemma_antisymmetric(k, n0.key@);
            }
        }
        if lrm.dom().contains(k) {
            assert(Self::optional_as_map(n0.left).dom().contains(k));
            if llm.dom().contains(k) {
                K::lemma_antisymmetric(k, l0.key@);
            }
        }
        if llm.dom().contains(k) {
            assert(Self::optional_as_map(n0.left).dom().contains(k));
        }
        if rm.dom().contains(l0.key@) {
            assert(K::key_le(n0.key@, l0.key@));
            K::lemma_antisymmetric(l0.key@, n0.key@);
        }
        assert(lmap[l0.key@] == l0.data);
    }

    /// A right rotation of the right child followed by a left rotation of
    /// the root.
    pub fn rotate_right_left(n: Box<Node<K, D>>) -> (r: Box<Node<K, D>>)
        requires
            n.wf(),
            n.right is Some,
            n.right.unwrap().left is Some,
            n.height + 1 < usize::MAX,
        ensures
            r.wf(),
            r.as_map() == n.as_map(),
            Self::spec_height(Some(r)) == 1 + hmax(
                1 + hmax(Self::spec_height(n.left), Self::spec_height(
                    n.right.unwrap().left.unwrap().left,
                )),
                1 + hmax(
                    Self::spec_height(n.right.unwrap().left.unwrap().right),
                    Self::spec_height(n.right.unwrap().right),
                ),
            ),
    {
        let ghost n0 = *n;
        let ghost r0 = *n0.right.unwrap();
        let inner = *n;
        let Node { left: nl, right: nr, key: nk, data: nd, height: _ } = inner;
        let r_box = nr.unwrap();
        proof {
            assert(r0.wf());
            assert(r0.height < n0.height);
        }
        let r_new = Self::rotate_right(r_box);
        let right_opt = Some(r_new);
        proof {
            assert(Self::wf_opt(nl));
            assert(Self::wf_opt(right_opt));
        }
        let h_nl = Self::height(&nl);
        let h_r = Self::height(&right_opt);
        let m = if h_nl >= h_r {
            h_nl
        } else {
            h_r
        };
        let rebuilt = Box::new(Node { left: nl, right: right_opt, key: nk, data: nd, height: m + 1 });
        proof {
            assert(Self::optional_as_map(rebuilt.right) == Self::optional_as_map(n0.right));
            assert forall|k: K::V| Self::optional_as_map(rebuilt.right).dom().contains(k) implies
                K::key_le(n0.key@, k) && k != n0.key@ by {
                assert(Self::optional_as_map(n0.right).dom().contains(k));
            }
            assert forall|k: K::V| Self::optional_as_map(rebuilt.left).dom().contains(k) implies
                K::key_le(k, n0.key@) && k != n0.key@ by {
                assert(Self::optional_as_map(n0.left).dom().contains(k));
            }
            assert(rebuilt.wf());
            assert(rebuilt.as_map() =~= n0.as_map());
            assert(rebuilt.right.unwrap().wf());
        }
        let result = Self::rotate_left(rebuilt);
        proof {
            assert(result.as_map() == n0.as_map());
        }
        result
    }

    /// A left rotation of the left child followed by a right rotation of
    /// the root.
    pub fn rotate_left_right(n: Box<Node<K, D>>) -> (r: Box<Node<K, D>>)
        requires
            n.wf(),
            n.left is Some,
            n.left.unwrap().right is Some,
            n.height + 1 < usize::MAX,
        ensures
            r.wf(),
            r.as_map() == n.as_map(),
            Self::spec_height(Some(r)) == 1 + hmax(
                1 + hmax(Self::spec_height(n.left.unwrap().left), Self::spec_height(
                    n.left.unwrap().right.unwrap().left,
                )),
                1 + hmax(
                    Self::spec_height(n.left.unwrap().right.unwrap().right),
                    Self::spec_height(n.right),
                ),
            ),
    {
        let ghost n0 = *n;
        let ghost l0 = *n0.left.unwrap();
        let inner = *n;
        let Node { left: nl, right: nr, key: nk, data: nd, height: _ } = inner;
        let l_box = nl.unwrap();
        proof {
            assert(l0.wf());
            assert(l0.height < n0.height);
        }
        let l_new = Self::rotate_left(l_box);
        let left_opt = Some(l_new);
        proof {
            assert(Self::wf_opt(nr));
            assert(Self::wf_opt(left_opt));
        }
        let h_nr = Self::height(&nr);
        let h_l = Self::height(&left_opt);
        let m = if h_l >= h_nr {
            h_l
        } else {
            h_nr
        };
        let rebuilt = Box::new(Node { left: left_opt, right: nr, key: nk, data: nd, height: m + 1 });
        proof {
            assert(Self::optional_as_map(rebuilt.left) == Self::optional_as_map(n0.left));
            assert forall|k: K::V| Self::optional_as_map(rebuilt.left).dom().contains(k) implies
                K::key_le(k, n0.key@) && k != n0.key@ by {
                assert(Self::optional_as_map(n0.left).dom().contains(k));
            }
            assert forall|k: K::V| Self::optional_as_map(rebuilt.right).dom().contains(k) implies
                K::key_le(n0.key@, k) && k != n0.key@ by {
                assert(Self::optional_as_map(n0.right).dom().contains(k));
            }
            assert(rebuilt.wf());
            assert(rebuilt.as_map() =~= n0.as_map());
            assert(rebuilt.left.unwrap().wf());
        }
        let result = Self::rotate_right(rebuilt);
        proof {
            assert(result.as_map() == n0.as_map());
        }
        result
    }

    /// Restores the AVL shape after one insertion: a single or double
    /// rotation when one side stands two levels above the other and the
    /// taller child leans the right way; otherwise the tree is returned
    /// unchanged. The held map is preserved and the height never grows.
    pub fn rebalance(n: Box<Node<K, D>>) -> (r: Box<Node<K, D>>)
        requires
            n.wf(),
            n.height <= isize::MAX as usize,
            n.height + 2 <= usize::MAX,
        ensures
            r.wf(),
            r.as_map() == n.as_map(),
            Self::spec_height(Some(r)) <= n.height,
    {
        let ghost n0 = *n;
        let bal = n.balance();
        let left_leans_left = match &n.left {
            Some(x) => {
                proof {
                    assert(x.wf());
                    assert(x.height < n0.height);
                }
                x.balance() == -1
            },
            None => false,
        };
        let left_leans_right = match &n.left {
            Some(x) => x.balance() == 1,
            None => false,
        };
        let right_leans_left = match &n.right {
            Some(x) => {
                proof {
                    assert(x.wf());
                    assert(x.height < n0.height);
                }
                x.balance() == -1
            },
            None => false,
        };
        let right_leans_right = match &n.right {
            Some(x) => x.balance() == 1,
            None => false,
        };
        if bal < -1 && left_leans_left {
            Self::rotate_right(n)
        } else if bal > 1 && right_leans_right {
            Self::rotate_left(n)
        } else if bal < -1 && left_leans_right {
            Self::rotate_left_right(n)
        } else if bal > 1 && right_leans_left {
            Self::rotate_right_left(n)
        } else {
            n
        }
    }

    /// Inserts a key that is not yet present, rebalancing on the way up:
    /// the held map gains exactly the one entry, and the height grows by at
    /// most one level.
    pub fn insert(n: Box<Node<K, D>>, key: K, data: D) -> (r: Box<Node<K, D>>)
        requires
            n.wf(),
            !n.as_map().dom().contains(key@),
            Self::spec_height(Some(n)) + 2 <= isize::MAX,
        ensures
            r.wf(),
            r.as_map() == n.as_map().insert(key@, data),
            Self::spec_height(Some(r)) <= Self::spec_height(Some(n)) + 1,
        decreases *n,
    {
        let ghost n0 = *n;
        let ghost key0 = key@;
        let inner = *n;
        let Node { left, right, key: nkey, data: ndata, height: _ } = inner;
        let c = key.compare(&nkey);
        let (new_left, new_right) = match c {
            Cmp::Less => {
                proof {
                    if Self::optional_as_map(n0.left).dom().contains(key0) {
                        assert(n0.as_map().dom().contains(key0));
                    }
                }
                let nl = match left {
                    None => Box::new(Node::new(key, data)),
                    Some(node) => Self::insert(node, key, data),
                };
                (Some(nl), right)
            },
            Cmp::Greater => {
                proof {
                    if Self::optional_as_map(n0.right).dom().contains(key0) {
                        assert(n0.as_map().dom().contains(key0));
                    }
                }
                let nr = match right {
                    None => Box::new(Node::new(key, data)),
                    Some(node) => Self::insert(node, key, data),
                };
                (left, Some(nr))
            },
            Cmp::Equal => {
                proof {
                    assert(n0.as_map().dom().contains(n0.key@));
                    assert(false);
                }
                (left, right)
            },
        };
        proof {
            assert(Self::wf_opt(new_left) && Self::wf_opt(new_right));
        }
        let h_l = Self::height(&new_left);
        let h_r = Self::height(&new_right);
        let m = if h_l >= h_r {
            h_l
        } else {
            h_r
        };
        let rebuilt = Box::new(
            Node { left: new_left, right: new_right, key: nkey, data: ndata, height: m + 1 },
        );
        proof {
            let lm0 = Self::optional_as_map(n0.left);
            let rm0 = Self::optional_as_map(n0.right);
            match c {
                Cmp::Less => {
                    assert(Self::optional_as_map(rebuilt.left) =~= lm0.insert(key0, data));
                    assert(Self::optional_as_map(rebuilt.right) == rm0);
                    assert forall|k: K::V| Self::optional_as_map(rebuilt.left).dom().contains(
                        k,
                    ) implies K::key_le(k, n0.key@) && k != n0.key@ by {
                        if k == key0 {
                        } else {
                            assert(lm0.dom().contains(k));
                        }
                    }
                    assert forall|k: K::V| Self::optional_as_map(rebuilt.right).dom().contains(
                        k,
                    ) implies K::key_le(n0.key@, k) && k != n0.key@ by {
                        assert(rm0.dom().contains(k));
                    }
                    assert(rebuilt.wf());
                    assert forall|k: K::V| rebuilt.as_map().dom().contains(k) implies n0.as_map(
                    ).insert(key0, data).dom().contains(k) && rebuilt.as_map()[k] == n0.as_map(
                    ).insert(key0, data)[k] by {
                        if rm0.dom().contains(k) {
                            if k == key0 {
                                K::lemma_antisymmetric(key0, n0.key@);
                            }
                            assert(k != key0);
                        }
                    }
                    assert(rebuilt.as_map() =~= n0.as_map().insert(key0, data));
                },
                Cmp::Greater => {
                    assert(Self::optional_as_map(rebuilt.right) =~= rm0.insert(key0, data));
                    assert(Self::optional_as_map(rebuilt.left) == lm0);
                    assert forall|k: K::V| Self::optional_as_map(rebuilt.right).dom().contains(
                        k,
                    ) implies K::key_le(n0.key@, k) && k != n0.key@ by {
                        if k == key0 {
                        } else {
                            assert(rm0.dom().contains(k));
                        }
                    }
                    assert forall|k: K::V| Self::optional_as_map(rebuilt.left).dom().contains(
                        k,
                    ) implies K::key_le(k, n0.key@) && k != n0.key@ by {
                        assert(lm0.dom().contains(k));
                    }
                    assert(rebuilt.wf());
                    assert forall|k: K::V| rebuilt.as_map().dom().contains(k) implies n0.as_map(
                    ).insert(key0, data).dom().contains(k) && rebuilt.as_map()[k] == n0.as_map(
                    ).insert(key0, data)[k] by {
                        if lm0.dom().contains(k) {
                            if k == key0 {
                                K::lemma_antisymmetric(key0, n0.key@);
                            }
                            assert(k != key0);
                            if rm0.dom().contains(k) {
                                K::lemma_antisymmetric(k, n0.key@);
                            }
                            assert(!rm0.insert(key0, data).dom().contains(k));
                        }
                    }
                    assert(rebuilt.as_map() =~= n0.as_map().insert(key0, data));
                },
                Cmp::Equal => {
                    assert(false);
                },
            }
        }
        Self::rebalance(rebuilt)
    }

    /// Looks a key up: the datum stored under it, or nothing when the key
    /// is absent.
    pub fn get<'a>(n: &'a Box<Node<K, D>>, key: &'a K) -> (r: Option<&'a D>)
        requires
            n.wf(),
        ensures
            match r {
                Some(d) => n.as_map().dom().contains(key@) && *d == n.as_map()[key@],
                None => !n.as_map().dom().contains(key@),
            },
        decreases **n,
    {
        let ghost n0 = **n;
        match key.compare(&n.key) {
            Cmp::Equal => {
                proof {
                    assert(n0.as_map().dom().contains(n0.key@));
                }
                Some(&n.data)
            },
            Cmp::Less => {
                proof {
                    if Self::optional_as_map(n0.right).dom().contains(key@) {
                        K::lemma_antisymmetric(key@, n0.key@);
                    }
                }
                match &n.left {
                    Some(l) => {
                        let r = Self::get(l, key);
                        proof {
                            if Self::optional_as_map(n0.left).dom().contains(key@) {
                                assert(!Self::optional_as_map(n0.right).dom().contains(key@));
                            }
                        }
                        r
                    },
                    None => None,
                }
            },
            Cmp::Greater => {
                proof {
                    if Self::optional_as_map(n0.left).dom().contains(key@) {
                        K::lemma_antisymmetric(key@, n0.key@);
                    }
                }
                match &n.right {
                    Some(rchild) => Self::get(rchild, key),
                    None => None,
                }
            },
        }
    }

    /// How much taller the right child stands than the left one.
    pub fn balance(&self) -> (r: isize)
        requires
            self.wf(),
            self.height <= isize::MAX as usize,
        ensures
            r == Self::spec_height(self.right) - Self::spec_height(self.left),
    {
        Self::height(&self.right) as isize - Self::height(&self.left) as isize
    }
}

/// Lexicographic order on character sequences, by code point: the empty
/// sequence comes first, and otherwise the first differing position
/// decides, a strict prefix coming before its extensions.
pub open spec fn lex_le(a: Seq<char>, b: Seq<char>) -> bool
    decreases a.len(),
{
    if a.len() == 0 {
        true
    } else if b.len() == 0 {
        false
    } else if a[0] < b[0] {
        true
    } else if b[0] < a[0] {
        false
    } else {
        lex_le(a.skip(1), b.skip(1))
    }
}

proof fn lemma_lex_refl(a: Seq<char>)
    ensures
        lex_le(a, a),
    decreases a.len(),
{
    if a.len() > 0 {
        lemma_lex_refl(a.skip(1));
    }
}

proof fn lemma_lex_total(a: Seq<char>, b: Seq<char>)
    ensures
        lex_le(a, b) || lex_le(b, a),
    decreases a.len(),
{
    if a.len() > 0 && b.len() > 0 && !(a[0] < b[0]) && !(b[0] < a[0]) {
        lemma_lex_total(a.skip(1), b.skip(1));
    }
}

proof fn lemma_lex_antisym(a: Seq<char>, b: Seq<char>)
    requires
        lex_le(a, b),
        lex_le(b, a),
    ensures
        a == b,
    decreases a.len(),
{
    if a.len() == 0 {
        assert(b.len() == 0);
        assert(a =~= b);
    } else {
        assert(b.len() > 0);
        assert(a[0] == b[0]);
        lemma_lex_antisym(a.skip(1), b.skip(1));
        assert(a.len() == b.len());
        assert forall|j: int| 0 <= j < a.len() implies a[j] == b[j] by {
            if j > 0 {
                assert(a.skip(1)[j - 1] == a[j]);
                assert(b.skip(1)[j - 1] == b[j]);
            }
        }
        assert(a =~= b);
    }
}

proof fn lemma_lex_trans(a: Seq<char>, b: Seq<char>, c: Seq<char>)
    requires
        lex_le(a, b),
        lex_le(b, c),
    ensures
        lex_le(a, c),
    decreases a.len(),
{
    if a.len() > 0 {
        assert(b.len() > 0);
        assert(c.len() > 0);
        if a[0] == b[0] && b[0] == c[0] {
            lemma_lex_trans(a.skip(1), b.skip(1), c.skip(1));
        }
    }
}

proof fn lemma_lex_first_diff(a: Seq<char>, b: Seq<char>, i: int)
    requires
        0 <= i < a.len(),
        i < b.len(),
        forall|j: int| 0 <= j < i ==> a[j] == b[j],
        a[i] < b[i],
    ensures
        lex_le(a, b),
        a != b,
    decreases i,
{
    if i == 0 {
        if a == b {
            assert(a[0] == b[0]);
        }
    } else {
        assert(a[0] == b[0]);
        assert(a.skip(1)[i - 1] == a[i]);
        lemma_lex_first_diff(a.skip(1), b.skip(1), i - 1);
        if a == b {
            assert(a[i] == b[i]);
        }
    }
}

proof fn lemma_lex_strict_prefix(a: Seq<char>, b: Seq<char>)
    requires
        a.len() < b.len(),
        forall|j: int| 0 <= j < a.len() ==> a[j] == b[j],
    ensures
        lex_le(a, b),
        a != b,
    decreases a.len(),
{
    if a.len() > 0 {
        assert(a[0] == b[0]);
        lemma_lex_strict_prefix(a.skip(1), b.skip(1));
    }
}

impl OrderedKey for String {
    /// Strings are ordered lexicographically by code point.
    open spec fn key_le(a: Seq<char>, b: Seq<char>) -> bool {
        lex_le(a, b)
    }

    proof fn lemma_reflexive(x: Seq<char>) {
        lemma_lex_refl(x);
    }

    proof fn lemma_transitive(x: Seq<char>, y: Seq<char>, z: Seq<char>) {
        lemma_lex_trans(x, y, z);
    }

    proof fn lemma_antisymmetric(x: Seq<char>, y: Seq<char>) {
        lemma_lex_antisym(x, y);
    }

    proof fn lemma_total(x: Seq<char>, y: Seq<char>) {
        lemma_lex_total(x, y);
    }

    fn compare(&self, other: &Self) -> (c: Cmp) {
        let a = self.as_str();
        let b = other.as_str();
        let an = a.unicode_len();
        let bn = b.unicode_len();
        let mut i: usize = 0;
        while i < an && i < bn
            invariant
                an == a@.len(),
                bn == b@.len(),
                a@ == self@,
                b@ == other@,
                i <= an,
                i <= bn,
                forall|j: int| 0 <= j < i ==> a@[j] == b@[j],
            decreases an - i,
        {
            let ca = a.get_char(i);
            let cb = b.get_char(i);
            if ca < cb {
                proof {
                    lemma_lex_first_diff(a@, b@, i as int);
                }
                return Cmp::Less;
            }
            if cb < ca {
                proof {
                    lemma_lex_first_diff(b@, a@, i as int);
                }
                return Cmp::Greater;
            }
            proof {
                assert(ca == cb);
            }
            i += 1;
        }
        if an == bn {
            proof {
                assert(a@ =~= b@);
            }
            Cmp::Equal
        } else if an < bn {
            proof {
                lemma_lex_strict_prefix(a@, b@);
            }
            Cmp::Less
        } else {
            proof {
                lemma_lex_strict_prefix(b@, a@);
            }
            Cmp::Greater
        }
    }
}

impl OrderedKey for u64 {
    /// Unsigned integers carry their usual order.
    open spec fn key_le(a: u64, b: u64) -> bool {
        a <= b
    }

    proof fn lemma_reflexive(x: u64) {
    }

    proof fn lemma_transitive(x: u64, y: u64, z: u64) {
    }

    proof fn lemma_antisymmetric(x: u64, y: u64) {
    }

    proof fn lemma_total(x: u64, y: u64) {
    }

    fn compare(&self, other: &Self) -> (c: Cmp) {
        if *self < *other {
            Cmp::Less
        } else if *self > *other {
            Cmp::Greater
        } else {
            Cmp::Equal
        }
    }
}

/// A self-balancing ordered map.
pub struct Tree<K: OrderedKey, D> {
    pub root: Option<Box<Node<K, D>>>,
}

impl<K: OrderedKey, D> Tree<K, D> {
    /// The map the tree holds.
    pub open spec fn as_map(self) -> Map<K::V, D> {
        Node::<K, D>::optional_as_map(self.root)
    }

    /// Well-formed: the root subtree is.
    pub open spec fn wf(self) -> bool {
        Node::<K, D>::wf_opt(self.root)
    }

    pub fn new() -> (r: Self)
        ensures
            r.wf(),
            r.as_map() == Map::<K::V, D>::empty(),
    {
        Self { root: None }
    }

    /// Adds an entry under a key that is not yet present.
    pub fn insert(&mut self, key: K, data: D)
        requires
            old(self).wf(),
            !old(self).as_map().dom().contains(key@),
            Node::<K, D>::spec_height(old(self).root) + 3 <= isize::MAX,
        ensures
            final(self).wf(),
            final(self).as_map() == old(self).as_map().insert(key@, data),
    {
        let mut taken: Option<Box<Node<K, D>>> = None;
        core::mem::swap(&mut self.root, &mut taken);
        let node = match taken {
            None => {
                let fresh = Box::new(Node::new(key, data));
                proof {
                    assert(fresh.as_map() =~= old(self).as_map().insert(key@, data));
                }
                fresh
            },
            Some(root) => Node::insert(root, key, data),
        };
        let node = Node::rebalance(node);
        self.root = Some(node);
    }

    /// The datum stored under a key, if any.
    pub fn get<'a>(&'a self, key: &'a K) -> (r: Option<&'a D>)
        requires
            self.wf(),
        ensures
            match r {
                Some(d) => self.as_map().dom().contains(key@) && *d == self.as_map()[key@],
                None => !self.as_map().dom().contains(key@),
            },
    {
        match &self.root {
            Some(root) => Node::get(root, key),
            None => None,
        }
    }

    /// The structural height of the tree.
    pub fn height(&self) -> (r: usize)
        requires
            self.wf(),
        ensures
            r == Node::<K, D>::spec_height(self.root),
    {
        Node::height(&self.root)
    }
}

} // verus!
