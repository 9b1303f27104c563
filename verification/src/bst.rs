//! The ordered index: an unbalanced binary search tree mapping a numeric
//! key to a value, with ordered traversals.
//!
//! The tree is deliberately not self-balancing; adversarial insertion
//! orders degrade lookup to linear time, which is a documented performance
//! caveat rather than a correctness defect. Its abstract view is a
//! `Map<usize, V>`, and every operation is specified against that view.

use vstd::prelude::*;

verus! {

/// A child link: either empty or a boxed node.
pub(crate) type Link<V> = Option<Box<Node<V>>>;

/// One tree node: a key, its value, and up to two children.
pub(crate) struct Node<V> {
    pub(crate) key: usize,
    pub(crate) value: V,
    pub(crate) left: Link<V>,
    pub(crate) right: Link<V>,
}

/// An ordered mapping from `usize` keys to values of type `V`, backed by an
/// unbalanced binary search tree. Keys are unique.
pub struct BinarySearchTree<V> {
    root: Link<V>,
}

/// The mapping held below a link.
pub(crate) open spec fn link_map<V>(link: Link<V>) -> Map<usize, V>
    decreases link,
{
    match link {
        None => Map::empty(),
        Some(node) => node.as_map(),
    }
}

/// The binary-search-tree ordering discipline below a link.
pub(crate) open spec fn link_ordered<V>(link: Link<V>) -> bool
    decreases link,
{
    match link {
        None => true,
        Some(node) => node.ordered(),
    }
}

impl<V> Node<V> {
    /// The mapping held by this node and everything below it.
    pub(crate) open spec fn as_map(self) -> Map<usize, V>
        decreases self,
    {
        link_map(self.left).union_prefer_right(link_map(self.right)).insert(self.key, self.value)
    }

    /// Every key on the left is smaller and every key on the right is
    /// larger than this node's own key, recursively.
    pub(crate) open spec fn ordered(self) -> bool
        decreases self,
    {
        &&& link_ordered(self.left)
        &&& link_ordered(self.right)
        &&& forall|k: usize| link_map(self.left).dom().contains(k) ==> k < self.key
        &&& forall|k: usize| link_map(self.right).dom().contains(k) ==> k > self.key
    }
}

/// The in-order listing of the bindings below a link: left subtree, then
/// the node itself, then the right subtree.
pub(crate) open spec fn link_inorder<V>(link: Link<V>) -> Seq<(usize, V)>
    decreases link,
{
    match link {
        None => Seq::empty(),
        Some(node) => node.inorder_below(),
    }
}

/// The pre-order listing of the bindings below a link: each node before
/// either of its subtrees.
pub(crate) open spec fn link_preorder<V>(link: Link<V>) -> Seq<(usize, V)>
    decreases link,
{
    match link {
        None => Seq::empty(),
        Some(node) => node.preorder_below(),
    }
}

/// The height of the tree hanging off a link; an empty link has height 0.
pub(crate) open spec fn link_height<V>(link: Link<V>) -> nat
    decreases link,
{
    match link {
        None => 0,
        Some(node) => node.height(),
    }
}

impl<V> Node<V> {
    /// In-order listing rooted at this node.
    pub(crate) open spec fn inorder_below(self) -> Seq<(usize, V)>
        decreases self,
    {
        link_inorder(self.left) + seq![(self.key, self.value)] + link_inorder(self.right)
    }

    /// Pre-order listing rooted at this node.
    pub(crate) open spec fn preorder_below(self) -> Seq<(usize, V)>
        decreases self,
    {
        seq![(self.key, self.value)] + link_preorder(self.left) + link_preorder(self.right)
    }

    /// Height of the subtree rooted at this node.
    pub(crate) open spec fn height(self) -> nat
        decreases self,
    {
        1 + if link_height(self.left) >= link_height(self.right) {
            link_height(self.left)
        } else {
            link_height(self.right)
        }
    }
}

/// Every binding listed in order is a binding of the mapping, and every
/// binding of the mapping is listed.
pub(crate) proof fn lemma_inorder_matches_map<V>(link: Link<V>)
    requires
        link_ordered(link),
    ensures
        forall|i: int|
            0 <= i < link_inorder(link).len() ==> #[trigger] link_map(link).contains_pair(
                link_inorder(link)[i].0,
                link_inorder(link)[i].1,
            ),
        forall|k: usize|
            link_map(link).dom().contains(k) ==> exists|i: int|
                0 <= i < link_inorder(link).len() && #[trigger] link_inorder(link)[i] == (k,
                link_map(link)[k]),
    decreases link,
{
    match link {
        None => {},
        Some(node) => {
            lemma_inorder_matches_map(node.left);
            lemma_inorder_matches_map(node.right);
            let s = link_inorder(link);
            let nl = link_inorder(node.left).len() as int;
            assert forall|i: int| 0 <= i < s.len() implies #[trigger] link_map(
                link,
            ).contains_pair(s[i].0, s[i].1) by {
                if i < nl {
                    assert(s[i] == link_inorder(node.left)[i]);
                    assert(link_map(node.left).contains_pair(
                        link_inorder(node.left)[i].0,
                        link_inorder(node.left)[i].1,
                    ));
                    assert(s[i].0 < node.key);
                    assert(!link_map(node.right).dom().contains(s[i].0));
                } else if i == nl {
                    assert(s[i] == (node.key, node.value));
                } else {
                    assert(s[i] == link_inorder(node.right)[i - nl - 1]);
                    assert(link_map(node.right).contains_pair(
                        link_inorder(node.right)[i - nl - 1].0,
                        link_inorder(node.right)[i - nl - 1].1,
                    ));
                    assert(s[i].0 > node.key);
                }
            }
            assert forall|k: usize| link_map(link).dom().contains(k) implies exists|i: int|
                0 <= i < s.len() && #[trigger] s[i] == (k, link_map(link)[k]) by {
                if k == node.key {
                    assert(s[nl] == (k, link_map(link)[k]));
                } else if link_map(node.right).dom().contains(k) {
                    let i = choose|i: int|
                        0 <= i < link_inorder(node.right).len() && #[trigger] link_inorder(
                            node.right,
                        )[i] == (k, link_map(node.right)[k]);
                    assert(s[nl + 1 + i] == (k, link_map(link)[k]));
                } else {
                    let i = choose|i: int|
                        0 <= i < link_inorder(node.left).len() && #[trigger] link_inorder(
                            node.left,
                        )[i] == (k, link_map(node.left)[k]);
                    assert(k < node.key);
                    assert(!link_map(node.right).dom().contains(k));
                    assert(s[i] == (k, link_map(link)[k]));
                }
            }
        },
    }
}

/// Below an ordered link, the in-order listing carries strictly ascending
/// keys.
pub(crate) proof fn lemma_inorder_ascending<V>(link: Link<V>)
    requires
        link_ordered(link),
    ensures
        forall|i: int, j: int|
            0 <= i < j < link_inorder(link).len() ==> #[trigger] link_inorder(link)[i].0
                < #[trigger] link_inorder(link)[j].0,
    decreases link,
{
    match link {
        None => {},
        Some(node) => {
            lemma_inorder_ascending(node.left);
            lemma_inorder_ascending(node.right);
            lemma_inorder_matches_map(node.left);
            lemma_inorder_matches_map(node.right);
            let s = link_inorder(link);
            let nl = link_inorder(node.left).len() as int;
            assert forall|i: int, j: int| 0 <= i < j < s.len() implies #[trigger] s[i].0
                < #[trigger] s[j].0 by {
                if i < nl {
                    assert(link_map(node.left).contains_pair(
                        link_inorder(node.left)[i].0,
                        link_inorder(node.left)[i].1,
                    ));
                    assert(s[i].0 < node.key);
                }
                if j > nl {
                    assert(link_map(node.right).contains_pair(
                        link_inorder(node.right)[j - nl - 1].0,
                        link_inorder(node.right)[j - nl - 1].1,
                    ));
                    assert(s[j].0 > node.key);
                }
            }
        },
    }
}

/// Every binding listed in pre-order is a binding of the mapping, and every
/// binding of the mapping is listed; a non-empty listing opens with the
/// root's own binding.
pub(crate) proof fn lemma_preorder_matches_map<V>(link: Link<V>)
    requires
        link_ordered(link),
    ensures
        link_preorder(link).len() == link_inorder(link).len(),
        forall|i: int|
            0 <= i < link_preorder(link).len() ==> #[trigger] link_map(link).contains_pair(
                link_preorder(link)[i].0,
                link_preorder(link)[i].1,
            ),
        forall|k: usize|
            link_map(link).dom().contains(k) ==> exists|i: int|
                0 <= i < link_preorder(link).len() && #[trigger] link_preorder(link)[i] == (k,
                link_map(link)[k]),
    decreases link,
{
    match link {
        None => {},
        Some(node) => {
            lemma_preorder_matches_map(node.left);
            lemma_preorder_matches_map(node.right);
            lemma_inorder_matches_map(link);
            let s = link_preorder(link);
            let nl = link_preorder(node.left).len() as int;
            assert forall|i: int| 0 <= i < s.len() implies #[trigger] link_map(
                link,
            ).contains_pair(s[i].0, s[i].1) by {
                if i == 0 {
                    assert(s[0] == (node.key, node.value));
                } else if i <= nl {
                    assert(s[i] == link_preorder(node.left)[i - 1]);
                    assert(link_map(node.left).contains_pair(
                        link_preorder(node.left)[i - 1].0,
                        link_preorder(node.left)[i - 1].1,
                    ));
                    assert(s[i].0 < node.key);
                    assert(!link_map(node.right).dom().contains(s[i].0));
                } else {
                    assert(s[i] == link_preorder(node.right)[i - nl - 1]);
                    assert(link_map(node.right).contains_pair(
                        link_preorder(node.right)[i - nl - 1].0,
                        link_preorder(node.right)[i - nl - 1].1,
                    ));
                    assert(s[i].0 > node.key);
                }
            }
            assert forall|k: usize| link_map(link).dom().contains(k) implies exists|i: int|
                0 <= i < s.len() && #[trigger] s[i] == (k, link_map(link)[k]) by {
                if k == node.key {
                    assert(s[0] == (k, link_map(link)[k]));
                } else if link_map(node.right).dom().contains(k) {
                    let i = choose|i: int|
                        0 <= i < link_preorder(node.right).len() && #[trigger] link_preorder(
                            node.right,
                        )[i] == (k, link_map(node.right)[k]);
                    assert(s[nl + 1 + i] == (k, link_map(link)[k]));
                } else {
                    let i = choose|i: int|
                        0 <= i < link_preorder(node.left).len() && #[trigger] link_preorder(
                            node.left,
                        )[i] == (k, link_map(node.left)[k]);
                    assert(k < node.key);
                    assert(!link_map(node.right).dom().contains(k));
                    assert(s[1 + i] == (k, link_map(link)[k]));
                }
            }
        },
    }
}

impl<V> View for BinarySearchTree<V> {
    type V = Map<usize, V>;

    closed spec fn view(&self) -> Map<usize, V> {
        link_map(self.root)
    }
}

impl<V> BinarySearchTree<V> {
    /// The tree obeys the binary-search-tree ordering discipline.
    pub closed spec fn wf(self) -> bool {
        link_ordered(self.root)
    }

    /// The bindings in ascending key order.
    pub closed spec fn inorder_seq(self) -> Seq<(usize, V)> {
        link_inorder(self.root)
    }

    /// The bindings in pre-order: each node before either subtree.
    pub closed spec fn preorder_seq(self) -> Seq<(usize, V)> {
        link_preorder(self.root)
    }

    /// The key at the root of the tree, if the tree is not empty.
    pub closed spec fn root_key(self) -> Option<usize> {
        match self.root {
            None => None,
            Some(node) => Some(node.key),
        }
    }

    /// Law: under the ordering discipline the in-order listing carries
    /// strictly ascending keys, whatever sequence of updates built the tree.
    pub proof fn lemma_inorder_keys_ascending(self)
        requires
            self.wf(),
        ensures
            forall|i: int, j: int|
                0 <= i < j < self.inorder_seq().len() ==> #[trigger] self.inorder_seq()[i].0
                    < #[trigger] self.inorder_seq()[j].0,
    {
        lemma_inorder_ascending(self.root);
    }

    /// Law: a non-empty pre-order listing opens with the root's binding.
    pub proof fn lemma_preorder_opens_with_root(self)
        ensures
            self.preorder_seq().len() > 0 <==> self.root_key() is Some,
            self.preorder_seq().len() > 0 ==> self.preorder_seq()[0].0 == self.root_key().unwrap(),
    {
    }

    /// The in-order listing and the mapping carry exactly the same
    /// bindings.
    pub proof fn lemma_inorder_matches_view(self)
        requires
            self.wf(),
        ensures
            forall|i: int|
                0 <= i < self.inorder_seq().len() ==> #[trigger] self@.contains_pair(
                    self.inorder_seq()[i].0,
                    self.inorder_seq()[i].1,
                ),
            forall|k: usize|
                self@.dom().contains(k) ==> exists|i: int|
                    0 <= i < self.inorder_seq().len() && #[trigger] self.inorder_seq()[i] == (k,
                    self@[k]),
    {
        lemma_inorder_matches_map(self.root);
        assert forall|k: usize| self@.dom().contains(k) implies exists|i: int|
            0 <= i < self.inorder_seq().len() && #[trigger] self.inorder_seq()[i] == (k,
            self@[k]) by {
            let i = choose|i: int|
                0 <= i < link_inorder(self.root).len() && #[trigger] link_inorder(self.root)[i]
                    == (k, link_map(self.root)[k]);
            assert(self.inorder_seq()[i] == (k, self@[k]));
        }
    }

    /// The pre-order listing and the mapping carry exactly the same
    /// bindings, and as many of them as the in-order listing.
    pub proof fn lemma_preorder_matches_view(self)
        requires
            self.wf(),
        ensures
            self.preorder_seq().len() == self.inorder_seq().len(),
            forall|i: int|
                0 <= i < self.preorder_seq().len() ==> #[trigger] self@.contains_pair(
                    self.preorder_seq()[i].0,
                    self.preorder_seq()[i].1,
                ),
            forall|k: usize|
                self@.dom().contains(k) ==> exists|i: int|
                    0 <= i < self.preorder_seq().len() && #[trigger] self.preorder_seq()[i] == (k,
                    self@[k]),
    {
        lemma_preorder_matches_map(self.root);
        assert forall|k: usize| self@.dom().contains(k) implies exists|i: int|
            0 <= i < self.preorder_seq().len() && #[trigger] self.preorder_seq()[i] == (k,
            self@[k]) by {
            let i = choose|i: int|
                0 <= i < link_preorder(self.root).len() && #[trigger] link_preorder(self.root)[i]
                    == (k, link_map(self.root)[k]);
            assert(self.preorder_seq()[i] == (k, self@[k]));
        }
    }

    /// Look a key up; absent keys yield an empty result and no side effect.
    pub fn get(&self, key: &usize) -> (r: Option<&V>)
        requires
            self.wf(),
        ensures
            match r {
                Some(v) => self@.contains_key(*key) && *v == self@[*key],
                None => !self@.contains_key(*key),
            },
    {
        match &self.root {
            None => None,
            Some(node) => node.get(key),
        }
    }

    /// Look a key up for in-place mutation of its value. The caller may
    /// write through the returned reference; the mapping afterwards binds
    /// `key` to whatever was left there, and nothing else changes.
    pub fn get_mut(&mut self, key: &usize) -> (r: Option<&mut V>)
        requires
            old(self).wf(),
        ensures
            match r {
                Some(v) => {
                    &&& old(self)@.contains_key(*key)
                    &&& *v == old(self)@[*key]
                    &&& final(self).wf()
                    &&& final(self)@ == old(self)@.insert(*key, *final(v))
                },
                None => !old(self)@.contains_key(*key) && *final(self) == *old(self),
            },
    {
        Node::<V>::get_mut_in(&mut self.root, key)
    }

    /// Bind `key` to `value`. Returns the value the key was bound to before,
    /// if any, letting callers tell an update from a fresh insertion.
    pub fn set(&mut self, key: usize, value: V) -> (prev: Option<V>)
        requires
            old(self).wf(),
        ensures
            final(self).wf(),
            final(self)@ == old(self)@.insert(key, value),
            prev == if old(self)@.contains_key(key) {
                Some(old(self)@[key])
            } else {
                None::<V>
            },
            final(self).root_key() == if old(self).root_key() is Some {
                old(self).root_key()
            } else {
                Some(key)
            },
    {
        Node::<V>::insert(&mut self.root, key, value)
    }

    /// Remove a key's binding, handing back the removed value; an absent
    /// key yields an empty result and leaves the mapping unchanged.
    pub fn delete(&mut self, key: &usize) -> (removed: Option<V>)
        requires
            old(self).wf(),
        ensures
            final(self).wf(),
            final(self)@ == old(self)@.remove(*key),
            removed == if old(self)@.contains_key(*key) {
                Some(old(self)@[*key])
            } else {
                None::<V>
            },
    {
        Node::<V>::delete(&mut self.root, key)
    }
}

impl<V> Default for BinarySearchTree<V> {
    /// The empty tree.
    fn default() -> (t: Self)
        ensures
            t.wf(),
            t@ == Map::<usize, V>::empty(),
    {
        BinarySearchTree { root: None }
    }
}

impl<V> Node<V> {
    /// A leaf holding one binding.
    pub(crate) fn new(key: usize, value: V) -> (node: Self)
        ensures
            node.key == key,
            node.value == value,
            node.left is None,
            node.right is None,
    {
        Node { key, value, left: None, right: None }
    }

    /// Recursive descent lookup below `self`.
    pub(crate) fn get(&self, key: &usize) -> (r: Option<&V>)
        requires
            self.ordered(),
        ensures
            match r {
                Some(v) => self.as_map().contains_key(*key) && *v == self.as_map()[*key],
                None => !self.as_map().contains_key(*key),
            },
        decreases *self,
    {
        if *key == self.key {
            Some(&self.value)
        } else if *key < self.key {
            proof {
                assert(!link_map(self.right).dom().contains(*key));
            }
            match &self.left {
                None => None,
                Some(node) => node.get(key),
            }
        } else {
            proof {
                assert(!link_map(self.left).dom().contains(*key));
            }
            match &self.right {
                None => None,
                Some(node) => node.get(key),
            }
        }
    }

    /// Recursive descent lookup below `self`, for mutation: hands back a
    /// mutable reference to the value bound to `key`, if any.
    pub(crate) fn get_mut(&mut self, key: &usize) -> (r: Option<&mut V>)
        requires
            old(self).ordered(),
        ensures
            (match r {
                Some(v) => old(self).as_map().contains_key(*key) && *v == old(
                    self,
                ).as_map().index(*key),
                None => !old(self).as_map().contains_key(*key) && *final(self) == *old(self),
            }),
            (match r {
                Some(v) => final(self).key == old(self).key && (*key == old(self).key
                    ==> *final(self) == (Node { value: *final(v), ..*old(self) })),
                None => true,
            }),
            (match r {
                Some(v) => *key < old(self).key ==> final(self).right == old(self).right
                    && final(self).value == old(self).value && link_ordered(final(self).left)
                    && link_map(final(self).left) == link_map(old(self).left).insert(
                    *key,
                    *final(v),
                ) && (forall|k: usize|
                    link_map(final(self).left).dom().contains(k) ==> k < final(self).key),
                None => true,
            }),
            (match r {
                Some(v) => *key > old(self).key ==> final(self).left == old(self).left
                    && final(self).value == old(self).value && link_ordered(final(self).right)
                    && link_map(final(self).right) == link_map(old(self).right).insert(
                    *key,
                    *final(v),
                ) && (forall|k: usize|
                    link_map(final(self).right).dom().contains(k) ==> k > final(self).key),
                None => true,
            }),
            (match r {
                Some(v) => final(self).as_map() =~= old(self).as_map().insert(*key, *final(v)),
                None => true,
            }),
        decreases *old(self),
    {
        if *key == self.key {
            proof {
                assert(!link_map(old(self).left).dom().contains(*key));
                assert(!link_map(old(self).right).dom().contains(*key));
            }
            Some(&mut self.value)
        } else if *key < self.key {
            proof {
                assert(!link_map(old(self).right).dom().contains(*key));
            }
            Node::<V>::get_mut_in(&mut self.left, key)
        } else {
            proof {
                assert(!link_map(old(self).left).dom().contains(*key));
            }
            Node::<V>::get_mut_in(&mut self.right, key)
        }
    }

    /// Mutable lookup below a link; the seam at which the ordering
    /// discipline and the mapping of the subtree are re-established from
    /// the node-level facts.
    pub(crate) fn get_mut_in<'a>(link: &'a mut Link<V>, key: &usize) -> (r: Option<&'a mut V>)
        requires
            link_ordered(*old(link)),
        ensures
            match r {
                Some(v) => {
                    &&& link_map(*old(link)).contains_key(*key)
                    &&& *v == link_map(*old(link))[*key]
                    &&& link_ordered(*final(link))
                    &&& link_map(*final(link)) =~= link_map(*old(link)).insert(*key, *final(v))
                },
                None => !link_map(*old(link)).contains_key(*key) && *final(link) == *old(link),
            },
        decreases *old(link),
    {
        match link {
            None => None,
            Some(node) => node.get_mut(key),
        }
    }

    /// Descend to the place for `key`; make a fresh leaf at an empty link,
    /// or replace the stored value at a matching key, handing the prior
    /// value back.
    pub(crate) fn insert(link: &mut Link<V>, key: usize, value: V) -> (prev: Option<V>)
        requires
            link_ordered(*old(link)),
        ensures
            link_ordered(*final(link)),
            link_map(*final(link)) == link_map(*old(link)).insert(key, value),
            prev == if link_map(*old(link)).contains_key(key) {
                Some(link_map(*old(link))[key])
            } else {
                None::<V>
            },
            *final(link) is Some,
            final(link).unwrap().key == match *old(link) {
                None => key,
                Some(n) => n.key,
            },
        decreases *old(link),
    {
        let mut node = match link.take() {
            Some(node) => node,
            None => {
                *link = Some(Box::new(Node::new(key, value)));
                proof {
                    assert(link_map(*link) =~= link_map(None::<Box<Node<V>>>).insert(key, value));
                }
                return None;
            },
        };

        if key == node.key {
            let mut swapped = value;
            core::mem::swap(&mut node.value, &mut swapped);
            proof {
                assert(!link_map(node.left).dom().contains(key));
                assert(!link_map(node.right).dom().contains(key));
            }
            let ghost pre = *old(link);
            *link = Some(node);
            proof {
                assert(link_map(*link) =~= link_map(pre).insert(key, value));
            }
            return Some(swapped);
        }

        let prev = if key < node.key {
            let prev = Node::<V>::insert(&mut node.left, key, value);
            proof {
                assert(!link_map(node.right).dom().contains(key));
            }
            prev
        } else {
            let prev = Node::<V>::insert(&mut node.right, key, value);
            proof {
                assert(!link_map(node.left).dom().contains(key));
            }
            prev
        };
        let ghost pre = *old(link);
        *link = Some(node);
        proof {
            assert(link_map(*link) =~= link_map(pre).insert(key, value));
        }
        prev
    }

    /// Detach and return the node carrying the smallest key below `link`,
    /// promoting its right child into the vacated position. The returned
    /// node comes back with both children empty. An empty link is left
    /// untouched and yields an empty result.
    pub(crate) fn extract_min(link: &mut Link<V>) -> (min: Link<V>)
        requires
            link_ordered(*old(link)),
        ensures
            link_ordered(*final(link)),
            match min {
                None => *final(link) == *old(link) && *old(link) is None,
                Some(node) => {
                    &&& node.left is None
                    &&& node.right is None
                    &&& link_map(*old(link)).contains_key(node.key)
                    &&& node.value == link_map(*old(link))[node.key]
                    &&& forall|k: usize| link_map(*old(link)).dom().contains(k) ==> node.key <= k
                    &&& link_map(*final(link)) == link_map(*old(link)).remove(node.key)
                },
            },
        decreases *old(link),
    {
        let mut node = match link.take() {
            Some(node) => node,
            None => {
                return None;
            },
        };
        let ghost orig = *node;

        let mut min = Node::<V>::extract_min(&mut node.left);
        if min.is_none() {
            // `node` itself is the leftmost: promote its right child.
            *link = node.right.take();
            proof {
                assert(link_map(orig.left) =~= Map::<usize, V>::empty());
                assert(!link_map(*link).dom().contains(orig.key));
                assert(link_map(*link) =~= orig.as_map().remove(orig.key));
            }
            min = Some(node);
        } else {
            let ghost m = *min.unwrap();
            *link = Some(node);
            proof {
                assert(link_map(orig.left).dom().contains(m.key));
                assert(m.key < orig.key);
                assert(!link_map(orig.right).dom().contains(m.key));
                assert(link_map(node.left) =~= link_map(orig.left).remove(m.key));
                assert(node.key == orig.key && node.right == orig.right);
                assert(link_map(*link) =~= orig.as_map().remove(m.key));
            }
        }
        min
    }

    /// Descend to the node whose key matches, then splice it out with its
    /// in-order successor: the minimum of the right subtree replaces the
    /// deleted node, inheriting both of its subtrees; with an empty right
    /// subtree the left subtree is promoted directly. Absent keys yield an
    /// empty result and leave the mapping unchanged.
    pub(crate) fn delete(link: &mut Link<V>, key: &usize) -> (removed: Option<V>)
        requires
            link_ordered(*old(link)),
        ensures
            link_ordered(*final(link)),
            link_map(*final(link)) == link_map(*old(link)).remove(*key),
            removed == if link_map(*old(link)).contains_key(*key) {
                Some(link_map(*old(link))[*key])
            } else {
                None::<V>
            },
        decreases *old(link),
    {
        let mut node = match link.take() {
            Some(node) => node,
            None => {
                proof {
                    assert(link_map(*old(link)) =~= link_map(*old(link)).remove(*key));
                }
                return None;
            },
        };

        if *key < node.key {
            let removed = Node::<V>::delete(&mut node.left, key);
            proof {
                assert(!link_map(node.right).dom().contains(*key));
            }
            let ghost pre = *old(link);
            *link = Some(node);
            proof {
                assert(link_map(*link) =~= link_map(pre).remove(*key));
            }
            return removed;
        }
        if *key > node.key {
            let removed = Node::<V>::delete(&mut node.right, key);
            proof {
                assert(!link_map(node.left).dom().contains(*key));
            }
            let ghost pre = *old(link);
            *link = Some(node);
            proof {
                assert(link_map(*link) =~= link_map(pre).remove(*key));
            }
            return removed;
        }

        // This node carries the key: splice it out.
        proof {
            assert(!link_map(node.left).dom().contains(*key));
            assert(!link_map(node.right).dom().contains(*key));
        }
        let ghost pre = *old(link);
        let replacement = Node::<V>::extract_min(&mut node.right);
        match replacement {
            None => {
                // The right subtree is empty: the left subtree (or nothing)
                // takes this node's place.
                *link = node.left.take();
                proof {
                    assert(link_map(node.right) =~= Map::<usize, V>::empty());
                    assert(link_map(*link) =~= link_map(pre).remove(*key));
                }
                Some(node.value)
            },
            Some(mut replacement) => {
                replacement.left = node.left.take();
                replacement.right = node.right.take();
                proof {
                    assert(forall|k: usize|
                        link_map(replacement.left).dom().contains(k) ==> k < replacement.key);
                    assert(forall|k: usize|
                        link_map(replacement.right).dom().contains(k) ==> k > replacement.key);
                }
                *link = Some(replacement);
                proof {
                    assert(link_map(*link) =~= link_map(pre).remove(*key));
                }
                Some(node.value)
            },
        }
    }
}


/// The in-order listing hanging off a borrowed subtree root.
pub(crate) open spec fn ref_inorder<V>(current: Option<&Node<V>>) -> Seq<(usize, V)> {
    match current {
        None => Seq::empty(),
        Some(node) => node.inorder_below(),
    }
}

/// What the ancestors saved on an in-order traversal stack still owe: the
/// top of the stack is emitted next, followed by its right subtree, then
/// the rest of the stack in the same fashion.
pub(crate) open spec fn inorder_stack_rest<V>(s: Seq<&Node<V>>) -> Seq<(usize, V)>
    decreases s.len(),
{
    if s.len() == 0 {
        Seq::empty()
    } else {
        seq![(s.last().key, s.last().value)] + link_inorder(s.last().right) + inorder_stack_rest(
            s.drop_last(),
        )
    }
}

/// What an in-order traversal in the given state has yet to yield.
pub(crate) open spec fn inorder_remaining<V>(
    current: Option<&Node<V>>,
    stack: Seq<&Node<V>>,
) -> Seq<(usize, V)> {
    ref_inorder(current) + inorder_stack_rest(stack)
}

/// A lazy, restartable in-order traversal: an explicit stack of ancestors
/// plus the subtree currently being descended, so that arbitrarily deep
/// trees are walked without recursion. The source tree cannot be mutated
/// while a traversal is live; the borrow checker enforces exactly that.
pub struct InorderIter<'a, V> {
    stack: Vec<&'a Node<V>>,
    current: Option<&'a Node<V>>,
}

impl<'a, V> InorderIter<'a, V> {
    /// The bindings this traversal has yet to yield, in order.
    pub closed spec fn remaining(self) -> Seq<(usize, V)> {
        inorder_remaining(self.current, self.stack@)
    }

    /// Yield the next binding in ascending key order, or nothing once the
    /// traversal is exhausted.
    pub fn next(&mut self) -> (item: Option<(usize, &'a V)>)
        ensures
            item is None ==> old(self).remaining().len() == 0 && final(self).remaining().len()
                == 0,
            item is Some ==> old(self).remaining().len() > 0
                && item.unwrap().0 == old(self).remaining()[0].0
                && *item.unwrap().1 == old(self).remaining()[0].1
                && final(self).remaining() == old(self).remaining().skip(1),
    {
        let ghost rem = inorder_remaining(self.current, self.stack@);
        let mut current = self.current;
        let mut stack: Vec<&'a Node<V>> = Vec::new();
        core::mem::swap(&mut self.stack, &mut stack);
        let mut res: Option<(usize, &'a V)> = None;
        loop
            invariant_except_break
                inorder_remaining(current, stack@) == rem,
            ensures
                match res {
                    None => rem.len() == 0 && inorder_remaining(current, stack@).len() == 0,
                    Some(p) => {
                        &&& rem.len() > 0
                        &&& p.0 == rem[0].0
                        &&& *p.1 == rem[0].1
                        &&& inorder_remaining(current, stack@) == rem.skip(1)
                    },
                },
            decreases (match current {
                Some(n) => n.height(),
                None => 0nat,
            }),
        {
            match current {
                Some(walking) => {
                    let ghost pre_stack = stack@;
                    stack.push(walking);
                    current = match &walking.left {
                        None => None,
                        Some(b) => Some(&**b),
                    };
                    proof {
                        assert(stack@.last() == walking);
                        assert(stack@.drop_last() =~= pre_stack);
                        assert(inorder_remaining(current, stack@) =~= rem);
                    }
                },
                None => {
                    let ghost pre_stack = stack@;
                    match stack.pop() {
                        None => {
                            proof {
                                assert(inorder_stack_rest(pre_stack)
                                    =~= Seq::<(usize, V)>::empty());
                                assert(rem =~= Seq::<(usize, V)>::empty());
                            }
                            res = None;
                            break;
                        },
                        Some(ancestor) => {
                            current = match &ancestor.right {
                                None => None,
                                Some(b) => Some(&**b),
                            };
                            proof {
                                assert(pre_stack.last() == ancestor);
                                assert(stack@ =~= pre_stack.drop_last());
                                assert(rem =~= seq![(ancestor.key, ancestor.value)]
                                    + link_inorder(ancestor.right) + inorder_stack_rest(
                                    pre_stack.drop_last(),
                                ));
                                assert(rem[0] == (ancestor.key, ancestor.value));
                                assert(inorder_remaining(current, stack@) =~= rem.skip(1));
                            }
                            res = Some((ancestor.key, &ancestor.value));
                            break;
                        },
                    }
                },
            }
        }
        self.current = current;
        self.stack = stack;
        res
    }
}

/// What the nodes saved on a pre-order traversal stack still owe: only
/// their right subtrees, most recently saved first.
pub(crate) open spec fn preorder_stack_rest<V>(s: Seq<&Node<V>>) -> Seq<(usize, V)>
    decreases s.len(),
{
    if s.len() == 0 {
        Seq::empty()
    } else {
        link_preorder(s.last().right) + preorder_stack_rest(s.drop_last())
    }
}

/// What a pre-order traversal in the given state has yet to yield: the
/// subtree being descended emits its root and then its left spine, while
/// right subtrees wait on the stack.
pub(crate) open spec fn preorder_remaining<V>(
    current: Option<&Node<V>>,
    stack: Seq<&Node<V>>,
) -> Seq<(usize, V)> {
    (match current {
        Some(n) => seq![(n.key, n.value)] + link_preorder(n.left),
        None => Seq::empty(),
    }) + preorder_stack_rest(stack)
}

/// A lazy, restartable pre-order traversal, again over an explicit stack
/// rather than recursion: a node is yielded on first visit, then its left
/// spine is walked; right subtrees are revisited by popping the stack.
pub struct PreorderIter<'a, V> {
    stack: Vec<&'a Node<V>>,
    current: Option<&'a Node<V>>,
}

impl<'a, V> PreorderIter<'a, V> {
    /// The bindings this traversal has yet to yield, in pre-order.
    pub closed spec fn remaining(self) -> Seq<(usize, V)> {
        preorder_remaining(self.current, self.stack@)
    }

    /// Yield the next binding in pre-order, or nothing once the traversal
    /// is exhausted.
    pub fn next(&mut self) -> (item: Option<(usize, &'a V)>)
        ensures
            item is None ==> old(self).remaining().len() == 0 && final(self).remaining().len()
                == 0,
            item is Some ==> old(self).remaining().len() > 0
                && item.unwrap().0 == old(self).remaining()[0].0
                && *item.unwrap().1 == old(self).remaining()[0].1
                && final(self).remaining() == old(self).remaining().skip(1),
    {
        let ghost rem = preorder_remaining(self.current, self.stack@);
        let mut current = self.current;
        let mut stack: Vec<&'a Node<V>> = Vec::new();
        core::mem::swap(&mut self.stack, &mut stack);
        let mut res: Option<(usize, &'a V)> = None;
        loop
            invariant_except_break
                preorder_remaining(current, stack@) == rem,
            ensures
                match res {
                    None => rem.len() == 0 && preorder_remaining(current, stack@).len() == 0,
                    Some(p) => {
                        &&& rem.len() > 0
                        &&& p.0 == rem[0].0
                        &&& *p.1 == rem[0].1
                        &&& preorder_remaining(current, stack@) == rem.skip(1)
                    },
                },
            decreases 2 * stack@.len() + (match current {
                Some(_) => 0nat,
                None => 1nat,
            }),
        {
            match current {
                Some(visited) => {
                    let ghost pre_stack = stack@;
                    current = match &visited.left {
                        None => None,
                        Some(b) => Some(&**b),
                    };
                    if let Some(left) = current {
                        stack.push(left);
                        proof {
                            assert(stack@.last() == left);
                            assert(stack@.drop_last() =~= pre_stack);
                        }
                    }
                    proof {
                        assert(rem =~= seq![(visited.key, visited.value)] + link_preorder(
                            visited.left,
                        ) + preorder_stack_rest(pre_stack));
                        assert(rem[0] == (visited.key, visited.value));
                        assert(preorder_remaining(current, stack@) =~= rem.skip(1));
                    }
                    res = Some((visited.key, &visited.value));
                    break;
                },
                None => {
                    let ghost pre_stack = stack@;
                    match stack.pop() {
                        None => {
                            proof {
                                assert(preorder_stack_rest(pre_stack)
                                    =~= Seq::<(usize, V)>::empty());
                                assert(rem =~= Seq::<(usize, V)>::empty());
                            }
                            res = None;
                            break;
                        },
                        Some(ancestor) => {
                            let ghost mid_stack = stack@;
                            current = match &ancestor.right {
                                None => None,
                                Some(b) => Some(&**b),
                            };
                            if let Some(right) = current {
                                stack.push(right);
                                proof {
                                    assert(stack@.last() == right);
                                    assert(stack@.drop_last() =~= mid_stack);
                                }
                            }
                            proof {
                                assert(pre_stack.last() == ancestor);
                                assert(mid_stack =~= pre_stack.drop_last());
                                assert(rem =~= link_preorder(ancestor.right)
                                    + preorder_stack_rest(mid_stack));
                                assert(preorder_remaining(current, stack@) =~= rem);
                            }
                        },
                    }
                },
            }
        }
        self.current = current;
        self.stack = stack;
        res
    }
}

impl<V> BinarySearchTree<V> {
    /// Start a fresh in-order traversal of the tree.
    pub fn inorder_iter(&self) -> (it: InorderIter<'_, V>)
        ensures
            it.remaining() == self.inorder_seq(),
    {
        let it = InorderIter {
            stack: Vec::new(),
            current: match &self.root {
                None => None,
                Some(b) => Some(&**b),
            },
        };
        proof {
            assert(it.remaining() =~= self.inorder_seq());
        }
        it
    }

    /// Start a fresh pre-order traversal of the tree.
    pub fn preorder_iter(&self) -> (it: PreorderIter<'_, V>)
        ensures
            it.remaining() == self.preorder_seq(),
    {
        let mut stack: Vec<&Node<V>> = Vec::new();
        let current = match &self.root {
            None => None,
            Some(b) => Some(&**b),
        };
        if let Some(root) = current {
            stack.push(root);
        }
        let it = PreorderIter { stack, current };
        proof {
            if it.current is Some {
                assert(it.stack@.len() == 1);
                assert(it.stack@.drop_last() =~= Seq::<&Node<V>>::empty());
                assert(preorder_stack_rest(Seq::<&Node<V>>::empty()) =~= Seq::<(
                    usize,
                    V,
                )>::empty());
                assert(preorder_stack_rest(it.stack@) =~= link_preorder(it.stack@.last().right));
            }
            assert(it.remaining() =~= self.preorder_seq());
        }
        it
    }
}

} // verus!
