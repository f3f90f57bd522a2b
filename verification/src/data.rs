//! The trie index: a recursive character-keyed tree node mapping string keys
//! to ordered lists of filesystem paths.
use vstd::prelude::*;

verus! {

use vstd::string::StrSliceExecFns;

/// The mathematical model of a trie node: children as an ordered sequence of
/// (character, subtree) pairs, and the paths stored at this exact key.
#[verifier::ext_equal]
pub struct NodeView {
    pub children: Seq<(char, NodeView)>,
    pub paths: Seq<Seq<char>>,
}

/// Index of the first pair in `s` keyed by `c`, or -1 when there is none.
pub open spec fn find_child(s: Seq<(char, NodeView)>, c: char) -> int
    decreases s.len(),
{
    if s.len() == 0 {
        -1
    } else if s[0].0 == c {
        0
    } else {
        let r = find_child(s.drop_first(), c);
        if r < 0 {
            -1
        } else {
            r + 1
        }
    }
}

/// What `find_child` returns: either -1 and no pair is keyed by `c`, or the
/// first index keyed by `c`.
pub proof fn lemma_find_child(s: Seq<(char, NodeView)>, c: char)
    ensures
        find_child(s, c) == -1 || (0 <= find_child(s, c) < s.len()),
        find_child(s, c) == -1 ==> forall|i: int| 0 <= i < s.len() ==> (#[trigger] s[i]).0 != c,
        find_child(s, c) >= 0 ==> s[find_child(s, c)].0 == c,
        find_child(s, c) >= 0 ==> forall|i: int| 0 <= i < find_child(s, c) ==> (#[trigger] s[i]).0 != c,
    decreases s.len(),
{
    if s.len() == 0 {
    } else if s[0].0 == c {
    } else {
        lemma_find_child(s.drop_first(), c);
        let r = find_child(s.drop_first(), c);
        assert forall|i: int| 1 <= i < s.len() implies s.drop_first()[i - 1] == s[i] by {}
    }
}

impl NodeView {
    /// The node with no children and no paths.
    pub open spec fn empty() -> NodeView {
        NodeView { children: Seq::empty(), paths: Seq::empty() }
    }

    /// A node is empty when it holds no children and no paths.
    pub open spec fn is_empty(self) -> bool {
        self.children.len() == 0 && self.paths.len() == 0
    }

    /// Well-formedness: child keys are distinct, every child is itself
    /// well-formed, and no reachable node is empty (pruning invariant).
    pub open spec fn wf(self) -> bool
        decreases self,
    {
        &&& (forall|i: int, j: int|
            0 <= i < j < self.children.len() ==> (#[trigger] self.children[i]).0 != (
            #[trigger] self.children[j]).0)
        &&& (forall|i: int|
            0 <= i < self.children.len() ==> (#[trigger] self.children[i]).1.wf())
        &&& (forall|i: int|
            0 <= i < self.children.len() ==> !(#[trigger] self.children[i]).1.is_empty())
    }

    /// The subtree at `key`, walking one child per character; `None` when a
    /// character is missing. The empty key names the node itself.
    pub open spec fn get(self, key: Seq<char>) -> Option<NodeView>
        decreases key.len(),
    {
        if key.len() == 0 {
            Some(self)
        } else {
            let r = find_child(self.children, key[0]);
            if r < 0 {
                None
            } else {
                self.children[r].1.get(key.drop_first())
            }
        }
    }

    /// The paths stored at exactly `key`; empty when no node sits there.
    pub open spec fn paths_at(self, key: Seq<char>) -> Seq<Seq<char>> {
        match self.get(key) {
            Some(n) => n.paths,
            None => Seq::empty(),
        }
    }

    /// The tree after inserting `value` at `key`: the child chain for `key` is
    /// walked or created, and `value` is appended to the terminal node's paths.
    pub open spec fn insert(self, key: Seq<char>, value: Seq<char>) -> NodeView
        decreases key.len(),
    {
        if key.len() == 0 {
            NodeView { children: self.children, paths: self.paths.push(value) }
        } else {
            let r = find_child(self.children, key[0]);
            if r < 0 {
                NodeView {
                    children: self.children.push(
                        (key[0], NodeView::empty().insert(key.drop_first(), value)),
                    ),
                    paths: self.paths,
                }
            } else {
                NodeView {
                    children: self.children.update(
                        r,
                        (key[0], self.children[r].1.insert(key.drop_first(), value)),
                    ),
                    paths: self.paths,
                }
            }
        }
    }
}

/// Total node count of the subtrees in `s`.
pub open spec fn count_children(s: Seq<(char, NodeView)>) -> nat
    decreases s,
{
    if s.len() == 0 {
        0
    } else {
        count_children(s.drop_last()) + s.last().1.count()
    }
}

/// Counting a prefix of the children, one more child counts that child's
/// whole subtree on top.
pub proof fn lemma_count_children_take_step(s: Seq<(char, NodeView)>, i: int)
    requires
        0 <= i < s.len(),
    ensures
        count_children(s.take(i + 1)) == count_children(s.take(i)) + s[i].1.count(),
{
    assert(s.take(i + 1).drop_last() =~= s.take(i));
    assert(s.take(i + 1).last() == s[i]);
}

/// Counting only a prefix of the children never exceeds counting them all.
pub proof fn lemma_count_children_take_le(s: Seq<(char, NodeView)>, k: int)
    requires
        0 <= k <= s.len(),
    ensures
        count_children(s.take(k)) <= count_children(s),
    decreases s.len(),
{
    if k == s.len() {
        assert(s.take(k) =~= s);
    } else {
        assert(s.take(k) =~= s.drop_last().take(k));
        lemma_count_children_take_le(s.drop_last(), k);
    }
}

impl NodeView {
    /// Total number of nodes in this tree, the root included.
    pub open spec fn count(self) -> nat
        decreases self,
    {
        1 + count_children(self.children)
    }

    /// The tree after deleting `key`, together with the prune signal handed to
    /// the parent: the paths at `key` are cleared, then every ancestor left
    /// with no children and no paths is removed on the way back up. The signal
    /// is true when this node itself should be removed by its parent.
    pub open spec fn delete(self, key: Seq<char>) -> (NodeView, bool)
        decreases key.len(),
    {
        if key.len() == 0 {
            let n = NodeView { children: self.children, paths: Seq::empty() };
            (n, self.children.len() == 0)
        } else {
            let r = find_child(self.children, key[0]);
            if r < 0 {
                (self, false)
            } else {
                let (child2, rm) = self.children[r].1.delete(key.drop_first());
                if rm {
                    let n = NodeView { children: self.children.remove(r), paths: self.paths };
                    (n, n.paths.len() == 0 && n.children.len() == 0)
                } else {
                    let n = NodeView {
                        children: self.children.update(r, (key[0], child2)),
                        paths: self.paths,
                    };
                    (n, false)
                }
            }
        }
    }
}

/// All paths in the subtrees of `s`, in child order.
pub open spec fn collect_children_paths(s: Seq<(char, NodeView)>) -> Seq<Seq<char>>
    decreases s,
{
    if s.len() == 0 {
        Seq::empty()
    } else {
        s[0].1.collect() + collect_children_paths(s.drop_first())
    }
}

impl NodeView {
    /// All paths in this subtree, pre-order: this node's own paths first, in
    /// insertion order, then each child subtree in child order.
    pub open spec fn collect(self) -> Seq<Seq<char>>
        decreases self,
    {
        self.paths + collect_children_paths(self.children)
    }

    /// A subtree's own paths stand first in its pre-order collection: a
    /// prefix query always yields a superset of the exact query at the same
    /// key, and in the same order.
    pub proof fn lemma_collect_prefix(self)
        ensures
            self.collect().len() >= self.paths.len(),
            self.collect().take(self.paths.len() as int) == self.paths,
    {
        assert(self.collect().take(self.paths.len() as int) =~= self.paths);
    }
}

/// The characters of `s`, as a vector.
fn chars_of(s: &str) -> (r: Vec<char>)
    ensures
        r@ == s@,
{
    let n = s.unicode_len();
    let mut r: Vec<char> = Vec::new();
    let mut i: usize = 0;
    while i < n
        invariant
            i <= n,
            n == s@.len(),
            r@ == s@.subrange(0, i as int),
        decreases n - i,
    {
        let c = s.get_char(i);
        r.push(c);
        proof {
            assert(r@ =~= s@.subrange(0, i + 1));
        }
        i += 1;
    }
    proof {
        assert(r@ =~= s@);
    }
    r
}

/// Two non-empty sequences with equal heads and equal tails are equal.
pub proof fn lemma_cons_eq(a: Seq<char>, b: Seq<char>)
    requires
        a.len() > 0,
        b.len() > 0,
        a[0] == b[0],
        a.drop_first() == b.drop_first(),
    ensures
        a == b,
{
    vstd::seq::axiom_seq_subrange_len(a, 1, a.len() as int);
    vstd::seq::axiom_seq_subrange_len(b, 1, b.len() as int);
    assert(a.drop_first().len() == b.drop_first().len());
    assert(a.len() == b.len());
    assert forall|i: int| 0 <= i < a.len() implies a[i] == b[i] by {
        if i > 0 {
            vstd::seq::axiom_seq_subrange_index(a, 1, a.len() as int, i - 1);
            vstd::seq::axiom_seq_subrange_index(b, 1, b.len() as int, i - 1);
        }
    }
    assert(a =~= b);
}

/// `find_child` looks only at the characters: two child sequences with the
/// same characters in the same order are searched alike.
pub proof fn lemma_find_child_chars_eq(
    s1: Seq<(char, NodeView)>,
    s2: Seq<(char, NodeView)>,
    c: char,
)
    requires
        s1.len() == s2.len(),
        forall|i: int| 0 <= i < s1.len() ==> (#[trigger] s1[i]).0 == (#[trigger] s2[i]).0,
    ensures
        find_child(s1, c) == find_child(s2, c),
    decreases s1.len(),
{
    if s1.len() > 0 {
        assert(s1[0].0 == s2[0].0);
        assert forall|i: int|
            0 <= i < s1.drop_first().len() implies (#[trigger] s1.drop_first()[i]).0 == (
        #[trigger] s2.drop_first()[i]).0 by {
            assert(s1.drop_first()[i] == s1[i + 1]);
            assert(s2.drop_first()[i] == s2[i + 1]);
        }
        lemma_find_child_chars_eq(s1.drop_first(), s2.drop_first(), c);
    }
}

/// Appending a child keyed by a fresh character: searches for that character
/// now land on the appended child, and searches for others are unchanged.
pub proof fn lemma_find_child_push(s: Seq<(char, NodeView)>, p: (char, NodeView), c: char)
    ensures
        find_child(s, c) >= 0 ==> find_child(s.push(p), c) == find_child(s, c),
        find_child(s, c) == -1 && p.0 == c ==> find_child(s.push(p), c) == s.len(),
        find_child(s, c) == -1 && p.0 != c ==> find_child(s.push(p), c) == -1,
    decreases s.len(),
{
    if s.len() == 0 {
        assert(s.push(p)[0] == p);
        assert(s.push(p).drop_first() =~= Seq::<(char, NodeView)>::empty());
        assert(find_child(Seq::<(char, NodeView)>::empty(), c) == -1);
    } else {
        assert(s.push(p)[0] == s[0]);
        assert(s.push(p).drop_first() =~= s.drop_first().push(p));
        lemma_find_child_push(s.drop_first(), p, c);
    }
}

impl NodeView {
    /// An empty node holds no paths at any key.
    pub proof fn lemma_empty_paths_at(self, key: Seq<char>)
        requires
            self.is_empty(),
        ensures
            self.paths_at(key) == Seq::<Seq<char>>::empty(),
    {
        if key.len() > 0 {
            lemma_find_child(self.children, key[0]);
        }
    }

    /// A node reached by a non-empty key in a well-formed tree is itself
    /// well-formed and non-empty.
    pub proof fn lemma_get_wf(self, key: Seq<char>)
        requires
            self.wf(),
            self.get(key) is Some,
        ensures
            self.get(key).unwrap().wf(),
            key.len() > 0 ==> !self.get(key).unwrap().is_empty(),
        decreases key.len(),
    {
        if key.len() > 0 {
            lemma_find_child(self.children, key[0]);
            let r = find_child(self.children, key[0]);
            let child = self.children[r].1;
            child.lemma_get_wf(key.drop_first());
            if key.drop_first().len() == 0 {
                assert(child.get(key.drop_first()) == Some(child));
            }
        }
    }

    /// Inserting at `key` appends `value` to the paths at `key`, in order, and
    /// leaves the paths at every other key untouched. The result is still
    /// well-formed and never empty.
    pub proof fn lemma_insert(self, key: Seq<char>, value: Seq<char>)
        requires
            self.wf(),
        ensures
            self.insert(key, value).wf(),
            !self.insert(key, value).is_empty(),
            self.insert(key, value).paths_at(key) == self.paths_at(key).push(value),
            forall|k2: Seq<char>|
                k2 != key ==> #[trigger] self.insert(key, value).paths_at(k2) == self.paths_at(
                    k2,
                ),
        decreases key.len(),
    {
        let m = self.insert(key, value);
        if key.len() == 0 {
            assert(m.get(key) == Some(m));
            assert forall|k2: Seq<char>| k2 != key implies #[trigger] m.paths_at(k2)
                == self.paths_at(k2) by {
                assert(k2.len() > 0) by {
                    if k2.len() == 0 {
                        assert(k2 =~= key);
                    }
                }
                lemma_find_child_chars_eq(m.children, self.children, k2[0]);
            }
        } else {
            let c = key[0];
            let rest = key.drop_first();
            lemma_find_child(self.children, c);
            let r = find_child(self.children, c);
            if r >= 0 {
                let child = self.children[r].1;
                child.lemma_insert(rest, value);
                let child2 = child.insert(rest, value);
                assert(m.children == self.children.update(r, (c, child2)));
                assert forall|i: int|
                    0 <= i < self.children.len() implies (#[trigger] m.children[i]).0 == (
                #[trigger] self.children[i]).0 by {}
                lemma_find_child_chars_eq(m.children, self.children, c);
                assert(m.get(key) == child2.get(rest));
                assert(self.get(key) == child.get(rest));
                assert(m.paths_at(key) == child2.paths_at(rest));
                assert(self.paths_at(key) == child.paths_at(rest));
                assert forall|k2: Seq<char>| k2 != key implies #[trigger] m.paths_at(k2)
                    == self.paths_at(k2) by {
                    if k2.len() == 0 {
                    } else {
                        lemma_find_child_chars_eq(m.children, self.children, k2[0]);
                        let r2 = find_child(self.children, k2[0]);
                        if r2 >= 0 {
                            lemma_find_child(self.children, k2[0]);
                            if k2[0] == c {
                                assert(r2 == r);
                                let rest2 = k2.drop_first();
                                assert(rest2 != rest) by {
                                    if rest2 == rest {
                                        lemma_cons_eq(k2, key);
                                    }
                                }
                                assert(m.paths_at(k2) == child2.paths_at(rest2));
                                assert(self.paths_at(k2) == child.paths_at(rest2));
                            } else {
                                assert(r2 != r);
                                assert(m.children[r2] == self.children[r2]);
                            }
                        }
                    }
                }
            } else {
                let chain = NodeView::empty().insert(rest, value);
                assert(NodeView::empty().wf());
                NodeView::empty().lemma_insert(rest, value);
                assert(m.children == self.children.push((c, chain)));
                lemma_find_child_push(self.children, (c, chain), c);
                assert(find_child(m.children, c) == self.children.len());
                assert(m.children[self.children.len() as int] == (c, chain));
                assert(m.get(key) == chain.get(rest));
                assert(m.paths_at(key) == chain.paths_at(rest));
                NodeView::empty().lemma_empty_paths_at(rest);
                assert(self.get(key) is None);
                assert(m.paths_at(key) =~= self.paths_at(key).push(value));
                // well-formedness: the appended character is fresh and the new
                // chain is well-formed and non-empty
                lemma_find_child(self.children, c);
                assert forall|i: int, j: int|
                    0 <= i < j < m.children.len() implies (#[trigger] m.children[i]).0 != (
                #[trigger] m.children[j]).0 by {
                    if j == m.children.len() - 1 {
                        assert(m.children[i] == self.children[i]);
                        assert(self.children[i].0 != c);
                    }
                }
                assert forall|k2: Seq<char>| k2 != key implies #[trigger] m.paths_at(k2)
                    == self.paths_at(k2) by {
                    if k2.len() == 0 {
                    } else {
                        lemma_find_child_push(self.children, (c, chain), k2[0]);
                        let r2 = find_child(self.children, k2[0]);
                        if k2[0] == c {
                            let rest2 = k2.drop_first();
                            assert(rest2 != rest) by {
                                if rest2 == rest {
                                    lemma_cons_eq(k2, key);
                                }
                            }
                            assert(m.paths_at(k2) == chain.paths_at(rest2));
                            NodeView::empty().lemma_empty_paths_at(rest2);
                            lemma_find_child(self.children, k2[0]);
                            assert(self.get(k2) is None);
                        } else {
                            if r2 >= 0 {
                                lemma_find_child(self.children, k2[0]);
                                assert(m.children[r2] == self.children[r2]);
                            }
                        }
                    }
                }
            }
        }
    }

    /// Deleting `key` empties the paths at `key`, leaves the paths at every
    /// other key untouched, keeps the tree well-formed, and prunes: when the
    /// node at `key` survives, it still holds children. The returned signal
    /// says whether the deleted-from node itself became empty, except at an
    /// untouched empty root.
    pub proof fn lemma_delete(self, key: Seq<char>)
        requires
            self.wf(),
        ensures
            self.delete(key).0.wf(),
            self.delete(key).1 == self.delete(key).0.is_empty() || (self.is_empty()
                && key.len() > 0),
            self.delete(key).0.paths_at(key) == Seq::<Seq<char>>::empty(),
            forall|k2: Seq<char>|
                k2 != key ==> #[trigger] self.delete(key).0.paths_at(k2) == self.paths_at(k2),
            self.delete(key).0.get(key) matches Some(u) ==> u.paths.len() == 0,
        decreases key.len(),
    {
        let (m, rm) = self.delete(key);
        if key.len() == 0 {
            assert(m.get(key) == Some(m));
            assert forall|k2: Seq<char>| k2 != key implies #[trigger] m.paths_at(k2)
                == self.paths_at(k2) by {
                assert(k2.len() > 0) by {
                    if k2.len() == 0 {
                        assert(k2 =~= key);
                    }
                }
                lemma_find_child_chars_eq(m.children, self.children, k2[0]);
            }
        } else {
            let c = key[0];
            let rest = key.drop_first();
            lemma_find_child(self.children, c);
            let r = find_child(self.children, c);
            if r < 0 {
                assert(m == self);
                assert(m.paths_at(key) =~= Seq::<Seq<char>>::empty());
            } else {
                let child = self.children[r].1;
                child.lemma_delete(rest);
                let (child2, rm_child) = child.delete(rest);
                assert(!child.is_empty());
                assert(rm_child == child2.is_empty());
                if rm_child {
                    assert(m.children == self.children.remove(r));
                    assert forall|i: int, j: int|
                        0 <= i < j < m.children.len() implies (#[trigger] m.children[i]).0 != (
                    #[trigger] m.children[j]).0 by {
                        let i0: int = if i < r {
                            i
                        } else {
                            i + 1
                        };
                        let j0: int = if j < r {
                            j
                        } else {
                            j + 1
                        };
                        assert(m.children[i] == self.children[i0]);
                        assert(m.children[j] == self.children[j0]);
                    }
                    assert forall|i: int|
                        0 <= i < m.children.len() implies (#[trigger] m.children[i]).1.wf() && !(
                    #[trigger] m.children[i]).1.is_empty() by {
                        let i0: int = if i < r {
                            i
                        } else {
                            i + 1
                        };
                        assert(m.children[i] == self.children[i0]);
                    }
                    // searches in the reduced children: the removed character
                    // is now absent, other characters land on the same child
                    assert forall|k2: Seq<char>| k2 != key implies #[trigger] m.paths_at(k2)
                        == self.paths_at(k2) by {
                        if k2.len() == 0 {
                        } else if k2[0] == c {
                            lemma_find_child(m.children, c);
                            let rr = find_child(m.children, c);
                            if rr >= 0 {
                                let i0: int = if rr < r {
                                    rr
                                } else {
                                    rr + 1
                                };
                                assert(m.children[rr] == self.children[i0]);
                                assert(self.children[i0].0 == c && i0 != r);
                                lemma_find_child(self.children, c);
                                assert(false);
                            }
                            assert(m.get(k2) is None);
                            let rest2 = k2.drop_first();
                            assert(rest2 != rest) by {
                                if rest2 == rest {
                                    lemma_cons_eq(k2, key);
                                }
                            }
                            assert(self.paths_at(k2) == child.paths_at(rest2));
                            assert(child.paths_at(rest2) == child2.paths_at(rest2));
                            child2.lemma_empty_paths_at(rest2);
                        } else {
                            lemma_find_child(self.children, k2[0]);
                            lemma_find_child(m.children, k2[0]);
                            let r2 = find_child(self.children, k2[0]);
                            let rr2 = find_child(m.children, k2[0]);
                            if r2 >= 0 {
                                assert(r2 != r);
                                let inew: int = if r2 < r {
                                    r2
                                } else {
                                    r2 - 1
                                };
                                assert(m.children[inew] == self.children[r2]);
                                if rr2 == -1 {
                                    assert(m.children[inew].0 != k2[0]);
                                    assert(false);
                                }
                                let i0: int = if rr2 < r {
                                    rr2
                                } else {
                                    rr2 + 1
                                };
                                assert(m.children[rr2] == self.children[i0]);
                                lemma_find_child(self.children, k2[0]);
                                assert(self.children[i0].0 == k2[0]);
                                assert(i0 >= r2);
                                if i0 > r2 {
                                    assert(self.children[r2].0 == self.children[i0].0);
                                    assert(r2 != i0);
                                    assert(false);
                                }
                                assert(m.children[rr2].1 == self.children[r2].1);
                            } else {
                                if rr2 >= 0 {
                                    let i0: int = if rr2 < r {
                                        rr2
                                    } else {
                                        rr2 + 1
                                    };
                                    assert(m.children[rr2] == self.children[i0]);
                                    assert(self.children[i0].0 == k2[0]);
                                    assert(false);
                                }
                            }
                        }
                    }
                    // the key's head child is gone, so the key is absent
                    lemma_find_child(m.children, c);
                    let rr = find_child(m.children, c);
                    if rr >= 0 {
                        let i0: int = if rr < r {
                            rr
                        } else {
                            rr + 1
                        };
                        assert(m.children[rr] == self.children[i0]);
                        lemma_find_child(self.children, c);
                        assert(false);
                    }
                    assert(m.get(key) is None);
                    assert(m.paths_at(key) =~= Seq::<Seq<char>>::empty());
                } else {
                    assert(m.children == self.children.update(r, (c, child2)));
                    assert(!child2.is_empty());
                    assert forall|i: int|
                        0 <= i < self.children.len() implies (#[trigger] m.children[i]).0 == (
                    #[trigger] self.children[i]).0 by {}
                    lemma_find_child_chars_eq(m.children, self.children, c);
                    assert(m.get(key) == child2.get(rest));
                    assert(m.paths_at(key) == child2.paths_at(rest));
                    assert forall|k2: Seq<char>| k2 != key implies #[trigger] m.paths_at(k2)
                        == self.paths_at(k2) by {
                        if k2.len() == 0 {
                        } else {
                            lemma_find_child_chars_eq(m.children, self.children, k2[0]);
                            let r2 = find_child(self.children, k2[0]);
                            if r2 >= 0 {
                                lemma_find_child(self.children, k2[0]);
                                if k2[0] == c {
                                    assert(r2 == r);
                                    let rest2 = k2.drop_first();
                                    assert(rest2 != rest) by {
                                        if rest2 == rest {
                                            lemma_cons_eq(k2, key);
                                        }
                                    }
                                    assert(m.paths_at(k2) == child2.paths_at(rest2));
                                    assert(self.paths_at(k2) == child.paths_at(rest2));
                                } else {
                                    assert(r2 != r);
                                    assert(m.children[r2] == self.children[r2]);
                                }
                            }
                        }
                    }
                }
            }
        }
    }

    /// Every non-empty well-formed tree holds a path at some key: pruning is
    /// exact, a surviving node always leads to stored state.
    pub proof fn lemma_nonempty_has_value(self) -> (key: Seq<char>)
        requires
            self.wf(),
            !self.is_empty(),
        ensures
            self.paths_at(key).len() > 0,
        decreases self,
    {
        if self.paths.len() > 0 {
            let key = Seq::<char>::empty();
            assert(self.get(key) == Some(self));
            key
        } else {
            let c = self.children[0].0;
            let child = self.children[0].1;
            let sub = child.lemma_nonempty_has_value();
            let key = seq![c] + sub;
            assert(key[0] == c);
            assert(key.drop_first() =~= sub);
            assert(find_child(self.children, c) == 0);
            assert(self.get(key) == child.get(sub));
            key
        }
    }
}

/// One prefix position in a key space (file names, or file extensions).
/// `children` maps a single character to an owned child node (keys unique);
/// `paths` is the ordered list of filesystem paths whose key ends here.
pub struct Node {
    pub children: Vec<(char, Node)>,
    pub paths: Vec<String>,
}

/// The view of a sequence of (character, node) pairs, pairwise.
pub open spec fn children_view(s: Seq<(char, Node)>) -> Seq<(char, NodeView)>
    decreases s,
{
    if s.len() == 0 {
        Seq::empty()
    } else {
        children_view(s.drop_last()).push((s.last().0, s.last().1@))
    }
}

/// `children_view` is the pairwise view: same length, same characters, and
/// each node mapped to its view.
pub proof fn lemma_children_view(s: Seq<(char, Node)>)
    ensures
        children_view(s).len() == s.len(),
        forall|i: int|
            0 <= i < s.len() ==> #[trigger] children_view(s)[i] == (s[i].0, s[i].1@),
    decreases s,
{
    if s.len() > 0 {
        lemma_children_view(s.drop_last());
        assert forall|i: int| 0 <= i < s.len() implies #[trigger] children_view(s)[i] == (
        s[i].0,
        s[i].1@,
        ) by {
            if i < s.len() - 1 {
                assert(children_view(s)[i] == children_view(s.drop_last())[i]);
                assert(s.drop_last()[i] == s[i]);
            } else {
                assert(children_view(s)[i] == (s.last().0, s.last().1@));
            }
        }
    }
}

impl View for Node {
    type V = NodeView;

    open spec fn view(&self) -> NodeView
        decreases self,
    {
        NodeView { children: children_view(self.children@), paths: self.paths.deep_view() }
    }
}

impl Node {
    /// Creates an empty node.
    pub fn new() -> (r: Node)
        ensures
            r@ == NodeView::empty(),
            r@.wf(),
    {
        let r = Node { children: Vec::new(), paths: Vec::new() };
        proof {
            assert(r@ =~= NodeView::empty());
        }
        r
    }

    /// Position of the child keyed by `c` among this node's children, if any.
    fn find_child_idx(&self, c: char) -> (r: Option<usize>)
        ensures
            match r {
                Some(j) => j == find_child(self@.children, c),
                None => find_child(self@.children, c) == -1,
            },
    {
        proof {
            lemma_children_view(self.children@);
            lemma_find_child(self@.children, c);
        }
        let n = self.children.len();
        let mut j: usize = 0;
        while j < n
            invariant
                j <= n,
                n == self.children@.len(),
                forall|i: int| 0 <= i < j ==> (#[trigger] self@.children[i]).0 != c,
                self@.children.len() == n,
                forall|i: int|
                    0 <= i < n ==> (#[trigger] self@.children[i]).0 == self.children@[i].0,
            decreases n - j,
        {
            if self.children[j].0 == c {
                proof {
                    lemma_find_child(self@.children, c);
                    assert(self@.children[j as int].0 == c);
                    let r = find_child(self@.children, c);
                    if 0 <= r < j {
                        assert(self@.children[r].0 != c);
                    }
                    if r > j {
                        assert(self@.children[j as int].0 != c);
                    }
                }
                return Some(j);
            }
            j += 1;
        }
        proof {
            lemma_find_child(self@.children, c);
        }
        None
    }

    /// Retrieves the node at `key`, walking one child per character; `None`
    /// when some character of `key` has no child. The empty key names this
    /// node itself, whether or not it holds paths.
    pub fn get(&self, key: &str) -> (r: Option<&Node>)
        ensures
            match r {
                Some(n) => self@.get(key@) == Some(n@),
                None => self@.get(key@) is None,
            },
    {
        let n = key.unicode_len();
        let mut cur: &Node = self;
        let mut i: usize = 0;
        proof {
            assert(key@.skip(0) =~= key@);
        }
        while i < n
            invariant
                i <= n,
                n == key@.len(),
                self@.get(key@) == cur@.get(key@.skip(i as int)),
            decreases n - i,
        {
            let c = key.get_char(i);
            let ghost rest = key@.skip(i as int);
            proof {
                assert(rest.len() > 0);
                assert(rest[0] == c);
            }
            match cur.find_child_idx(c) {
                Some(j) => {
                    proof {
                        lemma_find_child(cur@.children, c);
                        lemma_children_view(cur.children@);
                        assert(rest.drop_first() =~= key@.skip(i as int + 1));
                    }
                    cur = &cur.children[j].1;
                },
                None => {
                    return None;
                },
            }
            i += 1;
        }
        proof {
            assert(key@.skip(n as int) =~= Seq::<char>::empty());
        }
        Some(cur)
    }

    fn insert_rec(&mut self, key: &Vec<char>, depth: usize, value: String)
        requires
            depth <= key@.len(),
        ensures
            final(self)@ == old(self)@.insert(key@.skip(depth as int), value@),
        decreases key@.len() - depth,
    {
        let ghost rest = key@.skip(depth as int);
        if depth == key.len() {
            self.paths.push(value);
            proof {
                assert(rest.len() == 0);
                assert(self.paths.deep_view() =~= old(self).paths.deep_view().push(value@));
                assert(self@ =~= old(self)@.insert(rest, value@));
            }
        } else {
            let c = key[depth];
            proof {
                assert(rest.len() > 0);
                assert(rest[0] == c);
                assert(rest.drop_first() =~= key@.skip(depth as int + 1));
            }
            match self.find_child_idx(c) {
                Some(j) => {
                    proof {
                        lemma_find_child(self@.children, c);
                        lemma_children_view(self.children@);
                    }
                    let (ch, mut child) = self.children.remove(j);
                    let ghost mid = *self;
                    child.insert_rec(key, depth + 1, value);
                    self.children.insert(j, (ch, child));
                    proof {
                        lemma_children_view(mid.children@);
                        lemma_children_view(self.children@);
                        assert(self.children@ =~= old(self).children@.update(
                            j as int,
                            (c, child),
                        ));
                        assert(self@.children =~= old(self)@.children.update(
                            j as int,
                            (c, child@),
                        ));
                        assert(self@ =~= old(self)@.insert(rest, value@));
                    }
                },
                None => {
                    let mut child = Node::new();
                    child.insert_rec(key, depth + 1, value);
                    self.children.push((c, child));
                    proof {
                        lemma_children_view(old(self).children@);
                        lemma_children_view(self.children@);
                        assert(self.children@ =~= old(self).children@.push((c, child)));
                        assert(self@.children =~= old(self)@.children.push((c, child@)));
                        assert(self@ =~= old(self)@.insert(rest, value@));
                    }
                },
            }
        }
    }

    /// Inserts `value` at `key`: walks or creates one child per character of
    /// `key` and appends `value` to the terminal node's paths. Duplicate
    /// `(key, value)` pairs are both retained; insertion never prunes.
    pub fn insert(&mut self, key: &str, value: String)
        ensures
            final(self)@ == old(self)@.insert(key@, value@),
    {
        let kv = chars_of(key);
        proof {
            assert(kv@.skip(0) =~= key@);
        }
        self.insert_rec(&kv, 0, value);
    }

    fn delete_rec(&mut self, key: &Vec<char>, depth: usize) -> (rm: bool)
        requires
            depth <= key@.len(),
        ensures
            final(self)@ == old(self)@.delete(key@.skip(depth as int)).0,
            rm == old(self)@.delete(key@.skip(depth as int)).1,
        decreases key@.len() - depth,
    {
        let ghost rest = key@.skip(depth as int);
        if depth == key.len() {
            self.paths.clear();
            proof {
                assert(rest.len() == 0);
                assert(self.paths.deep_view() =~= Seq::<Seq<char>>::empty());
                assert(self@ =~= old(self)@.delete(rest).0);
                lemma_children_view(self.children@);
                assert(self@.children.len() == self.children@.len());
            }
            self.children.len() == 0
        } else {
            let c = key[depth];
            proof {
                assert(rest.len() > 0);
                assert(rest[0] == c);
                assert(rest.drop_first() =~= key@.skip(depth as int + 1));
            }
            match self.find_child_idx(c) {
                Some(j) => {
                    proof {
                        lemma_find_child(self@.children, c);
                        lemma_children_view(self.children@);
                    }
                    let (ch, mut child) = self.children.remove(j);
                    let rm_child = child.delete_rec(key, depth + 1);
                    if rm_child {
                        proof {
                            lemma_children_view(self.children@);
                            assert(self.children@ =~= old(self).children@.remove(j as int));
                            assert(self@.children =~= old(self)@.children.remove(j as int));
                            assert(self@ =~= old(self)@.delete(rest).0);
                            assert(self@.children.len() == self.children@.len());
                            assert(self@.paths.len() == self.paths@.len());
                        }
                        self.paths.len() == 0 && self.children.len() == 0
                    } else {
                        self.children.insert(j, (ch, child));
                        proof {
                            lemma_children_view(self.children@);
                            assert(self.children@ =~= old(self).children@.update(
                                j as int,
                                (c, child),
                            ));
                            assert(self@.children =~= old(self)@.children.update(
                                j as int,
                                (c, child@),
                            ));
                            assert(self@ =~= old(self)@.delete(rest).0);
                        }
                        false
                    }
                },
                None => {
                    proof {
                        lemma_find_child(self@.children, c);
                    }
                    false
                },
            }
        }
    }

    /// Deletes `key`: clears the paths at the node for `key`, then prunes
    /// every ancestor on the walked chain that is left with no other children
    /// and no paths, stopping at the first node still holding state. The root
    /// itself is never pruned.
    pub fn delete(&mut self, key: &str)
        ensures
            final(self)@ == old(self)@.delete(key@).0,
    {
        let kv = chars_of(key);
        proof {
            assert(kv@.skip(0) =~= key@);
        }
        self.delete_rec(&kv, 0);
    }

    /// Total number of nodes in this tree, the root included: a pure memory
    /// signal ("is an index loaded"), not a file count. The count of a tree
    /// held in memory fits in `usize`.
    pub fn len(&self) -> (r: usize)
        requires
            self@.count() <= usize::MAX,
        ensures
            r == self@.count(),
        decreases *self,
    {
        proof {
            lemma_children_view(self.children@);
        }
        let ghost cs = self@.children;
        let n = self.children.len();
        let mut total: usize = 1;
        let mut i: usize = 0;
        proof {
            assert(cs.take(0) =~= Seq::<(char, NodeView)>::empty());
        }
        while i < n
            invariant
                i <= n,
                n == self.children@.len(),
                cs == self@.children,
                cs.len() == n,
                self@.count() <= usize::MAX,
                total == 1 + count_children(cs.take(i as int)),
            decreases n - i,
        {
            proof {
                lemma_children_view(self.children@);
                lemma_count_children_take_step(cs, i as int);
                lemma_count_children_take_le(cs, i as int + 1);
                assert(cs[i as int].1 == self.children@[i as int].1@);
                assert(cs[i as int].1.count() <= count_children(cs));
            }
            let c = self.children[i].1.len();
            total = total + c;
            i += 1;
        }
        proof {
            assert(cs.take(n as int) =~= cs);
        }
        total
    }

    /// The children of this node.
    pub fn groups(&self) -> (r: &Vec<(char, Node)>)
        ensures
            r == &self.children,
    {
        &self.children
    }

    /// The paths stored at this node, in insertion order.
    pub fn val(&self) -> (r: &Vec<String>)
        ensures
            r == &self.paths,
            r.deep_view() == self@.paths,
    {
        &self.paths
    }

    /// Drops all children and paths; used before every rebuild and as the
    /// "unloaded" marker.
    pub fn clear(&mut self)
        ensures
            final(self)@ == NodeView::empty(),
            final(self)@.wf(),
    {
        self.children.clear();
        self.paths.clear();
        proof {
            assert(self@ =~= NodeView::empty());
        }
    }

    /// True iff this node holds no children and no paths.
    pub fn is_empty(&self) -> (r: bool)
        ensures
            r == self@.is_empty(),
    {
        proof {
            lemma_children_view(self.children@);
        }
        self.children.len() == 0 && self.paths.len() == 0
    }
}

} // verus!
