//! The ordered iterator.
//!
//! A one-shot in-order walk over a snapshot of the tree taken when the
//! iterator was built.  The state is a stack of branches whose left
//! subtrees have already been visited; on each step the top branch yields
//! its pair, resolving a spilled value from the SSTable its node points
//! at, and its right subtree's leftmost spine is pushed.

use vstd::prelude::*;

use crate::codec::Storable;
use crate::keys::StoreKey;
use crate::node::Entry;
use crate::node::Node;
use crate::sstable::Sstable;
use crate::sstable::pairs_lookup;

verus! {

/// The entries a stack of branches still has to yield: for each node from
/// the top of the stack down, its own entry and then its right subtree.
pub open spec fn stack_entries<K: StoreKey, V: Storable>(st: Seq<Node<K, V>>) -> Seq<Entry<K, V>>
    decreases st.len(),
{
    if st.len() == 0 {
        Seq::empty()
    } else {
        (seq![st.last().entry()] + st.last().spec_right().inorder()) + stack_entries(
            st.drop_last(),
        )
    }
}

/// The leftmost spine of a subtree as it is pushed on the stack: the node
/// itself (its already-visited left side replaced by a leaf), then the
/// spine of its left child, so the leftmost branch ends on top.
pub open spec fn left_spine<K: StoreKey, V: Storable>(node: Node<K, V>) -> Seq<Node<K, V>>
    decreases node,
{
    match node {
        Node::Leaf => Seq::empty(),
        Node::Branch { key, value, sstable_number, left, right, balance_factor } => {
            seq![
                Node::Branch {
                    key,
                    value,
                    sstable_number,
                    left: Box::new(Node::Leaf),
                    right,
                    balance_factor,
                },
            ] + left_spine(*left)
        },
    }
}

/// A one-shot in-order iterator over a snapshot of an LSM tree.
pub struct LsmTreeIterator<K: StoreKey, V: Storable> {
    stack: Vec<Node<K, V>>,
    id: String,
    tables: Vec<Sstable>,
    contents: Ghost<Seq<(<K as DeepView>::V, <V as DeepView>::V)>>,
}

impl<K: StoreKey, V: Storable> View for LsmTreeIterator<K, V> {
    type V = Seq<(<K as DeepView>::V, <V as DeepView>::V)>;

    closed spec fn view(&self) -> Seq<(<K as DeepView>::V, <V as DeepView>::V)> {
        self.contents@
    }
}

impl<K: StoreKey, V: Storable> LsmTreeIterator<K, V> {
    /// The entries still to be yielded.
    pub closed spec fn remaining(self) -> Seq<Entry<K, V>> {
        stack_entries(self.stack@)
    }

    /// As in the tree's invariant: the entry at position `i` agrees with
    /// the pair at position `i`, and a spilled value is recoverable from
    /// its SSTable.
    pub closed spec fn entry_match(self, i: int) -> bool {
        let e = self.remaining()[i];
        let c = self.contents@[i];
        &&& c.0 == e.key
        &&& e.val is Some ==> (e.tab == 0 && e.val == Some(c.1))
        &&& e.val is None ==> (1 <= e.tab <= self.tables@.len() && exists|v: V|
            pairs_lookup((self.tables@[e.tab - 1]).pairs(), e.kenc) == Some(#[trigger] v.enc())
                && v.deep_view() == c.1)
    }

    /// The iterator's invariant.
    pub closed spec fn wf(self) -> bool {
        &&& forall|i: int|
            0 <= i < self.stack@.len() ==> (#[trigger] self.stack@[i]) is Branch && self.stack@[
                i].spec_right().wf()
        &&& self.contents@.len() == self.remaining().len()
        &&& forall|i: int| 0 <= i < self.contents@.len() ==> self.entry_match(i)
    }

    /// Build an iterator from a snapshot of a tree: its duplicated root,
    /// duplicated tables, identifier, and model.
    pub(crate) fn new(
        root: Node<K, V>,
        id: String,
        tables: Vec<Sstable>,
        Ghost(contents): Ghost<Seq<(<K as DeepView>::V, <V as DeepView>::V)>>,
    ) -> (it: LsmTreeIterator<K, V>)
        requires
            root.wf(),
            contents.len() == root.inorder().len(),
            forall|i: int|
                #![trigger root.inorder()[i]]
                0 <= i < contents.len() ==> {
                    let e = root.inorder()[i];
                    let c = contents[i];
                    &&& c.0 == e.key
                    &&& e.val is Some ==> (e.tab == 0 && e.val == Some(c.1))
                    &&& e.val is None ==> (1 <= e.tab <= tables@.len() && exists|v: V|
                        pairs_lookup((tables@[e.tab - 1]).pairs(), e.kenc) == Some(
                            #[trigger] v.enc(),
                        ) && v.deep_view() == c.1)
                },
        ensures
            it.wf(),
            it@ == contents,
            it.spec_id() == id@,
    {
        let mut stack: Vec<Node<K, V>> = Vec::new();
        proof {
            assert(stack_entries::<K, V>(stack@) =~= Seq::<Entry<K, V>>::empty());
        }
        Self::push_left(&mut stack, root);
        let it = LsmTreeIterator { stack, id, tables, contents: Ghost(contents) };
        proof {
            assert(it.remaining() =~= root.inorder());
            assert forall|i: int| 0 <= i < it.contents@.len() implies it.entry_match(i) by {
                assert(it.remaining()[i] == root.inorder()[i]);
            }
        }
        it
    }

    /// Push a subtree's leftmost spine: the node, then its left child, and
    /// so on down to the leftmost branch.
    pub(crate) fn push_left(stack: &mut Vec<Node<K, V>>, node: Node<K, V>)
        requires
            node.wf(),
            forall|i: int|
                0 <= i < old(stack)@.len() ==> (#[trigger] old(stack)@[i]) is Branch
                    && old(stack)@[i].spec_right().wf(),
        ensures
            forall|i: int|
                0 <= i < final(stack)@.len() ==> (#[trigger] final(stack)@[i]) is Branch
                    && final(stack)@[i].spec_right().wf(),
            stack_entries(final(stack)@) == node.inorder() + stack_entries(old(stack)@),
            final(stack)@ == old(stack)@ + left_spine(node),
        decreases node,
    {
        let ghost g_node = node;
        match node {
            Node::Leaf => {
                proof {
                    assert(g_node.inorder() + stack_entries(old(stack)@) =~= stack_entries(
                        old(stack)@,
                    ));
                    assert(old(stack)@ + left_spine(g_node) =~= old(stack)@);
                }
            },
            Node::Branch { key, value, sstable_number, left, right, balance_factor } => {
                let rest = *left;
                let this = Node::Branch {
                    key,
                    value,
                    sstable_number,
                    left: Box::new(Node::Leaf),
                    right,
                    balance_factor,
                };
                let ghost pre = stack@;
                stack.push(this);
                proof {
                    assert(stack@.last() == this);
                    assert(stack@.drop_last() =~= pre);
                    assert(this.entry() == g_node.entry());
                    assert(this.spec_right() == g_node.spec_right());
                    assert(stack_entries(stack@) == (seq![g_node.entry()]
                        + g_node.spec_right().inorder()) + stack_entries(pre));
                }
                Self::push_left(stack, rest);
                proof {
                    assert(stack_entries(stack@) =~= g_node.inorder() + stack_entries(pre));
                    assert(stack@ =~= pre + left_spine(g_node));
                }
            },
        }
    }

    /// The identifier of the tree this iterator is a snapshot of.
    pub closed spec fn spec_id(self) -> Seq<char> {
        self.id@
    }

    /// The identifier of the tree this iterator is a snapshot of.
    pub fn identifier(&self) -> (s: &String)
        ensures
            s@ == self.spec_id(),
    {
        &self.id
    }

    /// Yield the next pair in ascending key order, reading a spilled value
    /// back from its SSTable.
    pub fn next(&mut self) -> (r: Option<(K, V)>)
        requires
            old(self).wf(),
        ensures
            final(self).wf(),
            old(self)@.len() == 0 ==> r is None && final(self)@ == old(self)@,
            old(self)@.len() > 0 ==> (r matches Some(p) && p.0.deep_view() == old(self)@[0].0
                && p.1.deep_view() == old(self)@[0].1 && final(self)@ == old(self)@.drop_first()),
    {
        let ghost old_remaining = self.remaining();
        let ghost old_contents = self.contents@;
        if self.stack.len() == 0 {
            proof {
                assert(old_remaining.len() == 0);
            }
            return None;
        }
        proof {
            assert(self.stack@.last() is Branch);
            assert(old_remaining[0] == self.stack@.last().entry());
            assert(old(self).entry_match(0));
        }
        let popped = self.stack.pop();
        match popped {
            None => vstd::pervasive::unreached(),
            Some(node) => {
                let ghost g_node = node;
                let ghost rest = self.stack@;
                match node {
                    Node::Leaf => vstd::pervasive::unreached(),
                    Node::Branch { key, value, sstable_number, left: _, right, balance_factor: _,
                    } => {
                        let ghost e = g_node.entry();
                        let resolved: V = match value {
                            Some(v) => v,
                            None => {
                                proof {
                                    assert(e.val is None);
                                    assert(1 <= e.tab <= self.tables@.len());
                                    assert(e.tab == sstable_number);
                                }
                                let kenc = key.encode_key();
                                proof {
                                    assert(kenc@ == e.kenc);
                                }
                                let ghost v_w = choose|v: V|
                                    pairs_lookup(
                                        self.tables@[e.tab - 1].pairs(),
                                        e.kenc,
                                    ) == Some(#[trigger] v.enc()) && v.deep_view()
                                        == old_contents[0].1;
                                let found = self.tables[(sstable_number - 1) as usize].find_value(
                                    &kenc,
                                );
                                match found {
                                    Some(line_value) => {
                                        proof {
                                            assert(line_value@ == v_w.enc());
                                        }
                                        match V::decode(line_value.as_str()) {
                                            Some(v) => {
                                                proof {
                                                    assert(v.deep_view() == v_w.deep_view());
                                                }
                                                v
                                            },
                                            None => vstd::pervasive::unreached(),
                                        }
                                    },
                                    None => vstd::pervasive::unreached(),
                                }
                            },
                        };
                        Self::push_left(&mut self.stack, *right);
                        proof {
                            self.contents@ = old_contents.drop_first();
                            assert(old_remaining =~= (seq![e] + g_node.spec_right().inorder())
                                + stack_entries(rest));
                            assert(self.remaining() =~= g_node.spec_right().inorder()
                                + stack_entries(rest));
                            assert(self.remaining() =~= old_remaining.drop_first());
                            assert forall|i: int| 0 <= i < self.contents@.len() implies self
                                .entry_match(i) by {
                                assert(old(self).entry_match(i + 1));
                                assert(self.remaining()[i] == old_remaining[i + 1]);
                                assert(self.contents@[i] == old_contents[i + 1]);
                            }
                        }
                        Some((key, resolved))
                    },
                }
            },
        }
    }
}

} // verus!
