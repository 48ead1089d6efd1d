//! The AVL node algebra.
//!
//! A node is either the empty `Leaf` sentinel or a `Branch` carrying a key,
//! an optional resident payload, the number of the SSTable holding the
//! payload once it has spilled, two children and the AVL balance factor.
//!
//! The mathematical model of a subtree is its in-order sequence of entry
//! views ([`Node::inorder`]); well-formedness ([`Node::wf`]) demands the
//! binary-search ordering and that every balance factor equals the height
//! difference of the children and stays within `[-1, 1]`.

use vstd::prelude::*;

use crate::codec::Storable;
use crate::keys::KeyOrdering;
use crate::keys::StoreKey;
use crate::sstable::Sstable;
use crate::sstable::colon_free;
use crate::sstable::lemma_split_line;
use crate::sstable::line_of;
use crate::sstable::split_colon;

verus! {

/// The spec-level image of one branch: deep views and line encodings of its
/// key and (optional) resident value, and the routing pointer.
pub struct EntryView<KV, VV> {
    /// Deep view of the key.
    pub key: KV,
    /// Line encoding of the key.
    pub kenc: Seq<char>,
    /// Deep view of the resident value, if any.
    pub val: Option<VV>,
    /// Line encoding of the resident value, if any.
    pub venc: Option<Seq<char>>,
    /// SSTable number holding the payload; `0` while the payload is
    /// resident.
    pub tab: u8,
}

/// Shorthand for the entry view of a tree keyed by `K` with values `V`.
pub type Entry<K, V> = EntryView<<K as DeepView>::V, <V as DeepView>::V>;

pub enum Node<K, V> {
    Leaf,
    Branch {
        key: K,
        value: Option<V>,
        sstable_number: u8,
        left: Box<Node<K, V>>,
        right: Box<Node<K, V>>,
        balance_factor: i8,
    },
}

/// All keys of `s` come strictly before `k`.
pub open spec fn all_lt<K: StoreKey, VV>(s: Seq<EntryView<K::V, VV>>, k: K::V) -> bool {
    forall|i: int| 0 <= i < s.len() ==> K::key_lt((#[trigger] s[i]).key, k)
}

/// All keys of `s` come strictly after `k`.
pub open spec fn all_gt<K: StoreKey, VV>(s: Seq<EntryView<K::V, VV>>, k: K::V) -> bool {
    forall|i: int| 0 <= i < s.len() ==> K::key_lt(k, (#[trigger] s[i]).key)
}

/// The first entry of `s` whose key is `k`.
pub open spec fn find_entry<KV, VV>(s: Seq<EntryView<KV, VV>>, k: KV) -> Option<
    EntryView<KV, VV>,
>
    decreases s.len(),
{
    if s.len() == 0 {
        None
    } else if s[0].key == k {
        Some(s[0])
    } else {
        find_entry(s.drop_first(), k)
    }
}

/// `s` with `e` inserted at its ordered position, unchanged if a key equal
/// to `e.key` is already present.
pub open spec fn insert_entry<K: StoreKey, VV>(
    s: Seq<EntryView<K::V, VV>>,
    e: EntryView<K::V, VV>,
) -> Seq<EntryView<K::V, VV>>
    decreases s.len(),
{
    if s.len() == 0 {
        seq![e]
    } else if K::key_lt(e.key, s[0].key) {
        seq![e] + s
    } else if e.key == s[0].key {
        s
    } else {
        seq![s[0]] + insert_entry::<K, VV>(s.drop_first(), e)
    }
}

/// Strictly ascending keys.
pub open spec fn sorted_by_key<K: StoreKey, VV>(s: Seq<EntryView<K::V, VV>>) -> bool {
    forall|i: int, j: int| 0 <= i < j < s.len() ==> K::key_lt(
        (#[trigger] s[i]).key,
        (#[trigger] s[j]).key,
    )
}

/// Searching a concatenation finds the left half's hit first.
pub proof fn lemma_find_entry_concat<KV, VV>(a: Seq<EntryView<KV, VV>>, b: Seq<EntryView<KV, VV>>, k: KV)
    ensures
        find_entry(a + b, k) == if find_entry(a, k) is Some {
            find_entry(a, k)
        } else {
            find_entry(b, k)
        },
    decreases a.len(),
{
    if a.len() == 0 {
        assert(a + b =~= b);
    } else {
        assert((a + b)[0] == a[0]);
        assert((a + b).drop_first() =~= a.drop_first() + b);
        lemma_find_entry_concat(a.drop_first(), b, k);
    }
}

/// A sequence without the key yields no hit.
pub proof fn lemma_find_entry_absent<KV, VV>(s: Seq<EntryView<KV, VV>>, k: KV)
    requires
        forall|i: int| 0 <= i < s.len() ==> (#[trigger] s[i]).key != k,
    ensures
        find_entry(s, k) is None,
    decreases s.len(),
{
    if s.len() > 0 {
        lemma_find_entry_absent(s.drop_first(), k);
    }
}

/// A hit is an entry of the sequence, bearing the key that was sought.
pub proof fn lemma_find_entry_some<KV, VV>(s: Seq<EntryView<KV, VV>>, k: KV)
    requires
        find_entry(s, k) is Some,
    ensures
        exists|i: int| 0 <= i < s.len() && s[i] == find_entry(s, k).unwrap(),
        find_entry(s, k).unwrap().key == k,
    decreases s.len(),
{
    if s.len() > 0 {
        if s[0].key == k {
            assert(s[0] == find_entry(s, k).unwrap());
        } else {
            lemma_find_entry_some(s.drop_first(), k);
            let i = choose|i: int|
                0 <= i < s.drop_first().len() && s.drop_first()[i] == find_entry(
                    s.drop_first(),
                    k,
                ).unwrap();
            assert(s[i + 1] == find_entry(s, k).unwrap());
        }
    }
}

/// Inserting past a prefix of strictly smaller keys skips the prefix.
pub proof fn lemma_insert_entry_prefix<K: StoreKey, VV>(
    pre: Seq<EntryView<K::V, VV>>,
    rest: Seq<EntryView<K::V, VV>>,
    e: EntryView<K::V, VV>,
)
    requires
        all_lt::<K, VV>(pre, e.key),
    ensures
        insert_entry::<K, VV>(pre + rest, e) == pre + insert_entry::<K, VV>(rest, e),
    decreases pre.len(),
{
    if pre.len() == 0 {
        assert(pre + rest =~= rest);
        assert(pre + insert_entry::<K, VV>(rest, e) =~= insert_entry::<K, VV>(rest, e));
    } else {
        let h = pre[0];
        assert(!K::key_lt(e.key, h.key)) by {
            if K::key_lt(e.key, h.key) {
                K::lemma_key_lt_properties(e.key, h.key, e.key);
                K::lemma_key_lt_properties(e.key, e.key, e.key);
            }
        }
        assert(e.key != h.key) by {
            if e.key == h.key {
                K::lemma_key_lt_properties(h.key, h.key, h.key);
            }
        }
        assert((pre + rest)[0] == h);
        assert((pre + rest).drop_first() =~= pre.drop_first() + rest);
        lemma_insert_entry_prefix::<K, VV>(pre.drop_first(), rest, e);
        assert(insert_entry::<K, VV>(pre + rest, e) =~= pre + insert_entry::<K, VV>(rest, e));
    }
}

/// Inserting a key that stops before `rest` only touches the left part.
pub proof fn lemma_insert_entry_left<K: StoreKey, VV>(
    l: Seq<EntryView<K::V, VV>>,
    rest: Seq<EntryView<K::V, VV>>,
    e: EntryView<K::V, VV>,
)
    requires
        rest.len() > 0,
        K::key_lt(e.key, rest[0].key),
    ensures
        insert_entry::<K, VV>(l + rest, e) == insert_entry::<K, VV>(l, e) + rest,
    decreases l.len(),
{
    if l.len() == 0 {
        assert(l + rest =~= rest);
        assert(insert_entry::<K, VV>(l, e) =~= seq![e]);
        assert(insert_entry::<K, VV>(rest, e) =~= seq![e] + rest);
    } else {
        assert((l + rest)[0] == l[0]);
        if K::key_lt(e.key, l[0].key) {
            assert(insert_entry::<K, VV>(l + rest, e) =~= (seq![e] + l) + rest);
            assert(insert_entry::<K, VV>(l, e) + rest =~= (seq![e] + l) + rest);
        } else if e.key == l[0].key {
        } else {
            assert((l + rest).drop_first() =~= l.drop_first() + rest);
            lemma_insert_entry_left::<K, VV>(l.drop_first(), rest, e);
            assert(insert_entry::<K, VV>(l + rest, e) =~= insert_entry::<K, VV>(l, e) + rest);
        }
    }
}

/// Insertion keeps an upper bound on the keys.
pub proof fn lemma_insert_entry_all_lt<K: StoreKey, VV>(
    s: Seq<EntryView<K::V, VV>>,
    e: EntryView<K::V, VV>,
    k: K::V,
)
    requires
        all_lt::<K, VV>(s, k),
        K::key_lt(e.key, k),
    ensures
        all_lt::<K, VV>(insert_entry::<K, VV>(s, e), k),
    decreases s.len(),
{
    if s.len() == 0 {
    } else if K::key_lt(e.key, s[0].key) {
    } else if e.key == s[0].key {
    } else {
        assert(forall|i: int| 0 <= i < s.drop_first().len() ==> K::key_lt(
            (#[trigger] s.drop_first()[i]).key,
            k,
        ));
        lemma_insert_entry_all_lt::<K, VV>(s.drop_first(), e, k);
    }
}

/// Insertion keeps a lower bound on the keys.
pub proof fn lemma_insert_entry_all_gt<K: StoreKey, VV>(
    s: Seq<EntryView<K::V, VV>>,
    e: EntryView<K::V, VV>,
    k: K::V,
)
    requires
        all_gt::<K, VV>(s, k),
        K::key_lt(k, e.key),
    ensures
        all_gt::<K, VV>(insert_entry::<K, VV>(s, e), k),
    decreases s.len(),
{
    if s.len() == 0 {
    } else if K::key_lt(e.key, s[0].key) {
    } else if e.key == s[0].key {
    } else {
        assert(forall|i: int| 0 <= i < s.drop_first().len() ==> K::key_lt(
            k,
            (#[trigger] s.drop_first()[i]).key,
        ));
        lemma_insert_entry_all_gt::<K, VV>(s.drop_first(), e, k);
    }
}



/// An upper key bound splits over concatenation.
pub proof fn lemma_all_lt_concat<K: StoreKey, VV>(
    a: Seq<EntryView<K::V, VV>>,
    b: Seq<EntryView<K::V, VV>>,
    k: K::V,
)
    ensures
        all_lt::<K, VV>(a + b, k) <==> (all_lt::<K, VV>(a, k) && all_lt::<K, VV>(b, k)),
{
    if all_lt::<K, VV>(a + b, k) {
        assert forall|i: int| 0 <= i < a.len() implies K::key_lt((#[trigger] a[i]).key, k) by {
            assert((a + b)[i] == a[i]);
        }
        assert forall|i: int| 0 <= i < b.len() implies K::key_lt((#[trigger] b[i]).key, k) by {
            assert((a + b)[a.len() + i] == b[i]);
        }
    }
    if all_lt::<K, VV>(a, k) && all_lt::<K, VV>(b, k) {
        assert forall|i: int| 0 <= i < (a + b).len() implies K::key_lt(
            (#[trigger] (a + b)[i]).key,
            k,
        ) by {
            if i < a.len() {
                assert((a + b)[i] == a[i]);
            } else {
                assert((a + b)[i] == b[i - a.len()]);
            }
        }
    }
}

/// A lower key bound splits over concatenation.
pub proof fn lemma_all_gt_concat<K: StoreKey, VV>(
    a: Seq<EntryView<K::V, VV>>,
    b: Seq<EntryView<K::V, VV>>,
    k: K::V,
)
    ensures
        all_gt::<K, VV>(a + b, k) <==> (all_gt::<K, VV>(a, k) && all_gt::<K, VV>(b, k)),
{
    if all_gt::<K, VV>(a + b, k) {
        assert forall|i: int| 0 <= i < a.len() implies K::key_lt(k, (#[trigger] a[i]).key) by {
            assert((a + b)[i] == a[i]);
        }
        assert forall|i: int| 0 <= i < b.len() implies K::key_lt(k, (#[trigger] b[i]).key) by {
            assert((a + b)[a.len() + i] == b[i]);
        }
    }
    if all_gt::<K, VV>(a, k) && all_gt::<K, VV>(b, k) {
        assert forall|i: int| 0 <= i < (a + b).len() implies K::key_lt(
            k,
            (#[trigger] (a + b)[i]).key,
        ) by {
            if i < a.len() {
                assert((a + b)[i] == a[i]);
            } else {
                assert((a + b)[i] == b[i - a.len()]);
            }
        }
    }
}

/// An upper key bound weakens to any larger bound.
pub proof fn lemma_all_lt_trans<K: StoreKey, VV>(s: Seq<EntryView<K::V, VV>>, k1: K::V, k2: K::V)
    requires
        all_lt::<K, VV>(s, k1),
        K::key_lt(k1, k2),
    ensures
        all_lt::<K, VV>(s, k2),
{
    assert forall|i: int| 0 <= i < s.len() implies K::key_lt((#[trigger] s[i]).key, k2) by {
        K::lemma_key_lt_properties(s[i].key, k1, k2);
    }
}

/// A lower key bound weakens to any smaller bound.
pub proof fn lemma_all_gt_trans<K: StoreKey, VV>(s: Seq<EntryView<K::V, VV>>, k1: K::V, k2: K::V)
    requires
        all_gt::<K, VV>(s, k2),
        K::key_lt(k1, k2),
    ensures
        all_gt::<K, VV>(s, k1),
{
    assert forall|i: int| 0 <= i < s.len() implies K::key_lt(k1, (#[trigger] s[i]).key) by {
        K::lemma_key_lt_properties(k1, k2, s[i].key);
    }
}

impl<K: StoreKey, V: Storable> Node<K, V> {
    /// Height of the subtree: a leaf has height zero.
    pub open spec fn height(self) -> nat
        decreases self,
    {
        match self {
            Node::Leaf => 0,
            Node::Branch { left, right, .. } => 1 + if left.height() >= right.height() {
                left.height()
            } else {
                right.height()
            },
        }
    }

    /// The entry view of a branch.
    pub open spec fn entry(self) -> Entry<K, V>
        recommends
            self is Branch,
    {
        match self {
            Node::Leaf => arbitrary(),
            Node::Branch { key, value, sstable_number, .. } => EntryView {
                key: key.deep_view(),
                kenc: key.enc(),
                val: value.deep_view(),
                venc: match value {
                    Some(v) => Some(v.enc()),
                    None => None,
                },
                tab: sstable_number,
            },
        }
    }

    /// In-order sequence of entry views: the subtree's model.
    pub open spec fn inorder(self) -> Seq<Entry<K, V>>
        decreases self,
    {
        match self {
            Node::Leaf => Seq::empty(),
            Node::Branch { left, right, .. } => left.inorder() + seq![self.entry()]
                + right.inorder(),
        }
    }

    /// Balance factor at the top of the subtree.
    pub open spec fn top_bf(self) -> int {
        match self {
            Node::Leaf => 0,
            Node::Branch { balance_factor, .. } => balance_factor as int,
        }
    }

    /// The left child of a branch.
    pub open spec fn spec_left(self) -> Node<K, V>
        recommends
            self is Branch,
    {
        match self {
            Node::Leaf => Node::Leaf,
            Node::Branch { left, .. } => *left,
        }
    }

    /// The right child of a branch.
    pub open spec fn spec_right(self) -> Node<K, V>
        recommends
            self is Branch,
    {
        match self {
            Node::Leaf => Node::Leaf,
            Node::Branch { right, .. } => *right,
        }
    }

    /// Well-formed AVL subtree: binary-search ordering, and every balance
    /// factor equals the height difference of its children and stays within
    /// `[-1, 1]`.
    pub open spec fn wf(self) -> bool
        decreases self,
    {
        match self {
            Node::Leaf => true,
            Node::Branch { key, left, right, balance_factor, .. } => {
                &&& left.wf()
                &&& right.wf()
                &&& all_lt::<K, V::V>(left.inorder(), key.deep_view())
                &&& all_gt::<K, V::V>(right.inorder(), key.deep_view())
                &&& balance_factor as int == right.height() - left.height()
                &&& -1 <= balance_factor as int <= 1
            },
        }
    }

    /// A branch whose children are well formed and ordered, but whose own
    /// balance factor may have drifted to `-2` or `2` during an insertion.
    pub open spec fn pre_balance(self) -> bool {
        match self {
            Node::Leaf => false,
            Node::Branch { key, left, right, balance_factor, .. } => {
                &&& left.wf()
                &&& right.wf()
                &&& all_lt::<K, V::V>(left.inorder(), key.deep_view())
                &&& all_gt::<K, V::V>(right.inorder(), key.deep_view())
                &&& balance_factor as int == right.height() - left.height()
                &&& -2 <= balance_factor as int <= 2
            },
        }
    }

    /// Balance factor of the entry bearing the given key, by binary-search
    /// descent.
    pub open spec fn spec_bf_of(self, k: K::V) -> Option<i8>
        decreases self,
    {
        match self {
            Node::Leaf => None,
            Node::Branch { key, left, right, balance_factor, .. } => {
                if K::key_lt(k, key.deep_view()) {
                    left.spec_bf_of(k)
                } else if k == key.deep_view() {
                    Some(balance_factor)
                } else {
                    right.spec_bf_of(k)
                }
            },
        }
    }

    /// A well-formed subtree's model has strictly ascending keys.
    pub proof fn lemma_wf_sorted(self)
        requires
            self.wf(),
        ensures
            sorted_by_key::<K, V::V>(self.inorder()),
        decreases self,
    {
        match self {
            Node::Leaf => {},
            Node::Branch { key, left, right, .. } => {
                left.lemma_wf_sorted();
                right.lemma_wf_sorted();
                let l = left.inorder();
                let r = right.inorder();
                let s = self.inorder();
                let ll = l.len() as int;
                assert forall|i: int, j: int| 0 <= i < j < s.len() implies K::key_lt(
                    (#[trigger] s[i]).key,
                    (#[trigger] s[j]).key,
                ) by {
                    if i < ll {
                        assert(s[i] == l[i]);
                        if j < ll {
                            assert(s[j] == l[j]);
                        } else if j == ll {
                            assert(s[j] == self.entry());
                        } else {
                            assert(s[j] == r[j - ll - 1]);
                            K::lemma_key_lt_properties(s[i].key, key.deep_view(), s[j].key);
                        }
                    } else if i == ll {
                        assert(s[i] == self.entry());
                        assert(s[j] == r[j - ll - 1]);
                    } else {
                        assert(s[i] == r[i - ll - 1]);
                        assert(s[j] == r[j - ll - 1]);
                    }
                }
            },
        }
    }

    /// Standard binary-search descent; on a hit, reports the resident value
    /// (when the routing pointer is `0`) or the routing pointer alone.
    pub(crate) fn get(&self, target_key: &K) -> (res: (Option<V>, u8))
        requires
            self.wf(),
        ensures
            ({
                let f = find_entry(self.inorder(), target_key.deep_view());
                match f {
                    None => res.0 is None && res.1 == 0,
                    Some(e) => {
                        &&& res.1 == e.tab
                        &&& e.tab == 0 ==> ((res.0 is Some <==> e.val is Some) && (res.0 is Some
                            ==> res.0.unwrap().deep_view() == e.val.unwrap()
                            && res.0.unwrap().enc() == e.venc.unwrap()))
                        &&& e.tab != 0 ==> res.0 is None
                    },
                }
            }),
        decreases self,
    {
        match self {
            Node::Leaf => (None, 0),
            Node::Branch { key, value, sstable_number, left, right, .. } => {
                proof {
                    self.lemma_wf_sorted();
                }
                let ghost s = self.inorder();
                let ghost l = left.inorder();
                let ghost r = right.inorder();
                let ghost kv = target_key.deep_view();
                proof {
                    lemma_find_entry_concat(
                        l + seq![self.entry()],
                        r,
                        kv,
                    );
                    lemma_find_entry_concat(l, seq![self.entry()], kv);
                    assert(s =~= (l + seq![self.entry()]) + r);
                }
                match target_key.key_cmp(key) {
                    KeyOrdering::Equal => {
                        proof {
                            assert forall|i: int| 0 <= i < l.len() implies (#[trigger] l[i]).key
                                != kv by {
                                if l[i].key == kv {
                                    K::lemma_key_lt_properties(kv, kv, kv);
                                }
                            }
                            lemma_find_entry_absent(l, kv);
                            assert(find_entry(seq![self.entry()], kv) == Some(self.entry()));
                        }
                        if *sstable_number == 0 {
                            match value {
                                Some(v) => (Some(v.dup()), 0),
                                None => (None, 0),
                            }
                        } else {
                            (None, *sstable_number)
                        }
                    },
                    KeyOrdering::Less => {
                        proof {
                            assert(self.entry().key != kv) by {
                                if self.entry().key == kv {
                                    K::lemma_key_lt_properties(kv, kv, kv);
                                }
                            }
                            assert forall|i: int| 0 <= i < r.len() implies (#[trigger] r[i]).key
                                != kv by {
                                if r[i].key == kv {
                                    K::lemma_key_lt_properties(kv, key.deep_view(), r[i].key);
                                    K::lemma_key_lt_properties(kv, kv, kv);
                                }
                            }
                            lemma_find_entry_absent(seq![self.entry()], kv);
                            lemma_find_entry_absent(r, kv);
                        }
                        left.get(target_key)
                    },
                    KeyOrdering::Greater => {
                        proof {
                            assert(self.entry().key != kv) by {
                                if self.entry().key == kv {
                                    K::lemma_key_lt_properties(kv, kv, kv);
                                }
                            }
                            assert forall|i: int| 0 <= i < l.len() implies (#[trigger] l[i]).key
                                != kv by {
                                if l[i].key == kv {
                                    K::lemma_key_lt_properties(l[i].key, key.deep_view(), kv);
                                    K::lemma_key_lt_properties(kv, kv, kv);
                                }
                            }
                            lemma_find_entry_absent(l, kv);
                            lemma_find_entry_absent(seq![self.entry()], kv);
                        }
                        right.get(target_key)
                    },
                }
            },
        }
    }

    /// Balance factor of the node bearing the given key, by binary-search
    /// descent.
    pub(crate) fn get_balance_factor(&self, target_key: &K) -> (res: Option<i8>)
        ensures
            res == self.spec_bf_of(target_key.deep_view()),
        decreases self,
    {
        match self {
            Node::Leaf => None,
            Node::Branch { key, left, right, balance_factor, .. } => {
                match target_key.key_cmp(key) {
                    KeyOrdering::Equal => {
                        proof {
                            let kv = target_key.deep_view();
                            K::lemma_key_lt_properties(kv, kv, kv);
                        }
                        Some(*balance_factor)
                    },
                    KeyOrdering::Less => left.get_balance_factor(target_key),
                    KeyOrdering::Greater => {
                        proof {
                            let kv = target_key.deep_view();
                            assert(!K::key_lt(kv, key.deep_view())) by {
                                if K::key_lt(kv, key.deep_view()) {
                                    K::lemma_key_lt_properties(
                                        kv,
                                        key.deep_view(),
                                        kv,
                                    );
                                    K::lemma_key_lt_properties(kv, kv, kv);
                                }
                            }
                            assert(kv != key.deep_view()) by {
                                if kv == key.deep_view() {
                                    K::lemma_key_lt_properties(kv, kv, kv);
                                }
                            }
                        }
                        right.get_balance_factor(target_key)
                    },
                }
            },
        }
    }

    /// The single left rotation as a function on trees: the right child
    /// `R` becomes the root, the old root `N` becomes its left child, and
    /// `R`'s left subtree moves under `N`.  Factors follow the insert-only
    /// rules: a non-zero `R` factor zeroes both; a zero `R` factor (which
    /// arises only inside the double-rotation decomposition) leaves `N` at
    /// `1` and `R` at `-1`.  No other node's factor changes.
    pub open spec fn spec_rotate_left(self) -> Node<K, V>
        recommends
            self is Branch,
            self.spec_right() is Branch,
    {
        match self {
            Node::Leaf => self,
            Node::Branch {
                key: n_key,
                value: n_val,
                sstable_number: n_tab,
                left: n_left,
                right,
                balance_factor: _,
            } => {
                match *right {
                    Node::Leaf => self,
                    Node::Branch {
                        key: r_key,
                        value: r_val,
                        sstable_number: r_tab,
                        left: r_left,
                        right: r_right,
                        balance_factor: r_bf,
                    } => Node::Branch {
                        key: r_key,
                        value: r_val,
                        sstable_number: r_tab,
                        left: Box::new(
                            Node::Branch {
                                key: n_key,
                                value: n_val,
                                sstable_number: n_tab,
                                left: n_left,
                                right: r_left,
                                balance_factor: if r_bf != 0 {
                                    0i8
                                } else {
                                    1i8
                                },
                            },
                        ),
                        right: r_right,
                        balance_factor: if r_bf != 0 {
                            0i8
                        } else {
                            -1i8
                        },
                    },
                }
            },
        }
    }

    /// The single right rotation as a function on trees: the mirror image
    /// of [`Node::spec_rotate_left`].
    pub open spec fn spec_rotate_right(self) -> Node<K, V>
        recommends
            self is Branch,
            self.spec_left() is Branch,
    {
        match self {
            Node::Leaf => self,
            Node::Branch {
                key: n_key,
                value: n_val,
                sstable_number: n_tab,
                left,
                right: n_right,
                balance_factor: _,
            } => {
                match *left {
                    Node::Leaf => self,
                    Node::Branch {
                        key: l_key,
                        value: l_val,
                        sstable_number: l_tab,
                        left: l_left,
                        right: l_right,
                        balance_factor: l_bf,
                    } => Node::Branch {
                        key: l_key,
                        value: l_val,
                        sstable_number: l_tab,
                        left: l_left,
                        right: Box::new(
                            Node::Branch {
                                key: n_key,
                                value: n_val,
                                sstable_number: n_tab,
                                left: l_right,
                                right: n_right,
                                balance_factor: if l_bf != 0 {
                                    0i8
                                } else {
                                    -1i8
                                },
                            },
                        ),
                        balance_factor: if l_bf != 0 {
                            0i8
                        } else {
                            1i8
                        },
                    },
                }
            },
        }
    }

    /// The double left rotation as a function on trees: the right child's
    /// left child `M` becomes the root, the old root takes `M`'s left
    /// subtree, the old right child takes `M`'s right subtree, and the
    /// factors follow `M`'s old lean: `-1` gives `(0, 1)`, `0` gives
    /// `(0, 0)`, `1` gives `(-1, 0)` for the new left and right children;
    /// the root ends at `0`.  No other node's factor changes.
    pub open spec fn spec_big_rotate_left(self) -> Node<K, V>
        recommends
            self is Branch,
            self.spec_right() is Branch,
            self.spec_right().spec_left() is Branch,
    {
        match self {
            Node::Leaf => self,
            Node::Branch {
                key: n_key,
                value: n_val,
                sstable_number: n_tab,
                left: n_left,
                right,
                balance_factor: _,
            } => {
                match *right {
                    Node::Leaf => self,
                    Node::Branch {
                        key: r_key,
                        value: r_val,
                        sstable_number: r_tab,
                        left: r_left,
                        right: r_right,
                        balance_factor: _,
                    } => {
                        match *r_left {
                            Node::Leaf => self,
                            Node::Branch {
                                key: m_key,
                                value: m_val,
                                sstable_number: m_tab,
                                left: m_left,
                                right: m_right,
                                balance_factor: m_bf,
                            } => Node::Branch {
                                key: m_key,
                                value: m_val,
                                sstable_number: m_tab,
                                left: Box::new(
                                    Node::Branch {
                                        key: n_key,
                                        value: n_val,
                                        sstable_number: n_tab,
                                        left: n_left,
                                        right: m_left,
                                        balance_factor: if m_bf == 1 {
                                            -1i8
                                        } else {
                                            0i8
                                        },
                                    },
                                ),
                                right: Box::new(
                                    Node::Branch {
                                        key: r_key,
                                        value: r_val,
                                        sstable_number: r_tab,
                                        left: m_right,
                                        right: r_right,
                                        balance_factor: if m_bf == -1 {
                                            1i8
                                        } else {
                                            0i8
                                        },
                                    },
                                ),
                                balance_factor: 0i8,
                            },
                        }
                    },
                }
            },
        }
    }

    /// The double right rotation as a function on trees: the mirror image
    /// of [`Node::spec_big_rotate_left`].
    pub open spec fn spec_big_rotate_right(self) -> Node<K, V>
        recommends
            self is Branch,
            self.spec_left() is Branch,
            self.spec_left().spec_right() is Branch,
    {
        match self {
            Node::Leaf => self,
            Node::Branch {
                key: n_key,
                value: n_val,
                sstable_number: n_tab,
                left,
                right: n_right,
                balance_factor: _,
            } => {
                match *left {
                    Node::Leaf => self,
                    Node::Branch {
                        key: l_key,
                        value: l_val,
                        sstable_number: l_tab,
                        left: l_left,
                        right: l_right,
                        balance_factor: _,
                    } => {
                        match *l_right {
                            Node::Leaf => self,
                            Node::Branch {
                                key: m_key,
                                value: m_val,
                                sstable_number: m_tab,
                                left: m_left,
                                right: m_right,
                                balance_factor: m_bf,
                            } => Node::Branch {
                                key: m_key,
                                value: m_val,
                                sstable_number: m_tab,
                                left: Box::new(
                                    Node::Branch {
                                        key: l_key,
                                        value: l_val,
                                        sstable_number: l_tab,
                                        left: l_left,
                                        right: m_left,
                                        balance_factor: if m_bf == 1 {
                                            -1i8
                                        } else {
                                            0i8
                                        },
                                    },
                                ),
                                right: Box::new(
                                    Node::Branch {
                                        key: n_key,
                                        value: n_val,
                                        sstable_number: n_tab,
                                        left: m_right,
                                        right: n_right,
                                        balance_factor: if m_bf == -1 {
                                            1i8
                                        } else {
                                            0i8
                                        },
                                    },
                                ),
                                balance_factor: 0i8,
                            },
                        }
                    },
                }
            },
        }
    }

    /// The rebalancing dispatch as a function on trees: `2` rotates left
    /// (single when the right child does not lean left, double otherwise),
    /// `-2` mirrors, and a factor already within `[-1, 1]` changes nothing.
    pub open spec fn spec_balance(self) -> Node<K, V> {
        if self.top_bf() == 2 {
            if self.spec_right().top_bf() >= 0 {
                self.spec_rotate_left()
            } else {
                self.spec_big_rotate_left()
            }
        } else if self.top_bf() == -2 {
            if self.spec_left().top_bf() <= 0 {
                self.spec_rotate_right()
            } else {
                self.spec_big_rotate_right()
            }
        } else {
            self
        }
    }

    /// The insertion algorithm as a function on trees: the new tree and
    /// whether its height grew.  An equal key returns the tree unchanged;
    /// otherwise the pair descends to its ordered position, the balance
    /// factor moves only while the grown side's height change climbs, and a
    /// factor drifted to `-2` or `2` is repaired by [`Node::spec_balance`].
    pub open spec fn spec_insert(self, new_key: K, new_value: V) -> (Node<K, V>, bool)
        decreases self,
    {
        match self {
            Node::Leaf => (
                Node::Branch {
                    key: new_key,
                    value: Some(new_value),
                    sstable_number: 0,
                    left: Box::new(Node::Leaf),
                    right: Box::new(Node::Leaf),
                    balance_factor: 0,
                },
                true,
            ),
            Node::Branch { key, value, sstable_number, left, right, balance_factor } => {
                if K::key_lt(new_key.deep_view(), key.deep_view()) {
                    let (new_left, climb) = left.spec_insert(new_key, new_value);
                    if !climb {
                        (
                            Node::Branch {
                                key,
                                value,
                                sstable_number,
                                left: Box::new(new_left),
                                right,
                                balance_factor,
                            },
                            false,
                        )
                    } else {
                        let new_bf = balance_factor as int - 1;
                        let node = Node::Branch {
                            key,
                            value,
                            sstable_number,
                            left: Box::new(new_left),
                            right,
                            balance_factor: new_bf as i8,
                        };
                        if new_bf == -2 {
                            (node.spec_balance(), false)
                        } else {
                            (node, new_bf != 0)
                        }
                    }
                } else if new_key.deep_view() == key.deep_view() {
                    (self, false)
                } else {
                    let (new_right, climb) = right.spec_insert(new_key, new_value);
                    if !climb {
                        (
                            Node::Branch {
                                key,
                                value,
                                sstable_number,
                                left,
                                right: Box::new(new_right),
                                balance_factor,
                            },
                            false,
                        )
                    } else {
                        let new_bf = balance_factor as int + 1;
                        let node = Node::Branch {
                            key,
                            value,
                            sstable_number,
                            left,
                            right: Box::new(new_right),
                            balance_factor: new_bf as i8,
                        };
                        if new_bf == 2 {
                            (node.spec_balance(), false)
                        } else {
                            (node, new_bf != 0)
                        }
                    }
                }
            },
        }
    }

    /// The spill as a function on trees: every payload moves out, a branch
    /// that held one takes the routing pointer `n`, a branch already routed
    /// keeps its earlier pointer, and shape, keys and balance factors stay
    /// exactly as they were.
    pub open spec fn spec_unload(self, n: u8) -> Node<K, V>
        decreases self,
    {
        match self {
            Node::Leaf => Node::Leaf,
            Node::Branch { key, value, sstable_number, left, right, balance_factor } => {
                Node::Branch {
                    key,
                    value: None,
                    sstable_number: if value is Some {
                        n
                    } else {
                        sstable_number
                    },
                    left: Box::new(left.spec_unload(n)),
                    right: Box::new(right.spec_unload(n)),
                    balance_factor,
                }
            },
        }
    }

    /// Single left rotation: the right child becomes the root.  Balance
    /// factors follow the insert-only AVL rules: a non-zero right balance
    /// factor means the rotation leaves the subtree one level lower.
    pub(crate) fn rotate_left(self) -> (res: Node<K, V>)
        requires
            self.pre_balance(),
            self.top_bf() == 2,
            self.spec_right().top_bf() >= 0,
        ensures
            res.wf(),
            res.inorder() == self.inorder(),
            self.spec_right().top_bf() == 0 ==> res.height() == self.height() && res.top_bf()
                == -1,
            self.spec_right().top_bf() != 0 ==> res.height() + 1 == self.height() && res.top_bf()
                == 0,
            res == self.spec_rotate_left(),
    {
        let ghost gs = self;
        match self {
            Node::Leaf => vstd::pervasive::unreached(),
            Node::Branch {
                key: n_key,
                value: n_val,
                sstable_number: n_tab,
                left: n_left,
                right,
                balance_factor: _,
            } => {
                let ghost g_right = *right;
                match *right {
                    Node::Leaf => vstd::pervasive::unreached(),
                    Node::Branch {
                        key: r_key,
                        value: r_val,
                        sstable_number: r_tab,
                        left: r_left,
                        right: r_right,
                        balance_factor: r_bf,
                    } => {
                        let new_n = Node::Branch {
                            key: n_key,
                            value: n_val,
                            sstable_number: n_tab,
                            left: n_left,
                            right: r_left,
                            balance_factor: if r_bf != 0 { 0 } else { 1 },
                        };
                        let res = Node::Branch {
                            key: r_key,
                            value: r_val,
                            sstable_number: r_tab,
                            left: Box::new(new_n),
                            right: r_right,
                            balance_factor: if r_bf != 0 { 0 } else { -1 },
                        };
                        proof {
                            let nl = gs.spec_left().inorder();
                            let rl = g_right.spec_left().inorder();
                            let rr = g_right.spec_right().inorder();
                            let nk = gs.entry().key;
                            let rk = g_right.entry().key;
                            // decompose the bound on the old right subtree
                            lemma_all_gt_concat::<K, V::V>(
                                rl + seq![g_right.entry()],
                                rr,
                                nk,
                            );
                            lemma_all_gt_concat::<K, V::V>(rl, seq![g_right.entry()], nk);
                            assert(g_right.inorder() =~= (rl + seq![g_right.entry()]) + rr);
                            assert(K::key_lt(nk, rk)) by {
                                assert(seq![g_right.entry()][0] == g_right.entry());
                            }
                            // new left node is bounded above by the new root key
                            lemma_all_lt_trans::<K, V::V>(nl, nk, rk);
                            assert(all_lt::<K, V::V>(seq![gs.entry()], rk)) by {
                                assert(seq![gs.entry()][0] == gs.entry());
                            }
                            lemma_all_lt_concat::<K, V::V>(nl, seq![gs.entry()], rk);
                            lemma_all_lt_concat::<K, V::V>(nl + seq![gs.entry()], rl, rk);
                            assert(new_n.inorder() =~= (nl + seq![gs.entry()]) + rl);
                            assert(new_n.entry() == gs.entry());
                            assert(res.entry() == g_right.entry());
                            assert(res.inorder() =~= gs.inorder());
                            assert(new_n.wf());
                            assert(res.wf());
                            assert(res == gs.spec_rotate_left());
                        }
                        res
                    },
                }
            },
        }
    }

    /// Single right rotation: the mirror image of [`Node::rotate_left`].
    pub(crate) fn rotate_right(self) -> (res: Node<K, V>)
        requires
            self.pre_balance(),
            self.top_bf() == -2,
            self.spec_left().top_bf() <= 0,
        ensures
            res.wf(),
            res.inorder() == self.inorder(),
            self.spec_left().top_bf() == 0 ==> res.height() == self.height() && res.top_bf() == 1,
            self.spec_left().top_bf() != 0 ==> res.height() + 1 == self.height() && res.top_bf()
                == 0,
            res == self.spec_rotate_right(),
    {
        let ghost gs = self;
        match self {
            Node::Leaf => vstd::pervasive::unreached(),
            Node::Branch {
                key: n_key,
                value: n_val,
                sstable_number: n_tab,
                left,
                right: n_right,
                balance_factor: _,
            } => {
                let ghost g_left = *left;
                match *left {
                    Node::Leaf => vstd::pervasive::unreached(),
                    Node::Branch {
                        key: l_key,
                        value: l_val,
                        sstable_number: l_tab,
                        left: l_left,
                        right: l_right,
                        balance_factor: l_bf,
                    } => {
                        let new_n = Node::Branch {
                            key: n_key,
                            value: n_val,
                            sstable_number: n_tab,
                            left: l_right,
                            right: n_right,
                            balance_factor: if l_bf != 0 { 0 } else { -1 },
                        };
                        let res = Node::Branch {
                            key: l_key,
                            value: l_val,
                            sstable_number: l_tab,
                            left: l_left,
                            right: Box::new(new_n),
                            balance_factor: if l_bf != 0 { 0 } else { 1 },
                        };
                        proof {
                            let nr = gs.spec_right().inorder();
                            let ll = g_left.spec_left().inorder();
                            let lr = g_left.spec_right().inorder();
                            let nk = gs.entry().key;
                            let lk = g_left.entry().key;
                            // decompose the bound on the old left subtree
                            lemma_all_lt_concat::<K, V::V>(
                                ll + seq![g_left.entry()],
                                lr,
                                nk,
                            );
                            lemma_all_lt_concat::<K, V::V>(ll, seq![g_left.entry()], nk);
                            assert(g_left.inorder() =~= (ll + seq![g_left.entry()]) + lr);
                            assert(K::key_lt(lk, nk)) by {
                                assert(seq![g_left.entry()][0] == g_left.entry());
                            }
                            // new right node is bounded below by the new root key
                            lemma_all_gt_trans::<K, V::V>(nr, lk, nk);
                            assert(all_gt::<K, V::V>(seq![gs.entry()], lk)) by {
                                assert(seq![gs.entry()][0] == gs.entry());
                            }
                            lemma_all_gt_concat::<K, V::V>(lr, seq![gs.entry()], lk);
                            lemma_all_gt_concat::<K, V::V>(lr + seq![gs.entry()], nr, lk);
                            assert(new_n.inorder() =~= (lr + seq![gs.entry()]) + nr);
                            assert(new_n.entry() == gs.entry());
                            assert(res.entry() == g_left.entry());
                            assert(res.inorder() =~= gs.inorder());
                            assert(new_n.wf());
                            assert(res.wf());
                            assert(res == gs.spec_rotate_right());
                        }
                        res
                    },
                }
            },
        }
    }

    /// Double left rotation: the right child's left child becomes the root.
    /// Used when the right subtree leans left, where a single rotation
    /// would not restore balance.
    pub(crate) fn big_rotate_left(self) -> (res: Node<K, V>)
        requires
            self.pre_balance(),
            self.top_bf() == 2,
            self.spec_right().top_bf() == -1,
        ensures
            res.wf(),
            res.inorder() == self.inorder(),
            res.height() + 1 == self.height(),
            res.top_bf() == 0,
            res == self.spec_big_rotate_left(),
    {
        let ghost gs = self;
        match self {
            Node::Leaf => vstd::pervasive::unreached(),
            Node::Branch {
                key: n_key,
                value: n_val,
                sstable_number: n_tab,
                left: n_left,
                right,
                balance_factor: _,
            } => {
                let ghost g_right = *right;
                match *right {
                    Node::Leaf => vstd::pervasive::unreached(),
                    Node::Branch {
                        key: r_key,
                        value: r_val,
                        sstable_number: r_tab,
                        left: r_left,
                        right: r_right,
                        balance_factor: _,
                    } => {
                        let ghost g_mid = *r_left;
                        match *r_left {
                            Node::Leaf => vstd::pervasive::unreached(),
                            Node::Branch {
                                key: m_key,
                                value: m_val,
                                sstable_number: m_tab,
                                left: m_left,
                                right: m_right,
                                balance_factor: m_bf,
                            } => {
                                let new_n = Node::Branch {
                                    key: n_key,
                                    value: n_val,
                                    sstable_number: n_tab,
                                    left: n_left,
                                    right: m_left,
                                    balance_factor: if m_bf == 1 { -1 } else { 0 },
                                };
                                let new_r = Node::Branch {
                                    key: r_key,
                                    value: r_val,
                                    sstable_number: r_tab,
                                    left: m_right,
                                    right: r_right,
                                    balance_factor: if m_bf == -1 { 1 } else { 0 },
                                };
                                let res = Node::Branch {
                                    key: m_key,
                                    value: m_val,
                                    sstable_number: m_tab,
                                    left: Box::new(new_n),
                                    right: Box::new(new_r),
                                    balance_factor: 0,
                                };
                                proof {
                                    let nl = gs.spec_left().inorder();
                                    let ml = g_mid.spec_left().inorder();
                                    let mr = g_mid.spec_right().inorder();
                                    let rr = g_right.spec_right().inorder();
                                    let nk = gs.entry().key;
                                    let rk = g_right.entry().key;
                                    let mk = g_mid.entry().key;
                                    assert(g_mid.wf());
                                    assert(g_mid.inorder() =~= (ml + seq![g_mid.entry()]) + mr);
                                    assert(g_right.inorder() =~= (g_mid.inorder() + seq![
                                        g_right.entry()]) + rr);
                                    // all of the old right subtree is above nk
                                    lemma_all_gt_concat::<K, V::V>(
                                        g_mid.inorder() + seq![g_right.entry()],
                                        rr,
                                        nk,
                                    );
                                    lemma_all_gt_concat::<K, V::V>(
                                        g_mid.inorder(),
                                        seq![g_right.entry()],
                                        nk,
                                    );
                                    lemma_all_gt_concat::<K, V::V>(
                                        ml + seq![g_mid.entry()],
                                        mr,
                                        nk,
                                    );
                                    lemma_all_gt_concat::<K, V::V>(ml, seq![g_mid.entry()], nk);
                                    assert(K::key_lt(nk, mk)) by {
                                        assert(seq![g_mid.entry()][0] == g_mid.entry());
                                    }
                                    assert(K::key_lt(nk, rk)) by {
                                        assert(seq![g_right.entry()][0] == g_right.entry());
                                    }
                                    // all of the middle subtree is below rk
                                    lemma_all_lt_concat::<K, V::V>(
                                        ml + seq![g_mid.entry()],
                                        mr,
                                        rk,
                                    );
                                    lemma_all_lt_concat::<K, V::V>(ml, seq![g_mid.entry()], rk);
                                    assert(K::key_lt(mk, rk)) by {
                                        assert(seq![g_mid.entry()][0] == g_mid.entry());
                                    }
                                    // bounds of the rebuilt left node
                                    lemma_all_lt_trans::<K, V::V>(nl, nk, mk);
                                    assert(all_lt::<K, V::V>(seq![gs.entry()], mk)) by {
                                        assert(seq![gs.entry()][0] == gs.entry());
                                    }
                                    assert(all_lt::<K, V::V>(ml, mk));
                                    lemma_all_lt_concat::<K, V::V>(nl, seq![gs.entry()], mk);
                                    lemma_all_lt_concat::<K, V::V>(
                                        nl + seq![gs.entry()],
                                        ml,
                                        mk,
                                    );
                                    assert(new_n.inorder() =~= (nl + seq![gs.entry()]) + ml);
                                    // bounds of the rebuilt right node
                                    assert(all_gt::<K, V::V>(mr, mk));
                                    assert(all_gt::<K, V::V>(seq![g_right.entry()], mk)) by {
                                        assert(seq![g_right.entry()][0] == g_right.entry());
                                    }
                                    lemma_all_gt_trans::<K, V::V>(rr, mk, rk);
                                    lemma_all_gt_concat::<K, V::V>(mr, seq![g_right.entry()], mk);
                                    lemma_all_gt_concat::<K, V::V>(
                                        mr + seq![g_right.entry()],
                                        rr,
                                        mk,
                                    );
                                    assert(new_r.inorder() =~= (mr + seq![g_right.entry()]) + rr);
                                    assert(new_n.entry() == gs.entry());
                                    assert(new_r.entry() == g_right.entry());
                                    assert(res.entry() == g_mid.entry());
                                    assert(res.inorder() =~= gs.inorder());
                                    assert(new_n.wf());
                                    assert(new_r.wf());
                                    assert(res.wf());
                                    assert(res == gs.spec_big_rotate_left());
                                }
                                res
                            },
                        }
                    },
                }
            },
        }
    }

    /// Double right rotation: the mirror image of
    /// [`Node::big_rotate_left`].
    pub(crate) fn big_rotate_right(self) -> (res: Node<K, V>)
        requires
            self.pre_balance(),
            self.top_bf() == -2,
            self.spec_left().top_bf() == 1,
        ensures
            res.wf(),
            res.inorder() == self.inorder(),
            res.height() + 1 == self.height(),
            res.top_bf() == 0,
            res == self.spec_big_rotate_right(),
    {
        let ghost gs = self;
        match self {
            Node::Leaf => vstd::pervasive::unreached(),
            Node::Branch {
                key: n_key,
                value: n_val,
                sstable_number: n_tab,
                left,
                right: n_right,
                balance_factor: _,
            } => {
                let ghost g_left = *left;
                match *left {
                    Node::Leaf => vstd::pervasive::unreached(),
                    Node::Branch {
                        key: l_key,
                        value: l_val,
                        sstable_number: l_tab,
                        left: l_left,
                        right: l_right,
                        balance_factor: _,
                    } => {
                        let ghost g_mid = *l_right;
                        match *l_right {
                            Node::Leaf => vstd::pervasive::unreached(),
                            Node::Branch {
                                key: m_key,
                                value: m_val,
                                sstable_number: m_tab,
                                left: m_left,
                                right: m_right,
                                balance_factor: m_bf,
                            } => {
                                let new_l = Node::Branch {
                                    key: l_key,
                                    value: l_val,
                                    sstable_number: l_tab,
                                    left: l_left,
                                    right: m_left,
                                    balance_factor: if m_bf == 1 { -1 } else { 0 },
                                };
                                let new_n = Node::Branch {
                                    key: n_key,
                                    value: n_val,
                                    sstable_number: n_tab,
                                    left: m_right,
                                    right: n_right,
                                    balance_factor: if m_bf == -1 { 1 } else { 0 },
                                };
                                let res = Node::Branch {
                                    key: m_key,
                                    value: m_val,
                                    sstable_number: m_tab,
                                    left: Box::new(new_l),
                                    right: Box::new(new_n),
                                    balance_factor: 0,
                                };
                                proof {
                                    let nr = gs.spec_right().inorder();
                                    let ml = g_mid.spec_left().inorder();
                                    let mr = g_mid.spec_right().inorder();
                                    let ll = g_left.spec_left().inorder();
                                    let nk = gs.entry().key;
                                    let lk = g_left.entry().key;
                                    let mk = g_mid.entry().key;
                                    assert(g_mid.wf());
                                    assert(g_mid.inorder() =~= (ml + seq![g_mid.entry()]) + mr);
                                    assert(g_left.inorder() =~= (ll + seq![g_left.entry()])
                                        + g_mid.inorder());
                                    // all of the old left subtree is below nk
                                    lemma_all_lt_concat::<K, V::V>(
                                        ll + seq![g_left.entry()],
                                        g_mid.inorder(),
                                        nk,
                                    );
                                    lemma_all_lt_concat::<K, V::V>(
                                        ll,
                                        seq![g_left.entry()],
                                        nk,
                                    );
                                    lemma_all_lt_concat::<K, V::V>(
                                        ml + seq![g_mid.entry()],
                                        mr,
                                        nk,
                                    );
                                    lemma_all_lt_concat::<K, V::V>(ml, seq![g_mid.entry()], nk);
                                    assert(K::key_lt(mk, nk)) by {
                                        assert(seq![g_mid.entry()][0] == g_mid.entry());
                                    }
                                    assert(K::key_lt(lk, nk)) by {
                                        assert(seq![g_left.entry()][0] == g_left.entry());
                                    }
                                    // all of the middle subtree is above lk
                                    lemma_all_gt_concat::<K, V::V>(
                                        ml + seq![g_mid.entry()],
                                        mr,
                                        lk,
                                    );
                                    lemma_all_gt_concat::<K, V::V>(ml, seq![g_mid.entry()], lk);
                                    assert(K::key_lt(lk, mk)) by {
                                        assert(seq![g_mid.entry()][0] == g_mid.entry());
                                    }
                                    // bounds of the rebuilt left node
                                    assert(all_lt::<K, V::V>(ml, mk));
                                    assert(all_lt::<K, V::V>(seq![g_left.entry()], mk)) by {
                                        assert(seq![g_left.entry()][0] == g_left.entry());
                                    }
                                    lemma_all_lt_trans::<K, V::V>(ll, lk, mk);
                                    lemma_all_lt_concat::<K, V::V>(ll, seq![g_left.entry()], mk);
                                    lemma_all_lt_concat::<K, V::V>(
                                        ll + seq![g_left.entry()],
                                        ml,
                                        mk,
                                    );
                                    assert(new_l.inorder() =~= (ll + seq![g_left.entry()]) + ml);
                                    // bounds of the rebuilt right node
                                    assert(all_gt::<K, V::V>(mr, mk));
                                    assert(all_gt::<K, V::V>(seq![gs.entry()], mk)) by {
                                        assert(seq![gs.entry()][0] == gs.entry());
                                    }
                                    lemma_all_gt_trans::<K, V::V>(nr, mk, nk);
                                    lemma_all_gt_concat::<K, V::V>(mr, seq![gs.entry()], mk);
                                    lemma_all_gt_concat::<K, V::V>(
                                        mr + seq![gs.entry()],
                                        nr,
                                        mk,
                                    );
                                    assert(new_n.inorder() =~= (mr + seq![gs.entry()]) + nr);
                                    assert(new_l.entry() == g_left.entry());
                                    assert(new_n.entry() == gs.entry());
                                    assert(res.entry() == g_mid.entry());
                                    assert(res.inorder() =~= gs.inorder());
                                    assert(new_l.wf());
                                    assert(new_n.wf());
                                    assert(res.wf());
                                    assert(res == gs.spec_big_rotate_right());
                                }
                                res
                            },
                        }
                    },
                }
            },
        }
    }

    /// Dispatch on the drifted balance factor: `2` rotates left (single or
    /// double according to the right child's lean), `-2` rotates right, and
    /// anything already within `[-1, 1]` is returned unchanged.
    pub(crate) fn balance(self) -> (res: Node<K, V>)
        requires
            self.pre_balance(),
        ensures
            res.wf(),
            res.inorder() == self.inorder(),
            -1 <= self.top_bf() <= 1 ==> res == self,
            self.top_bf() == 2 ==> (self.spec_right().top_bf() == 0 ==> res.height()
                == self.height() && res.top_bf() != 0) && (self.spec_right().top_bf() != 0
                ==> res.height() + 1 == self.height()),
            self.top_bf() == -2 ==> (self.spec_left().top_bf() == 0 ==> res.height()
                == self.height() && res.top_bf() != 0) && (self.spec_left().top_bf() != 0
                ==> res.height() + 1 == self.height()),
            res == self.spec_balance(),
    {
        let bf = match &self {
            Node::Leaf => 0i8,
            Node::Branch { balance_factor, .. } => *balance_factor,
        };
        if bf == 2 {
            let child_bf = match &self {
                Node::Leaf => vstd::pervasive::unreached(),
                Node::Branch { right, .. } => match &**right {
                    Node::Leaf => vstd::pervasive::unreached(),
                    Node::Branch { balance_factor, .. } => *balance_factor,
                },
            };
            if child_bf >= 0 {
                self.rotate_left()
            } else {
                self.big_rotate_left()
            }
        } else if bf == -2 {
            let child_bf = match &self {
                Node::Leaf => vstd::pervasive::unreached(),
                Node::Branch { left, .. } => match &**left {
                    Node::Leaf => vstd::pervasive::unreached(),
                    Node::Branch { balance_factor, .. } => *balance_factor,
                },
            };
            if child_bf <= 0 {
                self.rotate_right()
            } else {
                self.big_rotate_right()
            }
        } else {
            self
        }
    }

    /// Recursive AVL insertion.
    ///
    /// An equal key is a no-op apart from clearing the climb flag; otherwise
    /// the new pair descends to its ordered position, balance factors are
    /// adjusted on the way back up while the climb flag signals that the
    /// subtree grew, and a drifted balance factor is repaired by a rotation.
    ///
    /// The model of the result is `insert_entry` of the model of the input;
    /// the climb flag ends true exactly when the subtree's height grew.
    pub(crate) fn insert(self, new_key: K, new_value: V, should_climb: &mut bool) -> (res: Node<
        K,
        V,
    >)
        requires
            self.wf(),
            *old(should_climb) == true,
        ensures
            res.wf(),
            res.inorder() == insert_entry::<K, V::V>(
                self.inorder(),
                EntryView {
                    key: new_key.deep_view(),
                    kenc: new_key.enc(),
                    val: Some(new_value.deep_view()),
                    venc: Some(new_value.enc()),
                    tab: 0,
                },
            ),
            !*final(should_climb) ==> res.height() == self.height(),
            *final(should_climb) ==> res.height() == self.height() + 1 && find_entry(
                self.inorder(),
                new_key.deep_view(),
            ) is None,
            *final(should_climb) ==> res.top_bf() != 0 || res.height() == 1,
            res == self.spec_insert(new_key, new_value).0,
            *final(should_climb) == self.spec_insert(new_key, new_value).1,
            find_entry(self.inorder(), new_key.deep_view()) is Some ==> res == self,
        decreases self,
    {
        let ghost gs = self;
        let ghost e = EntryView {
            key: new_key.deep_view(),
            kenc: new_key.enc(),
            val: Some(new_value.deep_view()),
            venc: Some(new_value.enc()),
            tab: 0,
        };
        match self {
            Node::Leaf => {
                Node::Branch {
                    key: new_key,
                    value: Some(new_value),
                    sstable_number: 0,
                    left: Box::new(Node::Leaf),
                    right: Box::new(Node::Leaf),
                    balance_factor: 0,
                }
            },
            Node::Branch { key, value, sstable_number, left, right, balance_factor } => {
                let ghost g_left = *left;
                let ghost g_right = *right;
                let ghost kd = key.deep_view();
                match new_key.key_cmp(&key) {
                    KeyOrdering::Equal => {
                        *should_climb = false;
                        proof {
                            K::lemma_key_lt_properties(e.key, e.key, e.key);
                            lemma_insert_entry_prefix::<K, V::V>(
                                g_left.inorder(),
                                seq![gs.entry()] + g_right.inorder(),
                                e,
                            );
                            assert((seq![gs.entry()] + g_right.inorder())[0] == gs.entry());
                            assert(gs.inorder() =~= g_left.inorder() + (seq![gs.entry()]
                                + g_right.inorder()));
                            assert(insert_entry::<K, V::V>(gs.inorder(), e)
                                =~= gs.inorder());
                        }
                        let res = Node::Branch {
                            key,
                            value,
                            sstable_number,
                            left,
                            right,
                            balance_factor,
                        };
                        proof {
                            assert(res == gs);
                            assert(!K::key_lt(e.key, kd));
                            assert(gs.spec_insert(new_key, new_value) == (res, false));
                        }
                        res
                    },
                    KeyOrdering::Less => {
                        let new_left = (*left).insert(new_key, new_value, should_climb);
                        proof {
                            lemma_insert_entry_left::<K, V::V>(
                                g_left.inorder(),
                                seq![gs.entry()] + g_right.inorder(),
                                e,
                            );
                            assert((seq![gs.entry()] + g_right.inorder())[0] == gs.entry());
                            assert(gs.inorder() =~= g_left.inorder() + (seq![gs.entry()]
                                + g_right.inorder()));
                            lemma_insert_entry_all_lt::<K, V::V>(g_left.inorder(), e, kd);
                            let s2 = seq![gs.entry()] + g_right.inorder();
                            assert forall|i: int| 0 <= i < s2.len() implies (#[trigger] s2[i]).key != e.key by {
                                if i == 0 {
                                    assert(s2[0] == gs.entry());
                                    if e.key == kd {
                                        K::lemma_key_lt_properties(kd, kd, kd);
                                    }
                                } else {
                                    assert(s2[i] == g_right.inorder()[i - 1]);
                                    K::lemma_key_lt_properties(e.key, kd, s2[i].key);
                                    if e.key == s2[i].key {
                                        K::lemma_key_lt_properties(e.key, e.key, e.key);
                                    }
                                }
                            }
                            lemma_find_entry_absent(s2, e.key);
                            lemma_find_entry_concat(g_left.inorder(), s2, e.key);
                            assert(find_entry(gs.inorder(), e.key) == find_entry(
                                g_left.inorder(),
                                e.key,
                            ));
                        }
                        if !*should_climb {
                            let res = Node::Branch {
                                key,
                                value,
                                sstable_number,
                                left: Box::new(new_left),
                                right,
                                balance_factor,
                            };
                            proof {
                                assert(res.inorder() =~= new_left.inorder() + (seq![res.entry()]
                                    + g_right.inorder()));
                                assert(res.entry() == gs.entry());
                                assert(res.inorder() =~= insert_entry::<K, V::V>(
                                    gs.inorder(),
                                    e,
                                ));
                                if find_entry(gs.inorder(), e.key) is Some {
                                    assert(new_left == g_left);
                                    assert(res == gs);
                                }
                                assert(gs.spec_insert(new_key, new_value) == (res, false));
                            }
                            res
                        } else {
                            let new_bf = balance_factor - 1;
                            if new_bf == 0 {
                                *should_climb = false;
                            }
                            let node = Node::Branch {
                                key,
                                value,
                                sstable_number,
                                left: Box::new(new_left),
                                right,
                                balance_factor: new_bf,
                            };
                            proof {
                                assert(node.inorder() =~= new_left.inorder() + (seq![node.entry()]
                                    + g_right.inorder()));
                                assert(node.entry() == gs.entry());
                                assert(node.inorder() =~= insert_entry::<K, V::V>(
                                    gs.inorder(),
                                    e,
                                ));
                                assert(node.pre_balance());
                                if find_entry(gs.inorder(), e.key) is Some {
                                    assert(false);
                                }
                            }
                            if new_bf == -2 {
                                *should_climb = false;
                                let ghost g_node = node;
                                let res = node.balance();
                                proof {
                                    assert(g_node.spec_left() == new_left);
                                    assert(new_left.top_bf() != 0);
                                    assert(gs.spec_insert(new_key, new_value) == (res, false));
                                }
                                res
                            } else {
                                proof {
                                    assert(gs.spec_insert(new_key, new_value) == (
                                        node,
                                        new_bf != 0,
                                    ));
                                }
                                node
                            }
                        }
                    },
                    KeyOrdering::Greater => {
                        let new_right = (*right).insert(new_key, new_value, should_climb);
                        proof {
                            assert(!K::key_lt(e.key, kd)) by {
                                if K::key_lt(e.key, kd) {
                                    K::lemma_key_lt_properties(e.key, kd, e.key);
                                    K::lemma_key_lt_properties(e.key, e.key, e.key);
                                }
                            }
                            assert(e.key != kd) by {
                                if e.key == kd {
                                    K::lemma_key_lt_properties(kd, kd, kd);
                                }
                            }
                            assert(all_lt::<K, V::V>(g_left.inorder() + seq![gs.entry()], e.key))
                                by {
                                lemma_all_lt_trans::<K, V::V>(g_left.inorder(), kd, e.key);
                                assert(all_lt::<K, V::V>(seq![gs.entry()], e.key)) by {
                                    assert(seq![gs.entry()][0] == gs.entry());
                                }
                                lemma_all_lt_concat::<K, V::V>(
                                    g_left.inorder(),
                                    seq![gs.entry()],
                                    e.key,
                                );
                            }
                            lemma_insert_entry_prefix::<K, V::V>(
                                g_left.inorder() + seq![gs.entry()],
                                g_right.inorder(),
                                e,
                            );
                            assert(gs.inorder() =~= (g_left.inorder() + seq![gs.entry()])
                                + g_right.inorder());
                            lemma_insert_entry_all_gt::<K, V::V>(g_right.inorder(), e, kd);
                            let s1 = g_left.inorder() + seq![gs.entry()];
                            assert forall|i: int| 0 <= i < s1.len() implies (#[trigger] s1[i]).key != e.key by {
                                if i < g_left.inorder().len() {
                                    assert(s1[i] == g_left.inorder()[i]);
                                    K::lemma_key_lt_properties(s1[i].key, kd, e.key);
                                    if e.key == s1[i].key {
                                        K::lemma_key_lt_properties(e.key, e.key, e.key);
                                    }
                                } else {
                                    assert(s1[i] == gs.entry());
                                    if e.key == kd {
                                        K::lemma_key_lt_properties(kd, kd, kd);
                                    }
                                }
                            }
                            lemma_find_entry_absent(s1, e.key);
                            lemma_find_entry_concat(s1, g_right.inorder(), e.key);
                            assert(find_entry(gs.inorder(), e.key) == find_entry(
                                g_right.inorder(),
                                e.key,
                            ));
                        }
                        if !*should_climb {
                            let res = Node::Branch {
                                key,
                                value,
                                sstable_number,
                                left,
                                right: Box::new(new_right),
                                balance_factor,
                            };
                            proof {
                                assert(res.inorder() =~= (g_left.inorder() + seq![res.entry()])
                                    + new_right.inorder());
                                assert(res.entry() == gs.entry());
                                assert(res.inorder() =~= insert_entry::<K, V::V>(
                                    gs.inorder(),
                                    e,
                                ));
                                if find_entry(gs.inorder(), e.key) is Some {
                                    assert(new_right == g_right);
                                    assert(res == gs);
                                }
                                assert(gs.spec_insert(new_key, new_value) == (res, false));
                            }
                            res
                        } else {
                            let new_bf = balance_factor + 1;
                            if new_bf == 0 {
                                *should_climb = false;
                            }
                            let node = Node::Branch {
                                key,
                                value,
                                sstable_number,
                                left,
                                right: Box::new(new_right),
                                balance_factor: new_bf,
                            };
                            proof {
                                assert(node.inorder() =~= (g_left.inorder() + seq![node.entry()])
                                    + new_right.inorder());
                                assert(node.entry() == gs.entry());
                                assert(node.inorder() =~= insert_entry::<K, V::V>(
                                    gs.inorder(),
                                    e,
                                ));
                                assert(node.pre_balance());
                                if find_entry(gs.inorder(), e.key) is Some {
                                    assert(false);
                                }
                            }
                            if new_bf == 2 {
                                *should_climb = false;
                                let ghost g_node = node;
                                let res = node.balance();
                                proof {
                                    assert(g_node.spec_right() == new_right);
                                    assert(new_right.top_bf() != 0);
                                    assert(gs.spec_insert(new_key, new_value) == (res, false));
                                }
                                res
                            } else {
                                proof {
                                    assert(gs.spec_insert(new_key, new_value) == (
                                        node,
                                        new_bf != 0,
                                    ));
                                }
                                node
                            }
                        }
                    },
                }
            },
        }
    }

    /// In-order spill: every resident payload is appended to `table` as an
    /// `encoded_key:encoded_value` line and replaced in the node by the
    /// routing pointer `n`.  The tree's shape, keys and balance factors do
    /// not change.
    pub(crate) fn unload_to_table(self, table: &mut Sstable, n: u8) -> (res: Node<K, V>)
        requires
            self.wf(),
        ensures
            res.wf(),
            res.height() == self.height(),
            res.top_bf() == self.top_bf(),
            res.inorder() == spill_entries(self.inorder(), n),
            res == self.spec_unload(n),
            final(table).pairs() == old(table).pairs() + resident_pairs(self.inorder()),
            forall|j: int|
                0 <= j < residents(self.inorder()).len() ==> kenc_decisive::<K, V::V>(
                    #[trigger] residents(self.inorder())[j],
                ),
            forall|j: int|
                0 <= j < residents(self.inorder()).len() ==> key_realizable::<K, V::V>(
                    #[trigger] residents(self.inorder())[j],
                ),
            forall|j: int|
                0 <= j < residents(self.inorder()).len() ==> value_realizable::<K::V, V>(
                    #[trigger] residents(self.inorder())[j],
                ),
        decreases self,
    {
        let ghost gs = self;
        match self {
            Node::Leaf => {
                proof {
                    assert(residents(gs.inorder()) =~= Seq::<Entry<K, V>>::empty());
                    assert(spill_entries(gs.inorder(), n) =~= Seq::<Entry<K, V>>::empty());
                    assert(resident_pairs(gs.inorder()) =~= Seq::<(Seq<char>, Seq<char>)>::empty());
                    assert(final(table).pairs() =~= old(table).pairs() + resident_pairs(
                        gs.inorder(),
                    ));
                }
                Node::Leaf
            },
            Node::Branch { key, value, sstable_number, left, right, balance_factor } => {
                let ghost g_left = *left;
                let ghost g_right = *right;
                let ghost t0 = table.pairs();
                let new_left = (*left).unload_to_table(table, n);
                let ghost t1 = table.pairs();
                let ghost own_entry = gs.entry();
                let ghost own_spilled = spill_entry(own_entry, n);
                let (new_value, new_tab): (Option<V>, u8) = match value {
                    Some(v) => {
                        let ks = key.encode_key();
                        let vs = v.encode();
                        let ghost g_ks = ks@;
                        let mut line = ks;
                        line.append(":");
                        line.append(vs.as_str());
                        proof {
                            reveal_strlit(":");
                            assert(":"@ =~= seq![':']);
                            assert(line@ =~= line_of(g_ks, vs@));
                            assert(colon_free(g_ks));
                            lemma_split_line(g_ks, vs@);
                            assert(g_ks == own_entry.kenc);
                            assert(vs@ == own_entry.venc.unwrap());
                        }
                        table.push_line(line);
                        proof {
                            assert(table.pairs() =~= t1 + seq![
                                (own_entry.kenc, own_entry.venc.unwrap())]);
                            assert(kenc_decisive::<K, V::V>(own_entry));
                            assert(v.enc() == own_entry.venc.unwrap());
                            assert(Some(v.deep_view()) == own_entry.val);
                            assert(value_realizable::<K::V, V>(own_entry));
                        }
                        (None, n)
                    },
                    None => {
                        proof {
                            assert(table.pairs() == t1);
                        }
                        (None, sstable_number)
                    },
                };
                let ghost t2 = table.pairs();
                let new_right = (*right).unload_to_table(table, n);
                let res = Node::Branch {
                    key,
                    value: new_value,
                    sstable_number: new_tab,
                    left: Box::new(new_left),
                    right: Box::new(new_right),
                    balance_factor,
                };
                proof {
                    let li = g_left.inorder();
                    let ri = g_right.inorder();
                    let si = gs.inorder();
                    let kd = own_entry.key;
                    assert(si =~= li + (seq![own_entry] + ri));
                    lemma_residents_concat(li, seq![own_entry] + ri);
                    lemma_residents_concat(seq![own_entry], ri);
                    assert(residents(seq![own_entry] + ri) =~= residents(seq![own_entry])
                        + residents(ri));
                    let rown: Seq<Entry<K, V>> = if own_entry.val is Some {
                        seq![own_entry]
                    } else {
                        Seq::empty()
                    };
                    assert(seq![own_entry].len() == 1 && seq![own_entry][0] == own_entry);
                    assert(seq![own_entry].drop_first() =~= Seq::<Entry<K, V>>::empty());
                    assert(residents(seq![own_entry].drop_first()).len() == 0);
                    assert(residents(seq![own_entry]) =~= rown) by {
                        if own_entry.val is Some {
                            assert(residents(seq![own_entry]) == seq![own_entry] + residents(
                                seq![own_entry].drop_first()));
                            assert(seq![own_entry] + residents(seq![own_entry].drop_first())
                                =~= seq![own_entry]);
                        } else {
                            assert(residents(seq![own_entry]) == residents(
                                seq![own_entry].drop_first()));
                        }
                    }
                    let rs = residents(si);
                    assert(rs =~= residents(li) + rown + residents(ri));
                    // the model of the rebuilt node
                    assert(res.entry() == own_spilled);
                    assert(res.inorder() =~= new_left.inorder() + (seq![own_spilled]
                        + new_right.inorder()));
                    assert(spill_entries(si, n) =~= spill_entries(li, n) + (seq![own_spilled]
                        + spill_entries(ri, n))) by {
                        assert(forall|i: int| 0 <= i < si.len() ==> #[trigger] spill_entries(
                            si,
                            n,
                        )[i] == spill_entry(si[i], n));
                    }
                    assert(res.inorder() =~= spill_entries(si, n));
                    // the pairs written to the table, in order
                    assert(t2 == if own_entry.val is Some {
                        t1 + seq![(own_entry.kenc, own_entry.venc.unwrap())]
                    } else {
                        t1
                    });
                    assert(resident_pairs(si) =~= resident_pairs(li) + rown.map_values(
                        |e: Entry<K, V>| (e.kenc, e.venc.unwrap()),
                    ) + resident_pairs(ri)) by {
                        assert(forall|i: int| 0 <= i < rs.len() ==> #[trigger] resident_pairs(
                            si,
                        )[i] == (rs[i].kenc, rs[i].venc.unwrap()));
                        assert(forall|i: int| 0 <= i < residents(li).len()
                            ==> #[trigger] resident_pairs(li)[i] == (residents(li)[i].kenc,
                            residents(li)[i].venc.unwrap()));
                        assert(forall|i: int| 0 <= i < residents(ri).len()
                            ==> #[trigger] resident_pairs(ri)[i] == (residents(ri)[i].kenc,
                            residents(ri)[i].venc.unwrap()));
                        assert(rown.map_values(|e: Entry<K, V>| (e.kenc, e.venc.unwrap())).len()
                            == rown.len());
                        if own_entry.val is Some {
                            assert(rown.map_values(
                                |e: Entry<K, V>| (e.kenc, e.venc.unwrap()),
                            )[0] == (own_entry.kenc, own_entry.venc.unwrap()));
                        }
                    }
                    assert(table.pairs() =~= t0 + resident_pairs(si));
                    // well-formedness of the rebuilt node
                    assert(all_lt::<K, V::V>(new_left.inorder(), kd)) by {
                        assert(forall|i: int| 0 <= i < li.len() ==> (#[trigger] new_left.inorder()[
                            i]).key == li[i].key);
                    }
                    assert(all_gt::<K, V::V>(new_right.inorder(), kd)) by {
                        assert(forall|i: int| 0 <= i < ri.len() ==> (#[trigger] new_right.inorder()[
                            i]).key == ri[i].key);
                    }
                    assert(res.wf());
                    assert(res == gs.spec_unload(n));
                    // the exported facts about written entries, by position
                    let lcount = residents(li).len() as int;
                    let ocount = rown.len() as int;
                    assert(key_realizable::<K, V::V>(own_entry)) by {
                        assert(key.enc() == own_entry.kenc && key.deep_view() == own_entry.key);
                    }
                    assert forall|j: int| 0 <= j < rs.len() implies kenc_decisive::<K, V::V>(
                        #[trigger] rs[j],
                    ) && key_realizable::<K, V::V>(rs[j]) && value_realizable::<K::V, V>(
                        rs[j],
                    ) by {
                        if j < lcount {
                            assert(rs[j] == residents(li)[j]);
                        } else if j < lcount + ocount {
                            assert(rs[j] == own_entry);
                            assert(own_entry.val is Some);
                        } else {
                            assert(rs[j] == residents(ri)[j - lcount - ocount]);
                        }
                    }
                }
                res
            },
        }
    }

    /// A deep copy built with the elements' `dup`: same model, same shape,
    /// same balance factors.
    pub(crate) fn duplicate(&self) -> (res: Node<K, V>)
        ensures
            res.inorder() == self.inorder(),
            res.height() == self.height(),
            res.top_bf() == self.top_bf(),
            self.wf() ==> res.wf(),
        decreases self,
    {
        match self {
            Node::Leaf => Node::Leaf,
            Node::Branch { key, value, sstable_number, left, right, balance_factor } => {
                let new_left = left.duplicate();
                let new_right = right.duplicate();
                let new_value = match value {
                    Some(v) => Some(v.dup()),
                    None => None,
                };
                let res = Node::Branch {
                    key: key.dup(),
                    value: new_value,
                    sstable_number: *sstable_number,
                    left: Box::new(new_left),
                    right: Box::new(new_right),
                    balance_factor: *balance_factor,
                };
                proof {
                    assert(res.entry() == self.entry());
                    assert(res.inorder() =~= self.inorder());
                    if self.wf() {
                        assert(res.wf());
                    }
                }
                res
            },
        }
    }

    /// Every reachable balance factor equals the height difference of its
    /// children and lies within `[-1, 1]`.
    pub open spec fn balanced(self) -> bool
        decreases self,
    {
        match self {
            Node::Leaf => true,
            Node::Branch { left, right, balance_factor, .. } => {
                &&& left.balanced()
                &&& right.balanced()
                &&& balance_factor as int == right.height() - left.height()
                &&& -1 <= balance_factor as int <= 1
            },
        }
    }

    /// Well-formedness includes balance.
    pub proof fn lemma_wf_balanced(self)
        requires
            self.wf(),
        ensures
            self.balanced(),
        decreases self,
    {
        match self {
            Node::Leaf => {},
            Node::Branch { left, right, .. } => {
                left.lemma_wf_balanced();
                right.lemma_wf_balanced();
            },
        }
    }

    /// Every entry of the model records the encoding of a real key.
    pub proof fn lemma_inorder_realizable(self)
        ensures
            forall|j: int|
                0 <= j < self.inorder().len() ==> key_realizable::<K, V::V>(
                    #[trigger] self.inorder()[j],
                ),
        decreases self,
    {
        match self {
            Node::Leaf => {},
            Node::Branch { key, left, right, .. } => {
                left.lemma_inorder_realizable();
                right.lemma_inorder_realizable();
                let l = left.inorder();
                let r = right.inorder();
                let s = self.inorder();
                assert(key.enc() == self.entry().kenc && key.deep_view() == self.entry().key);
                assert(key_realizable::<K, V::V>(self.entry()));
                assert forall|j: int| 0 <= j < s.len() implies key_realizable::<K, V::V>(
                    #[trigger] s[j],
                ) by {
                    if j < l.len() {
                        assert(s[j] == l[j]);
                    } else if j == l.len() {
                        assert(s[j] == self.entry());
                    } else {
                        assert(s[j] == r[j - l.len() - 1]);
                    }
                }
            },
        }
    }

    /// In a well-formed subtree every reachable balance factor stays within
    /// `[-1, 1]`.
    pub proof fn lemma_spec_bf_bounded(self, kv: K::V)
        requires
            self.wf(),
        ensures
            self.spec_bf_of(kv) matches Some(b) ==> -1 <= b <= 1,
        decreases self,
    {
        match self {
            Node::Leaf => {},
            Node::Branch { key, left, right, .. } => {
                left.lemma_spec_bf_bounded(kv);
                right.lemma_spec_bf_bounded(kv);
            },
        }
    }

    /// A balance factor is reported exactly for the keys the subtree
    /// holds.
    pub proof fn lemma_spec_bf_present(self, kv: K::V)
        requires
            self.wf(),
        ensures
            self.spec_bf_of(kv) is Some <==> find_entry(self.inorder(), kv) is Some,
        decreases self,
    {
        match self {
            Node::Leaf => {},
            Node::Branch { key, left, right, .. } => {
                left.lemma_spec_bf_present(kv);
                right.lemma_spec_bf_present(kv);
                let l = left.inorder();
                let r = right.inorder();
                let kd = key.deep_view();
                lemma_find_entry_concat(l + seq![self.entry()], r, kv);
                lemma_find_entry_concat(l, seq![self.entry()], kv);
                assert(self.inorder() =~= (l + seq![self.entry()]) + r);
                if K::key_lt(kv, kd) {
                    assert(self.entry().key != kv) by {
                        if self.entry().key == kv {
                            K::lemma_key_lt_properties(kv, kv, kv);
                        }
                    }
                    assert forall|i: int| 0 <= i < r.len() implies (#[trigger] r[i]).key
                        != kv by {
                        if r[i].key == kv {
                            K::lemma_key_lt_properties(kv, kd, r[i].key);
                            K::lemma_key_lt_properties(kv, kv, kv);
                        }
                    }
                    lemma_find_entry_absent(seq![self.entry()], kv);
                    lemma_find_entry_absent(r, kv);
                } else if kv == kd {
                    K::lemma_key_lt_properties(kv, kv, kv);
                    assert(find_entry(seq![self.entry()], kv) == Some(self.entry()));
                } else {
                    K::lemma_key_lt_properties(kv, kd, kd);
                    assert forall|i: int| 0 <= i < l.len() implies (#[trigger] l[i]).key
                        != kv by {
                        if l[i].key == kv {
                            K::lemma_key_lt_properties(l[i].key, kd, kv);
                            K::lemma_key_lt_properties(kv, kv, kv);
                        }
                    }
                    lemma_find_entry_absent(l, kv);
                    assert(self.entry().key != kv);
                    lemma_find_entry_absent(seq![self.entry()], kv);
                }
            },
        }
    }

    /// Append an indented sketch of the subtree, one line per branch in
    /// key order: the encoded key, the encoded value if resident, and the
    /// balance factor.
    pub(crate) fn render(&self, depth: usize, out: &mut String)
        requires
            self.wf(),
        decreases self,
    {
        match self {
            Node::Leaf => {},
            Node::Branch { key, value, left, right, balance_factor, .. } => {
                let deeper = if depth < usize::MAX { depth + 1 } else { depth };
                left.render(deeper, out);
                let mut i: usize = 0;
                while i < depth
                    invariant
                        i <= depth,
                    decreases depth - i,
                {
                    out.append("    ");
                    i = i + 1;
                }
                let ks = key.encode_key();
                out.append(ks.as_str());
                out.append(":");
                match value {
                    Some(v) => {
                        let vs = v.encode();
                        out.append(vs.as_str());
                    },
                    None => {},
                }
                match *balance_factor {
                    -1 => out.append("(-1)"),
                    0 => out.append("(0)"),
                    1 => out.append("(1)"),
                    _ => out.append("(?)"),
                }
                out.append("\n");
                right.render(deeper, out);
            },
        }
    }
}

/// Some key value stands behind this entry's recorded encoding.
pub open spec fn key_realizable<K: StoreKey, VV>(e: EntryView<K::V, VV>) -> bool {
    exists|k: K| #[trigger] k.enc() == e.kenc && k.deep_view() == e.key
}

/// The entry's recorded key encoding belongs to its key alone.
pub open spec fn kenc_decisive<K: StoreKey, VV>(e: EntryView<K::V, VV>) -> bool {
    forall|k: K| e.kenc == #[trigger] k.enc() ==> k.deep_view() == e.key
}

/// Some value stands behind this entry's recorded value encoding.
pub open spec fn value_realizable<KV, V: Storable>(e: EntryView<KV, V::V>) -> bool {
    e.val is Some ==> exists|v: V| #[trigger] v.enc() == e.venc.unwrap() && Some(v.deep_view())
        == e.val
}

/// The image of one entry after a spill into table `n`: a resident payload
/// is dropped in favour of the routing pointer, a routed entry is kept.
pub open spec fn spill_entry<KV, VV>(e: EntryView<KV, VV>, n: u8) -> EntryView<KV, VV> {
    if e.val is Some {
        EntryView { key: e.key, kenc: e.kenc, val: None, venc: None, tab: n }
    } else {
        e
    }
}

/// The image of a whole model after a spill into table `n`.
pub open spec fn spill_entries<KV, VV>(s: Seq<EntryView<KV, VV>>, n: u8) -> Seq<
    EntryView<KV, VV>,
> {
    s.map_values(|e: EntryView<KV, VV>| spill_entry(e, n))
}

/// The entries whose payload is resident, in order.
pub open spec fn residents<KV, VV>(s: Seq<EntryView<KV, VV>>) -> Seq<EntryView<KV, VV>>
    decreases s.len(),
{
    if s.len() == 0 {
        s
    } else if s[0].val is Some {
        seq![s[0]] + residents(s.drop_first())
    } else {
        residents(s.drop_first())
    }
}

/// The `(key, value)` encoding pairs a spill writes, in order.
pub open spec fn resident_pairs<KV, VV>(s: Seq<EntryView<KV, VV>>) -> Seq<
    (Seq<char>, Seq<char>),
> {
    residents(s).map_values(|e: EntryView<KV, VV>| (e.kenc, e.venc.unwrap()))
}

/// Resident entries of a concatenation, in order.
pub proof fn lemma_residents_concat<KV, VV>(a: Seq<EntryView<KV, VV>>, b: Seq<EntryView<KV, VV>>)
    ensures
        residents(a + b) == residents(a) + residents(b),
    decreases a.len(),
{
    if a.len() == 0 {
        assert(a + b =~= b);
        assert(residents(a) + residents(b) =~= residents(b));
    } else {
        assert((a + b)[0] == a[0]);
        assert((a + b).drop_first() =~= a.drop_first() + b);
        lemma_residents_concat(a.drop_first(), b);
        if a[0].val is Some {
            assert(residents(a + b) =~= residents(a) + residents(b));
        }
    }
}

/// Resident entries keep their relative order, so ascending keys stay
/// ascending.
pub proof fn lemma_residents_sorted<K: StoreKey, VV>(s: Seq<EntryView<K::V, VV>>)
    requires
        sorted_by_key::<K, VV>(s),
    ensures
        sorted_by_key::<K, VV>(residents(s)),
        forall|j: int| 0 <= j < residents(s).len() ==> s.contains(#[trigger] residents(s)[j]),
    decreases s.len(),
{
    if s.len() > 0 {
        assert(forall|i: int, j: int|
            0 <= i < j < s.drop_first().len() ==> K::key_lt(
                (#[trigger] s.drop_first()[i]).key,
                (#[trigger] s.drop_first()[j]).key,
            ));
        lemma_residents_sorted::<K, VV>(s.drop_first());
        let r = residents(s);
        let rd = residents(s.drop_first());
        assert forall|j: int| 0 <= j < r.len() implies s.contains(#[trigger] r[j]) by {
            if s[0].val is Some && j == 0 {
                assert(r[0] == s[0]);
            } else {
                let jj: int = if s[0].val is Some { j - 1 } else { j };
                assert(rd[jj] == r[j]);
                assert(s.drop_first().contains(rd[jj]));
                let i = choose|i: int| 0 <= i < s.drop_first().len() && s.drop_first()[i] == rd[jj];
                assert(s[i + 1] == r[j]);
            }
        }
        if s[0].val is Some {
            assert forall|i: int, j: int| 0 <= i < j < r.len() implies K::key_lt(
                (#[trigger] r[i]).key,
                (#[trigger] r[j]).key,
            ) by {
                if i == 0 {
                    assert(r[0] == s[0]);
                    assert(r[j] == rd[j - 1]);
                    assert(s.drop_first().contains(rd[j - 1]));
                    let m = choose|m: int|
                        0 <= m < s.drop_first().len() && s.drop_first()[m] == rd[j - 1];
                    assert(s[m + 1] == r[j]);
                } else {
                    assert(r[i] == rd[i - 1] && r[j] == rd[j - 1]);
                }
            }
        }
    }
}

/// A resident entry of the model is among the resident entries.
pub proof fn lemma_residents_membership<KV, VV>(s: Seq<EntryView<KV, VV>>, i: int)
    requires
        0 <= i < s.len(),
        s[i].val is Some,
    ensures
        residents(s).contains(s[i]),
    decreases s.len(),
{
    if i == 0 {
        assert(residents(s)[0] == s[0]);
    } else {
        lemma_residents_membership(s.drop_first(), i - 1);
        let j = choose|j: int|
            0 <= j < residents(s.drop_first()).len() && residents(s.drop_first())[j]
                == s.drop_first()[i - 1];
        if s[0].val is Some {
            assert(residents(s)[j + 1] == s[i]);
        } else {
            assert(residents(s)[j] == s[i]);
        }
    }
}

} // verus!
