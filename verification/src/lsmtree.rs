//! The LSM index: an AVL-balanced in-memory tree whose resident payloads
//! spill to SSTables every `bias` inserts.
//!
//! The model of a tree is the ascending sequence of `(key view, value view)`
//! pairs it holds ([`LsmTree::view`]); a pair's value may be resident in its
//! node or recoverable from the SSTable its node points at, and the
//! well-formedness invariant ties every node to the place its value lives.

use std::io::Write;
use vstd::prelude::*;

use rand::Rng;
use rand::distributions::Alphanumeric;
use rand::thread_rng;

use crate::codec::Storable;
use crate::db::Database;
use crate::iterator::LsmTreeIterator;
use crate::db::DbError;
use crate::keys::StoreKey;
use crate::node::Entry;
use crate::node::EntryView;
use crate::node::Node;
use crate::node::find_entry;
use crate::node::insert_entry;
use crate::node::kenc_decisive;
use crate::node::key_realizable;
use crate::node::lemma_residents_membership;
use crate::node::lemma_residents_sorted;
use crate::node::residents;
use crate::node::resident_pairs;
use crate::node::sorted_by_key;
use crate::node::spill_entry;
use crate::node::value_realizable;
use crate::sstable::Sstable;
use crate::sstable::lemma_pairs_lookup_first_match;
use crate::sstable::pairs_lookup;

verus! {

/// `s` with `(kv, vv)` inserted at its ordered position, unchanged if `kv`
/// is already bound.
pub open spec fn insert_pair<K: StoreKey, VV>(s: Seq<(K::V, VV)>, kv: K::V, vv: VV) -> Seq<
    (K::V, VV),
>
    decreases s.len(),
{
    if s.len() == 0 {
        seq![(kv, vv)]
    } else if K::key_lt(kv, s[0].0) {
        seq![(kv, vv)] + s
    } else if kv == s[0].0 {
        s
    } else {
        seq![s[0]] + insert_pair::<K, VV>(s.drop_first(), kv, vv)
    }
}

/// The value bound to `kv`, if any.
pub open spec fn lookup_pair<K: StoreKey, VV>(s: Seq<(K::V, VV)>, kv: K::V) -> Option<VV>
    decreases s.len(),
{
    if s.len() == 0 {
        None
    } else if s[0].0 == kv {
        Some(s[0].1)
    } else {
        lookup_pair::<K, VV>(s.drop_first(), kv)
    }
}

/// Inserting into an entry sequence and into its pair-of-views image moves
/// in step: the results stay aligned, and every position holds either the
/// new entry or an entry carried over from the input.
pub proof fn lemma_insert_parallel<K: StoreKey, V: Storable>(
    se: Seq<Entry<K, V>>,
    sc: Seq<(K::V, V::V)>,
    e: Entry<K, V>,
    vv: V::V,
)
    requires
        se.len() == sc.len(),
        forall|i: int| 0 <= i < se.len() ==> (#[trigger] sc[i]).0 == se[i].key,
    ensures
        insert_pair::<K, V::V>(sc, e.key, vv).len() == insert_entry::<K, V::V>(se, e).len(),
        forall|i: int|
            0 <= i < insert_entry::<K, V::V>(se, e).len() ==> (#[trigger] insert_pair::<K, V::V>(
                sc,
                e.key,
                vv,
            )[i]).0 == insert_entry::<K, V::V>(se, e)[i].key,
        forall|i: int|
            0 <= i < insert_entry::<K, V::V>(se, e).len() ==> ((#[trigger] insert_entry::<K, V::V>(
                se,
                e,
            )[i] == e && insert_pair::<K, V::V>(sc, e.key, vv)[i] == (e.key, vv)) || exists|j: int|
                0 <= j < se.len() && #[trigger] se[j] == insert_entry::<K, V::V>(se, e)[i] && sc[j]
                    == insert_pair::<K, V::V>(sc, e.key, vv)[i]),
    decreases se.len(),
{
    let re = insert_entry::<K, V::V>(se, e);
    let rc = insert_pair::<K, V::V>(sc, e.key, vv);
    if se.len() == 0 {
    } else if K::key_lt(e.key, se[0].key) {
        assert forall|i: int| 0 <= i < re.len() implies ((#[trigger] re[i] == e && rc[i] == (
        e.key,
        vv,
        )) || exists|j: int| 0 <= j < se.len() && #[trigger] se[j] == re[i] && sc[j] == rc[i]) by {
            if i > 0 {
                assert(se[i - 1] == re[i] && sc[i - 1] == rc[i]);
            }
        }
    } else if e.key == se[0].key {
        assert forall|i: int| 0 <= i < re.len() implies ((#[trigger] re[i] == e && rc[i] == (
        e.key,
        vv,
        )) || exists|j: int| 0 <= j < se.len() && #[trigger] se[j] == re[i] && sc[j] == rc[i]) by {
            assert(se[i] == re[i] && sc[i] == rc[i]);
        }
    } else {
        assert(forall|i: int|
            0 <= i < se.drop_first().len() ==> (#[trigger] sc.drop_first()[i]).0
                == se.drop_first()[i].key);
        lemma_insert_parallel::<K, V>(se.drop_first(), sc.drop_first(), e, vv);
        let red = insert_entry::<K, V::V>(se.drop_first(), e);
        let rcd = insert_pair::<K, V::V>(sc.drop_first(), e.key, vv);
        assert forall|i: int| 0 <= i < re.len() implies ((#[trigger] re[i] == e && rc[i] == (
        e.key,
        vv,
        )) || exists|j: int| 0 <= j < se.len() && #[trigger] se[j] == re[i] && sc[j] == rc[i]) by {
            if i == 0 {
                assert(se[0] == re[0] && sc[0] == rc[0]);
            } else {
                assert(re[i] == red[i - 1] && rc[i] == rcd[i - 1]);
                if red[i - 1] == e && rcd[i - 1] == (e.key, vv) {
                } else {
                    let j = choose|j: int|
                        0 <= j < se.drop_first().len() && #[trigger] se.drop_first()[j] == red[i
                            - 1] && sc.drop_first()[j] == rcd[i - 1];
                    assert(se[j + 1] == re[i] && sc[j + 1] == rc[i]);
                }
            }
        }
    }
}

/// Searching an entry sequence and its pair-of-views image moves in step:
/// both hit or both miss, and a hit happens at one shared position.
pub proof fn lemma_find_lookup_parallel<K: StoreKey, V: Storable>(
    se: Seq<Entry<K, V>>,
    sc: Seq<(K::V, V::V)>,
    kv: K::V,
)
    requires
        se.len() == sc.len(),
        forall|i: int| 0 <= i < se.len() ==> (#[trigger] sc[i]).0 == se[i].key,
    ensures
        find_entry(se, kv) is Some <==> lookup_pair::<K, V::V>(sc, kv) is Some,
        find_entry(se, kv) is Some ==> exists|i: int|
            0 <= i < se.len() && #[trigger] se[i] == find_entry(se, kv).unwrap() && sc[i] == (
            kv,
            lookup_pair::<K, V::V>(sc, kv).unwrap(),
            ),
    decreases se.len(),
{
    if se.len() == 0 {
    } else if se[0].key == kv {
        assert(se[0] == find_entry(se, kv).unwrap() && sc[0] == (
            kv,
            lookup_pair::<K, V::V>(sc, kv).unwrap(),
        ));
    } else {
        assert(forall|i: int|
            0 <= i < se.drop_first().len() ==> (#[trigger] sc.drop_first()[i]).0
                == se.drop_first()[i].key);
        lemma_find_lookup_parallel::<K, V>(se.drop_first(), sc.drop_first(), kv);
        if find_entry(se, kv) is Some {
            let i = choose|i: int|
                0 <= i < se.drop_first().len() && #[trigger] se.drop_first()[i] == find_entry(
                    se.drop_first(),
                    kv,
                ).unwrap() && sc.drop_first()[i] == (
                    kv,
                    lookup_pair::<K, V::V>(sc.drop_first(), kv).unwrap(),
                );
            assert(se[i + 1] == find_entry(se, kv).unwrap() && sc[i + 1] == (
                kv,
                lookup_pair::<K, V::V>(sc, kv).unwrap(),
            ));
        }
    }
}

/// Inserting a pair never disturbs the binding of any other key.
pub proof fn lemma_insert_preserves_other_keys<K: StoreKey, VV>(
    s: Seq<(K::V, VV)>,
    kv: K::V,
    vv: VV,
    k2: K::V,
)
    requires
        k2 != kv,
    ensures
        lookup_pair::<K, VV>(insert_pair::<K, VV>(s, kv, vv), k2) == lookup_pair::<K, VV>(s, k2),
    decreases s.len(),
{
    let r = insert_pair::<K, VV>(s, kv, vv);
    if s.len() == 0 {
        assert(r == seq![(kv, vv)]);
        assert(r.drop_first() =~= s);
    } else if K::key_lt(kv, s[0].0) {
        assert(r == seq![(kv, vv)] + s);
        assert(r[0] == (kv, vv));
        assert(r.drop_first() =~= s);
    } else if kv == s[0].0 {
    } else {
        lemma_insert_preserves_other_keys::<K, VV>(s.drop_first(), kv, vv, k2);
        assert(r[0] == s[0]);
        assert(r.drop_first() =~= insert_pair::<K, VV>(s.drop_first(), kv, vv));
    }
}

/// Inserting a key a second time is a no-op: the first binding stays, and
/// the later insert leaves the contents untouched.
pub proof fn lemma_duplicate_insert_noop<K: StoreKey, VV>(
    s: Seq<(K::V, VV)>,
    kv: K::V,
    v1: VV,
    v2: VV,
)
    requires
        lookup_pair::<K, VV>(s, kv) is None,
    ensures
        lookup_pair::<K, VV>(insert_pair::<K, VV>(s, kv, v1), kv) == Some(v1),
        insert_pair::<K, VV>(insert_pair::<K, VV>(s, kv, v1), kv, v2) == insert_pair::<K, VV>(
            s,
            kv,
            v1,
        ),
    decreases s.len(),
{
    let s1 = insert_pair::<K, VV>(s, kv, v1);
    K::lemma_key_lt_properties(kv, kv, kv);
    if s.len() == 0 {
        assert(s1 == seq![(kv, v1)]);
    } else if K::key_lt(kv, s[0].0) {
        assert(s1 == seq![(kv, v1)] + s);
        assert(s1[0] == (kv, v1));
    } else if kv == s[0].0 {
    } else {
        lemma_duplicate_insert_noop::<K, VV>(s.drop_first(), kv, v1, v2);
        assert(s1[0] == s[0]);
        assert(s1.drop_first() =~= insert_pair::<K, VV>(s.drop_first(), kv, v1));
        let s2 = insert_pair::<K, VV>(s1, kv, v2);
        assert(s2 == seq![s1[0]] + insert_pair::<K, VV>(s1.drop_first(), kv, v2));
        assert(s2 =~= s1);
    }
}

/// Relies on rand's thread-local generator sampling `Alphanumeric`: every
/// outcome is exactly `length` characters drawn from `0-9`, `a-z`, `A-Z`.
#[verifier::external_body]
fn generate_random_string(length: usize) -> (r: String)
    ensures
        r@.len() == length,
        forall|i: int|
            0 <= i < r@.len() ==> (('0' <= r@[i] && r@[i] <= '9') || ('a' <= r@[i] && r@[i] <= 'z')
                || ('A' <= r@[i] && r@[i] <= 'Z')),
{
    let rng = thread_rng();
    rng.sample_iter(&Alphanumeric).take(length).map(char::from).collect()
}

/// A log-structured merge tree: an AVL-balanced in-memory index plus the
/// SSTables its spills have produced.
pub struct LsmTree<K: StoreKey, V: Storable> {
    root: Node<K, V>,
    size: u32,
    number_of_unloads: u8,
    unload_bias: u32,
    identifier: String,
    tables: Vec<Sstable>,
    contents: Ghost<Seq<(<K as DeepView>::V, <V as DeepView>::V)>>,
}

impl<K: StoreKey, V: Storable> View for LsmTree<K, V> {
    type V = Seq<(<K as DeepView>::V, <V as DeepView>::V)>;

    closed spec fn view(&self) -> Seq<(<K as DeepView>::V, <V as DeepView>::V)> {
        self.contents@
    }
}

impl<K: StoreKey, V: Storable> LsmTree<K, V> {
    /// In-order entry views of the in-memory tree.
    pub closed spec fn mem_entries(self) -> Seq<Entry<K, V>> {
        self.root.inorder()
    }

    /// Number of successful insert calls so far.
    pub closed spec fn spec_size(self) -> u32 {
        self.size
    }

    /// Spill cadence: a spill happens every `bias` inserts.
    pub closed spec fn spec_bias(self) -> u32 {
        self.unload_bias
    }

    /// Number of spills performed, which is the number of SSTables.
    pub closed spec fn spec_unloads(self) -> u8 {
        self.number_of_unloads
    }

    /// The tree identifier naming its SSTable directory.
    pub closed spec fn spec_id(self) -> Seq<char> {
        self.identifier@
    }

    /// Balance factor of the node bearing the given key view.
    pub open spec fn spec_bf_of(self, kv: K::V) -> Option<i8> {
        self.spec_root().spec_bf_of(kv)
    }

    /// The in-memory index itself.
    pub closed spec fn spec_root(self) -> Node<K, V> {
        self.root
    }

    /// The node at position `i` agrees with the model pair at position `i`:
    /// same key, and the pair's value either resides in the node or is
    /// recoverable from the SSTable the node points at.
    pub closed spec fn entry_match(self, i: int) -> bool {
        let e = self.root.inorder()[i];
        let c = self.contents@[i];
        &&& c.0 == e.key
        &&& e.val is Some ==> (e.tab == 0 && e.val == Some(c.1))
        &&& e.val is None ==> (1 <= e.tab <= self.tables@.len() && exists|v: V|
            pairs_lookup((self.tables@[e.tab - 1]).pairs(), e.kenc) == Some(#[trigger] v.enc())
                && v.deep_view() == c.1)
    }

    /// The tree's invariant: a well-formed AVL index, a positive spill
    /// cadence, one SSTable per spill and one spill per `bias` inserts, and
    /// every entry backed by its value.
    pub closed spec fn well_formed(self) -> bool {
        &&& self.root.wf()
        &&& self.unload_bias > 0
        &&& self.tables@.len() == self.number_of_unloads as int
        &&& self.number_of_unloads as int == self.size as int / self.unload_bias as int
        &&& self.contents@.len() == self.root.inorder().len()
        &&& forall|i: int| 0 <= i < self.contents@.len() ==> self.entry_match(i)
    }

    /// An empty tree with the given spill cadence and a fresh random
    /// 16-character alphanumeric identifier.
    pub fn new(bias: u32) -> (t: Self)
        requires
            bias > 0,
        ensures
            t.well_formed(),
            t@ == Seq::<(K::V, V::V)>::empty(),
            t.spec_size() == 0,
            t.spec_bias() == bias,
            t.spec_unloads() == 0,
            t.spec_root() == Node::<K, V>::Leaf,
            t.spec_id().len() == 16,
            forall|i: int|
                0 <= i < t.spec_id().len() ==> (('0' <= #[trigger] t.spec_id()[i]
                    && t.spec_id()[i] <= '9') || ('a' <= t.spec_id()[i] && t.spec_id()[i] <= 'z')
                    || ('A' <= t.spec_id()[i] && t.spec_id()[i] <= 'Z')),
    {
        let t = LsmTree {
            root: Node::Leaf,
            size: 0,
            number_of_unloads: 0,
            unload_bias: bias,
            identifier: generate_random_string(16),
            tables: Vec::new(),
            contents: Ghost(Seq::empty()),
        };
        proof {
            assert(t.root.inorder() =~= Seq::<Entry<K, V>>::empty());
        }
        t
    }

    /// Insert a pair.  A key already present is a no-op on the contents,
    /// but `size` still advances and can still trip a spill; after the call
    /// the number of SSTables equals `size / bias`.
    pub fn insert(&mut self, key: K, value: V)
        requires
            old(self).well_formed(),
            old(self).spec_size() < u32::MAX,
            ((old(self).spec_size() + 1) % (old(self).spec_bias() as int) == 0) ==> old(
                self,
            ).spec_unloads() < 255,
        ensures
            final(self).well_formed(),
            final(self)@ == insert_pair::<K, V::V>(
                old(self)@,
                key.deep_view(),
                value.deep_view(),
            ),
            final(self).spec_size() == old(self).spec_size() + 1,
            final(self).spec_bias() == old(self).spec_bias(),
            final(self).spec_id() == old(self).spec_id(),
            final(self).spec_unloads() as int
                == final(self).spec_size() as int / final(self).spec_bias() as int,
            final(self).spec_root() == ({
                let grown = old(self).spec_root().spec_insert(key, value).0;
                if (old(self).spec_size() + 1) % (old(self).spec_bias() as int) == 0 {
                    grown.spec_unload((old(self).spec_unloads() + 1) as u8)
                } else {
                    grown
                }
            }),
            forall|i: int|
                1 <= i <= old(self).spec_unloads() ==> final(self).spec_sstable(i) == old(
                    self,
                ).spec_sstable(i),
    {
        let ghost e = EntryView {
            key: key.deep_view(),
            kenc: key.enc(),
            val: Some(value.deep_view()),
            venc: Some(value.enc()),
            tab: 0,
        };
        let ghost old_entries = self.root.inorder();
        let ghost old_contents = self.contents@;
        let mut climb = true;
        let mut root = Node::Leaf;
        core::mem::swap(&mut root, &mut self.root);
        let new_root = root.insert(key, value, &mut climb);
        self.root = new_root;
        self.size = self.size + 1;
        proof {
            self.contents@ = insert_pair::<K, V::V>(old_contents, e.key, e.val.unwrap());
            assert forall|i: int| 0 <= i < old_entries.len() implies (#[trigger] old_contents[i]).0
                == old_entries[i].key by {
                assert(old(self).entry_match(i));
            }
            lemma_insert_parallel::<K, V>(old_entries, old_contents, e, e.val.unwrap());
            assert forall|i: int| 0 <= i < self.contents@.len() implies self.entry_match(i) by {
                let re = insert_entry::<K, V::V>(old_entries, e);
                let rc = insert_pair::<K, V::V>(old_contents, e.key, e.val.unwrap());
                if re[i] == e && rc[i] == (e.key, e.val.unwrap()) {
                } else {
                    let j = choose|j: int|
                        0 <= j < old_entries.len() && #[trigger] old_entries[j] == re[i]
                            && old_contents[j] == rc[i];
                    assert(old(self).entry_match(j));
                }
            }
            assert(self.number_of_unloads as int == self.size as int / self.unload_bias as int
                || self.size as int % self.unload_bias as int == 0) by {
                let n = self.size as int;
                let b = self.unload_bias as int;
                assert(n % b != 0 ==> (n - 1) / b == n / b) by (nonlinear_arith)
                    requires
                        b > 0,
                        n > 0,
                ;
            }
        }
        if self.size % self.unload_bias == 0 {
            proof {
                let n = self.size as int;
                let b = self.unload_bias as int;
                assert(n % b == 0 ==> n / b == (n - 1) / b + 1) by (nonlinear_arith)
                    requires
                        b > 0,
                        n > 0,
                ;
            }
            self.unload();
        }
    }

    /// Spill: open a fresh SSTable, write every resident payload to it in
    /// key order, and leave routing pointers behind.  The contents do not
    /// change; only where the values live does.
    fn unload(&mut self)
        requires
            old(self).root.wf(),
            old(self).unload_bias > 0,
            old(self).tables@.len() == old(self).number_of_unloads as int,
            old(self).number_of_unloads < 255,
            old(self).contents@.len() == old(self).root.inorder().len(),
            forall|i: int| 0 <= i < old(self).contents@.len() ==> old(self).entry_match(i),
        ensures
            final(self).root.wf(),
            final(self).unload_bias == old(self).unload_bias,
            final(self).size == old(self).size,
            final(self).identifier == old(self).identifier,
            final(self).number_of_unloads == old(self).number_of_unloads + 1,
            final(self).tables@.len() == final(self).number_of_unloads as int,
            final(self).contents@ == old(self).contents@,
            final(self).contents@.len() == final(self).root.inorder().len(),
            forall|i: int| 0 <= i < final(self).contents@.len() ==> final(self).entry_match(i),
            final(self).root == old(self).root.spec_unload(
                (old(self).number_of_unloads + 1) as u8,
            ),
            forall|i: int|
                0 <= i < old(self).tables@.len() ==> final(self).tables@[i] == old(
                    self,
                ).tables@[i],
    {
        self.number_of_unloads = self.number_of_unloads + 1;
        let n = self.number_of_unloads;
        let mut table = Sstable::new();
        let mut root = Node::Leaf;
        core::mem::swap(&mut root, &mut self.root);
        let ghost old_entries = root.inorder();
        let ghost old_tables = self.tables@;
        let new_root = root.unload_to_table(&mut table, n);
        self.root = new_root;
        proof {
            assert(table.pairs() =~= resident_pairs(old_entries));
        }
        self.tables.push(table);
        proof {
            let rs = residents(old_entries);
            let tp = resident_pairs(old_entries);
            old(self).root.lemma_wf_sorted();
            lemma_residents_sorted::<K, V::V>(old_entries);
            assert forall|i: int| 0 <= i < self.contents@.len() implies self.entry_match(i) by {
                let e = old_entries[i];
                let e2 = self.root.inorder()[i];
                assert(e2 == spill_entry(e, n));
                let c = self.contents@[i];
                assert(old(self).entry_match(i));
                if e.val is Some {
                    // freshly spilled: its line is in the new table
                    lemma_residents_membership(old_entries, i);
                    let j = choose|j: int| 0 <= j < rs.len() && rs[j] == e;
                    assert forall|j2: int| 0 <= j2 < j implies (#[trigger] tp[j2]).0
                        != e.kenc by {
                        assert(tp[j2] == (rs[j2].kenc, rs[j2].venc.unwrap()));
                        if rs[j2].kenc == e.kenc {
                            assert(key_realizable::<K, V::V>(rs[j]));
                            let k = choose|k: K|
                                #[trigger] k.enc() == rs[j].kenc && k.deep_view() == rs[j].key;
                            assert(kenc_decisive::<K, V::V>(rs[j2]));
                            assert(k.deep_view() == rs[j2].key);
                            assert(K::key_lt(rs[j2].key, rs[j].key));
                            K::lemma_key_lt_properties(rs[j].key, rs[j].key, rs[j].key);
                        }
                    }
                    assert(tp[j] == (rs[j].kenc, rs[j].venc.unwrap()));
                    lemma_pairs_lookup_first_match(tp, e.kenc, j);
                    assert(pairs_lookup(tp, e.kenc) == Some(e.venc.unwrap()));
                    assert(value_realizable::<K::V, V>(rs[j]));
                    let v = choose|v: V|
                        #[trigger] v.enc() == rs[j].venc.unwrap() && Some(v.deep_view())
                            == rs[j].val;
                    assert(self.tables@[n - 1] == table);
                    assert(pairs_lookup(self.tables@[e2.tab - 1].pairs(), e2.kenc) == Some(
                        v.enc(),
                    ));
                    assert(v.deep_view() == c.1);
                } else {
                    // already routed: its table is untouched
                    assert(e2 == e);
                    assert(self.tables@[e.tab - 1] == old_tables[e.tab - 1]);
                }
            }
        }
    }

    /// Look a key up: the in-memory index routes the search, and a spilled
    /// value is read back from its SSTable.  The result is exactly the
    /// model's binding for the key.
    pub fn get(&self, target_key: K) -> (res: Option<V>)
        requires
            self.well_formed(),
        ensures
            match lookup_pair::<K, V::V>(self@, target_key.deep_view()) {
                None => res is None,
                Some(vv) => res is Some && res.unwrap().deep_view() == vv,
            },
    {
        let ghost kv = target_key.deep_view();
        let ghost se = self.root.inorder();
        let ghost sc = self.contents@;
        proof {
            assert forall|i: int| 0 <= i < se.len() implies (#[trigger] sc[i]).0
                == se[i].key by {
                assert(self.entry_match(i));
            }
            lemma_find_lookup_parallel::<K, V>(se, sc, kv);
        }
        let (result_value, sstable_number) = self.root.get(&target_key);
        match result_value {
            Some(v) => {
                proof {
                    let i = choose|i: int|
                        0 <= i < se.len() && #[trigger] se[i] == find_entry(se, kv).unwrap()
                            && sc[i] == (kv, lookup_pair::<K, V::V>(sc, kv).unwrap());
                    assert(self.entry_match(i));
                }
                Some(v)
            },
            None => {
                if sstable_number != 0 {
                    let ghost e = find_entry(se, kv).unwrap();
                    let ghost i = choose|i: int|
                        0 <= i < se.len() && #[trigger] se[i] == find_entry(se, kv).unwrap()
                            && sc[i] == (kv, lookup_pair::<K, V::V>(sc, kv).unwrap());
                    proof {
                        assert(self.entry_match(i));
                        assert(e.val is None && 1 <= e.tab <= self.tables@.len());
                        // the node's recorded key encoding is the sought key's
                        self.root.lemma_inorder_realizable();
                        let k_node = choose|k: K|
                            #[trigger] k.enc() == e.kenc && k.deep_view() == e.key;
                        K::lemma_enc_respects_view(k_node, target_key);
                        assert(e.kenc == target_key.enc());
                    }
                    let kenc = target_key.encode_key();
                    let idx = (sstable_number - 1) as usize;
                    let found = self.tables[idx].find_value(&kenc);
                    let ghost v_w = choose|v: V|
                        pairs_lookup(self.tables@[e.tab - 1].pairs(), e.kenc) == Some(
                            #[trigger] v.enc(),
                        ) && v.deep_view() == sc[i].1;
                    match found {
                        Some(line_value) => {
                            proof {
                                assert(line_value@ == v_w.enc());
                            }
                            match V::decode(line_value.as_str()) {
                                Some(v) => {
                                    proof {
                                        assert(v.deep_view() == v_w.deep_view());
                                    }
                                    Some(v)
                                },
                                None => vstd::pervasive::unreached(),
                            }
                        },
                        None => vstd::pervasive::unreached(),
                    }
                } else {
                    proof {
                        if find_entry(se, kv) is Some {
                            let i = choose|i: int|
                                0 <= i < se.len() && #[trigger] se[i] == find_entry(
                                    se,
                                    kv,
                                ).unwrap() && sc[i] == (kv, lookup_pair::<K, V::V>(
                                    sc,
                                    kv,
                                ).unwrap());
                            assert(self.entry_match(i));
                        }
                    }
                    None
                }
            },
        }
    }

    /// Balance factor of the node bearing the given key, `None` if the key
    /// is absent.  In a well-formed tree every reported factor lies in
    /// `[-1, 1]`.
    pub fn get_balance_factor(&self, target_key: K) -> (res: Option<i8>)
        requires
            self.well_formed(),
        ensures
            res == self.spec_bf_of(target_key.deep_view()),
            res is Some <==> lookup_pair::<K, V::V>(self@, target_key.deep_view()) is Some,
            res matches Some(b) ==> -1 <= b <= 1,
    {
        proof {
            let kv = target_key.deep_view();
            self.root.lemma_spec_bf_bounded(kv);
            self.root.lemma_spec_bf_present(kv);
            assert forall|i: int| 0 <= i < self.root.inorder().len() implies (#[trigger] self
                .contents@[i]).0 == self.root.inorder()[i].key by {
                assert(self.entry_match(i));
            }
            lemma_find_lookup_parallel::<K, V>(self.root.inorder(), self.contents@, kv);
        }
        self.root.get_balance_factor(&target_key)
    }

    /// Number of insert calls so far.
    pub fn size(&self) -> (n: u32)
        ensures
            n == self.spec_size(),
    {
        self.size
    }

    /// Number of SSTables produced so far.
    pub fn sstable_count(&self) -> (n: u8)
        ensures
            n == self.spec_unloads(),
    {
        self.number_of_unloads
    }

    /// The tree identifier naming its SSTable directory.
    pub fn identifier(&self) -> (s: &String)
        ensures
            s@ == self.spec_id(),
    {
        &self.identifier
    }

    /// The SSTable with the given spill number, for writing it out.
    pub fn sstable(&self, n: u8) -> (t: &Sstable)
        requires
            self.well_formed(),
            1 <= n <= self.spec_unloads(),
        ensures
            *t == self.spec_sstable(n as int),
    {
        &self.tables[(n - 1) as usize]
    }

    /// The SSTable with the given spill number.
    pub closed spec fn spec_sstable(self, n: int) -> Sstable {
        self.tables@[n - 1]
    }

    /// A one-shot in-order iterator over a snapshot of the tree taken now:
    /// it yields the tree's pairs in ascending key order, reading spilled
    /// values back from their SSTables.
    pub fn iter(&self) -> (it: LsmTreeIterator<K, V>)
        requires
            self.well_formed(),
        ensures
            it.wf(),
            it@ == self@,
            it.spec_id() == self.spec_id(),
    {
        let root_copy = self.root.duplicate();
        let n = self.tables.len();
        let mut tables_copy: Vec<Sstable> = Vec::new();
        let mut i: usize = 0;
        while i < n
            invariant
                0 <= i <= n,
                n == self.tables@.len(),
                tables_copy@.len() == i,
                forall|j: int|
                    0 <= j < i ==> (#[trigger] tables_copy@[j]).lines_view()
                        == self.tables@[j].lines_view(),
            decreases n - i,
        {
            tables_copy.push(self.tables[i].dup());
            i = i + 1;
        }
        proof {
            assert forall|i2: int|
                #![trigger root_copy.inorder()[i2]]
                0 <= i2 < self.contents@.len() implies {
                let e = root_copy.inorder()[i2];
                let c = self.contents@[i2];
                &&& c.0 == e.key
                &&& e.val is Some ==> (e.tab == 0 && e.val == Some(c.1))
                &&& e.val is None ==> (1 <= e.tab <= tables_copy@.len() && exists|v: V|
                    pairs_lookup((tables_copy@[e.tab - 1]).pairs(), e.kenc) == Some(
                        #[trigger] v.enc(),
                    ) && v.deep_view() == c.1)
            } by {
                assert(self.entry_match(i2));
                assert(root_copy.inorder()[i2] == self.root.inorder()[i2]);
                let e = self.root.inorder()[i2];
                if e.val is None {
                    assert(tables_copy@[e.tab - 1].pairs() == self.tables@[e.tab - 1].pairs());
                }
            }
        }
        LsmTreeIterator::new(
            root_copy,
            self.identifier.clone(),
            tables_copy,
            Ghost(self.contents@),
        )
    }

    /// Binary-search ordering: the tree's contents carry strictly
    /// ascending, hence distinct, keys, which is also the order the
    /// iterator yields them in.
    pub proof fn lemma_view_sorted(&self)
        requires
            self.well_formed(),
        ensures
            forall|i: int, j: int|
                0 <= i < j < self@.len() ==> K::key_lt(
                    (#[trigger] self@[i]).0,
                    (#[trigger] self@[j]).0,
                ),
    {
        self.root.lemma_wf_sorted();
        assert forall|i: int, j: int| 0 <= i < j < self@.len() implies K::key_lt(
            (#[trigger] self@[i]).0,
            (#[trigger] self@[j]).0,
        ) by {
            assert(self.entry_match(i));
            assert(self.entry_match(j));
            assert(sorted_by_key::<K, V::V>(self.root.inorder()));
            assert(K::key_lt(self.root.inorder()[i].key, self.root.inorder()[j].key));
        }
    }

    /// AVL balance: every reachable node of the in-memory index carries a
    /// balance factor equal to the height difference of its children, and
    /// that factor stays within `[-1, 1]`.
    pub proof fn lemma_index_balanced(&self)
        requires
            self.well_formed(),
        ensures
            self.index_balanced(),
    {
        self.root.lemma_wf_balanced();
    }

    /// Whether every reachable node's balance factor equals the height
    /// difference of its children and lies within `[-1, 1]`.
    pub closed spec fn index_balanced(self) -> bool {
        self.root.balanced()
    }

    /// Write an indented sketch of the in-memory tree to standard output.
    pub fn print(&self)
        requires
            self.well_formed(),
    {
        let mut out = String::new();
        self.root.render(0, &mut out);
        write_stdout(out.as_str());
    }
}

impl<K: StoreKey, V: Storable> Database<K, V> for LsmTree<K, V> {
    open spec fn inv(&self) -> bool {
        self.well_formed()
    }

    open spec fn model(&self) -> Seq<(K::V, V::V)> {
        self@
    }

    open spec fn can_insert(&self) -> bool {
        &&& self.spec_size() < u32::MAX
        &&& ((self.spec_size() + 1) % (self.spec_bias() as int) == 0 ==> self.spec_unloads()
            < 255)
    }

    fn insert(&mut self, key: K, value: V) -> (r: Result<(), DbError>) {
        if self.size == u32::MAX {
            return Err(DbError::Unsupported);
        }
        if (self.size + 1) % self.unload_bias == 0 && self.number_of_unloads == 255 {
            return Err(DbError::Unsupported);
        }
        LsmTree::insert(self, key, value);
        Ok(())
    }

    fn get(&self, key: &K) -> (r: Result<V, DbError>) {
        match LsmTree::get(self, key.dup()) {
            Some(v) => Ok(v),
            None => Err(DbError::NotFound),
        }
    }

    fn remove(&mut self, _key: &K) -> (r: Result<(), DbError>) {
        Err(DbError::Unsupported)
    }

    fn contains(&self, key: &K) -> (r: bool) {
        match LsmTree::get(self, key.dup()) {
            Some(_) => true,
            None => false,
        }
    }
}

/// Relies on std::io::stdout: the rendered text goes to standard output,
/// and any write error is ignored.
#[verifier::external_body]
fn write_stdout(s: &str) {
    let _ = writeln!(std::io::stdout(), "{}", s);
}

} // verus!
