//! Totally ordered keys.
//!
//! The index orders its entries by key.  A [`StoreKey`] is a [`Storable`]
//! whose deep views carry a strict total order, realized by an exec
//! three-way comparison, and whose line encoding never contains the `:`
//! delimiter, so an SSTable line can be split at its first `:`.

use vstd::prelude::*;

use crate::codec::Storable;
use crate::codec::json_of_u64;
use crate::codec::json_of_u64_seq;

verus! {

/// Result of a three-way key comparison.
pub enum KeyOrdering {
    Less,
    Equal,
    Greater,
}

/// Strict lexicographic order on `u64` sequences: a proper prefix comes
/// first, otherwise the first differing element decides.
pub open spec fn seq_u64_lt(a: Seq<u64>, b: Seq<u64>) -> bool
    decreases a.len(),
{
    if a.len() == 0 {
        b.len() > 0
    } else if b.len() == 0 {
        false
    } else if a[0] < b[0] {
        true
    } else if a[0] > b[0] {
        false
    } else {
        seq_u64_lt(a.drop_first(), b.drop_first())
    }
}

pub proof fn lemma_seq_u64_lt_irreflexive(a: Seq<u64>)
    ensures
        !seq_u64_lt(a, a),
    decreases a.len(),
{
    if a.len() > 0 {
        lemma_seq_u64_lt_irreflexive(a.drop_first());
    }
}

pub proof fn lemma_seq_u64_lt_transitive(a: Seq<u64>, b: Seq<u64>, c: Seq<u64>)
    requires
        seq_u64_lt(a, b),
        seq_u64_lt(b, c),
    ensures
        seq_u64_lt(a, c),
    decreases a.len(),
{
    if a.len() == 0 {
    } else if b.len() == 0 {
    } else if c.len() == 0 {
    } else {
        if a[0] == b[0] && b[0] == c[0] {
            lemma_seq_u64_lt_transitive(a.drop_first(), b.drop_first(), c.drop_first());
        }
    }
}

pub proof fn lemma_seq_u64_lt_connected(a: Seq<u64>, b: Seq<u64>)
    ensures
        seq_u64_lt(a, b) || seq_u64_lt(b, a) || a == b,
    decreases a.len(),
{
    if a.len() == 0 {
        if b.len() == 0 {
            assert(a =~= b);
        }
    } else if b.len() == 0 {
    } else if a[0] == b[0] {
        lemma_seq_u64_lt_connected(a.drop_first(), b.drop_first());
        if !seq_u64_lt(a, b) && !seq_u64_lt(b, a) {
            assert(a.drop_first() == b.drop_first());
            assert(a =~= seq![a[0]] + a.drop_first());
            assert(b =~= seq![b[0]] + b.drop_first());
        }
    }
}

/// A key of the index: storable, totally ordered, and with a `:`-free line
/// encoding.
pub trait StoreKey: Storable {
    /// The strict order on key views that the index sorts by.
    spec fn key_lt(a: Self::V, b: Self::V) -> bool;

    /// `key_lt` is a strict total order.
    proof fn lemma_key_lt_properties(a: Self::V, b: Self::V, c: Self::V)
        ensures
            !Self::key_lt(a, a),
            Self::key_lt(a, b) && Self::key_lt(b, c) ==> Self::key_lt(a, c),
            Self::key_lt(a, b) || Self::key_lt(b, a) || a == b,
    ;

    /// Three-way comparison deciding `key_lt` on the deep views.
    fn key_cmp(&self, other: &Self) -> (c: KeyOrdering)
        ensures
            match c {
                KeyOrdering::Less => Self::key_lt(self.deep_view(), other.deep_view()),
                KeyOrdering::Equal => self.deep_view() == other.deep_view(),
                KeyOrdering::Greater => Self::key_lt(other.deep_view(), self.deep_view()),
            },
    ;

    /// Produce the line encoding, which for a key never contains `:`.
    fn encode_key(&self) -> (s: String)
        ensures
            s@ == self.enc(),
            forall|v: Self| s@ == #[trigger] v.enc() ==> v.deep_view() == self.deep_view(),
            forall|i: int| 0 <= i < s@.len() ==> s@[i] != ':',
    ;
}

impl StoreKey for u64 {
    open spec fn key_lt(a: u64, b: u64) -> bool {
        a < b
    }

    proof fn lemma_key_lt_properties(a: u64, b: u64, c: u64) {
    }

    fn key_cmp(&self, other: &u64) -> (c: KeyOrdering) {
        if *self < *other {
            KeyOrdering::Less
        } else if *self == *other {
            KeyOrdering::Equal
        } else {
            KeyOrdering::Greater
        }
    }

    fn encode_key(&self) -> (s: String) {
        crate::codec::u64_to_json(self)
    }
}

impl StoreKey for Vec<u64> {
    open spec fn key_lt(a: Seq<u64>, b: Seq<u64>) -> bool {
        seq_u64_lt(a, b)
    }

    proof fn lemma_key_lt_properties(a: Seq<u64>, b: Seq<u64>, c: Seq<u64>) {
        lemma_seq_u64_lt_irreflexive(a);
        if seq_u64_lt(a, b) && seq_u64_lt(b, c) {
            lemma_seq_u64_lt_transitive(a, b, c);
        }
        lemma_seq_u64_lt_connected(a, b);
    }

    fn key_cmp(&self, other: &Vec<u64>) -> (c: KeyOrdering) {
        proof {
            assert(self.deep_view() =~= self@);
            assert(other.deep_view() =~= other@);
        }
        let a_len = self.len();
        let b_len = other.len();
        let mut i: usize = 0;
        while i < a_len && i < b_len
            invariant
                0 <= i <= a_len,
                i <= b_len,
                a_len == self@.len(),
                b_len == other@.len(),
                self.deep_view() == self@,
                other.deep_view() == other@,
                self@.subrange(0, i as int) =~= other@.subrange(0, i as int),
            decreases a_len - i,
        {
            if self[i] < other[i] {
                proof {
                    lemma_seq_u64_lt_common_prefix(
                        self.deep_view(),
                        other.deep_view(),
                        i as int,
                    );
                }
                return KeyOrdering::Less;
            }
            if self[i] > other[i] {
                proof {
                    lemma_seq_u64_lt_common_prefix(
                        other.deep_view(),
                        self.deep_view(),
                        i as int,
                    );
                }
                return KeyOrdering::Greater;
            }
            i = i + 1;
        }
        if a_len < b_len {
            proof {
                assert(self@ =~= other@.subrange(0, a_len as int));
                lemma_seq_u64_lt_prefix(self.deep_view(), other.deep_view());
            }
            KeyOrdering::Less
        } else if a_len > b_len {
            proof {
                assert(other@ =~= self@.subrange(0, b_len as int));
                lemma_seq_u64_lt_prefix(other.deep_view(), self.deep_view());
            }
            KeyOrdering::Greater
        } else {
            proof {
                assert(self@ =~= self@.subrange(0, a_len as int));
                assert(other@ =~= other@.subrange(0, b_len as int));
                assert(self.deep_view() =~= other.deep_view());
            }
            KeyOrdering::Equal
        }
    }

    fn encode_key(&self) -> (s: String) {
        crate::codec::u64_vec_to_json(self)
    }
}

/// If `a` and `b` agree on a prefix and `a` is smaller at its end, `a`
/// comes first.
proof fn lemma_seq_u64_lt_common_prefix(a: Seq<u64>, b: Seq<u64>, i: int)
    requires
        0 <= i < a.len(),
        i < b.len(),
        a.subrange(0, i) == b.subrange(0, i),
        a[i] < b[i],
    ensures
        seq_u64_lt(a, b),
    decreases i,
{
    if i == 0 {
    } else {
        assert(a[0] == a.subrange(0, i)[0]);
        assert(b[0] == b.subrange(0, i)[0]);
        assert(a.drop_first().subrange(0, i - 1) =~= a.subrange(0, i).drop_first());
        assert(b.drop_first().subrange(0, i - 1) =~= b.subrange(0, i).drop_first());
        assert(a.drop_first()[i - 1] == a[i]);
        assert(b.drop_first()[i - 1] == b[i]);
        lemma_seq_u64_lt_common_prefix(a.drop_first(), b.drop_first(), i - 1);
    }
}

/// A proper prefix comes first.
proof fn lemma_seq_u64_lt_prefix(a: Seq<u64>, b: Seq<u64>)
    requires
        a.len() < b.len(),
        a == b.subrange(0, a.len() as int),
    ensures
        seq_u64_lt(a, b),
    decreases a.len(),
{
    if a.len() > 0 {
        assert(a[0] == b.subrange(0, a.len() as int)[0]);
        assert(a.drop_first() =~= b.drop_first().subrange(0, a.len() - 1));
        lemma_seq_u64_lt_prefix(a.drop_first(), b.drop_first());
    }
}

} // verus!
