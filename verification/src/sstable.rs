//! Sorted string tables.
//!
//! An SSTable is an append-once sequence of lines, each holding one
//! `encoded_key:encoded_value` entry in ascending key order.  A lookup
//! scans the lines in order, splits each at its **first** `:`, and compares
//! the left side with the encoded key it seeks.  The model of a table is
//! the sequence of `(key, value)` encoding pairs obtained by that split
//! ([`Sstable::pairs`]).

use vstd::prelude::*;
use vstd::string::StrSliceExecFns;

verus! {

/// Index of the first `:` in `l`, or `l.len()` if there is none.
pub open spec fn first_colon(l: Seq<char>) -> int
    decreases l.len(),
{
    if l.len() == 0 {
        0
    } else if l[0] == ':' {
        0
    } else {
        1 + first_colon(l.drop_first())
    }
}

/// Split at the first `:`: the delimiter itself is dropped.  A line
/// without a `:` is all key and no value.
pub open spec fn split_colon(l: Seq<char>) -> (Seq<char>, Seq<char>) {
    let i = first_colon(l);
    if i < l.len() {
        (l.subrange(0, i), l.subrange(i + 1, l.len() as int))
    } else {
        (l, Seq::empty())
    }
}

/// One line of a table: `kenc ':' venc`.
pub open spec fn line_of(kenc: Seq<char>, venc: Seq<char>) -> Seq<char> {
    kenc + seq![':'] + venc
}

/// `ke` has no `:`.
pub open spec fn colon_free(ke: Seq<char>) -> bool {
    forall|i: int| 0 <= i < ke.len() ==> ke[i] != ':'
}

/// The value side of the first pair whose key side is `ke`.
pub open spec fn pairs_lookup(ps: Seq<(Seq<char>, Seq<char>)>, ke: Seq<char>) -> Option<Seq<char>>
    decreases ps.len(),
{
    if ps.len() == 0 {
        None
    } else if ps[0].0 == ke {
        Some(ps[0].1)
    } else {
        pairs_lookup(ps.drop_first(), ke)
    }
}

/// The first colon of a line sits exactly where the prefix stops being
/// colon-free.
pub proof fn lemma_first_colon_at(l: Seq<char>, i: int)
    requires
        0 <= i <= l.len(),
        forall|j: int| 0 <= j < i ==> l[j] != ':',
        i < l.len() ==> l[i] == ':',
    ensures
        i < l.len() ==> first_colon(l) == i,
        i == l.len() ==> first_colon(l) == l.len(),
    decreases i,
{
    if i == 0 {
        if l.len() > 0 && l[0] != ':' {
            // i == 0 == l.len() is impossible here, so l[0] == ':' when i < l.len()
        }
        if i == l.len() {
        }
    } else {
        assert(l[0] != ':');
        assert(forall|j: int| 0 <= j < i - 1 ==> l.drop_first()[j] == l[j + 1]);
        lemma_first_colon_at(l.drop_first(), i - 1);
    }
}

/// Splitting a well-formed line with a colon-free key side recovers the
/// two encodings.
pub proof fn lemma_split_line(kenc: Seq<char>, venc: Seq<char>)
    requires
        colon_free(kenc),
    ensures
        split_colon(line_of(kenc, venc)) == (kenc, venc),
{
    let l = line_of(kenc, venc);
    assert(l.len() == kenc.len() + 1 + venc.len());
    assert(l[kenc.len() as int] == ':');
    assert(forall|j: int| 0 <= j < kenc.len() ==> l[j] == kenc[j]);
    lemma_first_colon_at(l, kenc.len() as int);
    assert(l.subrange(0, kenc.len() as int) =~= kenc);
    assert(l.subrange(kenc.len() as int + 1, l.len() as int) =~= venc);
}

/// Scanning a concatenation of pair lists finds the left list's hit first.
pub proof fn lemma_pairs_lookup_concat(
    a: Seq<(Seq<char>, Seq<char>)>,
    b: Seq<(Seq<char>, Seq<char>)>,
    ke: Seq<char>,
)
    ensures
        pairs_lookup(a + b, ke) == if pairs_lookup(a, ke) is Some {
            pairs_lookup(a, ke)
        } else {
            pairs_lookup(b, ke)
        },
    decreases a.len(),
{
    if a.len() == 0 {
        assert(a + b =~= b);
    } else {
        assert((a + b)[0] == a[0]);
        assert((a + b).drop_first() =~= a.drop_first() + b);
        lemma_pairs_lookup_concat(a.drop_first(), b, ke);
    }
}



/// The scan stops at the first match.
pub proof fn lemma_pairs_lookup_first_match(ps: Seq<(Seq<char>, Seq<char>)>, ke: Seq<char>, i: int)
    requires
        0 <= i <= ps.len(),
        forall|j: int| 0 <= j < i ==> (#[trigger] ps[j]).0 != ke,
        i < ps.len() ==> ps[i].0 == ke,
    ensures
        i < ps.len() ==> pairs_lookup(ps, ke) == Some(ps[i].1),
        i == ps.len() ==> pairs_lookup(ps, ke) is None,
    decreases i,
{
    if i == 0 {
        if i == ps.len() {
        }
    } else {
        assert(ps[0].0 != ke);
        assert(forall|j: int| 0 <= j < i - 1 ==> #[trigger] ps.drop_first()[j] == ps[j + 1]);
        lemma_pairs_lookup_first_match(ps.drop_first(), ke, i - 1);
    }
}

/// An append-once sorted string table held as one line per entry.
pub struct Sstable {
    lines: Vec<String>,
}

impl Sstable {
    /// The lines of the table.
    pub closed spec fn lines_view(self) -> Seq<Seq<char>> {
        self.lines.deep_view()
    }

    /// The table's model: each line split at its first `:`.
    pub open spec fn pairs(self) -> Seq<(Seq<char>, Seq<char>)> {
        self.lines_view().map_values(|l: Seq<char>| split_colon(l))
    }

    /// A fresh, empty table.
    pub fn new() -> (t: Sstable)
        ensures
            t.lines_view() == Seq::<Seq<char>>::empty(),
    {
        let t = Sstable { lines: Vec::new() };
        proof {
            assert(t.lines.deep_view() =~= Seq::<Seq<char>>::empty());
        }
        t
    }

    /// Append one line.
    pub(crate) fn push_line(&mut self, line: String)
        ensures
            final(self).lines_view() == old(self).lines_view() + seq![line@],
            final(self).pairs() == old(self).pairs() + seq![split_colon(line@)],
    {
        let ghost old_lines = self.lines.deep_view();
        self.lines.push(line);
        proof {
            assert(self.lines.deep_view() =~= old_lines + seq![line@]);
            assert(self.pairs() =~= old(self).pairs() + seq![split_colon(line@)]);
        }
    }

    /// Number of lines.
    pub fn line_count(&self) -> (n: usize)
        ensures
            n == self.lines_view().len(),
    {
        proof {
            assert(self.lines.deep_view().len() == self.lines@.len());
        }
        self.lines.len()
    }

    /// The line at the given position, for writing the table out.
    pub fn line_at(&self, i: usize) -> (l: &String)
        requires
            i < self.lines_view().len(),
        ensures
            l@ == self.lines_view()[i as int],
    {
        proof {
            assert(self.lines.deep_view().len() == self.lines@.len());
            assert(self.lines@[i as int]@ == self.lines.deep_view()[i as int]);
        }
        &self.lines[i]
    }

    /// A copy holding the same lines.
    pub(crate) fn dup(&self) -> (t: Sstable)
        ensures
            t.lines_view() == self.lines_view(),
    {
        let mut out: Vec<String> = Vec::new();
        let n = self.lines.len();
        let mut i: usize = 0;
        while i < n
            invariant
                0 <= i <= n,
                n == self.lines@.len(),
                out@.len() == i,
                forall|j: int| 0 <= j < i ==> #[trigger] out@[j] == self.lines@[j],
            decreases n - i,
        {
            out.push(self.lines[i].clone());
            i = i + 1;
        }
        let t = Sstable { lines: out };
        proof {
            assert(t.lines.deep_view() =~= self.lines.deep_view());
        }
        t
    }

    /// Split one line at its first `:`.
    fn split_line(line: &String) -> (r: (String, String))
        ensures
            r.0@ == split_colon(line@).0,
            r.1@ == split_colon(line@).1,
    {
        let s = line.as_str();
        let n = s.unicode_len();
        let mut i: usize = 0;
        while i < n && s.get_char(i) != ':'
            invariant
                0 <= i <= n,
                n == s@.len(),
                s@ == line@,
                forall|j: int| 0 <= j < i ==> s@[j] != ':',
            decreases n - i,
        {
            i = i + 1;
        }
        proof {
            lemma_first_colon_at(line@, i as int);
        }
        if i < n {
            let k = s.substring_char(0, i).to_owned();
            let v = s.substring_char(i + 1, n).to_owned();
            (k, v)
        } else {
            let k = s.substring_char(0, n).to_owned();
            proof {
                assert(line@.subrange(0, n as int) =~= line@);
            }
            (k, String::new())
        }
    }

    /// Linear scan for the entry with the given encoded key; the value side
    /// of the first matching line comes back.
    pub(crate) fn find_value(&self, kenc: &String) -> (r: Option<String>)
        ensures
            match pairs_lookup(self.pairs(), kenc@) {
                None => r is None,
                Some(ve) => r is Some && r.unwrap()@ == ve,
            },
    {
        let n = self.lines.len();
        proof {
            assert(self.lines.deep_view().len() == self.lines@.len());
        }
        let mut i: usize = 0;
        while i < n
            invariant
                0 <= i <= n,
                n == self.lines@.len(),
                n == self.pairs().len(),
                forall|j: int| 0 <= j < i ==> (#[trigger] self.pairs()[j]).0 != kenc@,
            decreases n - i,
        {
            proof {
                assert(self.lines@[i as int]@ == self.lines.deep_view()[i as int]);
            }
            let (k, v) = Self::split_line(&self.lines[i]);
            if k.eq(kenc) {
                proof {
                    assert(self.pairs()[i as int].0 == kenc@);
                    lemma_pairs_lookup_first_match(self.pairs(), kenc@, i as int);
                }
                return Some(v);
            }
            proof {
                assert(self.pairs()[i as int].0 != kenc@);
            }
            i = i + 1;
        }
        proof {
            lemma_pairs_lookup_first_match(self.pairs(), kenc@, n as int);
        }
        None
    }
}

} // verus!
