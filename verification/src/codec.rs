//! Textual encoding of keys and values.
//!
//! SSTable lines hold one `encoded_key:encoded_value` entry each, in a
//! self-describing JSON-compatible encoding produced by serde_json.  The
//! [`Storable`] trait captures what the index needs from that encoding:
//! every storable value has a mathematical encoding `enc`, the exec
//! `encode`/`decode` functions realize it, and encoding determines the
//! (deep) view of the value, so a value read back from a table line carries
//! the same view as the value that was written.

use vstd::prelude::*;

verus! {

/// What `serde_json::to_string` returns for a `u64`.
pub uninterp spec fn json_of_u64(n: u64) -> Seq<char>;

/// What `serde_json::to_string` returns for a `String` with the given text.
pub uninterp spec fn json_of_text(s: Seq<char>) -> Seq<char>;

/// What `serde_json::to_string` returns for a `Vec<u64>` with the given
/// elements.
pub uninterp spec fn json_of_u64_seq(s: Seq<u64>) -> Seq<char>;

/// Relies on `serde_json::to_string::<u64>`: it prints the decimal digits of
/// the number, so the output is the same for equal inputs, distinct for
/// distinct inputs, and never contains a `:`.
#[verifier::external_body]
pub(crate) fn u64_to_json(n: &u64) -> (r: String)
    ensures
        r@ == json_of_u64(*n),
        forall|m: u64| r@ == json_of_u64(m) ==> m == *n,
        forall|i: int| 0 <= i < r@.len() ==> r@[i] != ':',
{
    serde_json::to_string(n).unwrap()
}

/// Relies on `serde_json::from_str::<u64>`: it parses back exactly what
/// `serde_json::to_string::<u64>` printed.
#[verifier::external_body]
pub(crate) fn u64_from_json(s: &str) -> (r: Option<u64>)
    ensures
        forall|n: u64| s@ == json_of_u64(n) ==> r == Some(n),
{
    serde_json::from_str::<u64>(s).ok()
}

/// Relies on `serde_json::to_string::<String>`: it prints a quoted, escaped
/// JSON string determined by the characters alone, and distinct texts give
/// distinct outputs.
#[verifier::external_body]
pub(crate) fn text_to_json(s: &String) -> (r: String)
    ensures
        r@ == json_of_text(s@),
        forall|t: Seq<char>| r@ == json_of_text(t) ==> t == s@,
{
    serde_json::to_string(s).unwrap()
}

/// Relies on `serde_json::from_str::<String>`: it parses back exactly the
/// text that `serde_json::to_string::<String>` printed.
#[verifier::external_body]
pub(crate) fn text_from_json(s: &str) -> (r: Option<String>)
    ensures
        forall|t: Seq<char>| s@ == json_of_text(t) ==> (r is Some && r.unwrap()@ == t),
{
    serde_json::from_str::<String>(s).ok()
}

/// Relies on `serde_json::to_string::<Vec<u64>>`: it prints `[d,d,...]` with
/// decimal elements, determined by the elements alone, distinct for distinct
/// element sequences, and never containing a `:`.
#[verifier::external_body]
pub(crate) fn u64_vec_to_json(v: &Vec<u64>) -> (r: String)
    ensures
        r@ == json_of_u64_seq(v.deep_view()),
        forall|t: Seq<u64>| r@ == json_of_u64_seq(t) ==> t == v.deep_view(),
        forall|i: int| 0 <= i < r@.len() ==> r@[i] != ':',
{
    serde_json::to_string(v).unwrap()
}

/// Relies on `serde_json::from_str::<Vec<u64>>`: it parses back exactly what
/// `serde_json::to_string::<Vec<u64>>` printed.
#[verifier::external_body]
pub(crate) fn u64_vec_from_json(s: &str) -> (r: Option<Vec<u64>>)
    ensures
        forall|t: Seq<u64>| s@ == json_of_u64_seq(t) ==> (r is Some && r.unwrap().deep_view()
            == t),
{
    serde_json::from_str::<Vec<u64>>(s).ok()
}

/// A value the index can hold and spill to an SSTable.
///
/// `enc` is the value's line encoding; `encode` and `decode` realize it in
/// exec code.  The encoding is a function of the deep view alone
/// ([`Storable::lemma_enc_respects_view`]), and `encode` additionally
/// witnesses that it is injective on deep views, so a table lookup that
/// matches an encoded key has found exactly the key it looked for.
pub trait Storable: DeepView + Sized {
    /// The line encoding of this value.
    spec fn enc(self) -> Seq<char>;

    /// Equal deep views give equal encodings.
    proof fn lemma_enc_respects_view(a: Self, b: Self)
        requires
            a.deep_view() == b.deep_view(),
        ensures
            a.enc() == b.enc(),
    ;

    /// Produce the line encoding.
    fn encode(&self) -> (s: String)
        ensures
            s@ == self.enc(),
            forall|v: Self| s@ == #[trigger] v.enc() ==> v.deep_view() == self.deep_view(),
    ;

    /// Read a value back from a line encoding.  On any string that is the
    /// encoding of some value, decoding succeeds and returns a value with
    /// that view.
    fn decode(s: &str) -> (r: Option<Self>)
        ensures
            forall|v: Self| s@ == #[trigger] v.enc() ==> (r is Some && r.unwrap().deep_view()
                == v.deep_view() && r.unwrap().enc() == v.enc()),
    ;

    /// A copy with the same view (and hence the same encoding).
    fn dup(&self) -> (r: Self)
        ensures
            r.deep_view() == self.deep_view(),
            r.enc() == self.enc(),
    ;
}

impl Storable for u64 {
    open spec fn enc(self) -> Seq<char> {
        json_of_u64(self)
    }

    proof fn lemma_enc_respects_view(a: u64, b: u64) {
    }

    fn encode(&self) -> (s: String) {
        u64_to_json(self)
    }

    fn decode(s: &str) -> (r: Option<u64>) {
        u64_from_json(s)
    }

    fn dup(&self) -> (r: u64) {
        *self
    }
}

impl Storable for String {
    open spec fn enc(self) -> Seq<char> {
        json_of_text(self@)
    }

    proof fn lemma_enc_respects_view(a: String, b: String) {
    }

    fn encode(&self) -> (s: String) {
        text_to_json(self)
    }

    fn decode(s: &str) -> (r: Option<String>) {
        text_from_json(s)
    }

    fn dup(&self) -> (r: String) {
        self.clone()
    }
}

impl Storable for Vec<u64> {
    open spec fn enc(self) -> Seq<char> {
        json_of_u64_seq(self.deep_view())
    }

    proof fn lemma_enc_respects_view(a: Vec<u64>, b: Vec<u64>) {
    }

    fn encode(&self) -> (s: String) {
        u64_vec_to_json(self)
    }

    fn decode(s: &str) -> (r: Option<Vec<u64>>) {
        u64_vec_from_json(s)
    }

    fn dup(&self) -> (r: Vec<u64>) {
        let mut out: Vec<u64> = Vec::new();
        let mut i: usize = 0;
        while i < self.len()
            invariant
                0 <= i <= self.len(),
                out@ == self@.subrange(0, i as int),
            decreases self.len() - i,
        {
            out.push(self[i]);
            assert(out@ =~= self@.subrange(0, i + 1 as int));
            i = i + 1;
        }
        assert(out@ =~= self@);
        assert(out.deep_view() =~= self.deep_view());
        out
    }
}

} // verus!
