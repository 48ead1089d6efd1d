//! The narrow storage interface the chunking pipeline consumes.
//!
//! An implementation exposes its contents as an ordered sequence of
//! key-view/value-view pairs ([`Database::model`]); each method's contract
//! says exactly how it reads or changes that model.

use vstd::prelude::*;

use crate::codec::Storable;
use crate::keys::StoreKey;
use crate::lsmtree::insert_pair;
use crate::lsmtree::lookup_pair;

verus! {

/// Errors of the [`Database`] interface.
#[derive(Debug, Clone, Copy, PartialEq, Eq)]
pub enum DbError {
    /// The key is not present.
    NotFound,
    /// The operation is not supported by this implementation.
    Unsupported,
}

/// A key-value store as the chunking pipeline sees it: insert a pair, get
/// or test a key, remove a key where the implementation supports it.
pub trait Database<K: StoreKey, V: Storable> {
    /// The implementation's invariant, established by its constructors.
    spec fn inv(&self) -> bool;

    /// The ordered key-value contents.
    spec fn model(&self) -> Seq<(K::V, V::V)>;

    /// Whether the implementation can accept the next insert (a bounded
    /// implementation may run out of counter room).
    spec fn can_insert(&self) -> bool;

    /// Store a pair: the model gains the binding at its ordered position,
    /// and a key already bound keeps its first value.  The call succeeds
    /// exactly when the implementation has room for it.
    fn insert(&mut self, key: K, value: V) -> (r: Result<(), DbError>)
        requires
            old(self).inv(),
        ensures
            final(self).inv(),
            r is Ok <==> old(self).can_insert(),
            r is Ok ==> final(self).model() == insert_pair::<K, V::V>(
                old(self).model(),
                key.deep_view(),
                value.deep_view(),
            ),
            r is Err ==> final(self).model() == old(self).model(),
    ;

    /// Fetch the value bound to a key: the model's binding on a hit, a
    /// not-found error otherwise.
    fn get(&self, key: &K) -> (r: Result<V, DbError>)
        requires
            self.inv(),
        ensures
            match lookup_pair::<K, V::V>(self.model(), key.deep_view()) {
                Some(vv) => r is Ok && r.unwrap().deep_view() == vv,
                None => r == Err::<V, DbError>(DbError::NotFound),
            },
    ;

    /// Drop a key.  This engine does not support deletion: the call fails
    /// unconditionally and the contents do not change.
    fn remove(&mut self, key: &K) -> (r: Result<(), DbError>)
        requires
            old(self).inv(),
        ensures
            final(self).inv(),
            r == Err::<(), DbError>(DbError::Unsupported),
            final(self).model() == old(self).model(),
    ;

    /// Whether a key is bound: exactly when `get` would return a value.
    fn contains(&self, key: &K) -> (r: bool)
        requires
            self.inv(),
        ensures
            r == (lookup_pair::<K, V::V>(self.model(), key.deep_view()) is Some),
    ;
}

} // verus!
