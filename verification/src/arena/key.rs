use vstd::prelude::*;

verus! {

/// A key with index and version for arena access.
///
/// Keys are stable references to slots in the arena. Even after deletion
/// and reuse of a slot, old keys fail to access the new data because their
/// version no longer matches.
#[derive(Clone, Copy, Debug, PartialEq, Eq, Hash, Structural)]
pub struct Key {
    /// Index into the arena's slot array.
    pub(crate) index: usize,
    /// Version counter to detect stale keys.
    pub(crate) version: usize,
}

impl View for Key {
    type V = (usize, usize);

    /// A key is its pair (index, version).
    closed spec fn view(&self) -> (usize, usize) {
        (self.index, self.version)
    }
}

/// Inside the crate, a key's view is its two fields.
pub(crate) broadcast proof fn lemma_key_view(k: Key)
    ensures
        #[trigger] k@ == (k.index, k.version),
{
}

impl Key {
    /// The key with the given (index, version) pair.
    pub closed spec fn from_view(v: (usize, usize)) -> Key {
        Key { index: v.0, version: v.1 }
    }

    /// A key built from a pair views as that pair.
    pub broadcast proof fn lemma_from_view(v: (usize, usize))
        ensures
            #[trigger] Key::from_view(v)@ == v,
    {
    }

    /// A key is the key built from its own view.
    pub broadcast proof fn lemma_view_from(k: Key)
        ensures
            Key::from_view(#[trigger] k@) == k,
    {
    }

    /// Two keys are equal exactly when their (index, version) pairs are.
    pub proof fn lemma_view_injective(a: Key, b: Key)
        ensures
            (a@ == b@) == (a == b),
    {
    }

    /// Returns the index portion of the key.
    pub fn index(&self) -> (r: usize)
        ensures
            r == self@.0,
    {
        self.index
    }

    /// Returns the version portion of the key.
    pub fn version(&self) -> (r: usize)
        ensures
            r == self@.1,
    {
        self.version
    }

    pub(crate) fn from_parts(index: usize, version: usize) -> (r: Key)
        ensures
            r@ == (index, version),
    {
        Key { index, version }
    }
}

} // verus!
