//! The component registry: for each component type key, the pair of
//! functions that turn a component into its saved form and back.
use vstd::prelude::*;
use crate::keyed::{lemma_put, lookup, put, unique_keys, Keyed};

verus! {

/// Codec entries keyed by component type key, in order of registration.
pub struct Registry<F> {
    entries: Keyed<F>,
}

impl<F> View for Registry<F> {
    type V = Seq<(u64, F)>;

    closed spec fn view(&self) -> Seq<(u64, F)> {
        self.entries@
    }
}

impl<F> Registry<F> {
    /// Well-formed: each type key is registered once.
    pub open spec fn wf(&self) -> bool {
        unique_keys(self@)
    }

    /// A registry with nothing registered.
    pub fn new() -> (r: Self)
        ensures
            r.wf(),
            r@ == Seq::<(u64, F)>::empty(),
    {
        Registry { entries: Keyed::new() }
    }

    /// Registers `codec` for `key`; a second registration of a key replaces
    /// the first.
    pub fn register(&mut self, key: u64, codec: F)
        requires
            old(self).wf(),
        ensures
            final(self).wf(),
            final(self)@ == put(old(self)@, key, codec),
    {
        self.entries.insert(key, codec);
    }

    /// The codec registered for `key`.
    pub fn lookup(&self, key: u64) -> (r: Option<&F>)
        requires
            self.wf(),
        ensures
            match r {
                Some(f) => lookup(self@, key) == Some(*f),
                None => lookup(self@, key) is None,
            },
    {
        self.entries.get(key)
    }

    /// Whether `key` is registered.
    pub fn contains(&self, key: u64) -> (r: bool)
        requires
            self.wf(),
        ensures
            r == (lookup(self@, key) is Some),
    {
        self.entries.get(key).is_some()
    }
}

/// Registering a codec, even again for a key already registered, leaves the
/// registry well-formed, makes that codec the one looked up under its key, and
/// leaves the lookup of every other key as it was.
pub proof fn lemma_register_isolated<F>(reg: Seq<(u64, F)>, key: u64, codec: F, other: u64)
    requires
        unique_keys(reg),
        other != key,
    ensures
        unique_keys(put(reg, key, codec)),
        lookup(put(reg, key, codec), key) == Some(codec),
        lookup(put(reg, key, codec), other) == lookup(reg, other),
        lookup(put(put(reg, key, codec), key, codec), other) == lookup(reg, other),
        lookup(put(put(reg, key, codec), key, codec), key) == Some(codec),
{
    lemma_put(reg, key, codec);
    lemma_put(put(reg, key, codec), key, codec);
}

} // verus!
