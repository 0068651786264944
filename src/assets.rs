//! Asset handles and the per-type asset cache: a path loads once, later
//! requests for it share the loaded value.
use vstd::prelude::*;
use std::rc::Rc;
use crate::keyed::{lemma_index_of, lemma_put, lookup, unique_keys, Keyed};

verus! {

/// Relies on `Rc::clone`: another pointer to the same allocation, so the
/// clone stands for the same value.
#[verifier::external_body]
fn share<T>(r: &Rc<T>) -> (out: Rc<T>)
    ensures
        out == *r,
{
    Rc::clone(r)
}

/// A shared, immutable loaded asset together with the path it was loaded from.
pub struct Handle<T> {
    path: String,
    data: Rc<T>,
}

impl<T> Handle<T> {
    /// The path the asset was loaded from.
    pub closed spec fn path_view(&self) -> Seq<char> {
        self.path@
    }

    /// The loaded value.
    pub closed spec fn data_view(&self) -> T {
        *self.data
    }

    /// A handle on `data`, loaded from `path`.
    pub fn new(path: &str, data: Rc<T>) -> (r: Self)
        ensures
            r.path_view() == path@,
            r.data_view() == *data,
    {
        Handle { path: path.to_string(), data }
    }

    /// The path the asset was loaded from.
    pub fn path(&self) -> (r: &str)
        ensures
            r@ == self.path_view(),
    {
        self.path.as_str()
    }

    /// The loaded value.
    pub fn data(&self) -> (r: &T)
        ensures
            *r == self.data_view(),
    {
        &self.data
    }

    /// Another handle on the same value, from the same path.
    pub fn share(&self) -> (r: Self)
        ensures
            r.path_view() == self.path_view(),
            r.data_view() == self.data_view(),
    {
        Handle { path: self.path.clone(), data: share(&self.data) }
    }
}

/// The index of the first handle in `assets` loaded from `path`, if any.
pub open spec fn cached_index<T>(assets: Seq<Handle<T>>, path: Seq<char>) -> Option<int> {
    if exists|i: int|
        0 <= i < assets.len() && #[trigger] assets[i].path_view() == path && forall|j: int|
            0 <= j < i ==> #[trigger] assets[j].path_view() != path {
        Some(
            choose|i: int|
                0 <= i < assets.len() && #[trigger] assets[i].path_view() == path && forall|j: int|
                    0 <= j < i ==> #[trigger] assets[j].path_view() != path,
        )
    } else {
        None
    }
}

proof fn lemma_cached_index<T>(assets: Seq<Handle<T>>, path: Seq<char>, i: int)
    requires
        0 <= i < assets.len(),
        assets[i].path_view() == path,
        forall|j: int| 0 <= j < i ==> #[trigger] assets[j].path_view() != path,
    ensures
        cached_index(assets, path) == Some(i),
{
    let k = choose|k: int|
        0 <= k < assets.len() && #[trigger] assets[k].path_view() == path && forall|j: int|
            0 <= j < k ==> #[trigger] assets[j].path_view() != path;
    if k < i {
        assert(assets[k].path_view() != path);
    } else if k > i {
        assert(assets[i].path_view() != path);
    }
}

proof fn lemma_first_hit<T>(assets: Seq<Handle<T>>, path: Seq<char>, i: int)
    requires
        0 <= i < assets.len(),
        assets[i].path_view() == path,
    ensures
        cached_index(assets, path) is Some,
    decreases i,
{
    if exists|j: int| 0 <= j < i && #[trigger] assets[j].path_view() == path {
        let j = choose|j: int| 0 <= j < i && #[trigger] assets[j].path_view() == path;
        lemma_first_hit(assets, path, j);
    } else {
        lemma_cached_index(assets, path, i);
    }
}

/// A path that a load fetched and cached is found in the cache from then
/// on: the next load of it hands out the cached value and fetches nothing.
pub proof fn lemma_cached_after_load<T>(before: Seq<Handle<T>>, after: Seq<Handle<T>>, path: Seq<char>)
    requires
        cached_index(before, path) is None,
        after.len() == before.len() + 1,
        after.take(before.len() as int) == before,
        after.last().path_view() == path,
    ensures
        cached_index(after, path) == Some(before.len() as int),
{
    assert forall|j: int| 0 <= j < before.len() implies #[trigger] after[j].path_view() != path by {
        assert(after[j] == before[j]);
        if before[j].path_view() == path {
            lemma_first_hit(before, path, j);
        }
    }
    lemma_cached_index(after, path, before.len() as int);
}

/// The loader of one asset type, with the handles it has loaded so far.
pub struct AssetLoader<L, T> {
    pub loader: L,
    pub assets: Vec<Handle<T>>,
}

impl<L, T> AssetLoader<L, T> {
    /// A loader that has loaded nothing yet.
    pub fn new(loader: L) -> (r: Self)
        ensures
            r.loader == loader,
            r.assets@.len() == 0,
    {
        AssetLoader { loader, assets: Vec::new() }
    }

    /// The first handle loaded from `path`, if any.
    pub fn cached(&self, path: &str) -> (r: Option<&Handle<T>>)
        ensures
            match cached_index(self.assets@, path@) {
                Some(i) => r == Some(&self.assets@[i]),
                None => r is None,
            },
    {
        let mut i: usize = 0;
        while i < self.assets.len()
            invariant
                i <= self.assets@.len(),
                forall|j: int| 0 <= j < i ==> #[trigger] self.assets@[j].path_view() != path@,
            decreases self.assets@.len() - i,
        {
            if str_eq(self.assets[i].path(), path) {
                proof {
                    lemma_cached_index(self.assets@, path@, i as int);
                }
                return Some(&self.assets[i]);
            }
            i = i + 1;
        }
        None
    }
}

/// Whether two strings hold the same characters.
fn str_eq(a: &str, b: &str) -> (r: bool)
    ensures
        r == (a@ == b@),
{
    let n = a.unicode_len();
    if n != b.unicode_len() {
        return false;
    }
    let mut i: usize = 0;
    while i < n
        invariant
            n == a@.len() == b@.len(),
            i <= n,
            forall|j: int| 0 <= j < i ==> a@[j] == b@[j],
        decreases n - i,
    {
        if a.get_char(i) != b.get_char(i) {
            return false;
        }
        i = i + 1;
    }
    proof {
        assert(a@ =~= b@);
    }
    true
}

/// Why an asset could not be had.
#[derive(Debug, PartialEq, Eq)]
pub enum AssetError<E> {
    /// No loader is registered for the asset type.
    NoLoader(u64),
    /// The loader failed.
    Load(E),
}

/// Asset loaders, with their caches, keyed by asset type key.
pub struct Assets<L, T> {
    loaders: Keyed<AssetLoader<L, T>>,
}

impl<L, T> View for Assets<L, T> {
    type V = Seq<(u64, AssetLoader<L, T>)>;

    closed spec fn view(&self) -> Seq<(u64, AssetLoader<L, T>)> {
        self.loaders@
    }
}

impl<L, T> Assets<L, T> {
    /// Well-formed: one loader per asset type.
    pub open spec fn wf(&self) -> bool {
        unique_keys(self@)
    }

    /// No loaders.
    pub fn new() -> (r: Self)
        ensures
            r.wf(),
            r@.len() == 0,
    {
        Assets { loaders: Keyed::new() }
    }

    /// Registers `loader` for asset type `key`, with an empty cache; it
    /// replaces an earlier loader of that type and its cache.
    pub fn register_loader(&mut self, key: u64, loader: L)
        requires
            old(self).wf(),
        ensures
            final(self).wf(),
            lookup(final(self)@, key) matches Some(l) && l.loader == loader && l.assets@.len() == 0,
            forall|k: u64| k != key ==> lookup(final(self)@, k) == lookup(old(self)@, k),
    {
        let fresh = AssetLoader::new(loader);
        proof {
            lemma_put(self@, key, fresh);
        }
        let _ = self.loaders.insert(key, fresh);
    }

    /// The asset of type `key` at `path`. A path already loaded gives a
    /// handle on the cached value. Otherwise `fetch` loads it with the type's
    /// loader; on success the value is cached and a handle on it returned,
    /// on failure its error is returned and nothing is cached. A type without
    /// loader gives `NoLoader`.
    pub fn load<E, F: Fn(&L, &str) -> Result<T, E>>(&mut self, key: u64, path: &str, fetch: F) -> (r:
        Result<Handle<T>, AssetError<E>>)
        requires
            old(self).wf(),
            forall|l: &L, p: &str| fetch.requires((l, p)),
        ensures
            final(self).wf(),
            match lookup(old(self)@, key) {
                None => r == Err::<Handle<T>, AssetError<E>>(AssetError::NoLoader(key)) && final(self)@
                    == old(self)@,
                Some(ld) => match cached_index(ld.assets@, path@) {
                    Some(i) => {
                        &&& final(self)@ == old(self)@
                        &&& r matches Ok(h) && h.path_view() == path@ && h.data_view()
                            == ld.assets@[i].data_view()
                    },
                    None => match r {
                        Ok(h) => {
                            &&& fetch.ensures((&ld.loader, path), Ok::<T, E>(h.data_view()))
                            &&& h.path_view() == path@
                            &&& lookup(final(self)@, key) matches Some(nl) && nl.loader == ld.loader
                                && nl.assets@.len() == ld.assets@.len() + 1 && nl.assets@.take(
                                ld.assets@.len() as int,
                            ) == ld.assets@ && nl.assets@.last().path_view() == path@
                                && nl.assets@.last().data_view() == h.data_view()
                            &&& forall|k: u64|
                                k != key ==> lookup(final(self)@, k) == lookup(old(self)@, k)
                        },
                        Err(AssetError::Load(e)) => {
                            &&& fetch.ensures((&ld.loader, path), Err::<T, E>(e))
                            &&& final(self)@ == old(self)@
                        },
                        Err(AssetError::NoLoader(_)) => false,
                    },
                },
            },
    {
        let p = match self.loaders.position(key) {
            Some(p) => p,
            None => {
                return Err(AssetError::NoLoader(key));
            },
        };
        proof {
            lemma_index_of(self@, p as int);
        }
        let entry = self.loaders.value_at(p);
        match entry.cached(path) {
            Some(h) => {
                return Ok(h.share());
            },
            None => {},
        }
        match fetch(&entry.loader, path) {
            Ok(value) => {
                let data = Rc::new(value);
                let ghost before = self@;
                let ld = self.loaders.value_at_mut(p);
                ld.assets.push(Handle::new(path, share(&data)));
                proof {
                    lemma_put(before, key, *ld);
                    assert(ld.assets@.take(ld.assets@.len() - 1) =~= before[p as int].1.assets@);
                }
                Ok(Handle::new(path, data))
            },
            Err(e) => Err(AssetError::Load(e)),
        }
    }
}

} // verus!
