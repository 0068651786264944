//! Scene snapshots: the rows of every registered component type, each
//! component in its saved form, grouped by type key; and the way back.
use vstd::prelude::*;
use crate::keyed::{has_key, index_of, lemma_index_of, lemma_put, lookup, put, unique_keys, Keyed};
use crate::registry::Registry;
use crate::storage::{Borrow, Row, Storage, Tables};
use crate::world::World;

verus! {

/// Saved rows grouped by type key, in the order in which the types were met.
/// Each row is an entity id with its component's saved form.
pub struct Snapshot<P> {
    groups: Keyed<Vec<(u64, P)>>,
}

impl<P> View for Snapshot<P> {
    type V = Seq<(u64, Vec<(u64, P)>)>;

    closed spec fn view(&self) -> Seq<(u64, Vec<(u64, P)>)> {
        self.groups@
    }
}

impl<P> Snapshot<P> {
    /// Well-formed: each type key has one group.
    pub open spec fn wf(&self) -> bool {
        unique_keys(self@)
    }

    /// A snapshot without groups.
    pub fn new() -> (r: Self)
        ensures
            r.wf(),
            r@ == Seq::<(u64, Vec<(u64, P)>)>::empty(),
    {
        Snapshot { groups: Keyed::new() }
    }

    /// Stores `rows` as the group of `key`, replacing any earlier group.
    pub fn insert(&mut self, key: u64, rows: Vec<(u64, P)>)
        requires
            old(self).wf(),
        ensures
            final(self).wf(),
            final(self)@ == put(old(self)@, key, rows),
    {
        let _ = self.groups.insert(key, rows);
    }

    /// The number of groups.
    pub fn len(&self) -> (r: usize)
        ensures
            r == self@.len(),
    {
        self.groups.len()
    }

    /// The type key of group `g`.
    pub fn key_at(&self, g: usize) -> (r: u64)
        requires
            g < self@.len(),
        ensures
            r == self@[g as int].0,
    {
        self.groups.key_at(g)
    }

    /// The rows of group `g`.
    pub fn rows_at(&self, g: usize) -> (r: &Vec<(u64, P)>)
        requires
            g < self@.len(),
        ensures
            *r == self@[g as int].1,
    {
        self.groups.value_at(g)
    }
}

/// The tables of `s` whose type key is registered, in order.
pub open spec fn kept<C, F>(s: Tables<C>, reg: Seq<(u64, F)>) -> Tables<C>
    decreases s.len(),
{
    if s.len() == 0 {
        Seq::empty()
    } else if has_key(reg, s.last().0) {
        kept(s.drop_last(), reg).push(s.last())
    } else {
        kept(s.drop_last(), reg)
    }
}

/// The type keys of `s` that are not registered, in order.
pub open spec fn dropped<C, F>(s: Tables<C>, reg: Seq<(u64, F)>) -> Seq<u64>
    decreases s.len(),
{
    if s.len() == 0 {
        Seq::empty()
    } else if has_key(reg, s.last().0) {
        dropped(s.drop_last(), reg)
    } else {
        dropped(s.drop_last(), reg).push(s.last().0)
    }
}

/// The codec registered for `key`.
pub open spec fn codec_of<F>(reg: Seq<(u64, F)>, key: u64) -> F {
    lookup(reg, key)->0
}

/// `snap` holds the tables `t` in saved form: the same type keys in the same
/// order, and row by row the same entity with what `encode` made of the
/// component, given the codec registered for its type.
pub open spec fn encoded<C, F, P, E: Fn(&F, &C) -> P>(
    t: Tables<C>,
    reg: Seq<(u64, F)>,
    encode: E,
    snap: Seq<(u64, Vec<(u64, P)>)>,
) -> bool {
    &&& snap.len() == t.len()
    &&& forall|g: int|
        #![trigger snap[g]]
        0 <= g < snap.len() ==> {
            &&& snap[g].0 == t[g].0
            &&& snap[g].1@.len() == t[g].1.len()
            &&& forall|i: int|
                #![trigger snap[g].1@[i]]
                0 <= i < snap[g].1@.len() ==> {
                    &&& snap[g].1@[i].0 == t[g].1[i].entity
                    &&& encode.ensures((&codec_of(reg, t[g].0), &t[g].1[i].value), snap[g].1@[i].1)
                }
        }
}

/// A saved scene: the snapshot, and the type keys that had no codec and
/// were left out.
pub struct Scene<P> {
    pub snapshot: Snapshot<P>,
    pub skipped: Vec<u64>,
}

proof fn lemma_kept_keys<C, F>(s: Tables<C>, reg: Seq<(u64, F)>)
    ensures
        forall|g: int|
            0 <= g < kept(s, reg).len() ==> exists|j: int|
                0 <= j < s.len() && #[trigger] kept(s, reg)[g] == s[j] && has_key(reg, s[j].0),
    decreases s.len(),
{
    if s.len() > 0 {
        let q = s.drop_last();
        lemma_kept_keys(q, reg);
        assert forall|g: int| 0 <= g < kept(s, reg).len() implies exists|j: int|
            0 <= j < s.len() && #[trigger] kept(s, reg)[g] == s[j] && has_key(reg, s[j].0) by {
            if g < kept(q, reg).len() {
                let j = choose|j: int|
                    0 <= j < q.len() && #[trigger] kept(q, reg)[g] == q[j] && has_key(reg, q[j].0);
                assert(s[j] == q[j]);
            } else {
                assert(kept(s, reg)[g] == s[s.len() - 1]);
            }
        }
    }
}

/// Writes the rows of every registered component type into a snapshot,
/// each component turned into its saved form by `encode` with the codec of
/// its type. Types without a codec are left out and listed in `skipped`.
pub fn save<C, F, P, E: Fn(&F, &C) -> P>(storage: &Storage<C>, registry: &Registry<F>, encode: E) -> (r:
    Scene<P>)
    requires
        storage.wf(),
        registry.wf(),
        forall|f: &F, c: &C| encode.requires((f, c)),
    ensures
        r.snapshot.wf(),
        encoded(kept(storage@, registry@), registry@, encode, r.snapshot@),
        r.skipped@ == dropped(storage@, registry@),
{
    proof {
        storage.lemma_wf();
    }
    let ghost s = storage@;
    let ghost reg = registry@;
    let mut snapshot: Snapshot<P> = Snapshot::new();
    let mut skipped: Vec<u64> = Vec::new();
    let mut t: usize = 0;
    while t < storage.table_count()
        invariant
            s == storage@,
            reg == registry@,
            unique_keys(s),
            registry.wf(),
            forall|f: &F, c: &C| encode.requires((f, c)),
            t <= s.len(),
            snapshot.wf(),
            encoded(kept(s.take(t as int), reg), reg, encode, snapshot@),
            skipped@ == dropped(s.take(t as int), reg),
        decreases s.len() - t,
    {
        let ghost pre = s.take(t as int);
        proof {
            assert(s.take(t + 1).drop_last() =~= pre);
            assert(s.take(t + 1).last() == s[t as int]);
        }
        let key = storage.table_key(t);
        match registry.lookup(key) {
            Some(codec) => {
                let rows = storage.table_rows(t);
                let mut out: Vec<(u64, P)> = Vec::new();
                let mut i: usize = 0;
                while i < rows.len()
                    invariant
                        rows@ == s[t as int].1,
                        key == s[t as int].0,
                        lookup(reg, key) == Some(*codec),
                        forall|f: &F, c: &C| encode.requires((f, c)),
                        i <= rows@.len(),
                        out@.len() == i,
                        forall|j: int|
                            #![trigger out@[j]]
                            0 <= j < i ==> {
                                &&& out@[j].0 == rows@[j].entity
                                &&& encode.ensures((&codec_of(reg, key), &rows@[j].value), out@[j].1)
                            },
                    decreases rows@.len() - i,
                {
                    let p = encode(codec, &rows[i].value);
                    out.push((rows[i].entity, p));
                    i = i + 1;
                }
                proof {
                    lemma_kept_keys(pre, reg);
                    if has_key(snapshot@, key) {
                        let g = index_of(snapshot@, key);
                        let j = choose|j: int|
                            0 <= j < pre.len() && #[trigger] kept(pre, reg)[g] == pre[j] && has_key(
                                reg,
                                pre[j].0,
                            );
                        assert(s[j].0 == s[t as int].0);
                    }
                    lemma_put(snapshot@, key, out);
                }
                let ghost before = snapshot@;
                snapshot.insert(key, out);
                proof {
                    assert(snapshot@ == before.push((key, out)));
                    let k = kept(s.take(t + 1), reg);
                    assert(k == kept(pre, reg).push(s[t as int]));
                    assert forall|g: int| #![trigger snapshot@[g]] 0 <= g < snapshot@.len() implies {
                        &&& snapshot@[g].0 == k[g].0
                        &&& snapshot@[g].1@.len() == k[g].1.len()
                        &&& forall|i: int|
                            #![trigger snapshot@[g].1@[i]]
                            0 <= i < snapshot@[g].1@.len() ==> {
                                &&& snapshot@[g].1@[i].0 == k[g].1[i].entity
                                &&& encode.ensures(
                                    (&codec_of(reg, k[g].0), &k[g].1[i].value),
                                    snapshot@[g].1@[i].1,
                                )
                            }
                    } by {
                        if g < before.len() {
                            assert(snapshot@[g] == before[g]);
                            assert(k[g] == kept(pre, reg)[g]);
                        } else {
                            assert(snapshot@[g] == (key, out));
                            assert(k[g] == s[t as int]);
                            assert forall|i: int|
                                #![trigger snapshot@[g].1@[i]]
                                0 <= i < snapshot@[g].1@.len() implies {
                                &&& snapshot@[g].1@[i].0 == k[g].1[i].entity
                                &&& encode.ensures(
                                    (&codec_of(reg, k[g].0), &k[g].1[i].value),
                                    snapshot@[g].1@[i].1,
                                )
                            } by {
                                assert(out@[i].0 == rows@[i].entity);
                            }
                        }
                    }
                }
            },
            None => {
                skipped.push(key);
            },
        }
        t = t + 1;
    }
    proof {
        assert(s.take(s.len() as int) =~= s);
    }
    Scene { snapshot, skipped }
}

impl<P> Scene<P> {
    /// Saves the components of `world`: see `save`.
    pub fn from_world<C, R, S, F, E: Fn(&F, &C) -> P>(world: &World<C, R, S>, registry: &Registry<F>, encode: E) -> (r:
        Self)
        requires
            world.wf(),
            registry.wf(),
            forall|f: &F, c: &C| encode.requires((f, c)),
        ensures
            r.snapshot.wf(),
            encoded(kept(world.components@, registry@), registry@, encode, r.snapshot@),
            r.skipped@ == dropped(world.components@, registry@),
    {
        save(&world.components, registry, encode)
    }

    /// Replaces the components of `world` with those loaded from this scene
    /// (see `load`); on failure `world` is left as it was.
    pub fn set_world<C, R, S, F, D: Fn(&F, &P) -> Option<C>>(
        &self,
        world: &mut World<C, R, S>,
        registry: &Registry<F>,
        decode: D,
    ) -> (r: Result<(), LoadError>)
        requires
            old(world).wf(),
            self.snapshot.wf(),
            registry.wf(),
            forall|f: &F, p: &P| decode.requires((f, p)),
        ensures
            final(world).wf(),
            final(world).resources == old(world).resources,
            final(world).systems == old(world).systems,
            match r {
                Ok(()) => decoded(self.snapshot@, registry@, decode, final(world).components@),
                Err(e) => load_failed(self.snapshot@, registry@, decode, e) && final(world).components
                    == old(world).components,
            },
            all_registered(self.snapshot@, registry@) && decodes_all(self.snapshot@, registry@, decode)
                ==> r is Ok,
    {
        match load(&self.snapshot, registry, decode) {
            Ok(storage) => {
                world.components = storage;
                Ok(())
            },
            Err(e) => Err(e),
        }
    }
}

/// Why a snapshot could not be loaded.
#[derive(Clone, Copy, Debug, PartialEq, Eq, Structural)]
pub enum LoadError {
    /// A group's type key has no codec.
    UnknownComponent(u64),
    /// The codec of `key` could not read the saved form at `index`.
    BadPayload { key: u64, index: usize },
}

/// Every group's type key has a codec.
pub open spec fn all_registered<F, P>(snap: Seq<(u64, Vec<(u64, P)>)>, reg: Seq<(u64, F)>) -> bool {
    forall|g: int| 0 <= g < snap.len() ==> has_key(reg, #[trigger] snap[g].0)
}

/// `decode` reads every saved form of `snap` whose type has a codec.
pub open spec fn decodes_all<F, P, C, D: Fn(&F, &P) -> Option<C>>(
    snap: Seq<(u64, Vec<(u64, P)>)>,
    reg: Seq<(u64, F)>,
    decode: D,
) -> bool {
    forall|g: int, i: int, r: Option<C>|
        0 <= g < snap.len() && has_key(reg, snap[g].0) && 0 <= i < snap[g].1@.len()
            && #[trigger] decode.ensures((&codec_of(reg, snap[g].0), &snap[g].1@[i].1), r) ==> r is Some
}

/// `t` is what loading `snap` gives: the same type keys in the same order,
/// and row by row the same entity, not borrowed, with the component that
/// `decode` read from the saved form, given the codec of its type.
pub open spec fn decoded<F, P, C, D: Fn(&F, &P) -> Option<C>>(
    snap: Seq<(u64, Vec<(u64, P)>)>,
    reg: Seq<(u64, F)>,
    decode: D,
    t: Tables<C>,
) -> bool {
    &&& t.len() == snap.len()
    &&& forall|g: int|
        #![trigger t[g]]
        0 <= g < t.len() ==> {
            &&& t[g].0 == snap[g].0
            &&& has_key(reg, snap[g].0)
            &&& t[g].1.len() == snap[g].1@.len()
            &&& forall|i: int|
                #![trigger t[g].1[i]]
                0 <= i < t[g].1.len() ==> {
                    &&& t[g].1[i].entity == snap[g].1@[i].0
                    &&& t[g].1[i].borrow == Borrow::Unused
                    &&& decode.ensures(
                        (&codec_of(reg, snap[g].0), &snap[g].1@[i].1),
                        Some(t[g].1[i].value),
                    )
                }
        }
}

/// What a failed load of `snap` reports: the first group whose type has no
/// codec, or a saved form that the codec of its type could not read; every
/// group before the one reported has a codec.
pub open spec fn load_failed<F, P, C, D: Fn(&F, &P) -> Option<C>>(
    snap: Seq<(u64, Vec<(u64, P)>)>,
    reg: Seq<(u64, F)>,
    decode: D,
    e: LoadError,
) -> bool {
    match e {
        LoadError::UnknownComponent(k) => exists|g: int|
            0 <= g < snap.len() && #[trigger] snap[g].0 == k && !has_key(reg, k) && forall|h: int|
                0 <= h < g ==> has_key(reg, #[trigger] snap[h].0),
        LoadError::BadPayload { key, index } => exists|g: int|
            0 <= g < snap.len() && #[trigger] snap[g].0 == key && has_key(reg, key) && index
                < snap[g].1@.len() && decode.ensures(
                (&codec_of(reg, key), &snap[g].1@[index as int].1),
                None,
            ) && forall|h: int| 0 <= h < g ==> has_key(reg, #[trigger] snap[h].0),
    }
}

/// Rebuilds a storage from a snapshot, group by group and row by row, each
/// saved form read by `decode` with the codec of its type. Stops at the
/// first group whose type has no codec, or the first saved form that cannot
/// be read. When every type has a codec and `decode` reads every saved
/// form, the load succeeds.
pub fn load<F, P, C, D: Fn(&F, &P) -> Option<C>>(snapshot: &Snapshot<P>, registry: &Registry<F>, decode: D) -> (r:
    Result<Storage<C>, LoadError>)
    requires
        snapshot.wf(),
        registry.wf(),
        forall|f: &F, p: &P| decode.requires((f, p)),
    ensures
        match r {
            Ok(st) => st.wf() && decoded(snapshot@, registry@, decode, st@),
            Err(e) => load_failed(snapshot@, registry@, decode, e),
        },
        all_registered(snapshot@, registry@) && decodes_all(snapshot@, registry@, decode) ==> r is Ok,
{
    let ghost snap = snapshot@;
    let ghost reg = registry@;
    let mut storage: Storage<C> = Storage::new();
    let mut g: usize = 0;
    while g < snapshot.len()
        invariant
            snap == snapshot@,
            reg == registry@,
            snapshot.wf(),
            registry.wf(),
            forall|f: &F, p: &P| decode.requires((f, p)),
            g <= snap.len(),
            storage.wf(),
            decoded(snap.take(g as int), reg, decode, storage@),
        decreases snap.len() - g,
    {
        let key = snapshot.key_at(g);
        let codec = match registry.lookup(key) {
            Some(c) => c,
            None => {
                proof {
                    assert(snap[g as int].0 == key);
                    assert forall|h: int| 0 <= h < g implies has_key(reg, #[trigger] snap[h].0) by {
                        assert(storage@[h].0 == snap.take(g as int)[h].0);
                    }
                }
                return Err(LoadError::UnknownComponent(key));
            },
        };
        let saved = snapshot.rows_at(g);
        let mut rows: Vec<Row<C>> = Vec::new();
        let mut i: usize = 0;
        while i < saved.len()
            invariant
                snap == snapshot@,
                reg == registry@,
                g < snap.len(),
                *saved == snap[g as int].1,
                key == snap[g as int].0,
                lookup(reg, key) == Some(*codec),
                forall|f: &F, p: &P| decode.requires((f, p)),
                decoded(snap.take(g as int), reg, decode, storage@),
                i <= saved@.len(),
                rows@.len() == i,
                forall|j: int|
                    #![trigger rows@[j]]
                    0 <= j < i ==> {
                        &&& rows@[j].entity == saved@[j].0
                        &&& rows@[j].borrow == Borrow::Unused
                        &&& decode.ensures((&codec_of(reg, key), &saved@[j].1), Some(rows@[j].value))
                    },
            decreases saved@.len() - i,
        {
            match decode(codec, &saved[i].1) {
                Some(value) => {
                    rows.push(Row { entity: saved[i].0, value, borrow: Borrow::Unused });
                },
                None => {
                    proof {
                        assert(has_key(reg, snap[g as int].0));
                        assert forall|h: int| 0 <= h < g implies has_key(reg, #[trigger] snap[h].0) by {
                            assert(storage@[h].0 == snap.take(g as int)[h].0);
                        }
                        assert(decode.ensures(
                            (&codec_of(reg, snap[g as int].0), &snap[g as int].1@[i as int].1),
                            None::<C>,
                        ));
                    }
                    return Err(LoadError::BadPayload { key, index: i });
                },
            }
            i = i + 1;
        }
        proof {
            storage.lemma_wf();
            if has_key(storage@, key) {
                let q = index_of(storage@, key);
                lemma_index_of(storage@, q);
                assert(storage@[q].0 == snap.take(g as int)[q].0);
                assert(snap[q].0 == snap[g as int].0);
            }
        }
        let ghost before = storage@;
        storage.set_rows(key, rows);
        proof {
            assert(storage@ == before.push((key, rows@)));
            let pre = snap.take(g + 1);
            assert forall|h: int| #![trigger storage@[h]] 0 <= h < storage@.len() implies {
                &&& storage@[h].0 == pre[h].0
                &&& has_key(reg, pre[h].0)
                &&& storage@[h].1.len() == pre[h].1@.len()
                &&& forall|i: int|
                    #![trigger storage@[h].1[i]]
                    0 <= i < storage@[h].1.len() ==> {
                        &&& storage@[h].1[i].entity == pre[h].1@[i].0
                        &&& storage@[h].1[i].borrow == Borrow::Unused
                        &&& decode.ensures(
                            (&codec_of(reg, pre[h].0), &pre[h].1@[i].1),
                            Some(storage@[h].1[i].value),
                        )
                    }
            } by {
                if h < before.len() {
                    assert(storage@[h] == before[h]);
                    assert(pre[h] == snap.take(g as int)[h]);
                } else {
                    assert(pre[h] == snap[g as int]);
                    assert forall|i: int|
                        #![trigger storage@[h].1[i]]
                        0 <= i < storage@[h].1.len() implies {
                        &&& storage@[h].1[i].entity == pre[h].1@[i].0
                        &&& storage@[h].1[i].borrow == Borrow::Unused
                        &&& decode.ensures(
                            (&codec_of(reg, pre[h].0), &pre[h].1@[i].1),
                            Some(storage@[h].1[i].value),
                        )
                    } by {
                        assert(rows@[i] == storage@[h].1[i]);
                    }
                }
            }
        }
        g = g + 1;
    }
    proof {
        assert(snap.take(snap.len() as int) =~= snap);
    }
    Ok(storage)
}

/// `t` with no row borrowed.
pub open spec fn unborrowed<C>(t: Tables<C>) -> Tables<C> {
    t.map_values(
        |e: (u64, Seq<Row<C>>)| (e.0, e.1.map_values(|r: Row<C>| Row { borrow: Borrow::Unused, ..r })),
    )
}

/// `encode` and `decode` are inverse: what `decode` reads from a saved
/// form that `encode` made with the same codec is the component it came from.
pub open spec fn codecs_invert<F, P, C, E: Fn(&F, &C) -> P, D: Fn(&F, &P) -> Option<C>>(
    encode: E,
    decode: D,
) -> bool {
    forall|f: &F, c: &C, p: P, r: Option<C>|
        #![trigger encode.ensures((f, c), p), decode.ensures((f, &p), r)]
        encode.ensures((f, c), p) && decode.ensures((f, &p), r) ==> r == Some(*c)
}

/// Loading a snapshot that holds the registered tables of `s` in saved form
/// succeeds, and gives back exactly those tables: same type keys in the same
/// order, same entities and components in the same order, none borrowed.
pub proof fn lemma_save_load<C, F, P, E: Fn(&F, &C) -> P, D: Fn(&F, &P) -> Option<C>>(
    s: Tables<C>,
    reg: Seq<(u64, F)>,
    encode: E,
    decode: D,
    snap: Seq<(u64, Vec<(u64, P)>)>,
)
    requires
        codecs_invert(encode, decode),
        encoded(kept(s, reg), reg, encode, snap),
    ensures
        all_registered(snap, reg),
        decodes_all(snap, reg, decode),
        forall|t: Tables<C>| decoded(snap, reg, decode, t) ==> t == unborrowed(kept(s, reg)),
{
    let k = kept(s, reg);
    lemma_kept_keys(s, reg);
    assert forall|g: int| 0 <= g < snap.len() implies has_key(reg, #[trigger] snap[g].0) by {
        assert(snap[g].0 == k[g].0);
        let j = choose|j: int| 0 <= j < s.len() && #[trigger] k[g] == s[j] && has_key(reg, s[j].0);
    }
    assert forall|g: int, i: int, r: Option<C>|
        0 <= g < snap.len() && has_key(reg, snap[g].0) && 0 <= i < snap[g].1@.len()
            && #[trigger] decode.ensures((&codec_of(reg, snap[g].0), &snap[g].1@[i].1), r) implies r is Some by {
        assert(snap[g].0 == k[g].0);
        assert(encode.ensures((&codec_of(reg, k[g].0), &k[g].1[i].value), snap[g].1@[i].1));
    }
    assert forall|t: Tables<C>| decoded(snap, reg, decode, t) implies t == unborrowed(k) by {
        let u = unborrowed(k);
        assert(t.len() == u.len());
        assert forall|g: int| 0 <= g < t.len() implies t[g] == u[g] by {
            assert(snap[g].0 == k[g].0);
            assert(t[g].0 == snap[g].0);
            assert(t[g].1.len() == k[g].1.len());
            assert forall|i: int| 0 <= i < t[g].1.len() implies t[g].1[i] == u[g].1[i] by {
                assert(snap[g].1@[i].0 == k[g].1[i].entity);
                assert(encode.ensures((&codec_of(reg, k[g].0), &k[g].1[i].value), snap[g].1@[i].1));
                assert(decode.ensures((&codec_of(reg, snap[g].0), &snap[g].1@[i].1), Some(t[g].1[i].value)));
            }
            assert(t[g].1 =~= u[g].1);
        }
        assert(t =~= u);
    }
}

/// The registered tables of `s` keep the keys unique, hold a type key
/// exactly when `s` holds it and it is registered, and hold the same rows
/// as `s` under every registered key.
pub proof fn lemma_kept<C, F>(s: Tables<C>, reg: Seq<(u64, F)>)
    requires
        unique_keys(s),
    ensures
        unique_keys(kept(s, reg)),
        forall|k: u64| #[trigger] has_key(kept(s, reg), k) == (has_key(s, k) && has_key(reg, k)),
        forall|k: u64| has_key(reg, k) ==> #[trigger] lookup(kept(s, reg), k) == lookup(s, k),
    decreases s.len(),
{
    if s.len() > 0 {
        let q = s.drop_last();
        let last = s.last();
        assert(unique_keys(q));
        lemma_kept(q, reg);
        assert(!has_key(q, last.0)) by {
            if has_key(q, last.0) {
                let j = choose|j: int| 0 <= j < q.len() && q[j].0 == last.0;
                assert(s[j].0 == s[s.len() - 1].0);
            }
        }
        assert(s =~= q.push(last));
        assert(put(q, last.0, last.1) == s);
        lemma_put(q, last.0, last.1);
        if has_key(reg, last.0) {
            let kq = kept(q, reg);
            assert(!has_key(kq, last.0));
            assert(put(kq, last.0, last.1) == kq.push(last));
            assert(kept(s, reg) == kq.push(last));
            lemma_put(kq, last.0, last.1);
            assert forall|k: u64| has_key(reg, k) implies #[trigger] lookup(kept(s, reg), k) == lookup(s, k) by {
                if k != last.0 {
                    assert(lookup(kept(s, reg), k) == lookup(kq, k));
                    assert(lookup(s, k) == lookup(q, k));
                }
            }
            assert forall|k: u64| #[trigger] has_key(kept(s, reg), k) == (has_key(s, k) && has_key(reg, k)) by {
                if k != last.0 {
                    assert(has_key(kept(s, reg), k) == (lookup(kept(s, reg), k) is Some));
                    assert(has_key(kq, k) == (lookup(kq, k) is Some));
                    assert(has_key(s, k) == (lookup(s, k) is Some));
                    assert(has_key(q, k) == (lookup(q, k) is Some));
                } else {
                    assert(kept(s, reg)[kq.len() as int].0 == last.0);
                    assert(s[s.len() - 1].0 == last.0);
                }
            }
        } else {
            assert(kept(s, reg) == kept(q, reg));
            assert forall|k: u64| has_key(reg, k) implies #[trigger] lookup(kept(s, reg), k) == lookup(s, k) by {
                assert(k != last.0);
                assert(lookup(s, k) == lookup(q, k));
            }
            assert forall|k: u64| #[trigger] has_key(kept(s, reg), k) == (has_key(s, k) && has_key(reg, k)) by {
                if k != last.0 {
                    assert(has_key(s, k) == (lookup(s, k) is Some));
                    assert(has_key(q, k) == (lookup(q, k) is Some));
                }
            }
        }
    }
}

/// A scene whose every component type is registered comes back whole:
/// loading what was saved succeeds and gives back every table of `s`, with
/// the same entities and components in the same order, none borrowed.
pub proof fn lemma_round_trip<C, F, P, E: Fn(&F, &C) -> P, D: Fn(&F, &P) -> Option<C>>(
    s: Tables<C>,
    reg: Seq<(u64, F)>,
    encode: E,
    decode: D,
    snap: Seq<(u64, Vec<(u64, P)>)>,
)
    requires
        unique_keys(s),
        forall|g: int| 0 <= g < s.len() ==> has_key(reg, #[trigger] s[g].0),
        codecs_invert(encode, decode),
        encoded(kept(s, reg), reg, encode, snap),
    ensures
        all_registered(snap, reg),
        decodes_all(snap, reg, decode),
        forall|t: Tables<C>| decoded(snap, reg, decode, t) ==> t == unborrowed(s),
{
    lemma_kept_all(s, reg);
    lemma_save_load(s, reg, encode, decode, snap);
}

proof fn lemma_kept_all<C, F>(s: Tables<C>, reg: Seq<(u64, F)>)
    requires
        forall|g: int| 0 <= g < s.len() ==> has_key(reg, #[trigger] s[g].0),
    ensures
        kept(s, reg) == s,
    decreases s.len(),
{
    if s.len() > 0 {
        let q = s.drop_last();
        assert forall|g: int| 0 <= g < q.len() implies has_key(reg, #[trigger] q[g].0) by {
            assert(q[g] == s[g]);
        }
        lemma_kept_all(q, reg);
        assert(has_key(reg, s[s.len() - 1].0));
        assert(q.push(s.last()) =~= s);
    }
}

/// Saving drops the tables of unregistered types and nothing else: loading
/// what was saved succeeds; a type key without a codec has no table in the
/// result; a registered type key has the same rows as in `s`, none borrowed.
pub proof fn lemma_lossy_save<C, F, P, E: Fn(&F, &C) -> P, D: Fn(&F, &P) -> Option<C>>(
    s: Tables<C>,
    reg: Seq<(u64, F)>,
    encode: E,
    decode: D,
    snap: Seq<(u64, Vec<(u64, P)>)>,
    t: Tables<C>,
)
    requires
        unique_keys(s),
        codecs_invert(encode, decode),
        encoded(kept(s, reg), reg, encode, snap),
        decoded(snap, reg, decode, t),
    ensures
        all_registered(snap, reg),
        decodes_all(snap, reg, decode),
        t == unborrowed(kept(s, reg)),
        forall|k: u64| !has_key(reg, k) ==> !has_key(t, k),
        forall|k: u64| has_key(reg, k) ==> #[trigger] has_key(t, k) == has_key(s, k),
        forall|k: u64| has_key(reg, k) ==> #[trigger] lookup(kept(s, reg), k) == lookup(s, k),
{
    lemma_save_load(s, reg, encode, decode, snap);
    lemma_kept(s, reg);
    let k = kept(s, reg);
    assert forall|key: u64| #[trigger] has_key(t, key) == has_key(k, key) by {
        if has_key(t, key) {
            let g = choose|g: int| 0 <= g < t.len() && t[g].0 == key;
            assert(k[g].0 == key);
        }
        if has_key(k, key) {
            let g = choose|g: int| 0 <= g < k.len() && k[g].0 == key;
            assert(t[g].0 == key);
        }
    }
}

} // verus!
