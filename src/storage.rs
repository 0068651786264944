//! Component storage: for each component type key, the rows of
//! (entity, component) in insertion order, each row with its borrow state.
use vstd::prelude::*;
use crate::keyed::{has_key, index_of, lemma_index_of, lemma_put, lookup, put, unique_keys, Keyed};

verus! {

/// How a row is borrowed at the moment.
#[derive(Clone, Copy, Debug, PartialEq, Eq, Structural)]
pub enum Borrow {
    Unused,
    /// Read by this many holders.
    Reading(u64),
    /// Written by one holder.
    Writing,
}

/// One stored component, owned by the row of its entity.
pub struct Row<C> {
    pub entity: u64,
    pub value: C,
    pub borrow: Borrow,
}

/// The model of a storage: each type key with its rows, keys in order of arrival.
pub type Tables<C> = Seq<(u64, Seq<Row<C>>)>;

/// The rows stored under `key`; none when the key is absent.
pub open spec fn rows_of<C>(s: Tables<C>, key: u64) -> Seq<Row<C>> {
    match lookup(s, key) {
        Some(rows) => rows,
        None => Seq::empty(),
    }
}

/// A fresh row, not borrowed.
pub open spec fn fresh_row<C>(entity: u64, value: C) -> Row<C> {
    Row { entity, value, borrow: Borrow::Unused }
}

/// The model of a table sequence held in vectors.
pub open spec fn model<C>(s: Seq<(u64, Vec<Row<C>>)>) -> Tables<C> {
    s.map_values(|e: (u64, Vec<Row<C>>)| (e.0, e.1@))
}

proof fn lemma_model<C>(s: Seq<(u64, Vec<Row<C>>)>)
    requires
        unique_keys(s),
    ensures
        unique_keys(model(s)),
        forall|k: u64|
            #![trigger has_key(model(s), k)]
            has_key(model(s), k) == has_key(s, k) && index_of(model(s), k) == index_of(s, k),
{
    let m = model(s);
    assert forall|k: u64|
        #![trigger has_key(model(s), k)]
        has_key(m, k) == has_key(s, k) && index_of(m, k) == index_of(s, k) by {
        if has_key(s, k) {
            let i = index_of(s, k);
            lemma_index_of(s, i);
            lemma_index_of(m, i);
        } else if has_key(m, k) {
            let j = choose|j: int| 0 <= j < m.len() && m[j].0 == k;
            assert(s[j].0 == k);
        }
    }
}

proof fn lemma_model_put<C>(s: Seq<(u64, Vec<Row<C>>)>, key: u64, v: Vec<Row<C>>)
    requires
        unique_keys(s),
    ensures
        model(put(s, key, v)) == put(model(s), key, v@),
        unique_keys(put(s, key, v)),
{
    lemma_model(s);
    lemma_put(s, key, v);
    assert(has_key(model(s), key) == has_key(s, key));
    assert(model(put(s, key, v)) =~= put(model(s), key, v@));
}

/// A handle on a borrowed row: the type key, the row's index among that
/// key's rows, its entity, and whether the borrow is exclusive.
#[derive(Clone, Copy, Debug, PartialEq, Eq, Structural)]
pub struct Guard {
    pub key: u64,
    pub index: usize,
    pub entity: u64,
    pub exclusive: bool,
}

/// Why a borrow was refused.
#[derive(Clone, Copy, Debug, PartialEq, Eq, Structural)]
pub enum BorrowError {
    /// An exclusive borrow was asked of a row that is borrowed.
    AlreadyBorrowed,
    /// A shared borrow was asked of a row that is written, or read by
    /// as many holders as a count can hold.
    AlreadyMutablyBorrowed,
}

/// Whether a borrow of the given kind must be refused on a row in state `b`.
pub open spec fn conflicts(b: Borrow, exclusive: bool) -> bool {
    if exclusive {
        b != Borrow::Unused
    } else {
        b == Borrow::Writing || b == Borrow::Reading(u64::MAX)
    }
}

/// The state of a row after a borrow of the given kind is granted.
pub open spec fn acquired(b: Borrow, exclusive: bool) -> Borrow {
    if exclusive {
        Borrow::Writing
    } else {
        match b {
            Borrow::Reading(n) => Borrow::Reading((n + 1) as u64),
            _ => Borrow::Reading(1),
        }
    }
}

/// The state of a row after a borrow of the given kind ends; `None` when
/// the row holds no such borrow.
pub open spec fn released(b: Borrow, exclusive: bool) -> Option<Borrow> {
    match b {
        Borrow::Writing => if exclusive {
            Some(Borrow::Unused)
        } else {
            None
        },
        Borrow::Reading(n) => if exclusive {
            None
        } else if n <= 1 {
            Some(Borrow::Unused)
        } else {
            Some(Borrow::Reading((n - 1) as u64))
        },
        Borrow::Unused => None,
    }
}

/// The error for a refused borrow of the given kind.
pub open spec fn refusal(exclusive: bool) -> BorrowError {
    if exclusive {
        BorrowError::AlreadyBorrowed
    } else {
        BorrowError::AlreadyMutablyBorrowed
    }
}

/// Whether `row` belongs to the requested entity; `None` asks for every row.
pub open spec fn is_picked<C>(row: Row<C>, who: Option<u64>) -> bool {
    match who {
        Some(e) => row.entity == e,
        None => true,
    }
}

/// The indices of the rows that belong to `who`, in order.
pub open spec fn picked<C>(rows: Seq<Row<C>>, who: Option<u64>) -> Seq<usize>
    decreases rows.len(),
{
    if rows.len() == 0 {
        Seq::empty()
    } else {
        let p = picked(rows.drop_last(), who);
        if is_picked(rows.last(), who) {
            p.push((rows.len() - 1) as usize)
        } else {
            p
        }
    }
}

/// The indices a borrow request takes: every picked row, or only the first.
pub open spec fn selection<C>(rows: Seq<Row<C>>, who: Option<u64>, first_only: bool) -> Seq<usize> {
    if first_only && picked(rows, who).len() > 1 {
        picked(rows, who).take(1)
    } else {
        picked(rows, who)
    }
}

/// Whether any selected row refuses the borrow.
pub open spec fn any_conflict<C>(rows: Seq<Row<C>>, sel: Seq<usize>, exclusive: bool) -> bool {
    exists|k: int| 0 <= k < sel.len() && conflicts(rows[sel[k] as int].borrow, exclusive)
}

/// `rows` with a borrow of the given kind granted on each selected row.
pub open spec fn lock_rows<C>(rows: Seq<Row<C>>, sel: Seq<usize>, exclusive: bool) -> Seq<Row<C>> {
    Seq::new(
        rows.len(),
        |i: int|
            if sel.contains(i as usize) {
                Row { borrow: acquired(rows[i].borrow, exclusive), ..rows[i] }
            } else {
                rows[i]
            },
    )
}

/// The guards handed out for the selected rows.
pub open spec fn guards_for<C>(key: u64, rows: Seq<Row<C>>, sel: Seq<usize>, exclusive: bool) -> Seq<Guard> {
    sel.map_values(|i: usize| Guard { key, index: i, entity: rows[i as int].entity, exclusive })
}

/// The tables after `key`'s rows become `rows`; unchanged when the key is absent.
pub open spec fn with_rows<C>(s: Tables<C>, key: u64, rows: Seq<Row<C>>) -> Tables<C> {
    if has_key(s, key) {
        put(s, key, rows)
    } else {
        s
    }
}

/// Whether `g` names a row of `s` that holds a borrow of `g`'s kind.
pub open spec fn holds<C>(s: Tables<C>, g: Guard) -> bool {
    let rows = rows_of(s, g.key);
    &&& g.index < rows.len()
    &&& rows[g.index as int].entity == g.entity
    &&& released(rows[g.index as int].borrow, g.exclusive) is Some
}

/// The guards of a borrow result, as a sequence.
pub open spec fn guards_view(r: Result<Vec<Guard>, BorrowError>) -> Result<Seq<Guard>, BorrowError> {
    match r {
        Ok(g) => Ok(g@),
        Err(e) => Err(e),
    }
}

/// The guard of a single-row borrow result, as a sequence of none or one.
pub open spec fn guard_view(r: Result<Option<Guard>, BorrowError>) -> Result<Seq<Guard>, BorrowError> {
    match r {
        Ok(Some(g)) => Ok(seq![g]),
        Ok(None) => Ok(Seq::empty()),
        Err(e) => Err(e),
    }
}

/// What a borrow request on the rows of `key` does: `old` and `new` are the
/// tables before and after, `r` the guards handed out. Granted, it hands out
/// one guard per selected row, in order, and marks those rows borrowed; when
/// a selected row refuses, nothing changes.
pub open spec fn borrowed<C>(
    old: Tables<C>,
    new: Tables<C>,
    key: u64,
    who: Option<u64>,
    first_only: bool,
    exclusive: bool,
    r: Result<Seq<Guard>, BorrowError>,
) -> bool {
    let rows = rows_of(old, key);
    let sel = selection(rows, who, first_only);
    match r {
        Ok(g) => {
            &&& !any_conflict(rows, sel, exclusive)
            &&& g == guards_for(key, rows, sel, exclusive)
            &&& new == with_rows(old, key, lock_rows(rows, sel, exclusive))
        },
        Err(e) => {
            &&& any_conflict(rows, sel, exclusive)
            &&& e == refusal(exclusive)
            &&& new == old
        },
    }
}

/// The first guard of a borrow result that selected at most one row.
pub fn first_guard(r: Result<Vec<Guard>, BorrowError>) -> (out: Result<Option<Guard>, BorrowError>)
    requires
        r matches Ok(g) ==> g@.len() <= 1,
    ensures
        guard_view(out) == guards_view(r),
{
    match r {
        Ok(g) => {
            if g.len() == 0 {
                proof {
                    assert(g@ =~= Seq::<Guard>::empty());
                }
                Ok(None)
            } else {
                proof {
                    assert(g@ =~= seq![g@[0]]);
                }
                Ok(Some(g[0]))
            }
        },
        Err(e) => Err(e),
    }
}

/// A request for the first row only selects at most one.
pub proof fn lemma_first_only<C>(rows: Seq<Row<C>>, who: Option<u64>)
    ensures
        selection(rows, who, true).len() <= 1,
{
}

/// Every picked index is in range, they increase, and an index is picked
/// exactly when its row belongs to `who`.
pub proof fn lemma_picked<C>(rows: Seq<Row<C>>, who: Option<u64>)
    requires
        rows.len() <= usize::MAX,
    ensures
        forall|k: int| 0 <= k < picked(rows, who).len() ==> picked(rows, who)[k] < rows.len(),
        forall|a: int, b: int|
            0 <= a < b < picked(rows, who).len() ==> picked(rows, who)[a] < picked(rows, who)[b],
        forall|i: int|
            0 <= i < rows.len() ==> (picked(rows, who).contains(i as usize) <==> is_picked(
                rows[i],
                who,
            )),
    decreases rows.len(),
{
    if rows.len() > 0 {
        let q = rows.drop_last();
        lemma_picked(q, who);
        let p = picked(q, who);
        let r = picked(rows, who);
        assert forall|a: int, b: int| 0 <= a < b < r.len() implies r[a] < r[b] by {
            if b < p.len() {
                assert(r[a] == p[a] && r[b] == p[b]);
            } else {
                assert(r[a] == p[a]);
            }
        }
        assert forall|i: int| 0 <= i < rows.len() implies (picked(rows, who).contains(i as usize)
            <==> is_picked(rows[i], who)) by {
            if i < q.len() {
                assert(rows[i] == q[i]);
                if picked(rows, who).contains(i as usize) {
                    let k = choose|k: int|
                        0 <= k < picked(rows, who).len() && picked(rows, who)[k] == i as usize;
                    if k < p.len() {
                        assert(p[k] == i as usize);
                    }
                }
                if p.contains(i as usize) {
                    let k = choose|k: int| 0 <= k < p.len() && p[k] == i as usize;
                    assert(picked(rows, who)[k] == i as usize);
                }
            } else {
                if is_picked(rows[i], who) {
                    assert(picked(rows, who)[p.len() as int] == i as usize);
                }
            }
        }
    }
}

impl Borrow {
    /// Whether a borrow of the given kind must be refused in this state.
    pub fn conflicts(self, exclusive: bool) -> (r: bool)
        ensures
            r == conflicts(self, exclusive),
    {
        if exclusive {
            self != Borrow::Unused
        } else {
            match self {
                Borrow::Writing => true,
                Borrow::Reading(n) => n == u64::MAX,
                Borrow::Unused => false,
            }
        }
    }

    /// The state after a borrow of the given kind is granted.
    pub fn acquired(self, exclusive: bool) -> (r: Borrow)
        requires
            !conflicts(self, exclusive),
        ensures
            r == acquired(self, exclusive),
    {
        if exclusive {
            Borrow::Writing
        } else {
            match self {
                Borrow::Reading(n) => Borrow::Reading(n + 1),
                _ => Borrow::Reading(1),
            }
        }
    }

    /// The state after a borrow of the given kind ends, if this state holds one.
    pub fn released(self, exclusive: bool) -> (r: Option<Borrow>)
        ensures
            r == released(self, exclusive),
    {
        match self {
            Borrow::Writing => if exclusive {
                Some(Borrow::Unused)
            } else {
                None
            },
            Borrow::Reading(n) => if exclusive {
                None
            } else if n <= 1 {
                Some(Borrow::Unused)
            } else {
                Some(Borrow::Reading(n - 1))
            },
            Borrow::Unused => None,
        }
    }
}

/// The indices of the rows a borrow request takes.
fn select_rows<C>(rows: &Vec<Row<C>>, who: Option<u64>, first_only: bool) -> (r: Vec<usize>)
    ensures
        r@ == selection(rows@, who, first_only),
{
    let mut sel: Vec<usize> = Vec::new();
    let mut i: usize = 0;
    while i < rows.len()
        invariant
            i <= rows@.len(),
            sel@ == picked(rows@.take(i as int), who),
        decreases rows@.len() - i,
    {
        proof {
            assert(rows@.take(i + 1).drop_last() =~= rows@.take(i as int));
        }
        let hit = match who {
            Some(e) => rows[i].entity == e,
            None => true,
        };
        if hit {
            sel.push(i);
        }
        i = i + 1;
    }
    proof {
        assert(rows@.take(rows@.len() as int) =~= rows@);
    }
    if first_only && sel.len() > 1 {
        sel.truncate(1);
        proof {
            assert(sel@ =~= picked(rows@, who).take(1));
        }
    }
    sel
}

/// Rows of components grouped by type key.
pub struct Storage<C> {
    tables: Keyed<Vec<Row<C>>>,
}

impl<C> View for Storage<C> {
    type V = Tables<C>;

    closed spec fn view(&self) -> Tables<C> {
        model(self.tables@)
    }
}

impl<C> Storage<C> {
    /// Well-formed: each type key has one group of rows.
    pub closed spec fn wf(&self) -> bool {
        self.tables.wf()
    }

    /// Facts that hold of every well-formed storage.
    pub proof fn lemma_wf(&self)
        requires
            self.wf(),
        ensures
            unique_keys(self@),
    {
        lemma_model(self.tables@);
    }

    /// An empty storage.
    pub fn new() -> (r: Self)
        ensures
            r.wf(),
            r@ == Tables::<C>::empty(),
    {
        let r = Storage { tables: Keyed::new() };
        assert(r@ =~= Tables::<C>::empty());
        r
    }

    /// Appends a row for `entity` to the rows of `key`.
    pub fn insert(&mut self, key: u64, entity: u64, value: C)
        requires
            old(self).wf(),
        ensures
            final(self).wf(),
            final(self)@ == put(old(self)@, key, rows_of(old(self)@, key).push(fresh_row(entity, value))),
    {
        proof {
            lemma_model(self.tables@);
        }
        let row = Row { entity, value, borrow: Borrow::Unused };
        match self.tables.position(key) {
            Some(p) => {
                let ghost before = self.tables@;
                proof {
                    lemma_index_of(before, p as int);
                }
                let rows = self.tables.value_at_mut(p);
                rows.push(row);
                proof {
                    lemma_model_put(before, key, *rows);
                }
            },
            None => {
                let ghost before = self.tables@;
                let mut rows: Vec<Row<C>> = Vec::new();
                rows.push(row);
                proof {
                    lemma_model_put(before, key, rows);
                    assert(rows@ =~= rows_of(model(before), key).push(fresh_row(entity, value)));
                }
                self.tables.insert(key, rows);
            },
        }
    }

    /// Stores `rows` as the rows of `key`, replacing what was there.
    pub fn set_rows(&mut self, key: u64, rows: Vec<Row<C>>)
        requires
            old(self).wf(),
        ensures
            final(self).wf(),
            final(self)@ == put(old(self)@, key, rows@),
    {
        proof {
            lemma_model_put(self.tables@, key, rows);
        }
        self.tables.insert(key, rows);
    }

    /// Borrows the rows of `key` that belong to `who` (every row when `who`
    /// is `None`; only the first such row when `first_only`), shared or
    /// exclusive, and hands out one guard per row, in storage order. When any
    /// of those rows refuses the borrow, nothing changes and the refusal is
    /// returned. A key without rows gives no guards.
    pub fn borrow_rows(&mut self, key: u64, who: Option<u64>, first_only: bool, exclusive: bool) -> (r:
        Result<Vec<Guard>, BorrowError>)
        requires
            old(self).wf(),
        ensures
            final(self).wf(),
            borrowed(old(self)@, final(self)@, key, who, first_only, exclusive, guards_view(r)),
    {
        proof {
            lemma_model(self.tables@);
        }
        let p = match self.tables.position(key) {
            Some(p) => p,
            None => {
                let g: Vec<Guard> = Vec::new();
                proof {
                    assert(!has_key(old(self)@, key));
                    assert(picked(Seq::<Row<C>>::empty(), who) =~= Seq::<usize>::empty());
                    assert(g@ =~= guards_for(key, rows_of(old(self)@, key), Seq::<usize>::empty(), exclusive));
                }
                return Ok(g);
            },
        };
        let ghost before = self.tables@;
        proof {
            lemma_index_of(before, p as int);
        }
        let ghost orig = before[p as int].1@;
        let n = self.tables.value_at(p).len();
        let sel = select_rows(self.tables.value_at(p), who, first_only);
        proof {
            assert(has_key(model(before), key));
            lemma_index_of(model(before), p as int);
            assert(rows_of(old(self)@, key) == orig);
            lemma_picked(orig, who);
            assert(forall|k: int| 0 <= k < sel@.len() ==> sel@[k] < orig.len());
            assert(forall|a: int, b: int| 0 <= a < b < sel@.len() ==> sel@[a] < sel@[b]);
        }
        let mut k: usize = 0;
        while k < sel.len()
            invariant
                self.tables@ == before,
                before == old(self).tables@,
                unique_keys(before),
                rows_of(old(self)@, key) == orig,
                orig == before[p as int].1@,
                p < before.len(),
                sel@ == selection(orig, who, first_only),
                forall|j: int| 0 <= j < sel@.len() ==> sel@[j] < orig.len(),
                forall|j: int| 0 <= j < k ==> !conflicts(orig[sel@[j] as int].borrow, exclusive),
                k <= sel@.len(),
            decreases sel@.len() - k,
        {
            let i = sel[k];
            if self.tables.value_at(p)[i].borrow.conflicts(exclusive) {
                return Err(if exclusive {
                    BorrowError::AlreadyBorrowed
                } else {
                    BorrowError::AlreadyMutablyBorrowed
                });
            }
            k = k + 1;
        }
        let mut guards: Vec<Guard> = Vec::new();
        let rows = self.tables.value_at_mut(p);
        let mut k: usize = 0;
        while k < sel.len()
            invariant
                rows@ == lock_rows(orig, sel@.take(k as int), exclusive),
                orig.len() == n,
                guards@ == guards_for(key, orig, sel@.take(k as int), exclusive),
                sel@ == selection(orig, who, first_only),
                forall|j: int| 0 <= j < sel@.len() ==> sel@[j] < orig.len(),
                forall|a: int, b: int| 0 <= a < b < sel@.len() ==> sel@[a] < sel@[b],
                forall|j: int| 0 <= j < sel@.len() ==> !conflicts(orig[sel@[j] as int].borrow, exclusive),
                k <= sel@.len(),
            decreases sel@.len() - k,
        {
            let i = sel[k];
            proof {
                if sel@.take(k as int).contains(i) {
                    let j = choose|j: int| 0 <= j < k && sel@.take(k as int)[j] == i;
                    assert(sel@[j] < sel@[k as int]);
                }
                assert(rows@[i as int] == orig[i as int]);
            }
            let b = rows[i].borrow;
            let nb = b.acquired(exclusive);
            let entity = rows[i].entity;
            rows[i].borrow = nb;
            guards.push(Guard { key, index: i, entity, exclusive });
            proof {
                let t = sel@.take(k + 1);
                assert(t =~= sel@.take(k as int).push(i));
                assert forall|j: int| 0 <= j < orig.len() implies (#[trigger] t.contains(j as usize) <==> (sel@.take(
                    k as int,
                ).contains(j as usize) || j == i)) by {
                    if t.contains(j as usize) {
                        let q = choose|q: int| 0 <= q < t.len() && t[q] == j as usize;
                        if q < k {
                            assert(sel@.take(k as int)[q] == j as usize);
                        }
                    }
                    if sel@.take(k as int).contains(j as usize) {
                        let q = choose|q: int| 0 <= q < k && sel@.take(k as int)[q] == j as usize;
                        assert(t[q] == j as usize);
                    }
                    if j == i {
                        assert(t[k as int] == i);
                    }
                }
                assert(rows@ =~= lock_rows(orig, t, exclusive));
                assert(guards@ =~= guards_for(key, orig, t, exclusive));
            }
            k = k + 1;
        }
        proof {
            assert(sel@.take(sel@.len() as int) =~= sel@);
            lemma_model_put(before, key, *rows);
        }
        Ok(guards)
    }

    /// Where the row of `g` stands, when `g` still holds its row.
    fn locate(&self, g: &Guard) -> (r: Option<usize>)
        requires
            self.wf(),
        ensures
            match r {
                Some(p) => {
                    &&& holds(self@, *g)
                    &&& p == index_of(self@, g.key)
                    &&& p < self@.len()
                    &&& self@[p as int].0 == g.key
                    &&& self.tables@[p as int].1@ == rows_of(self@, g.key)
                },
                None => !holds(self@, *g),
            },
    {
        proof {
            lemma_model(self.tables@);
        }
        match self.tables.position(g.key) {
            Some(p) => {
                proof {
                    lemma_index_of(self.tables@, p as int);
                    lemma_index_of(self@, p as int);
                }
                let rows = self.tables.value_at(p);
                if g.index < rows.len() && rows[g.index].entity == g.entity
                    && rows[g.index].borrow.released(g.exclusive).is_some() {
                    Some(p)
                } else {
                    None
                }
            },
            None => None,
        }
    }

    /// The component that `g` borrows, while `g` holds its row.
    pub fn component(&self, g: &Guard) -> (r: Option<&C>)
        requires
            self.wf(),
        ensures
            match r {
                Some(c) => holds(self@, *g) && *c == rows_of(self@, g.key)[g.index as int].value,
                None => !holds(self@, *g),
            },
    {
        match self.locate(g) {
            Some(p) => Some(&self.tables.value_at(p)[g.index].value),
            None => None,
        }
    }

    /// The component that `g` borrows exclusively, to change in place.
    pub fn component_mut(&mut self, g: &Guard) -> (r: Option<&mut C>)
        requires
            old(self).wf(),
        ensures
            final(self).wf(),
            match r {
                Some(c) => {
                    let rows = rows_of(old(self)@, g.key);
                    &&& g.exclusive && holds(old(self)@, *g)
                    &&& *c == rows[g.index as int].value
                    &&& final(self)@ == put(
                        old(self)@,
                        g.key,
                        rows.update(g.index as int, Row { value: *final(c), ..rows[g.index as int] }),
                    )
                },
                None => {
                    &&& !(g.exclusive && holds(old(self)@, *g))
                    &&& final(self)@ == old(self)@
                },
            },
    {
        if !g.exclusive {
            return None;
        }
        match self.locate(g) {
            Some(p) => {
                let ghost before = self.tables@;
                proof {
                    lemma_model(before);
                    assert forall|v: Vec<Row<C>>|
                        #![trigger put(before, g.key, v)]
                        model(put(before, g.key, v)) == put(model(before), g.key, v@) && unique_keys(
                            put(before, g.key, v),
                        ) by {
                        lemma_model_put(before, g.key, v);
                    }
                }
                let rows = self.tables.value_at_mut(p);
                let row = &mut rows[g.index];
                let c = &mut row.value;
                Some(c)
            },
            None => None,
        }
    }

    /// Ends the borrow that `g` holds; `false`, with nothing changed, when
    /// `g` holds no borrow.
    pub fn release(&mut self, g: &Guard) -> (r: bool)
        requires
            old(self).wf(),
        ensures
            final(self).wf(),
            r == holds(old(self)@, *g),
            r ==> {
                let rows = rows_of(old(self)@, g.key);
                let row = rows[g.index as int];
                final(self)@ == put(
                    old(self)@,
                    g.key,
                    rows.update(g.index as int, Row { borrow: released(row.borrow, g.exclusive)->0, ..row }),
                )
            },
            !r ==> final(self)@ == old(self)@,
    {
        match self.locate(g) {
            Some(p) => {
                let ghost before = self.tables@;
                let rows = self.tables.value_at_mut(p);
                let nb = match rows[g.index].borrow.released(g.exclusive) {
                    Some(b) => b,
                    None => Borrow::Unused,
                };
                rows[g.index].borrow = nb;
                proof {
                    lemma_model_put(before, g.key, *rows);
                    assert(rows@ =~= rows_of(old(self)@, g.key).update(
                        g.index as int,
                        Row {
                            borrow: released(rows_of(old(self)@, g.key)[g.index as int].borrow, g.exclusive)->0,
                            ..rows_of(old(self)@, g.key)[g.index as int]
                        },
                    ));
                }
                true
            },
            None => false,
        }
    }

    /// The number of type keys.
    pub fn table_count(&self) -> (r: usize)
        ensures
            r == self@.len(),
    {
        self.tables.len()
    }

    /// The type key at `t`, in order of arrival.
    pub fn table_key(&self, t: usize) -> (r: u64)
        requires
            t < self@.len(),
        ensures
            r == self@[t as int].0,
    {
        self.tables.key_at(t)
    }

    /// The rows at `t`, in order of arrival.
    pub fn table_rows(&self, t: usize) -> (r: &Vec<Row<C>>)
        requires
            t < self@.len(),
        ensures
            r@ == self@[t as int].1,
    {
        self.tables.value_at(t)
    }
}

} // verus!
