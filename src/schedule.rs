//! The staged scheduler: systems registered per stage, run in order of
//! registration.
use vstd::prelude::*;
use crate::keyed::{lemma_index_of, lemma_put, lookup, unique_keys, Keyed};

verus! {

/// The stage that runs once when the engine starts.
pub const INIT: u64 = 0;

/// The stage that sets up the scene, once, after `INIT`.
pub const START: u64 = 1;

/// The stage that runs on each redraw request.
pub const UPDATE: u64 = 2;

/// The stage in which render passes record into the current frame.
pub const DRAW: u64 = 3;

/// A registered system: its name, for reports, and what runs.
pub struct System<S> {
    pub name: String,
    pub run: S,
}

/// The systems of `stage`, in order of registration.
pub open spec fn systems_of<S>(s: Seq<(u64, Vec<System<S>>)>, stage: u64) -> Seq<System<S>> {
    match lookup(s, stage) {
        Some(v) => v@,
        None => Seq::empty(),
    }
}

/// Systems grouped by stage.
pub struct Schedule<S> {
    stages: Keyed<Vec<System<S>>>,
}

impl<S> View for Schedule<S> {
    type V = Seq<(u64, Vec<System<S>>)>;

    closed spec fn view(&self) -> Seq<(u64, Vec<System<S>>)> {
        self.stages@
    }
}

impl<S> Schedule<S> {
    /// Well-formed: each stage has one list.
    pub open spec fn wf(&self) -> bool {
        unique_keys(self@)
    }

    /// A schedule without systems.
    pub fn new() -> (r: Self)
        ensures
            r.wf(),
            forall|stage: u64| systems_of(r@, stage).len() == 0,
    {
        Schedule { stages: Keyed::new() }
    }

    /// Appends a system to `stage`; other stages keep theirs.
    pub fn add_system(&mut self, stage: u64, name: String, run: S)
        requires
            old(self).wf(),
        ensures
            final(self).wf(),
            systems_of(final(self)@, stage) == systems_of(old(self)@, stage).push(
                System { name, run },
            ),
            forall|other: u64| other != stage ==> systems_of(final(self)@, other) == systems_of(old(self)@, other),
    {
        let sys = System { name, run };
        match self.stages.position(stage) {
            Some(p) => {
                let ghost before = self.stages@;
                proof {
                    lemma_index_of(before, p as int);
                }
                let list = self.stages.value_at_mut(p);
                list.push(sys);
                proof {
                    lemma_put(before, stage, *list);
                }
            },
            None => {
                let ghost before = self.stages@;
                let mut list: Vec<System<S>> = Vec::new();
                list.push(sys);
                proof {
                    lemma_put(before, stage, list);
                    assert(list@ =~= systems_of(before, stage).push(System { name, run }));
                }
                self.stages.insert(stage, list);
            },
        }
    }

    /// The number of systems of `stage`.
    pub fn count(&self, stage: u64) -> (r: usize)
        requires
            self.wf(),
        ensures
            r == systems_of(self@, stage).len(),
    {
        match self.stages.get(stage) {
            Some(v) => v.len(),
            None => 0,
        }
    }

    /// The `i`th system of `stage`.
    pub fn system(&self, stage: u64, i: usize) -> (r: &System<S>)
        requires
            self.wf(),
            i < systems_of(self@, stage).len(),
        ensures
            *r == systems_of(self@, stage)[i as int],
    {
        let list = self.stages.get(stage).unwrap();
        &list[i]
    }

    /// A run of `stage`: it hands out the indices of the stage's systems.
    pub fn start(&self, stage: u64) -> (r: StageRun)
        requires
            self.wf(),
        ensures
            r == (StageRun { stage, count: systems_of(self@, stage).len() as usize, position: 0 }),
    {
        StageRun { stage, count: self.count(stage), position: 0 }
    }
}

/// One pass over the systems of a stage: which system runs next.
#[derive(Clone, Copy, Debug, PartialEq, Eq, Structural)]
pub struct StageRun {
    pub stage: u64,
    /// How many systems the stage had when the run began.
    pub count: usize,
    /// How many of them have been handed out.
    pub position: usize,
}

/// One step of a run: the run after it, and the index handed out, if any.
pub open spec fn step(r: StageRun) -> (StageRun, Option<usize>) {
    if r.position < r.count {
        (StageRun { position: (r.position + 1) as usize, ..r }, Some(r.position))
    } else {
        (r, None)
    }
}

/// What `n` steps from `r` hand out, in order.
pub open spec fn trace(r: StageRun, n: nat) -> Seq<Option<usize>>
    decreases n,
{
    if n == 0 {
        Seq::empty()
    } else {
        seq![step(r).1] + trace(step(r).0, (n - 1) as nat)
    }
}

impl StageRun {
    /// The index of the next system to run, or `None` once every system of
    /// the stage has been handed out.
    pub fn next(&mut self) -> (r: Option<usize>)
        ensures
            (*final(self), r) == step(*old(self)),
    {
        if self.position < self.count {
            let i = self.position;
            self.position = self.position + 1;
            Some(i)
        } else {
            None
        }
    }
}

/// Every step from a run at `position` hands out the following indices in
/// order, each once, and then only `None`.
pub proof fn lemma_trace(r: StageRun, n: nat)
    requires
        r.position <= r.count,
    ensures
        trace(r, n).len() == n,
        forall|j: int|
            0 <= j < n ==> trace(r, n)[j] == (if r.position + j < r.count {
                Some((r.position + j) as usize)
            } else {
                None::<usize>
            }),
    decreases n,
{
    if n > 0 {
        lemma_trace(step(r).0, (n - 1) as nat);
        let t = trace(r, n);
        let rest = trace(step(r).0, (n - 1) as nat);
        assert forall|j: int| 0 <= j < n implies t[j] == (if r.position + j < r.count {
            Some((r.position + j) as usize)
        } else {
            None::<usize>
        }) by {
            if j > 0 {
                assert(t[j] == rest[j - 1]);
            }
        }
    }
}

/// A fresh run of a stage with `count` systems hands out `0, 1, ..,
/// count - 1`, in that order and each exactly once, and then `None`.
pub proof fn lemma_stage_order(r: StageRun)
    requires
        r.position == 0,
    ensures
        trace(r, (r.count + 1) as nat) == Seq::new(r.count as nat, |i: int| Some(i as usize)).push(
            None,
        ),
{
    lemma_trace(r, (r.count + 1) as nat);
    assert(trace(r, (r.count + 1) as nat) =~= Seq::new(r.count as nat, |i: int| Some(i as usize)).push(
        None,
    ));
}

} // verus!
