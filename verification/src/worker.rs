//! The worker: the coordination façade of the service.
//!
//! The worker owns the in-flight registry together with the catalog of known
//! statistic kinds.  [`Worker::launch_tasks`] claims every candidate kind that
//! is not already being computed and reports, per kind, whether this call
//! started it or somebody else already had; the computations themselves run
//! elsewhere and report back through [`Worker::complete_success`] or
//! [`Worker::complete_failure`], which unregister the pair — after persisting
//! the result on the success path, and without writing anything on the
//! failure path.

use vstd::prelude::*;

use crate::registry::Registry;
use crate::store::{Entry, EntryModel, ResultStore};

verus! {

/// A condition that prevents registration from even being attempted.
#[derive(Clone, Copy, PartialEq, Eq, Debug)]
pub enum LaunchError {
    /// No specific kind was asked for and the catalog of known kinds is
    /// empty, so there is no candidate to register.
    EmptyCatalog,
}

/// The view of an optionally requested kind.
pub open spec fn opt_kind_view(kind: Option<&str>) -> Option<Seq<char>> {
    match kind {
        Some(k) => Some(k@),
        None => None,
    }
}

/// Coordination façade: the in-flight registry plus the fixed catalog of
/// known statistic kinds.
pub struct Worker {
    pub registry: Registry,
    pub catalog: Vec<String>,
}

impl Worker {
    /// Well-formedness: the registry is well-formed and the catalog names
    /// each kind once.
    pub open spec fn wf(self) -> bool {
        &&& self.registry.wf()
        &&& forall|j: int, l: int|
            #![trigger self.catalog.deep_view()[j], self.catalog.deep_view()[l]]
            0 <= j < l < self.catalog@.len() ==> self.catalog.deep_view()[j]
                != self.catalog.deep_view()[l]
    }

    /// The kinds a launch considers: the requested kind alone when one is
    /// given, the whole catalog otherwise.
    pub open spec fn candidates(self, kind: Option<Seq<char>>) -> Seq<Seq<char>> {
        match kind {
            Some(k) => seq![k],
            None => self.catalog.deep_view(),
        }
    }

    /// A fresh worker over the given catalog of known kinds, with nothing in
    /// flight.
    pub fn new(catalog: Vec<String>) -> (r: Worker)
        requires
            forall|j: int, l: int|
                #![trigger catalog.deep_view()[j], catalog.deep_view()[l]]
                0 <= j < l < catalog@.len() ==> catalog.deep_view()[j] != catalog.deep_view()[l],
        ensures
            r.wf(),
            r.catalog == catalog,
            forall|p: Seq<char>, k: Seq<char>| !r.registry.in_flight(p, k),
    {
        Worker { registry: Registry::new(), catalog }
    }

    /// A snapshot of the kinds in flight for `p`: `None` exactly when nothing
    /// is in flight, otherwise the registered kinds, each once.
    pub fn get_tasks_in_progress(&self, p: &str) -> (r: Option<Vec<String>>)
        requires
            self.wf(),
        ensures
            match r {
                None => forall|k: Seq<char>| !self.registry.in_flight(p@, k),
                Some(v) => {
                    &&& v@.len() > 0
                    &&& forall|j: int|
                        0 <= j < v@.len() ==> self.registry.in_flight(
                            p@,
                            #[trigger] v.deep_view()[j],
                        )
                    &&& forall|k: Seq<char>|
                        self.registry.in_flight(p@, k) ==> v.deep_view().contains(k)
                    &&& forall|j: int, l: int|
                        0 <= j < l < v@.len() ==> v.deep_view()[j] != v.deep_view()[l]
                },
            },
    {
        self.registry.get_in_progress(p)
    }

    /// Claims every candidate kind for `p` that is not already in flight.
    /// The first result holds the kinds this call claimed (their computation
    /// is now owed), the second the kinds someone else already had; together,
    /// in order, they are exactly the candidates.  Fails exactly when there
    /// is no candidate at all, leaving the worker unchanged.
    pub fn launch_tasks(&mut self, p: &str, kind: Option<&str>) -> (r: Result<
        (Vec<String>, Vec<String>),
        LaunchError,
    >)
        requires
            old(self).wf(),
        ensures
            final(self).wf(),
            final(self).catalog == old(self).catalog,
            ({
                let cands = old(self).candidates(opt_kind_view(kind));
                match r {
                    Ok(sets) => {
                        &&& cands.len() > 0
                        &&& sets.0.deep_view() == cands.filter(
                            |k2: Seq<char>| !old(self).registry.in_flight(p@, k2),
                        )
                        &&& sets.1.deep_view() == cands.filter(
                            |k2: Seq<char>| old(self).registry.in_flight(p@, k2),
                        )
                        &&& forall|k2: Seq<char>|
                            #[trigger] final(self).registry.in_flight(p@, k2) == (old(
                                self,
                            ).registry.in_flight(p@, k2) || cands.contains(k2))
                        &&& forall|p2: Seq<char>, k2: Seq<char>|
                            p2 != p@ ==> #[trigger] final(self).registry.in_flight(p2, k2) == old(
                                self,
                            ).registry.in_flight(p2, k2)
                    },
                    Err(e) => {
                        &&& e == LaunchError::EmptyCatalog
                        &&& cands.len() == 0
                        &&& *final(self) == *old(self)
                    },
                }
            }),
    {
        broadcast use vstd::seq::Seq::lemma_filter_push;

        let ghost pre = *self;
        let ghost new_pred = |k2: Seq<char>| !pre.registry.in_flight(p@, k2);
        let ghost old_pred = |k2: Seq<char>| pre.registry.in_flight(p@, k2);
        let mut new_kinds: Vec<String> = Vec::new();
        let mut in_progress: Vec<String> = Vec::new();
        match kind {
            Some(k) => {
                let ghost cands = seq![k@];
                proof {
                    reveal_with_fuel(Seq::<Seq<char>>::filter, 1);
                    assert(cands.drop_last() =~= Seq::<Seq<char>>::empty());
                    assert(Seq::<Seq<char>>::empty().filter(new_pred) =~= Seq::<Seq<char>>::empty());
                    assert(Seq::<Seq<char>>::empty().filter(old_pred) =~= Seq::<Seq<char>>::empty());
                }
                let claimed = self.registry.try_register(p, k);
                if claimed {
                    new_kinds.push(k.to_owned());
                    proof {
                        assert(new_kinds.deep_view() =~= cands.filter(new_pred));
                        assert(in_progress.deep_view() =~= cands.filter(old_pred));
                    }
                } else {
                    in_progress.push(k.to_owned());
                    proof {
                        assert(new_kinds.deep_view() =~= cands.filter(new_pred));
                        assert(in_progress.deep_view() =~= cands.filter(old_pred));
                    }
                }
                proof {
                    assert(cands[0] == k@);
                    assert(cands.contains(k@));
                    assert forall|k2: Seq<char>|
                        #[trigger] self.registry.in_flight(p@, k2) == (pre.registry.in_flight(
                            p@,
                            k2,
                        ) || cands.contains(k2)) by {
                        if k2 != k@ {
                            assert(forall|x: int| 0 <= x < cands.len() ==> cands[x] == k@);
                            assert(!cands.contains(k2));
                        }
                    }
                }
                Ok((new_kinds, in_progress))
            },
            None => {
                if self.catalog.len() == 0 {
                    return Err(LaunchError::EmptyCatalog);
                }
                let ghost cands = pre.catalog.deep_view();
                proof {
                    reveal_with_fuel(Seq::<Seq<char>>::filter, 1);
                    assert(cands.take(0) =~= Seq::<Seq<char>>::empty());
                    assert(Seq::<Seq<char>>::empty().filter(new_pred) =~= Seq::<Seq<char>>::empty());
                    assert(Seq::<Seq<char>>::empty().filter(old_pred) =~= Seq::<Seq<char>>::empty());
                }
                let mut i: usize = 0;
                while i < self.catalog.len()
                    invariant
                        pre.wf(),
                        i <= pre.catalog@.len(),
                        self.catalog == pre.catalog,
                        cands == pre.catalog.deep_view(),
                        cands.len() == pre.catalog@.len(),
                        new_pred == (|k2: Seq<char>| !pre.registry.in_flight(p@, k2)),
                        old_pred == (|k2: Seq<char>| pre.registry.in_flight(p@, k2)),
                        self.registry.wf(),
                        new_kinds.deep_view() == cands.take(i as int).filter(new_pred),
                        in_progress.deep_view() == cands.take(i as int).filter(old_pred),
                        forall|k2: Seq<char>|
                            #[trigger] self.registry.in_flight(p@, k2) == (pre.registry.in_flight(
                                p@,
                                k2,
                            ) || cands.take(i as int).contains(k2)),
                        forall|p2: Seq<char>, k2: Seq<char>|
                            p2 != p@ ==> #[trigger] self.registry.in_flight(p2, k2)
                                == pre.registry.in_flight(p2, k2),
                    decreases pre.catalog@.len() - i,
                {
                    broadcast use vstd::seq::Seq::lemma_filter_push;

                    let k = self.catalog[i].clone();
                    proof {
                        assert(k@ == cands[i as int]);
                        assert(!cands.take(i as int).contains(k@)) by {
                            if cands.take(i as int).contains(k@) {
                                let x = choose|x: int|
                                    0 <= x < i && #[trigger] cands.take(i as int)[x] == k@;
                                assert(cands[x] == cands[i as int]);
                            }
                        }
                    }
                    let claimed = self.registry.try_register(p, k.as_str());
                    proof {
                        assert(claimed == new_pred(k@));
                        assert(cands.take(i as int + 1) =~= cands.take(i as int).push(k@));
                    }
                    if claimed {
                        new_kinds.push(k);
                    } else {
                        in_progress.push(k);
                    }
                    proof {
                        assert(new_kinds.deep_view() =~= cands.take(i as int + 1).filter(new_pred));
                        assert(in_progress.deep_view() =~= cands.take(i as int + 1).filter(
                            old_pred,
                        ));
                        assert forall|k2: Seq<char>|
                            #[trigger] self.registry.in_flight(p@, k2) == (pre.registry.in_flight(
                                p@,
                                k2,
                            ) || cands.take(i as int + 1).contains(k2)) by {
                            if k2 == k@ {
                                assert(cands.take(i as int + 1).last() == k@);
                                assert(cands.take(i as int + 1).contains(k2));
                            } else {
                                assert(cands.take(i as int + 1).contains(k2) == cands.take(
                                    i as int,
                                ).contains(k2)) by {
                                    if cands.take(i as int + 1).contains(k2) {
                                        let x = choose|x: int|
                                            0 <= x < i + 1 && #[trigger] cands.take(
                                                i as int + 1,
                                            )[x] == k2;
                                        assert(x < i);
                                        assert(cands.take(i as int)[x] == k2);
                                    }
                                    if cands.take(i as int).contains(k2) {
                                        let x = choose|x: int|
                                            0 <= x < i && #[trigger] cands.take(i as int)[x]
                                                == k2;
                                        assert(cands.take(i as int + 1)[x] == k2);
                                    }
                                }
                            }
                        }
                    }
                    i += 1;
                }
                proof {
                    assert(cands.take(cands.len() as int) =~= cands);
                }
                Ok((new_kinds, in_progress))
            },
        }
    }

    /// Completion of a successful computation for `(p, kind)`: the computed
    /// entry is persisted first, then the pair is unregistered, so the result
    /// is never lost while the pair looks absent.  No other pair is affected.
    pub fn complete_success(
        &mut self,
        store: &mut ResultStore,
        p: &str,
        kind: &str,
        created: i64,
        value: String,
    )
        requires
            old(self).wf(),
        ensures
            final(self).wf(),
            final(self).catalog == old(self).catalog,
            final(store)@ == old(store)@.push(
                EntryModel { name: p@, kind: kind@, created: created as int, value: value@ },
            ),
            !final(self).registry.in_flight(p@, kind@),
            forall|p2: Seq<char>, k2: Seq<char>|
                !(p2 == p@ && k2 == kind@) ==> #[trigger] final(self).registry.in_flight(p2, k2)
                    == old(self).registry.in_flight(p2, k2),
    {
        store.insert(
            Entry { name: p.to_owned(), kind: kind.to_owned(), created, value },
        );
        self.registry.unregister(p, kind);
    }

    /// Completion of a failed computation for `(p, kind)`: the pair is
    /// unregistered and nothing is written anywhere, so a later launch may
    /// claim the pair afresh.  No other pair is affected.
    pub fn complete_failure(&mut self, p: &str, kind: &str)
        requires
            old(self).wf(),
        ensures
            final(self).wf(),
            final(self).catalog == old(self).catalog,
            !final(self).registry.in_flight(p@, kind@),
            forall|p2: Seq<char>, k2: Seq<char>|
                !(p2 == p@ && k2 == kind@) ==> #[trigger] final(self).registry.in_flight(p2, k2)
                    == old(self).registry.in_flight(p2, k2),
    {
        self.registry.unregister(p, kind);
    }
}

} // verus!
