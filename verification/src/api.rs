//! Request-level decisions of the service.
//!
//! [`get_stats`] is the read path for a whole package: it canonicalizes the
//! raw name once, rejects names outside the package grammar, surfaces cached
//! entries when any exist, reports work already underway, and otherwise
//! launches the missing computations.  The transport layer only has to render
//! the returned [`StatsResponse`].

use vstd::prelude::*;

use crate::names::{is_valid_name, match_name, normalize_name, normalized_spec};
use crate::store::{grouped, has_package, lemma_earliest_exists, Entry, ResultStore};
use crate::worker::Worker;

verus! {

/// What a request for a package's statistics decides, carrying the canonical
/// package name.
pub enum StatsResponse {
    /// The raw name is outside the package grammar.
    InvalidName { name: String },
    /// Results exist: one representative entry per kind.
    Stats { name: String, entries: Vec<Entry> },
    /// Nothing is cached and the listed kinds are already being computed.
    InProgress { name: String, kinds: Vec<String> },
    /// Nothing was cached or underway; this call claimed `new_kinds` and saw
    /// `in_progress` being computed by others.
    Launched { name: String, new_kinds: Vec<String>, in_progress: Vec<String> },
    /// A launch attempt found nothing at all to compute.
    NotFound { name: String },
    /// The launch could not even attempt registration.
    LaunchFailed { name: String },
}

/// The read path for a whole package: canonicalize, validate, consult the
/// store, then the registry, then launch what is missing.
pub fn get_stats(worker: &mut Worker, store: &ResultStore, name: &str) -> (r: StatsResponse)
    requires
        old(worker).wf(),
    ensures
        final(worker).wf(),
        final(worker).catalog == old(worker).catalog,
        ({
            let nn = normalized_spec(name@);
            let cached = has_package(store@, nn);
            let busy = old(worker).registry.busy(nn);
            match r {
                StatsResponse::InvalidName { name: n } => {
                    &&& !is_valid_name(nn)
                    &&& n@ == nn
                    &&& *final(worker) == *old(worker)
                },
                StatsResponse::Stats { name: n, entries } => {
                    &&& is_valid_name(nn)
                    &&& cached
                    &&& n@ == nn
                    &&& entries.deep_view() == grouped(store@, nn)
                    &&& *final(worker) == *old(worker)
                },
                StatsResponse::InProgress { name: n, kinds } => {
                    &&& is_valid_name(nn)
                    &&& !cached
                    &&& busy
                    &&& n@ == nn
                    &&& kinds@.len() > 0
                    &&& forall|j: int|
                        0 <= j < kinds@.len() ==> old(worker).registry.in_flight(
                            nn,
                            #[trigger] kinds.deep_view()[j],
                        )
                    &&& forall|k: Seq<char>|
                        old(worker).registry.in_flight(nn, k) ==> kinds.deep_view().contains(k)
                    &&& forall|j: int, l: int|
                        0 <= j < l < kinds@.len() ==> kinds.deep_view()[j] != kinds.deep_view()[l]
                    &&& *final(worker) == *old(worker)
                },
                StatsResponse::Launched { name: n, new_kinds, in_progress } => {
                    &&& is_valid_name(nn)
                    &&& !cached
                    &&& !busy
                    &&& n@ == nn
                    &&& old(worker).catalog@.len() > 0
                    &&& new_kinds.deep_view() == old(worker).catalog.deep_view()
                    &&& in_progress@.len() == 0
                    &&& forall|k: Seq<char>|
                        #[trigger] final(worker).registry.in_flight(nn, k) == old(
                            worker,
                        ).catalog.deep_view().contains(k)
                    &&& forall|p2: Seq<char>, k2: Seq<char>|
                        p2 != nn ==> #[trigger] final(worker).registry.in_flight(p2, k2) == old(
                            worker,
                        ).registry.in_flight(p2, k2)
                },
                StatsResponse::NotFound { name: n } => false,
                StatsResponse::LaunchFailed { name: n } => {
                    &&& is_valid_name(nn)
                    &&& !cached
                    &&& !busy
                    &&& old(worker).catalog@.len() == 0
                    &&& n@ == nn
                    &&& *final(worker) == *old(worker)
                },
            }
        }),
{
    let normalized = normalize_name(name);
    if !match_name(normalized.as_str()) {
        return StatsResponse::InvalidName { name: normalized };
    }
    let found = store.find_latest(normalized.as_str());
    proof {
        lemma_earliest_exists(store@, normalized@);
        assert(found@.len() == found.deep_view().len());
    }
    if !found.is_empty() {
        let entries = store.find_all_by_kind_grouped(normalized.as_str());
        return StatsResponse::Stats { name: normalized, entries };
    }
    if let Some(kinds) = worker.get_tasks_in_progress(normalized.as_str()) {
        proof {
            assert(worker.registry.in_flight(normalized@, kinds.deep_view()[0]));
        }
        return StatsResponse::InProgress { name: normalized, kinds };
    }
    let ghost pre = *worker;
    match worker.launch_tasks(normalized.as_str(), None) {
        Ok((new_kinds, in_progress)) => {
            proof {
                let cands = pre.catalog.deep_view();
                let new_pred = |k2: Seq<char>| !pre.registry.in_flight(normalized@, k2);
                let old_pred = |k2: Seq<char>| pre.registry.in_flight(normalized@, k2);
                lemma_filter_of_free(cands, new_pred, old_pred);
                assert(new_kinds.deep_view() == cands);
                assert(in_progress.deep_view().len() == 0);
                assert(in_progress@.len() == in_progress.deep_view().len());
            }
            if new_kinds.is_empty() {
                // A successful launch on an idle package claims every
                // candidate, and an empty candidate set is reported as a
                // launch failure instead, so nothing reaches this arm.
                proof {
                    assert(pre.catalog.deep_view().len() == 0);
                    assert(false);
                }
                StatsResponse::NotFound { name: normalized }
            } else {
                proof {
                    assert forall|k: Seq<char>|
                        #[trigger] worker.registry.in_flight(normalized@, k) == pre.catalog
                            .deep_view().contains(k) by {}
                }
                StatsResponse::Launched { name: normalized, new_kinds, in_progress }
            }
        },
        Err(_) => StatsResponse::LaunchFailed { name: normalized },
    }
}

/// Over a registry state with nothing in flight for the package, a launch
/// claims every candidate and sees nothing already underway.
proof fn lemma_filter_of_free(
    cands: Seq<Seq<char>>,
    new_pred: spec_fn(Seq<char>) -> bool,
    old_pred: spec_fn(Seq<char>) -> bool,
)
    requires
        forall|k: Seq<char>| #[trigger] new_pred(k),
        forall|k: Seq<char>| !(#[trigger] old_pred(k)),
    ensures
        cands.filter(new_pred) == cands,
        cands.filter(old_pred) == Seq::<Seq<char>>::empty(),
    decreases cands.len(),
{
    reveal_with_fuel(Seq::<Seq<char>>::filter, 1);
    if cands.len() == 0 {
        assert(cands.filter(new_pred) =~= cands);
        assert(cands.filter(old_pred) =~= Seq::<Seq<char>>::empty());
    } else {
        lemma_filter_of_free(cands.drop_last(), new_pred, old_pred);
        assert(cands.filter(new_pred) == cands.drop_last().filter(new_pred).push(cands.last()));
        assert(cands.filter(new_pred) =~= cands);
    }
}

/// The usage text served at the service root.
pub open spec fn usage_text() -> Seq<char> {
    "
    USAGE
      GET /apertium-<code1>(-<code2>)
        retrieves statistics for the specified package
      GET /apertium-<code1>(-<code2>)/<kind>
        retrieves <kind> statistics for the specified package
      POST /apertium-<code1>(-<code2>)
        calculates statistics for the specified package
      POST /apertium-<code1>(-<code2>)/<kind>
        calculates <kind> statistics for the specified package
    "@
}

/// The service root: a usage description.
pub fn index() -> (r: &'static str)
    ensures
        r@ == usage_text(),
{
    "
    USAGE
      GET /apertium-<code1>(-<code2>)
        retrieves statistics for the specified package
      GET /apertium-<code1>(-<code2>)/<kind>
        retrieves <kind> statistics for the specified package
      POST /apertium-<code1>(-<code2>)
        calculates statistics for the specified package
      POST /apertium-<code1>(-<code2>)/<kind>
        calculates <kind> statistics for the specified package
    "
}

/// The read path for one specific kind of a package.
pub fn get_specific_stats(name: String, kind: String) -> (r: String)
    ensures
        r@ == name@ + ": "@ + kind@,
{
    let joined = name.concat(": ");
    joined.concat(kind.as_str())
}

/// The write path for a whole package.
pub fn calculate_stats(name: String) -> (r: String)
    ensures
        r@ == name@,
{
    name
}

/// The write path for one specific kind of a package.
pub fn calculate_specific_stats(name: String, kind: String) -> (r: String)
    ensures
        r@ == name@ + ": "@ + kind@,
{
    let joined = name.concat(": ");
    joined.concat(kind.as_str())
}

} // verus!
