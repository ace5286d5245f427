//! Cross-cutting guarantees of the coordination engine, stated over the
//! transitions that [`crate::registry::Registry`] and
//! [`crate::worker::Worker`] promise in their contracts.

use vstd::prelude::*;

use crate::registry::Registry;
use crate::store::{grouped, has_kind, EntryModel};

verus! {

/// The transition `Registry::try_register` makes for the pair `(p, k)`:
/// `claimed` reports whether the pair was absent, the pair is present
/// afterwards, and no other pair changes.
pub open spec fn register_step(
    pre: Registry,
    post: Registry,
    p: Seq<char>,
    k: Seq<char>,
    claimed: bool,
) -> bool {
    &&& claimed == !pre.in_flight(p, k)
    &&& post.in_flight(p, k)
    &&& forall|p2: Seq<char>, k2: Seq<char>|
        !(p2 == p && k2 == k) ==> #[trigger] post.in_flight(p2, k2) == pre.in_flight(p2, k2)
}

/// The transition `Registry::unregister` makes for the pair `(p, k)`: the
/// pair is absent afterwards and no other pair changes.
pub open spec fn unregister_step(pre: Registry, post: Registry, p: Seq<char>, k: Seq<char>) -> bool {
    &&& !post.in_flight(p, k)
    &&& forall|p2: Seq<char>, k2: Seq<char>|
        !(p2 == p && k2 == k) ==> #[trigger] post.in_flight(p2, k2) == pre.in_flight(p2, k2)
}

/// Mutual exclusion: in any chain of registration attempts for the same pair,
/// starting from a state where the pair is free, exactly the first attempt
/// claims it — every later attempt observes it as already in progress.
pub proof fn lemma_mutual_exclusion(
    states: Seq<Registry>,
    claims: Seq<bool>,
    p: Seq<char>,
    k: Seq<char>,
)
    requires
        states.len() == claims.len() + 1,
        claims.len() >= 1,
        !states[0].in_flight(p, k),
        forall|i: int|
            0 <= i < claims.len() ==> register_step(states[i], states[i + 1], p, k, #[trigger] claims[i]),
    ensures
        claims[0],
        forall|i: int| 1 <= i < claims.len() ==> !claims[i],
{
    assert(claims[0int] == claims[0int]);
    assert(register_step(states[0], states[0int + 1], p, k, claims[0]));
    assert forall|i: int| 1 <= i < claims.len() implies !claims[i] by {
        assert(claims[i - 1] == claims[i - 1]);
        assert(register_step(states[i - 1], states[i - 1 + 1], p, k, claims[i - 1]));
        assert(states[i].in_flight(p, k));
        assert(register_step(states[i], states[i + 1], p, k, claims[i]));
    }
}

/// The transition a successful `Worker::launch_tasks` makes on the registry
/// for package `p` over the candidate kinds `cands`: `new_set` holds exactly
/// the candidates that were free, every candidate is in flight afterwards,
/// and other packages are untouched.
pub open spec fn launch_step(
    pre: Registry,
    post: Registry,
    p: Seq<char>,
    cands: Seq<Seq<char>>,
    new_set: Seq<Seq<char>>,
) -> bool {
    &&& new_set == cands.filter(|k: Seq<char>| !pre.in_flight(p, k))
    &&& forall|k: Seq<char>|
        #[trigger] post.in_flight(p, k) == (pre.in_flight(p, k) || cands.contains(k))
    &&& forall|p2: Seq<char>, k2: Seq<char>|
        p2 != p ==> #[trigger] post.in_flight(p2, k2) == pre.in_flight(p2, k2)
}

/// Mutual exclusion at the launch level: when a chain of launches for the
/// same package each consider kind `k`, starting from a state where `(p, k)`
/// is free, exactly the first launch starts `k` — every later one reports it
/// as already in progress.
pub proof fn lemma_launch_mutual_exclusion(
    states: Seq<Registry>,
    cands: Seq<Seq<Seq<char>>>,
    news: Seq<Seq<Seq<char>>>,
    p: Seq<char>,
    k: Seq<char>,
)
    requires
        states.len() == news.len() + 1,
        news.len() == cands.len(),
        news.len() >= 1,
        !states[0].in_flight(p, k),
        forall|i: int| 0 <= i < news.len() ==> (#[trigger] cands[i]).contains(k),
        forall|i: int|
            0 <= i < news.len() ==> launch_step(states[i], states[i + 1], p, cands[i], #[trigger] news[i]),
    ensures
        news[0].contains(k),
        forall|i: int| 1 <= i < news.len() ==> !(#[trigger] news[i]).contains(k),
{
    broadcast use vstd::seq::Seq::lemma_filter_contains;
    broadcast use vstd::seq::Seq::lemma_filter_pred;

    assert(news[0int] == news[0int]);
    assert(launch_step(states[0], states[0int + 1], p, cands[0], news[0]));
    assert(news[0].contains(k)) by {
        let x = choose|x: int| 0 <= x < cands[0int].len() && cands[0int][x] == k;
        let pred = |k2: Seq<char>| !states[0int].in_flight(p, k2);
        assert(pred(cands[0int][x]));
        assert(cands[0int].filter(pred).contains(cands[0int][x]));
    }
    assert forall|i: int| 1 <= i < news.len() implies !(#[trigger] news[i]).contains(k) by {
        assert(news[i - 1] == news[i - 1]);
        assert(launch_step(states[i - 1], states[i - 1 + 1], p, cands[i - 1], news[i - 1]));
        assert(states[i].in_flight(p, k));
        assert(launch_step(states[i], states[i + 1], p, cands[i], news[i]));
        if news[i].contains(k) {
            let pred = |k2: Seq<char>| !states[i].in_flight(p, k2);
            let x = choose|x: int| 0 <= x < news[i].len() && news[i][x] == k;
            assert(pred(cands[i].filter(pred)[x]));
        }
    }
}

/// Failure recoverability: once the failure path has unregistered `(p, k)`,
/// the next registration attempt for the pair claims it again.
pub proof fn lemma_failure_recoverable(
    pre: Registry,
    mid: Registry,
    post: Registry,
    p: Seq<char>,
    k: Seq<char>,
    claimed: bool,
)
    requires
        unregister_step(pre, mid, p, k),
        register_step(mid, post, p, k, claimed),
    ensures
        claimed,
{
}

/// Idempotent unregister: a second removal of the same pair changes nothing,
/// and removing a pair that was never present leaves every pair as it was.
pub proof fn lemma_unregister_idempotent(
    s0: Registry,
    s1: Registry,
    s2: Registry,
    p: Seq<char>,
    k: Seq<char>,
)
    requires
        unregister_step(s0, s1, p, k),
        unregister_step(s1, s2, p, k),
    ensures
        forall|p2: Seq<char>, k2: Seq<char>|
            #[trigger] s2.in_flight(p2, k2) == s1.in_flight(p2, k2),
        !s0.in_flight(p, k) ==> forall|p2: Seq<char>, k2: Seq<char>|
            #[trigger] s1.in_flight(p2, k2) == s0.in_flight(p2, k2),
{
}

/// Eventual cache population: once the store holds an entry for `(p, k)`,
/// the grouped read path for `p` surfaces kind `k`.
pub proof fn lemma_cache_population(s: Seq<EntryModel>, p: Seq<char>, k: Seq<char>)
    requires
        exists|i: int| 0 <= i < s.len() && (#[trigger] s[i]).name == p && s[i].kind == k,
    ensures
        has_kind(grouped(s, p), k),
    decreases s.len(),
{
    let i = choose|i: int| 0 <= i < s.len() && (#[trigger] s[i]).name == p && s[i].kind == k;
    let pre = grouped(s.drop_last(), p);
    let e = s.last();
    if i == s.len() - 1 {
        if e.name == p && !has_kind(pre, e.kind) {
            assert(grouped(s, p).last() == e);
            assert(has_kind(grouped(s, p), k));
        } else {
            assert(has_kind(pre, k));
            lemma_has_kind_grows(pre, grouped(s, p), e, k);
        }
    } else {
        assert(s.drop_last()[i] == s[i]);
        lemma_cache_population(s.drop_last(), p, k);
        if e.name == p && !has_kind(pre, e.kind) {
            lemma_has_kind_grows(pre, grouped(s, p), e, k);
        }
    }
}

/// Pushing one more entry never hides a kind that was already represented.
proof fn lemma_has_kind_grows(pre: Seq<EntryModel>, post: Seq<EntryModel>, e: EntryModel, k: Seq<char>)
    requires
        has_kind(pre, k),
        post == pre || post == pre.push(e),
    ensures
        has_kind(post, k),
{
    let i = choose|i: int| 0 <= i < pre.len() && (#[trigger] pre[i]).kind == k;
    if post == pre.push(e) {
        assert(post[i].kind == k);
    }
}

} // verus!
