//! The in-flight registry: which statistic kinds are currently being computed
//! for which package.
//!
//! A `(package, kind)` pair is registered at most once at a time: claiming it
//! through [`Registry::try_register`] succeeds exactly when the pair is
//! absent, which is what prevents duplicate computations.  The pair is removed
//! again, exactly once per computation, by the completion path, whether the
//! computation succeeded or failed.

use vstd::prelude::*;

use crate::names::str_eq;

verus! {

/// One package together with the kinds currently being computed for it.
pub struct Slot {
    pub name: String,
    pub kinds: Vec<String>,
}

/// Process-wide record of the computations currently underway, one slot per
/// package that has at least one kind in flight.
pub struct Registry {
    pub slots: Vec<Slot>,
}

impl Registry {
    /// Whether kind `k` is currently being computed for package `p`.
    pub open spec fn in_flight(self, p: Seq<char>, k: Seq<char>) -> bool {
        exists|i: int|
            0 <= i < self.slots@.len() && (#[trigger] self.slots@[i]).name@ == p
                && self.slots@[i].kinds.deep_view().contains(k)
    }

    /// Whether any kind at all is in flight for package `p`.
    pub open spec fn busy(self, p: Seq<char>) -> bool {
        exists|k: Seq<char>| self.in_flight(p, k)
    }

    /// Well-formedness: one slot per package, no empty slot, no repeated kind
    /// within a slot.
    pub open spec fn wf(self) -> bool {
        &&& forall|i: int, j: int|
            0 <= i < j < self.slots@.len() ==> (#[trigger] self.slots@[i]).name@ != (
            #[trigger] self.slots@[j]).name@
        &&& forall|i: int|
            0 <= i < self.slots@.len() ==> (#[trigger] self.slots@[i]).kinds@.len() > 0
        &&& forall|i: int, j: int, l: int|
            #![trigger self.slots@[i].kinds.deep_view()[j], self.slots@[i].kinds.deep_view()[l]]
            0 <= i < self.slots@.len() && 0 <= j < l < self.slots@[i].kinds@.len()
                ==> self.slots@[i].kinds.deep_view()[j] != self.slots@[i].kinds.deep_view()[l]
    }

    /// A fresh registry with nothing in flight.
    pub fn new() -> (r: Registry)
        ensures
            r.wf(),
            forall|p: Seq<char>, k: Seq<char>| !r.in_flight(p, k),
    {
        Registry { slots: Vec::new() }
    }

    fn find_slot(&self, p: &str) -> (r: Option<usize>)
        ensures
            match r {
                Some(i) => i < self.slots@.len() && self.slots@[i as int].name@ == p@,
                None => forall|i: int|
                    0 <= i < self.slots@.len() ==> (#[trigger] self.slots@[i]).name@ != p@,
            },
    {
        let mut i: usize = 0;
        while i < self.slots.len()
            invariant
                i <= self.slots@.len(),
                forall|j: int| 0 <= j < i ==> (#[trigger] self.slots@[j]).name@ != p@,
            decreases self.slots@.len() - i,
        {
            if str_eq(self.slots[i].name.as_str(), p) {
                return Some(i);
            }
            i += 1;
        }
        None
    }

    /// Atomically claims the pair `(p, k)`: the claim succeeds exactly when
    /// the pair was absent, and afterwards the pair is present either way.
    /// No other pair is affected.
    pub fn try_register(&mut self, p: &str, k: &str) -> (claimed: bool)
        requires
            old(self).wf(),
        ensures
            final(self).wf(),
            claimed == !old(self).in_flight(p@, k@),
            final(self).in_flight(p@, k@),
            forall|p2: Seq<char>, k2: Seq<char>|
                !(p2 == p@ && k2 == k@) ==> #[trigger] final(self).in_flight(p2, k2) == old(
                    self,
                ).in_flight(p2, k2),
    {
        match self.find_slot(p) {
            Some(i) => {
                if contains_kind(&self.slots[i].kinds, k) {
                    proof {
                        assert(self.in_flight(p@, k@));
                    }
                    false
                } else {
                    let ghost pre = *self;
                    proof {
                        assert forall|k2: Seq<char>| pre.in_flight(p@, k2) implies pre.slots@[
                            i as int].kinds.deep_view().contains(k2) by {
                            let w = choose|w: int|
                                0 <= w < pre.slots@.len() && (#[trigger] pre.slots@[w]).name@ == p@
                                    && pre.slots@[w].kinds.deep_view().contains(k2);
                            assert(w == i);
                        }
                    }
                    self.slots[i].kinds.push(k.to_owned());
                    proof {
                        lemma_deep_view_push(pre.slots@[i as int].kinds, self.slots@[i as int].kinds, k@);
                        assert(self.slots@[i as int].name@ == p@);
                        assert(self.slots@[i as int].kinds.deep_view().contains(k@)) by {
                            assert(self.slots@[i as int].kinds.deep_view().last() == k@);
                        }
                        assert(self.in_flight(p@, k@));
                        assert forall|p2: Seq<char>, k2: Seq<char>| !(p2 == p@ && k2 == k@) implies
                            #[trigger] self.in_flight(p2, k2) == pre.in_flight(p2, k2) by {
                            lemma_frame_update(pre, *self, i as int, p@, k@, p2, k2);
                        }
                        assert(self.wf()) by {
                            lemma_wf_after_push(pre, *self, i as int, k@);
                        }
                    }
                    true
                }
            },
            None => {
                let ghost pre = *self;
                let mut kinds: Vec<String> = Vec::new();
                kinds.push(k.to_owned());
                self.slots.push(Slot { name: p.to_owned(), kinds });
                proof {
                    let n = pre.slots@.len() as int;
                    assert(self.slots@[n].kinds.deep_view() =~= seq![k@]);
                    assert(self.slots@[n].name@ == p@);
                    assert(self.slots@[n].kinds.deep_view()[0] == k@);
                    assert(self.slots@[n].kinds.deep_view().contains(k@));
                    assert(self.in_flight(p@, k@));
                    assert(!pre.in_flight(p@, k@)) by {
                        if pre.in_flight(p@, k@) {
                            let w = choose|w: int|
                                0 <= w < pre.slots@.len() && (#[trigger] pre.slots@[w]).name@ == p@
                                    && pre.slots@[w].kinds.deep_view().contains(k@);
                        }
                    }
                    assert forall|p2: Seq<char>, k2: Seq<char>| !(p2 == p@ && k2 == k@) implies
                        #[trigger] self.in_flight(p2, k2) == pre.in_flight(p2, k2) by {
                        if self.in_flight(p2, k2) {
                            let w = choose|w: int|
                                0 <= w < self.slots@.len() && (#[trigger] self.slots@[w]).name@
                                    == p2 && self.slots@[w].kinds.deep_view().contains(k2);
                            if w == n {
                                assert(k2 == k@ && p2 == p@);
                            } else {
                                assert(pre.slots@[w] == self.slots@[w]);
                            }
                        }
                        if pre.in_flight(p2, k2) {
                            let w = choose|w: int|
                                0 <= w < pre.slots@.len() && (#[trigger] pre.slots@[w]).name@ == p2
                                    && pre.slots@[w].kinds.deep_view().contains(k2);
                            assert(self.slots@[w] == pre.slots@[w]);
                            assert(self.in_flight(p2, k2));
                        }
                    }
                }
                true
            },
        }
    }

    /// Removes the pair `(p, k)`.  Removing an absent pair is a no-op, never
    /// an error, and no other pair is ever affected.
    pub fn unregister(&mut self, p: &str, k: &str)
        requires
            old(self).wf(),
        ensures
            final(self).wf(),
            !final(self).in_flight(p@, k@),
            forall|p2: Seq<char>, k2: Seq<char>|
                !(p2 == p@ && k2 == k@) ==> #[trigger] final(self).in_flight(p2, k2) == old(
                    self,
                ).in_flight(p2, k2),
    {
        match self.find_slot(p) {
            Some(i) => {
                let ghost pre = *self;
                let filtered = remove_kind(&self.slots[i].kinds, k);
                proof {
                    assert forall|k2: Seq<char>| pre.in_flight(p@, k2) implies pre.slots@[
                        i as int].kinds.deep_view().contains(k2) by {
                        let w = choose|w: int|
                            0 <= w < pre.slots@.len() && (#[trigger] pre.slots@[w]).name@ == p@
                                && pre.slots@[w].kinds.deep_view().contains(k2);
                        assert(w == i);
                    }
                }
                if filtered.len() == 0 {
                    self.slots.remove(i);
                    proof {
                        let n = self.slots@.len() as int;
                        assert forall|p2: Seq<char>, k2: Seq<char>| !(p2 == p@ && k2 == k@) implies
                            #[trigger] self.in_flight(p2, k2) == pre.in_flight(p2, k2) by {
                            if self.in_flight(p2, k2) {
                                let w = choose|w: int|
                                    0 <= w < self.slots@.len() && (#[trigger] self.slots@[w]).name@
                                        == p2 && self.slots@[w].kinds.deep_view().contains(k2);
                                if w < i {
                                    assert(pre.slots@[w] == self.slots@[w]);
                                } else {
                                    assert(pre.slots@[w + 1] == self.slots@[w]);
                                }
                                assert(pre.in_flight(p2, k2));
                            }
                            if pre.in_flight(p2, k2) {
                                let w = choose|w: int|
                                    0 <= w < pre.slots@.len() && (#[trigger] pre.slots@[w]).name@
                                        == p2 && pre.slots@[w].kinds.deep_view().contains(k2);
                                if w < i {
                                    assert(self.slots@[w] == pre.slots@[w]);
                                    assert(self.in_flight(p2, k2));
                                } else if w == i {
                                    // the removed slot held only `k`, so `p2 == p@`
                                    // and `k2 == k@`, which is excluded
                                    assert(filtered.deep_view().len() == 0);
                                    assert(!filtered.deep_view().contains(k2));
                                    assert(k2 == k@);
                                } else {
                                    assert(self.slots@[w - 1] == pre.slots@[w]);
                                    assert(self.in_flight(p2, k2));
                                }
                            }
                        }
                        assert(!self.in_flight(p@, k@)) by {
                            if self.in_flight(p@, k@) {
                                let w = choose|w: int|
                                    0 <= w < self.slots@.len() && (#[trigger] self.slots@[w]).name@
                                        == p@ && self.slots@[w].kinds.deep_view().contains(k@);
                                if w < i {
                                    assert(pre.slots@[w].name@ == p@);
                                } else {
                                    assert(pre.slots@[w + 1].name@ == p@);
                                }
                            }
                        }
                    }
                } else {
                    self.slots[i].kinds = filtered;
                    proof {
                        assert forall|p2: Seq<char>, k2: Seq<char>| !(p2 == p@ && k2 == k@) implies
                            #[trigger] self.in_flight(p2, k2) == pre.in_flight(p2, k2) by {
                            lemma_frame_remove(pre, *self, i as int, p@, k@, p2, k2);
                        }
                        assert(!self.in_flight(p@, k@)) by {
                            if self.in_flight(p@, k@) {
                                let w = choose|w: int|
                                    0 <= w < self.slots@.len() && (#[trigger] self.slots@[w]).name@
                                        == p@ && self.slots@[w].kinds.deep_view().contains(k@);
                                assert(w == i);
                            }
                        }
                    }
                }
            },
            None => {
                proof {
                    assert(!self.in_flight(p@, k@));
                }
            },
        }
    }

    /// A consistent snapshot of the kinds in flight for `p`: `None` exactly
    /// when nothing is in flight, otherwise the registered kinds, each once.
    pub fn get_in_progress(&self, p: &str) -> (r: Option<Vec<String>>)
        requires
            self.wf(),
        ensures
            match r {
                None => forall|k: Seq<char>| !self.in_flight(p@, k),
                Some(v) => {
                    &&& v@.len() > 0
                    &&& forall|j: int|
                        0 <= j < v@.len() ==> self.in_flight(p@, #[trigger] v.deep_view()[j])
                    &&& forall|k: Seq<char>|
                        self.in_flight(p@, k) ==> v.deep_view().contains(k)
                    &&& forall|j: int, l: int|
                        0 <= j < l < v@.len() ==> v.deep_view()[j] != v.deep_view()[l]
                },
            },
    {
        match self.find_slot(p) {
            Some(i) => {
                let v = clone_kinds(&self.slots[i].kinds);
                proof {
                    assert forall|j: int| 0 <= j < v@.len() implies self.in_flight(
                        p@,
                        #[trigger] v.deep_view()[j],
                    ) by {
                        assert(self.slots@[i as int].kinds.deep_view().contains(v.deep_view()[j]));
                    }
                    assert forall|k: Seq<char>| self.in_flight(p@, k) implies v.deep_view()
                        .contains(k) by {
                        let w = choose|w: int|
                            0 <= w < self.slots@.len() && (#[trigger] self.slots@[w]).name@ == p@
                                && self.slots@[w].kinds.deep_view().contains(k);
                        assert(w == i);
                    }
                }
                Some(v)
            },
            None => {
                proof {
                    assert forall|k: Seq<char>| !self.in_flight(p@, k) by {}
                }
                None
            },
        }
    }
}

/// The view of a pushed vector of strings is the view with the new element at
/// the end.
proof fn lemma_deep_view_push(pre: Vec<String>, post: Vec<String>, k: Seq<char>)
    requires
        post@.len() == pre@.len() + 1,
        forall|j: int| 0 <= j < pre@.len() ==> post@[j] == pre@[j],
        post@.last()@ == k,
    ensures
        post.deep_view() =~= pre.deep_view().push(k),
{
}

proof fn lemma_frame_update(pre: Registry, post: Registry, i: int, p: Seq<char>, k: Seq<char>, p2: Seq<char>, k2: Seq<char>)
    requires
        0 <= i < pre.slots@.len(),
        post.slots@.len() == pre.slots@.len(),
        forall|j: int| 0 <= j < pre.slots@.len() && j != i ==> post.slots@[j] == pre.slots@[j],
        post.slots@[i].name@ == pre.slots@[i].name@,
        pre.slots@[i].name@ == p,
        post.slots@[i].kinds.deep_view() == pre.slots@[i].kinds.deep_view().push(k),
        !(p2 == p && k2 == k),
    ensures
        post.in_flight(p2, k2) == pre.in_flight(p2, k2),
{
    if post.in_flight(p2, k2) {
        let w = choose|w: int|
            0 <= w < post.slots@.len() && (#[trigger] post.slots@[w]).name@ == p2
                && post.slots@[w].kinds.deep_view().contains(k2);
        if w == i {
            let d = pre.slots@[i].kinds.deep_view();
            let x = choose|x: int| 0 <= x < d.push(k).len() && d.push(k)[x] == k2;
            if x < d.len() {
                assert(d[x] == k2);
                assert(pre.in_flight(p2, k2));
            } else {
                assert(k2 == k && p2 == p);
            }
        } else {
            assert(pre.slots@[w] == post.slots@[w]);
            assert(pre.in_flight(p2, k2));
        }
    }
    if pre.in_flight(p2, k2) {
        let w = choose|w: int|
            0 <= w < pre.slots@.len() && (#[trigger] pre.slots@[w]).name@ == p2
                && pre.slots@[w].kinds.deep_view().contains(k2);
        if w == i {
            let d = pre.slots@[i].kinds.deep_view();
            let x = choose|x: int| 0 <= x < d.len() && d[x] == k2;
            assert(d.push(k)[x] == k2);
            assert(post.slots@[i].kinds.deep_view().contains(k2));
        } else {
            assert(post.slots@[w] == pre.slots@[w]);
        }
        assert(post.in_flight(p2, k2));
    }
}

proof fn lemma_wf_after_push(pre: Registry, post: Registry, i: int, k: Seq<char>)
    requires
        pre.wf(),
        0 <= i < pre.slots@.len(),
        post.slots@.len() == pre.slots@.len(),
        forall|j: int| 0 <= j < pre.slots@.len() && j != i ==> post.slots@[j] == pre.slots@[j],
        post.slots@[i].name@ == pre.slots@[i].name@,
        post.slots@[i].kinds.deep_view() == pre.slots@[i].kinds.deep_view().push(k),
        post.slots@[i].kinds@.len() == pre.slots@[i].kinds@.len() + 1,
        !pre.slots@[i].kinds.deep_view().contains(k),
    ensures
        post.wf(),
{
    assert forall|a: int, b: int, l: int|
        #![trigger post.slots@[a].kinds.deep_view()[b], post.slots@[a].kinds.deep_view()[l]]
        0 <= a < post.slots@.len() && 0 <= b < l < post.slots@[a].kinds@.len() implies
        post.slots@[a].kinds.deep_view()[b] != post.slots@[a].kinds.deep_view()[l] by {
        if a == i {
            let d = pre.slots@[i].kinds.deep_view();
            if l < d.len() {
                assert(d[b] != d[l]);
            } else {
                assert(post.slots@[i].kinds.deep_view()[l] == k);
                assert(d[b] != k) by {
                    if d[b] == k {
                        assert(d.contains(k));
                    }
                }
            }
        }
    }
}

proof fn lemma_frame_remove(pre: Registry, post: Registry, i: int, p: Seq<char>, k: Seq<char>, p2: Seq<char>, k2: Seq<char>)
    requires
        0 <= i < pre.slots@.len(),
        post.slots@.len() == pre.slots@.len(),
        forall|j: int| 0 <= j < pre.slots@.len() && j != i ==> post.slots@[j] == pre.slots@[j],
        post.slots@[i].name@ == pre.slots@[i].name@,
        pre.slots@[i].name@ == p,
        forall|k2: Seq<char>|
            post.slots@[i].kinds.deep_view().contains(k2) == (pre.slots@[
                i].kinds.deep_view().contains(k2) && k2 != k),
        !(p2 == p && k2 == k),
    ensures
        post.in_flight(p2, k2) == pre.in_flight(p2, k2),
{
    if post.in_flight(p2, k2) {
        let w = choose|w: int|
            0 <= w < post.slots@.len() && (#[trigger] post.slots@[w]).name@ == p2
                && post.slots@[w].kinds.deep_view().contains(k2);
        if w != i {
            assert(pre.slots@[w] == post.slots@[w]);
        }
        assert(pre.in_flight(p2, k2));
    }
    if pre.in_flight(p2, k2) {
        let w = choose|w: int|
            0 <= w < pre.slots@.len() && (#[trigger] pre.slots@[w]).name@ == p2
                && pre.slots@[w].kinds.deep_view().contains(k2);
        if w != i {
            assert(post.slots@[w] == pre.slots@[w]);
        }
        assert(post.in_flight(p2, k2));
    }
}

/// Whether `k` occurs among the kinds of `v`.
fn contains_kind(v: &Vec<String>, k: &str) -> (r: bool)
    ensures
        r == v.deep_view().contains(k@),
{
    let mut i: usize = 0;
    while i < v.len()
        invariant
            i <= v@.len(),
            forall|j: int| 0 <= j < i ==> v.deep_view()[j] != k@,
        decreases v@.len() - i,
    {
        if str_eq(v[i].as_str(), k) {
            proof {
                assert(v.deep_view()[i as int] == k@);
            }
            return true;
        }
        i += 1;
    }
    proof {
        if v.deep_view().contains(k@) {
            let j = choose|j: int| 0 <= j < v.deep_view().len() && v.deep_view()[j] == k@;
            assert(v.deep_view()[j] != k@);
        }
    }
    false
}

/// A copy of `v` with every occurrence of `k` left out.
fn remove_kind(v: &Vec<String>, k: &str) -> (r: Vec<String>)
    ensures
        forall|k2: Seq<char>|
            #[trigger] r.deep_view().contains(k2) == (v.deep_view().contains(k2) && k2 != k@),
        (forall|j: int, l: int|
            #![trigger v.deep_view()[j], v.deep_view()[l]]
            0 <= j < l < v@.len() ==> v.deep_view()[j] != v.deep_view()[l]) ==> (forall|
            j: int,
            l: int,
        |
            #![trigger r.deep_view()[j], r.deep_view()[l]]
            0 <= j < l < r@.len() ==> r.deep_view()[j] != r.deep_view()[l]),
{
    let mut r: Vec<String> = Vec::new();
    let ghost mut picked: Seq<int> = Seq::empty();
    let mut i: usize = 0;
    while i < v.len()
        invariant
            i <= v@.len(),
            r@.len() == picked.len(),
            forall|j: int|
                0 <= j < picked.len() ==> 0 <= #[trigger] picked[j] < i && r.deep_view()[j]
                    == v.deep_view()[picked[j]] && v.deep_view()[picked[j]] != k@,
            forall|j: int, l: int| 0 <= j < l < picked.len() ==> picked[j] < picked[l],
            forall|j: int|
                0 <= j < i && v.deep_view()[j] != k@ ==> exists|l: int|
                    0 <= l < picked.len() && #[trigger] picked[l] == j,
        decreases v@.len() - i,
    {
        let ghost prev = picked;
        if !str_eq(v[i].as_str(), k) {
            let s = v[i].clone();
            r.push(s);
            proof {
                picked = picked.push(i as int);
                assert(r.deep_view()[picked.len() - 1] == v.deep_view()[i as int]);
                assert forall|j: int| 0 <= j < i + 1 && v.deep_view()[j] != k@ implies exists|l: int|
                    0 <= l < picked.len() && #[trigger] picked[l] == j by {
                    if j == i {
                        assert(picked[picked.len() - 1] == j);
                    } else {
                        let l = choose|l: int| 0 <= l < prev.len() && #[trigger] prev[l] == j;
                        assert(picked[l] == j);
                    }
                }
            }
        } else {
            proof {
                assert(v.deep_view()[i as int] == k@);
                assert forall|j: int| 0 <= j < i + 1 && v.deep_view()[j] != k@ implies exists|l: int|
                    0 <= l < picked.len() && #[trigger] picked[l] == j by {
                    let l = choose|l: int| 0 <= l < prev.len() && #[trigger] prev[l] == j;
                    assert(picked[l] == j);
                }
            }
        }
        i += 1;
    }
    proof {
        assert forall|k2: Seq<char>| #[trigger] r.deep_view().contains(k2) == (v.deep_view()
            .contains(k2) && k2 != k@) by {
            if r.deep_view().contains(k2) {
                let j = choose|j: int| 0 <= j < r.deep_view().len() && r.deep_view()[j] == k2;
                assert(v.deep_view()[picked[j]] == k2);
                assert(v.deep_view().contains(k2));
            }
            if v.deep_view().contains(k2) && k2 != k@ {
                let j = choose|j: int| 0 <= j < v.deep_view().len() && v.deep_view()[j] == k2;
                let l = choose|l: int| 0 <= l < picked.len() && #[trigger] picked[l] == j;
                assert(r.deep_view()[l] == k2);
                assert(r.deep_view().contains(k2));
            }
        }
        if forall|j: int, l: int|
            #![trigger v.deep_view()[j], v.deep_view()[l]]
            0 <= j < l < v@.len() ==> v.deep_view()[j] != v.deep_view()[l] {
            assert forall|j: int, l: int|
                #![trigger r.deep_view()[j], r.deep_view()[l]]
                0 <= j < l < r@.len() implies r.deep_view()[j] != r.deep_view()[l] by {
                assert(0 <= picked[j] < picked[l] < v@.len());
                assert(r.deep_view()[j] == v.deep_view()[picked[j]]);
                assert(r.deep_view()[l] == v.deep_view()[picked[l]]);
                assert(v.deep_view()[picked[j]] != v.deep_view()[picked[l]]);
            }
        }
    }
    r
}

/// A copy of `v`, element by element.
fn clone_kinds(v: &Vec<String>) -> (r: Vec<String>)
    ensures
        r.deep_view() == v.deep_view(),
        r@.len() == v@.len(),
{
    let mut r: Vec<String> = Vec::new();
    let mut i: usize = 0;
    while i < v.len()
        invariant
            i <= v@.len(),
            r@.len() == i,
            forall|j: int| 0 <= j < i ==> r.deep_view()[j] == v.deep_view()[j],
        decreases v@.len() - i,
    {
        let s = v[i].clone();
        r.push(s);
        i += 1;
    }
    proof {
        assert(r.deep_view() =~= v.deep_view());
    }
    r
}

} // verus!
