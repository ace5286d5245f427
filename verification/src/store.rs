//! The result store: an append-only, queryable record of completed statistic
//! computations.
//!
//! An [`Entry`] is immutable once written: newer results are realized by
//! inserting new entries, never by updating old ones.  The read path surfaces
//! one representative entry per statistic kind, and a package counts as
//! "computed" exactly when at least one entry exists for it.

use vstd::prelude::*;

use crate::names::str_eq;

verus! {

/// One persisted computation result.
pub struct Entry {
    pub name: String,
    pub kind: String,
    pub created: i64,
    pub value: String,
}

/// The mathematical content of an entry.
pub ghost struct EntryModel {
    pub name: Seq<char>,
    pub kind: Seq<char>,
    pub created: int,
    pub value: Seq<char>,
}

impl View for Entry {
    type V = EntryModel;

    open spec fn view(&self) -> EntryModel {
        EntryModel {
            name: self.name@,
            kind: self.kind@,
            created: self.created as int,
            value: self.value@,
        }
    }
}

impl DeepView for Entry {
    type V = EntryModel;

    open spec fn deep_view(&self) -> EntryModel {
        self.view()
    }
}

/// Whether some entry of `s` carries kind `k`.
pub open spec fn has_kind(s: Seq<EntryModel>, k: Seq<char>) -> bool {
    exists|i: int| 0 <= i < s.len() && (#[trigger] s[i]).kind == k
}

/// Whether some entry of `s` belongs to package `p`.
pub open spec fn has_package(s: Seq<EntryModel>, p: Seq<char>) -> bool {
    exists|i: int| 0 <= i < s.len() && (#[trigger] s[i]).name == p
}

/// The single entry the read path surfaces when asked for the package as a
/// whole: the entry for `p` with the smallest creation time, the one inserted
/// first when times are equal; empty when nothing was computed yet.
pub open spec fn earliest_for(s: Seq<EntryModel>, p: Seq<char>) -> Seq<EntryModel>
    decreases s.len(),
{
    if s.len() == 0 {
        Seq::empty()
    } else {
        let pre = earliest_for(s.drop_last(), p);
        let e = s.last();
        if e.name != p {
            pre
        } else if pre.len() == 0 {
            seq![e]
        } else if e.created < pre[0].created {
            seq![e]
        } else {
            pre
        }
    }
}

/// One representative entry per kind for package `p`: the first entry
/// inserted for each kind, in order of first insertion.
pub open spec fn grouped(s: Seq<EntryModel>, p: Seq<char>) -> Seq<EntryModel>
    decreases s.len(),
{
    if s.len() == 0 {
        Seq::empty()
    } else {
        let pre = grouped(s.drop_last(), p);
        let e = s.last();
        if e.name == p && !has_kind(pre, e.kind) {
            pre.push(e)
        } else {
            pre
        }
    }
}

/// The read path surfaces an entry exactly when one exists for the package.
pub proof fn lemma_earliest_exists(s: Seq<EntryModel>, p: Seq<char>)
    ensures
        (earliest_for(s, p).len() > 0) == has_package(s, p),
    decreases s.len(),
{
    if s.len() == 0 {
    } else {
        lemma_earliest_exists(s.drop_last(), p);
        let e = s.last();
        if earliest_for(s, p).len() > 0 {
            if e.name == p {
                assert(s[s.len() - 1].name == p);
                assert(has_package(s, p));
            } else {
                let i = choose|i: int|
                    0 <= i < s.drop_last().len() && (#[trigger] s.drop_last()[i]).name == p;
                assert(s[i].name == p);
                assert(has_package(s, p));
            }
        }
        if has_package(s, p) {
            let i = choose|i: int| 0 <= i < s.len() && (#[trigger] s[i]).name == p;
            if i < s.len() - 1 {
                assert(s.drop_last()[i].name == p);
                assert(has_package(s.drop_last(), p));
            }
        }
    }
}

/// Durable record of completed computations, in insertion order.
pub struct ResultStore {
    pub entries: Vec<Entry>,
}

impl View for ResultStore {
    type V = Seq<EntryModel>;

    open spec fn view(&self) -> Seq<EntryModel> {
        self.entries.deep_view()
    }
}

impl ResultStore {
    /// An empty store.
    pub fn new() -> (r: ResultStore)
        ensures
            r@ == Seq::<EntryModel>::empty(),
    {
        let r = ResultStore { entries: Vec::new() };
        proof {
            assert(r@ =~= Seq::<EntryModel>::empty());
        }
        r
    }

    /// Persists one new immutable record at the end of the store.
    pub fn insert(&mut self, e: Entry)
        ensures
            final(self)@ == old(self)@.push(e@),
    {
        let ghost pre = *self;
        self.entries.push(e);
        proof {
            assert(self@ =~= pre@.push(e@));
        }
    }

    /// The entries for `p`, ordered by creation and limited to the earliest
    /// one; the empty vector means nothing was computed yet.
    pub fn find_latest(&self, p: &str) -> (r: Vec<Entry>)
        ensures
            r.deep_view() == earliest_for(self@, p@),
    {
        let mut r: Vec<Entry> = Vec::new();
        let mut i: usize = 0;
        while i < self.entries.len()
            invariant
                i <= self.entries@.len(),
                self@.len() == self.entries@.len(),
                r.deep_view() == earliest_for(self@.take(i as int), p@),
                r@.len() <= 1,
            decreases self.entries@.len() - i,
        {
            let ghost pre = r.deep_view();
            let e = &self.entries[i];
            proof {
                assert(self@.take(i as int + 1).drop_last() =~= self@.take(i as int));
                assert(self@.take(i as int + 1).last() == e@);
            }
            if str_eq(e.name.as_str(), p) {
                if r.len() == 0 {
                    r.push(copy_entry(e));
                    proof {
                        assert(r.deep_view() =~= seq![e@]);
                    }
                } else if e.created < r[0].created {
                    let _ = r.remove(0);
                    r.push(copy_entry(e));
                    proof {
                        assert(r.deep_view() =~= seq![e@]);
                    }
                } else {
                    proof {
                        assert(r.deep_view() =~= pre);
                    }
                }
            }
            i += 1;
        }
        proof {
            assert(self@.take(self@.len() as int) =~= self@);
        }
        r
    }

    /// One representative entry per kind for `p`, ordered by first insertion.
    pub fn find_all_by_kind_grouped(&self, p: &str) -> (r: Vec<Entry>)
        ensures
            r.deep_view() == grouped(self@, p@),
    {
        let mut r: Vec<Entry> = Vec::new();
        let mut i: usize = 0;
        while i < self.entries.len()
            invariant
                i <= self.entries@.len(),
                self@.len() == self.entries@.len(),
                r.deep_view() == grouped(self@.take(i as int), p@),
            decreases self.entries@.len() - i,
        {
            let ghost pre = r.deep_view();
            let e = &self.entries[i];
            proof {
                assert(self@.take(i as int + 1).drop_last() =~= self@.take(i as int));
                assert(self@.take(i as int + 1).last() == e@);
            }
            if str_eq(e.name.as_str(), p) && !contains_entry_kind(&r, e.kind.as_str()) {
                r.push(copy_entry(e));
                proof {
                    assert(r.deep_view() =~= pre.push(e@));
                }
            } else {
                proof {
                    assert(r.deep_view() =~= pre);
                }
            }
            i += 1;
        }
        proof {
            assert(self@.take(self@.len() as int) =~= self@);
        }
        r
    }
}

/// A field-by-field copy of an entry.
fn copy_entry(e: &Entry) -> (r: Entry)
    ensures
        r@ == e@,
{
    Entry {
        name: e.name.clone(),
        kind: e.kind.clone(),
        created: e.created,
        value: e.value.clone(),
    }
}

/// Whether one of the entries of `v` carries kind `k`.
fn contains_entry_kind(v: &Vec<Entry>, k: &str) -> (r: bool)
    ensures
        r == has_kind(v.deep_view(), k@),
{
    let mut i: usize = 0;
    while i < v.len()
        invariant
            i <= v@.len(),
            forall|j: int| 0 <= j < i ==> (#[trigger] v.deep_view()[j]).kind != k@,
        decreases v@.len() - i,
    {
        if str_eq(v[i].kind.as_str(), k) {
            proof {
                assert(v.deep_view()[i as int].kind == k@);
            }
            return true;
        }
        i += 1;
    }
    proof {
        if has_kind(v.deep_view(), k@) {
            let j = choose|j: int| 0 <= j < v.deep_view().len() && (#[trigger] v.deep_view()[j]).kind
                == k@;
            assert(v.deep_view()[j].kind != k@);
        }
    }
    false
}

} // verus!
