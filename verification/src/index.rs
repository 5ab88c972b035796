//! Secondary indices: a map from a scalar to the positions of the rows
//! holding it.

use vstd::prelude::*;

use crate::util::{Val, ValV};

verus! {

/// A pluggable per-column index. Positions are recorded in insertion
/// order and never renumbered.
pub trait Index {
    /// The positions recorded for the scalar `v`, oldest first.
    spec fn spec_positions(&self, v: ValV) -> Seq<usize>;

    /// Internal consistency of the index.
    spec fn wf(&self) -> bool;

    /// Records that the row at position `at` holds the scalar `val`.
    fn insert(&mut self, val: Val, at: usize)
        requires
            old(self).wf(),
        ensures
            final(self).wf(),
            final(self).spec_positions(val@) == old(self).spec_positions(val@).push(at),
            forall|w: ValV|
                w != val@ ==> #[trigger] final(self).spec_positions(w) == old(self).spec_positions(
                    w,
                ),
    ;

    /// The positions recorded for `val`, or nothing when none were.
    fn get_pos(&self, val: Val) -> (r: Option<&Vec<usize>>)
        requires
            self.wf(),
        ensures
            match r {
                Some(ps) => ps@ == self.spec_positions(val@) && ps@.len() > 0,
                None => self.spec_positions(val@) == Seq::<usize>::empty(),
            },
    ;
}

/// The positions the entry list records for `v`: those of the first entry
/// whose key equals `v`, or none.
pub open spec fn spec_positions_in(entries: Seq<(Val, Vec<usize>)>, v: ValV) -> Seq<usize>
    decreases entries.len(),
{
    if entries.len() == 0 {
        Seq::<usize>::empty()
    } else if entries[0].0@ == v {
        entries[0].1@
    } else {
        spec_positions_in(entries.drop_first(), v)
    }
}

/// The default in-memory index: an association list from scalar to the
/// append-ordered positions holding it, one entry per distinct scalar.
#[derive(Debug)]
pub struct BasicIndex {
    map: Vec<(Val, Vec<usize>)>,
}

impl BasicIndex {
    /// The positions recorded for `v`: those of the first entry keyed by
    /// `v`, or none.
    pub closed spec fn positions(&self, v: ValV) -> Seq<usize> {
        spec_positions_in(self.map@, v)
    }

    /// Entry keys are pairwise distinct and no entry records an empty
    /// position list.
    pub closed spec fn inv(&self) -> bool {
        &&& forall|i: int, j: int|
            0 <= i < j < self.map@.len() ==> #[trigger] self.map@[i].0@ != #[trigger] self.map@[j].0@
        &&& forall|i: int| 0 <= i < self.map@.len() ==> #[trigger] self.map@[i].1@.len() > 0
    }

    /// An index with no recorded positions.
    pub fn new() -> (r: BasicIndex)
        ensures
            r.inv(),
            forall|w: ValV| #[trigger] r.positions(w) == Seq::<usize>::empty(),
    {
        BasicIndex { map: Vec::new() }
    }
}

impl Default for BasicIndex {
    fn default() -> (r: BasicIndex)
        ensures
            r.inv(),
            forall|w: ValV| #[trigger] r.positions(w) == Seq::<usize>::empty(),
    {
        BasicIndex::new()
    }
}

/// Positions recorded for keys other than the one whose entry changed are
/// untouched, and the changed entry's positions are read back exactly.
proof fn lemma_positions_update(
    old_e: Seq<(Val, Vec<usize>)>,
    new_e: Seq<(Val, Vec<usize>)>,
    i: int,
    v: ValV,
)
    requires
        0 <= i < old_e.len(),
        new_e.len() == old_e.len(),
        forall|j: int| 0 <= j < old_e.len() && j != i ==> new_e[j] == old_e[j],
        new_e[i].0@ == v,
        old_e[i].0@ == v,
        forall|j: int| 0 <= j < i ==> #[trigger] old_e[j].0@ != v,
    ensures
        spec_positions_in(new_e, v) == new_e[i].1@,
        forall|w: ValV|
            w != v ==> #[trigger] spec_positions_in(new_e, w) == spec_positions_in(old_e, w),
    decreases i,
{
    if i == 0 {
        assert forall|w: ValV| w != v implies #[trigger] spec_positions_in(new_e, w)
            == spec_positions_in(old_e, w) by {
            assert(new_e.drop_first() =~= old_e.drop_first());
        }
    } else {
        lemma_positions_update(old_e.drop_first(), new_e.drop_first(), i - 1, v);
        assert(new_e[0] == old_e[0]);
        assert(old_e[0].0@ != v);
        assert(spec_positions_in(new_e, v) == spec_positions_in(new_e.drop_first(), v));
        assert(new_e.drop_first()[i - 1] == new_e[i]);
        assert forall|w: ValV| w != v implies #[trigger] spec_positions_in(new_e, w)
            == spec_positions_in(old_e, w) by {
            if new_e[0].0@ != w {
                assert(spec_positions_in(new_e, w) == spec_positions_in(new_e.drop_first(), w));
                assert(spec_positions_in(old_e, w) == spec_positions_in(old_e.drop_first(), w));
            }
        }
    }
}

/// A key that matches no entry has no recorded positions.
proof fn lemma_positions_no_match(entries: Seq<(Val, Vec<usize>)>, v: ValV)
    requires
        forall|j: int| 0 <= j < entries.len() ==> #[trigger] entries[j].0@ != v,
    ensures
        spec_positions_in(entries, v) == Seq::<usize>::empty(),
    decreases entries.len(),
{
    if entries.len() > 0 {
        assert forall|j: int|
            0 <= j < entries.drop_first().len() implies #[trigger] entries.drop_first()[j].0@
            != v by {
            assert(entries.drop_first()[j] == entries[j + 1]);
            assert(entries[j + 1].0@ != v);
        }
        lemma_positions_no_match(entries.drop_first(), v);
    }
}

/// The first entry whose key equals `v` carries exactly the recorded
/// positions for `v`.
proof fn lemma_positions_first_match(entries: Seq<(Val, Vec<usize>)>, v: ValV, i: int)
    requires
        0 <= i < entries.len(),
        entries[i].0@ == v,
        forall|j: int| 0 <= j < i ==> #[trigger] entries[j].0@ != v,
    ensures
        spec_positions_in(entries, v) == entries[i].1@,
    decreases i,
{
    if i > 0 {
        lemma_positions_first_match(entries.drop_first(), v, i - 1);
    }
}

impl Index for BasicIndex {
    /// The recorded positions of the first entry keyed by `v`.
    open spec fn spec_positions(&self, v: ValV) -> Seq<usize> {
        self.positions(v)
    }

    /// Entry keys are pairwise distinct and no entry records an empty
    /// position list.
    open spec fn wf(&self) -> bool {
        self.inv()
    }

    fn insert(&mut self, val: Val, at: usize) {
        let n = self.map.len();
        let mut i: usize = 0;
        while i < n
            invariant
                n == self.map@.len(),
                0 <= i <= n,
                old(self) == self,
                old(self).wf(),
                forall|j: int| 0 <= j < i ==> #[trigger] self.map@[j].0@ != val@,
            decreases n - i,
        {
            if self.map[i].0 == val {
                let ghost old_entries = self.map@;
                let mut entry = self.map.remove(i);
                entry.1.push(at);
                self.map.insert(i, entry);
                proof {
                    assert(self.map@ =~= old_entries.update(i as int, entry));
                    lemma_positions_update(old_entries, self.map@, i as int, val@);
                    lemma_positions_first_match(old_entries, val@, i as int);
                    assert(entry.1@ == old_entries[i as int].1@.push(at));
                    assert forall|j: int| 0 <= j < old_entries.len() implies #[trigger] self.map@[j].0@
                        == old_entries[j].0@ by {
                        if j != i {
                            assert(self.map@[j] == old_entries[j]);
                        }
                    }
                    assert(old(self).wf());
                    assert(old_entries == old(self).map@);
                    assert forall|j: int|
                        0 <= j < self.map@.len() implies #[trigger] self.map@[j].1@.len() > 0 by {
                        if j != i {
                            assert(self.map@[j] == old_entries[j]);
                            assert(old(self).map@[j].1@.len() > 0);
                        } else {
                            assert(self.map@[j].1@ == old_entries[i as int].1@.push(at));
                        }
                    }
                    assert forall|p: int, q: int|
                        0 <= p < q < self.map@.len() implies self.map@[p].0@ != self.map@[q].0@ by {
                        assert(old(self).map@[p].0@ != old(self).map@[q].0@);
                    }
                }
                return ;
            }
            i = i + 1;
        }
        let ghost old_entries = self.map@;
        let mut ps: Vec<usize> = Vec::new();
        ps.push(at);
        self.map.push((val, ps));
        proof {
            lemma_positions_no_match(old_entries, val@);
            lemma_positions_last_entry(self.map@, val@);
            assert(self.map@.drop_last() =~= old_entries);
            assert forall|w: ValV| w != val@ implies #[trigger] spec_positions_in(self.map@, w)
                == spec_positions_in(old_entries, w) by {
                lemma_positions_ignore_last(self.map@, w);
            }
            assert(ps@ =~= Seq::<usize>::empty().push(at));
            assert forall|p: int, q: int|
                0 <= p < q < self.map@.len() implies self.map@[p].0@ != self.map@[q].0@ by {
                if q < old_entries.len() {
                    assert(self.map@[p] == old_entries[p]);
                    assert(self.map@[q] == old_entries[q]);
                    assert(old(self).map@[p].0@ != old(self).map@[q].0@);
                } else {
                    assert(self.map@[p] == old_entries[p]);
                    assert(self.map@[q].0@ == val@);
                }
            }
            assert forall|j: int| 0 <= j < self.map@.len() implies #[trigger] self.map@[j].1@.len()
                > 0 by {
                if j < old_entries.len() {
                    assert(self.map@[j] == old_entries[j]);
                    assert(old(self).map@[j].1@.len() > 0);
                }
            }
        }
    }

    fn get_pos(&self, val: Val) -> (r: Option<&Vec<usize>>) {
        let n = self.map.len();
        let mut i: usize = 0;
        while i < n
            invariant
                n == self.map@.len(),
                0 <= i <= n,
                self.wf(),
                forall|j: int| 0 <= j < i ==> #[trigger] self.map@[j].0@ != val@,
            decreases n - i,
        {
            if self.map[i].0 == val {
                proof {
                    lemma_positions_first_match(self.map@, val@, i as int);
                }
                return Some(&self.map[i].1);
            }
            i = i + 1;
        }
        proof {
            lemma_positions_no_match(self.map@, val@);
        }
        None
    }
}

/// A fresh last entry is found exactly when its key is looked up and the
/// earlier entries do not hold that key.
proof fn lemma_positions_last_entry(entries: Seq<(Val, Vec<usize>)>, v: ValV)
    requires
        entries.len() > 0,
        entries.last().0@ == v,
        forall|j: int| 0 <= j < entries.len() - 1 ==> #[trigger] entries[j].0@ != v,
    ensures
        spec_positions_in(entries, v) == entries.last().1@,
{
    lemma_positions_first_match(entries, v, entries.len() - 1);
}

/// Looking up a key different from the last entry's ignores that entry.
proof fn lemma_positions_ignore_last(entries: Seq<(Val, Vec<usize>)>, w: ValV)
    requires
        entries.len() > 0,
        entries.last().0@ != w,
    ensures
        spec_positions_in(entries, w) == spec_positions_in(entries.drop_last(), w),
    decreases entries.len(),
{
    if entries.len() == 1 {
        assert(entries.drop_first() =~= Seq::<(Val, Vec<usize>)>::empty());
        assert(entries.drop_last() =~= Seq::<(Val, Vec<usize>)>::empty());
    } else {
        lemma_positions_ignore_last(entries.drop_first(), w);
        assert(entries.drop_first().drop_last() =~= entries.drop_last().drop_first());
        assert(entries.drop_last()[0] == entries[0]);
        if entries[0].0@ != w {
            assert(spec_positions_in(entries.drop_last(), w) == spec_positions_in(
                entries.drop_last().drop_first(),
                w,
            ));
        }
    }
}

/// Law: recording the same scalar for two rows yields both row positions,
/// in insertion order, from a single lookup. The two premises are exactly
/// what [`Index::insert`] ensures for the inserted scalar.
pub proof fn lemma_index_two_inserts<I: Index>(i0: I, i1: I, i2: I, v: ValV, p1: usize, p2: usize)
    requires
        i1.spec_positions(v) == i0.spec_positions(v).push(p1),
        i2.spec_positions(v) == i1.spec_positions(v).push(p2),
    ensures
        i2.spec_positions(v) == i0.spec_positions(v) + seq![p1, p2],
{
    assert(i0.spec_positions(v).push(p1).push(p2) =~= i0.spec_positions(v) + seq![p1, p2]);
}

} // verus!
