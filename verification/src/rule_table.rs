use std::collections::BTreeSet;
use vstd::prelude::*;
use vstd::std_specs::iter::IteratorSpec;

verus! {

broadcast use {vstd::std_specs::btree::group_btree_axioms, vstd::laws_cmp::group_laws_cmp};

/// Number of entries in the rule table of an automaton with `cell_types`
/// states: one for each sum of three states.
pub fn rule_table_width(cell_types: u8) -> (w: usize)
    requires
        cell_types >= 1,
    ensures
        w == (cell_types - 1) * 3 + 1,
{
    (cell_types as usize - 1) * 3 + 1
}

/// The table left when the entries at the chosen positions are set to 0.
pub open spec fn finished_table(entries: Seq<u8>, chosen: Set<usize>) -> Seq<u8> {
    Seq::new(entries.len(), |i: int| if chosen.contains(i as usize) { 0u8 } else { entries[i] })
}

/// Positions of the entries of `table` that are 0.
pub open spec fn zero_positions(table: Seq<u8>) -> Set<usize> {
    Set::new(|i: usize| i < table.len() && table[i as int] == 0)
}

/// A rule table being built: its drawn entries, the set of positions chosen
/// so far for disabling, and how many positions are to be chosen.
///
/// The positions come from random draws made outside the library: while
/// `needs_more` holds, a caller draws a position and hands it to `offer`;
/// `finish` then sets the chosen entries to 0.
pub struct RuleTableDraft {
    table: Vec<u8>,
    to_remove: BTreeSet<usize>,
    target: usize,
}

impl RuleTableDraft {
    /// The entries as drawn.
    pub closed spec fn entries(&self) -> Seq<u8> {
        self.table@
    }

    /// The positions chosen so far.
    pub closed spec fn chosen(&self) -> Set<usize> {
        self.to_remove@
    }

    /// How many positions are to be chosen.
    pub closed spec fn target(&self) -> nat {
        self.target as nat
    }

    /// The chosen positions form a finite set of positions of the table.
    pub open spec fn wf(&self) -> bool {
        &&& self.chosen().finite()
        &&& forall|i: usize| #[trigger] self.chosen().contains(i) ==> i < self.entries().len()
    }

    /// A draft with the drawn entries `table`, no position chosen yet, that
    /// is to disable `target` entries.
    pub fn new(table: Vec<u8>, target: usize) -> (d: Self)
        ensures
            d.wf(),
            d.entries() == table@,
            d.chosen() == Set::<usize>::empty(),
            d.target() == target,
    {
        RuleTableDraft { table, to_remove: BTreeSet::new(), target }
    }

    /// Whether fewer or more positions than the target have been chosen, so
    /// that another draw is due.
    pub fn needs_more(&self) -> (more: bool)
        requires
            self.wf(),
        ensures
            more == (self.chosen().len() != self.target()),
    {
        self.to_remove.len() != self.target
    }

    /// Adds a drawn position to the chosen set (a position drawn twice is
    /// kept once).
    pub fn offer(&mut self, index: usize)
        requires
            old(self).wf(),
            index < old(self).entries().len(),
        ensures
            final(self).wf(),
            final(self).chosen() == old(self).chosen().insert(index),
            final(self).entries() == old(self).entries(),
            final(self).target() == old(self).target(),
    {
        self.to_remove.insert(index);
    }

    /// The exclusive upper end of the range positions are drawn from: the
    /// table's length, truncated to `u8` as by `as`.
    pub fn index_range_end(&self) -> (end: u8)
        ensures
            end == self.entries().len() as u8,
    {
        self.table.len() as u8
    }

    /// The table with the chosen entries set to 0.
    pub fn finish(self) -> (table: Vec<u8>)
        requires
            self.wf(),
        ensures
            table@ == finished_table(self.entries(), self.chosen()),
            table@.len() == self.entries().len(),
            forall|i: int|
                0 <= i < self.entries().len() ==> (#[trigger] table@[i] == if self.chosen().contains(
                    i as usize,
                ) {
                    0u8
                } else {
                    self.entries()[i]
                }),
    {
        proof {
            law_finish_keeps_unchosen_entries(self.entries(), self.chosen());
        }
        let ghost entries = self.entries();
        let ghost chosen = self.chosen();
        let RuleTableDraft { table, to_remove, target: _ } = self;
        let mut table = table;
        let n_exec = table.len();
        let ghost n = table@.len();
        let keys_iter = to_remove.iter();
        let ghost keys = keys_iter.remaining();
        assert(keys.unref().to_set() == chosen);
        for x in it: keys_iter
            invariant
                it.seq() == keys,
                n == n_exec,
                to_remove@ == chosen,
                chosen.finite(),
                forall|i: usize| #[trigger] chosen.contains(i) ==> i < n,
                entries.len() == n,
                it.seq().unref().to_set() == chosen,
                table@.len() == n,
                forall|i: int|
                    0 <= i < n ==> #[trigger] table@[i] == if (exists|q: int|
                        0 <= q < it.index() && *it.seq()[q] == i) {
                        0u8
                    } else {
                        entries[i]
                    },
        {
            assert(it.seq().unref()[it.index()] == *x);
            assert(it.seq().unref().to_set().contains(*x));
            table.set(*x, 0);
        }
        assert(forall|i: int| 0 <= i < n ==> #[trigger] table@[i] == if (exists|q: int|
                        0 <= q < keys.len() && *keys[q] == i) { 0u8 } else { entries[i] });
        assert forall|i: int| 0 <= i < n implies #[trigger] table@[i] == finished_table(entries, chosen)[i] by {
            if chosen.contains(i as usize) {
                assert(keys.unref().to_set().contains(i as usize));
                let q = choose|q: int| 0 <= q < keys.unref().len() && keys.unref()[q] == i as usize;
                assert(*keys[q] == i);
            } else {
                if exists|q: int| 0 <= q < keys.len() && *keys[q] == i {
                    let q = choose|q: int| 0 <= q < keys.len() && *keys[q] == i;
                    assert(keys.unref()[q] == i as usize);
                    assert(keys.unref().to_set().contains(i as usize));
                }
            }
        }
        assert(table@ =~= finished_table(entries, chosen));
        table
    }
}

/// Once no further draw is due, and when no drawn entry is 0, the entries
/// of the finished table that are 0 are exactly the chosen positions, and
/// there are as many as the target.
pub proof fn law_finished_table_disables_target_entries(d: RuleTableDraft)
    requires
        d.wf(),
        d.chosen().len() == d.target(),
        forall|i: int| 0 <= i < d.entries().len() ==> #[trigger] d.entries()[i] != 0,
    ensures
        zero_positions(finished_table(d.entries(), d.chosen())) == d.chosen(),
        zero_positions(finished_table(d.entries(), d.chosen())).len() == d.target(),
{
    let t = finished_table(d.entries(), d.chosen());
    assert forall|i: usize| zero_positions(t).contains(i) <==> #[trigger] d.chosen().contains(i) by {
        if d.chosen().contains(i) {
            assert(i < d.entries().len());
            assert(t[i as int] == 0);
        }
        if zero_positions(t).contains(i) {
            assert(t[i as int] == 0);
            assert(d.entries()[i as int] != 0);
        }
    }
    assert(zero_positions(t) =~= d.chosen());
}

/// Every state below `cell_types` fits the rule table of an automaton with
/// `cell_types` states: three of them never sum past its last entry.
pub proof fn law_states_fit_rule_table(cell_types: u8, row: Seq<u8>)
    requires
        cell_types >= 1,
        forall|j: int| 0 <= j < row.len() ==> #[trigger] row[j] < cell_types,
    ensures
        crate::ca::row_fits((cell_types - 1) * 3 + 1, row),
{
}

/// Finishing changes only the chosen positions: the table keeps its length,
/// each chosen position holds 0, and every other position keeps the entry
/// that was drawn for it.
pub proof fn law_finish_keeps_unchosen_entries(entries: Seq<u8>, chosen: Set<usize>)
    ensures
        finished_table(entries, chosen).len() == entries.len(),
        forall|i: int|
            0 <= i < entries.len() ==> (#[trigger] finished_table(entries, chosen)[i] == if chosen.contains(
                i as usize,
            ) {
                0u8
            } else {
                entries[i]
            }),
{
}

} // verus!
