//! A table of values by pane id.

use vstd::prelude::*;
use vstd::string::*;

use crate::text::str_eq;

verus! {

/// A value for each of some panes. No pane occurs twice.
#[derive(Debug)]
pub struct PaneTable<V> {
    entries: Vec<(String, V)>,
}

/// The map that a list of entries stands for.
pub open spec fn entry_map<V>(entries: Seq<(Seq<char>, V)>) -> Map<Seq<char>, V>
    decreases entries.len(),
{
    if entries.len() == 0 {
        Map::empty()
    } else {
        entry_map(entries.drop_last()).insert(entries.last().0, entries.last().1)
    }
}

impl<V> PaneTable<V> {
    /// The entries by pane id.
    pub closed spec fn rows(&self) -> Seq<(Seq<char>, V)> {
        Seq::new(self.entries@.len(), |i: int| (self.entries@[i].0@, self.entries@[i].1))
    }

    /// Whether no pane occurs twice.
    pub open spec fn wf(&self) -> bool {
        forall|i: int, j: int|
            0 <= i < j < self.rows().len() ==> (#[trigger] self.rows()[i]).0 != (
            #[trigger] self.rows()[j]).0
    }
}

impl<V> View for PaneTable<V> {
    type V = Map<Seq<char>, V>;

    open spec fn view(&self) -> Map<Seq<char>, V> {
        entry_map(self.rows())
    }
}

proof fn lemma_entry_map<V>(entries: Seq<(Seq<char>, V)>, id: Seq<char>)
    requires
        forall|i: int, j: int|
            0 <= i < j < entries.len() ==> (#[trigger] entries[i]).0 != (#[trigger] entries[j]).0,
    ensures
        entry_map(entries).dom().contains(id) <==> exists|i: int|
            0 <= i < entries.len() && (#[trigger] entries[i]).0 == id,
        forall|i: int|
            0 <= i < entries.len() && (#[trigger] entries[i]).0 == id ==> entry_map(entries)[id]
                == entries[i].1,
    decreases entries.len(),
{
    if entries.len() > 0 {
        let init = entries.drop_last();
        lemma_entry_map(init, id);
        let last = entries.len() - 1;
        if entry_map(init).dom().contains(id) {
            let i = choose|i: int| 0 <= i < init.len() && (#[trigger] init[i]).0 == id;
            assert(entries[i].0 == id);
        }
        if exists|i: int| 0 <= i < entries.len() && (#[trigger] entries[i]).0 == id {
            let i = choose|i: int| 0 <= i < entries.len() && (#[trigger] entries[i]).0 == id;
            if i < last {
                assert(init[i].0 == id);
            }
        }
        assert forall|i: int| 0 <= i < entries.len() && (#[trigger] entries[i]).0 == id implies entry_map(
            entries,
        )[id] == entries[i].1 by {
            if i < last {
                assert(init[i].0 == id);
                assert(entries[last].0 != id);
            }
        }
    }
}

proof fn lemma_entry_map_update<V>(entries: Seq<(Seq<char>, V)>, k: int, v: V)
    requires
        0 <= k < entries.len(),
        forall|i: int, j: int|
            0 <= i < j < entries.len() ==> (#[trigger] entries[i]).0 != (#[trigger] entries[j]).0,
    ensures
        entry_map(entries.update(k, (entries[k].0, v))) == entry_map(entries).insert(
            entries[k].0,
            v,
        ),
    decreases entries.len(),
{
    let new = entries.update(k, (entries[k].0, v));
    let last = entries.len() - 1;
    if k == last {
        assert(new.drop_last() =~= entries.drop_last());
        assert(entry_map(new) =~= entry_map(entries).insert(entries[k].0, v));
    } else {
        let init = entries.drop_last();
        lemma_entry_map_update(init, k, v);
        assert(new.drop_last() =~= init.update(k, (init[k].0, v)));
        assert(entries[k].0 != entries[last].0);
        assert(entry_map(new) =~= entry_map(entries).insert(entries[k].0, v));
    }
}

impl<V: Copy> PaneTable<V> {
    /// A table without entries.
    pub fn new() -> (r: Self)
        ensures
            r.wf(),
            r@ == Map::<Seq<char>, V>::empty(),
    {
        let t = PaneTable { entries: Vec::new() };
        assert(t.rows() =~= Seq::empty());
        t
    }

    /// The position of a pane's entry.
    fn find(&self, id: &str) -> (r: Option<usize>)
        ensures
            match r {
                Some(i) => i < self.rows().len() && self.rows()[i as int].0 == id@,
                None => forall|i: int| 0 <= i < self.rows().len() ==> (#[trigger] self.rows()[i]).0 != id@,
            },
    {
        let mut i: usize = 0;
        while i < self.entries.len()
            invariant
                i <= self.entries@.len(),
                self.entries@.len() == self.rows().len(),
                forall|k: int| 0 <= k < i ==> (#[trigger] self.rows()[k]).0 != id@,
            decreases self.entries@.len() - i,
        {
            assert(self.rows()[i as int].0 == self.entries@[i as int].0@);
            if str_eq(self.entries[i].0.as_str(), id) {
                return Some(i);
            }
            i += 1;
        }
        None
    }

    /// The value of a pane.
    pub fn get(&self, id: &str) -> (r: Option<V>)
        requires
            self.wf(),
        ensures
            r == (if self@.dom().contains(id@) { Some(self@[id@]) } else { None }),
    {
        proof {
            lemma_entry_map(self.rows(), id@);
        }
        match self.find(id) {
            Some(i) => {
                assert(self.rows()[i as int].1 == self.entries@[i as int].1);
                Some(self.entries[i].1)
            },
            None => None,
        }
    }

    /// Sets the value of a pane.
    pub fn insert(&mut self, id: &str, v: V)
        requires
            old(self).wf(),
        ensures
            final(self).wf(),
            final(self)@ == old(self)@.insert(id@, v),
    {
        let ghost before = self.rows();
        match self.find(id) {
            Some(i) => {
                let key = self.entries[i].0.clone();
                self.entries.set(i, (key, v));
                proof {
                    assert(self.rows() =~= before.update(i as int, (before[i as int].0, v)));
                    lemma_entry_map_update(before, i as int, v);
                }
            },
            None => {
                self.entries.push((id.to_owned(), v));
                assert(self.rows() =~= before.push((id@, v)));
                assert(self.rows().drop_last() =~= before);
            },
        }
    }
}

} // verus!
