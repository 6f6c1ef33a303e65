//! The canonical package model: one fetched report instance, grouped by
//! section, each section an ordered run of records. Section and entry maps
//! are association vectors, so record order is the order the adapter
//! produced.

use vstd::prelude::*;

use crate::dates::Date;
use crate::text::str_eq;

verus! {

/// One record: a report date, the ordered independent values (the first is
/// always the date rendered as text), and named raw field values.
#[derive(Debug)]
pub struct USDADataPackageSection {
    pub report_date: Date,
    pub independent: Vec<String>,
    pub entries: Vec<(String, String)>,
}

impl USDADataPackageSection {
    /// The entry keys, as character sequences.
    pub open spec fn entry_keys(self) -> Seq<Seq<char>> {
        Seq::new(self.entries@.len(), |i: int| self.entries@[i].0@)
    }

    /// No key occurs twice.
    pub open spec fn wf(self) -> bool {
        forall|i: int, j: int|
            0 <= i < j < self.entries@.len() ==> (#[trigger] self.entries@[i]).0@ != (
            #[trigger] self.entries@[j]).0@
    }

    pub fn new(report_date: Date) -> (r: USDADataPackageSection)
        ensures
            r.report_date == report_date,
            r.independent@.len() == 0,
            r.entries@.len() == 0,
            r.wf(),
    {
        USDADataPackageSection { report_date, independent: Vec::new(), entries: Vec::new() }
    }

    /// Whether `key` is already an entry key.
    pub fn has_entry(&self, key: &str) -> (r: bool)
        ensures
            r == self.entry_keys().contains(key@),
    {
        let mut i: usize = 0;
        while i < self.entries.len()
            invariant
                i <= self.entries@.len(),
                forall|j: int| 0 <= j < i ==> (#[trigger] self.entries@[j]).0@ != key@,
            decreases self.entries@.len() - i,
        {
            if str_eq(self.entries[i].0.as_str(), key) {
                proof {
                    assert(self.entry_keys()[i as int] == key@);
                }
                return true;
            }
            i += 1;
        }
        proof {
            if self.entry_keys().contains(key@) {
                let j = choose|j: int|
                    0 <= j < self.entry_keys().len() && self.entry_keys()[j] == key@;
                assert(self.entries@[j].0@ == key@);
                assert(false);
            }
        }
        false
    }

    /// Insert or replace the entry under `key`; every other entry is kept.
    pub fn set_entry(&mut self, key: String, value: String)
        requires
            old(self).wf(),
        ensures
            final(self).wf(),
            final(self).report_date == old(self).report_date,
            final(self).independent == old(self).independent,
            final(self).entry_keys().contains(key@),
            forall|i: int|
                0 <= i < final(self).entries@.len() && (#[trigger] final(self).entries@[i]).0@
                    == key@ ==> final(self).entries@[i].1@ == value@,
            forall|i: int|
                0 <= i < old(self).entries@.len() && (#[trigger] old(self).entries@[i]).0@ != key@
                    ==> final(self).entries@.contains(old(self).entries@[i]),
            forall|i: int|
                0 <= i < final(self).entries@.len() ==> (#[trigger] final(self).entries@[i]).0@
                    == key@ || old(self).entries@.contains(final(self).entries@[i]),
    {
        let mut i: usize = 0;
        while i < self.entries.len()
            invariant
                i <= self.entries@.len(),
                *self == *old(self),
                old(self).wf(),
                forall|j: int| 0 <= j < i ==> (#[trigger] self.entries@[j]).0@ != key@,
            decreases self.entries@.len() - i,
        {
            if str_eq(self.entries[i].0.as_str(), key.as_str()) {
                let ghost iv = i as int;
                proof {
                    assert(self.entries@[iv].0@ == key@);
                }
                self.entries.set(i, (key, value));
                proof {
                    assert(self.entry_keys()[iv] == key@);
                    assert forall|a: int, b: int|
                        0 <= a < b < self.entries@.len() implies (
                    #[trigger] self.entries@[a]).0@ != (#[trigger] self.entries@[b]).0@ by {
                        assert(old(self).entries@[a].0@ != old(self).entries@[b].0@);
                        if a != iv {
                            assert(self.entries@[a] == old(self).entries@[a]);
                        }
                        if b != iv {
                            assert(self.entries@[b] == old(self).entries@[b]);
                        }
                    }
                    assert forall|a: int|
                        0 <= a < self.entries@.len() && (#[trigger] self.entries@[a]).0@
                            == key@ implies self.entries@[a].1@ == value@ by {
                        if a != iv {
                            assert(self.entries@[a] == old(self).entries@[a]);
                            assert(old(self).entries@[a].0@ != old(self).entries@[iv].0@);
                        }
                    }
                    assert forall|a: int|
                        0 <= a < old(self).entries@.len() && (#[trigger] old(self).entries@[a]).0@
                            != key@ implies self.entries@.contains(old(self).entries@[a]) by {
                        assert(self.entries@[a] == old(self).entries@[a]);
                    }
                    assert forall|a: int|
                        0 <= a < self.entries@.len() implies (#[trigger] self.entries@[a]).0@
                        == key@ || old(self).entries@.contains(self.entries@[a]) by {
                        if a != iv {
                            assert(self.entries@[a] == old(self).entries@[a]);
                        }
                    }
                }
                return ;
            }
            i += 1;
        }
        let ghost n = self.entries@.len();
        self.entries.push((key, value));
        proof {
            assert(self.entry_keys()[n as int] == key@);
            assert forall|a: int, b: int|
                0 <= a < b < self.entries@.len() implies (#[trigger] self.entries@[a]).0@ != (
            #[trigger] self.entries@[b]).0@ by {
                if b < n {
                    assert(old(self).entries@[a].0@ != old(self).entries@[b].0@);
                    assert(self.entries@[a] == old(self).entries@[a]);
                    assert(self.entries@[b] == old(self).entries@[b]);
                } else {
                    assert(self.entries@[a] == old(self).entries@[a]);
                    assert(old(self).entries@[a].0@ != key@);
                }
            }
            assert forall|a: int|
                0 <= a < self.entries@.len() && (#[trigger] self.entries@[a]).0@
                    == key@ implies self.entries@[a].1@ == value@ by {
                if a != n {
                    assert(self.entries@[a] == old(self).entries@[a]);
                    assert(old(self).entries@[a].0@ != key@);
                }
            }
            assert forall|a: int|
                0 <= a < old(self).entries@.len() && (#[trigger] old(self).entries@[a]).0@
                    != key@ implies self.entries@.contains(old(self).entries@[a]) by {
                assert(self.entries@[a] == old(self).entries@[a]);
            }
            assert forall|a: int|
                0 <= a < self.entries@.len() implies (#[trigger] self.entries@[a]).0@ == key@
                    || old(self).entries@.contains(self.entries@[a]) by {
                if a != n {
                    assert(self.entries@[a] == old(self).entries@[a]);
                }
            }
        }
    }
}

/// A whole fetched report: its name and the records of each section.
#[derive(Debug)]
pub struct USDADataPackage {
    pub name: String,
    pub sections: Vec<(String, Vec<USDADataPackageSection>)>,
}

impl USDADataPackage {
    pub open spec fn section_names(self) -> Seq<Seq<char>> {
        Seq::new(self.sections@.len(), |i: int| self.sections@[i].0@)
    }

    /// No section name occurs twice.
    pub open spec fn wf(self) -> bool {
        forall|i: int, j: int|
            0 <= i < j < self.sections@.len() ==> (#[trigger] self.sections@[i]).0@ != (
            #[trigger] self.sections@[j]).0@
    }

    /// Every record of every section carries the report date `d`.
    pub open spec fn all_records_dated(self, d: Date) -> bool {
        forall|i: int, j: int|
            0 <= i < self.sections@.len() && 0 <= j < self.sections@[i].1@.len() ==> (
            #[trigger] self.sections@[i].1@[j]).report_date == d
    }

    pub fn new(name: String) -> (r: USDADataPackage)
        ensures
            r.name == name,
            r.sections@.len() == 0,
            r.wf(),
    {
        USDADataPackage { name, sections: Vec::new() }
    }

    /// Index of section `name`, appending an empty section if it is new.
    pub fn section_index(&mut self, name: &str) -> (i: usize)
        requires
            old(self).wf(),
        ensures
            final(self).wf(),
            final(self).name == old(self).name,
            i < final(self).sections@.len(),
            final(self).sections@[i as int].0@ == name@,
            forall|j: int|
                0 <= j < old(self).sections@.len() ==> final(self).sections@[j] == old(self).sections@[j],
            final(self).sections@.len() == old(self).sections@.len() || (final(self).sections@.len() == old(self).sections@.len() + 1 && i as int == old(self).sections@.len()
                && final(self).sections@.last().1@ =~= Seq::<USDADataPackageSection>::empty()),
    {
        let mut i: usize = 0;
        while i < self.sections.len()
            invariant
                i <= self.sections@.len(),
                *self == *old(self),
                old(self).wf(),
                forall|j: int| 0 <= j < i ==> (#[trigger] self.sections@[j]).0@ != name@,
            decreases self.sections@.len() - i,
        {
            if str_eq(self.sections[i].0.as_str(), name) {
                return i;
            }
            i += 1;
        }
        let n = self.sections.len();
        let owned: String = name.to_owned();
        self.sections.push((owned, Vec::new()));
        proof {
            assert(self.sections@[n as int].0@ == name@);
            assert forall|a: int, b: int|
                0 <= a < b < self.sections@.len() implies (#[trigger] self.sections@[a]).0@ != (
            #[trigger] self.sections@[b]).0@ by {
                if b < n {
                    assert(old(self).sections@[a].0@ != old(self).sections@[b].0@);
                    assert(self.sections@[a] == old(self).sections@[a]);
                    assert(self.sections@[b] == old(self).sections@[b]);
                } else {
                    assert(self.sections@[a] == old(self).sections@[a]);
                    assert(old(self).sections@[a].0@ != name@);
                }
            }
            assert(self.sections@.last().1@ =~= Seq::<USDADataPackageSection>::empty());
        }
        n
    }

    /// Append a record to the section at index `i`.
    pub fn push_record(&mut self, i: usize, rec: USDADataPackageSection)
        requires
            i < old(self).sections@.len(),
            old(self).wf(),
        ensures
            final(self).wf(),
            final(self).name == old(self).name,
            final(self).sections@.len() == old(self).sections@.len(),
            final(self).sections@[i as int].0 == old(self).sections@[i as int].0,
            final(self).sections@[i as int].1@ == old(self).sections@[i as int].1@.push(rec),
            forall|j: int|
                0 <= j < old(self).sections@.len() && j != i ==> final(self).sections@[j] == old(self).sections@[j],
    {
        let mut pair = self.sections.remove(i);
        pair.1.push(rec);
        self.sections.insert(i, pair);
        proof {
            assert forall|j: int|
                0 <= j < old(self).sections@.len() && j != i implies self.sections@[j] == old(self).sections@[j] by {
                if j < i {
                    assert(self.sections@[j] == old(self).sections@.remove(i as int)[j]);
                } else {
                    assert(self.sections@[j] == old(self).sections@.remove(i as int)[j - 1]);
                }
            }
            assert forall|a: int, b: int|
                0 <= a < b < self.sections@.len() implies (#[trigger] self.sections@[a]).0@ != (
            #[trigger] self.sections@[b]).0@ by {
                assert(old(self).sections@[a].0@ != old(self).sections@[b].0@);
                assert(self.sections@[i as int].0 == old(self).sections@[i as int].0);
                if a != i {
                    assert(self.sections@[a] == old(self).sections@[a]);
                }
                if b != i {
                    assert(self.sections@[b] == old(self).sections@[b]);
                }
            }
        }
    }
}

} // verus!
