//! Term tables: how often each term occurs. A table is a list of entries in
//! which no term stands twice and no count is zero; as a mathematical value
//! it is the map from each of its terms to the term's count.
use vstd::prelude::*;

verus! {

/// One term with its count.
#[derive(PartialEq, Eq, Debug)]
pub struct Entry {
    pub term: String,
    pub count: usize,
}

/// The sum of the counts that `entries` gives for `term`.
pub open spec fn count_of(entries: Seq<Entry>, term: Seq<char>) -> nat
    decreases entries.len(),
{
    if entries.len() == 0 {
        0
    } else {
        let rest = count_of(entries.drop_last(), term);
        if entries.last().term@ == term {
            rest + entries.last().count as nat
        } else {
            rest
        }
    }
}

/// The sum of all counts of `entries`.
pub open spec fn total_of(entries: Seq<Entry>) -> nat
    decreases entries.len(),
{
    if entries.len() == 0 {
        0
    } else {
        total_of(entries.drop_last()) + entries.last().count as nat
    }
}

/// No term stands twice in `entries`.
pub open spec fn distinct_terms(entries: Seq<Entry>) -> bool {
    forall|i: int, j: int|
        0 <= i < j < entries.len() ==> (#[trigger] entries[i]).term@ != (#[trigger] entries[j]).term@
}

/// Every count of `entries` is at least one.
pub open spec fn positive_counts(entries: Seq<Entry>) -> bool {
    forall|i: int| 0 <= i < entries.len() ==> (#[trigger] entries[i]).count >= 1
}

/// `term` stands nowhere in `entries`.
pub open spec fn absent(entries: Seq<Entry>, term: Seq<char>) -> bool {
    forall|i: int| 0 <= i < entries.len() ==> (#[trigger] entries[i]).term@ != term
}

/// A term that stands nowhere has count zero.
pub proof fn lemma_count_absent(entries: Seq<Entry>, term: Seq<char>)
    requires
        absent(entries, term),
    ensures
        count_of(entries, term) == 0,
    decreases entries.len(),
{
    if entries.len() > 0 {
        let rest = entries.drop_last();
        assert forall|i: int| 0 <= i < rest.len() implies (#[trigger] rest[i]).term@ != term by {
            assert(rest[i] == entries[i]);
        }
        lemma_count_absent(rest, term);
    }
}

/// Where no term stands twice, the count of a term is the count of its one
/// entry.
pub proof fn lemma_count_at(entries: Seq<Entry>, i: int)
    requires
        distinct_terms(entries),
        0 <= i < entries.len(),
    ensures
        count_of(entries, entries[i].term@) == entries[i].count,
    decreases entries.len(),
{
    let term = entries[i].term@;
    let rest = entries.drop_last();
    assert forall|a: int, b: int| 0 <= a < b < rest.len() implies (#[trigger] rest[a]).term@ != (
    #[trigger] rest[b]).term@ by {
        assert(rest[a] == entries[a] && rest[b] == entries[b]);
    }
    if i == entries.len() - 1 {
        assert forall|k: int| 0 <= k < rest.len() implies (#[trigger] rest[k]).term@ != term by {
            assert(rest[k] == entries[k]);
        }
        lemma_count_absent(rest, term);
    } else {
        assert(rest[i] == entries[i]);
        lemma_count_at(rest, i);
    }
}

/// No single count is more than the sum of all.
pub proof fn lemma_count_le_total(entries: Seq<Entry>, term: Seq<char>)
    ensures
        count_of(entries, term) <= total_of(entries),
    decreases entries.len(),
{
    if entries.len() > 0 {
        lemma_count_le_total(entries.drop_last(), term);
    }
}

/// The sum after one entry was replaced.
pub proof fn lemma_total_update(entries: Seq<Entry>, i: int, entry: Entry)
    requires
        0 <= i < entries.len(),
    ensures
        total_of(entries.update(i, entry)) + entries[i].count == total_of(entries) + entry.count,
    decreases entries.len(),
{
    let after = entries.update(i, entry);
    if i == entries.len() - 1 {
        assert(after.drop_last() == entries.drop_last());
    } else {
        assert(after.drop_last() == entries.drop_last().update(i, entry));
        lemma_total_update(entries.drop_last(), i, entry);
    }
}

/// The sum after one entry was taken out.
pub proof fn lemma_total_remove(entries: Seq<Entry>, i: int)
    requires
        0 <= i < entries.len(),
    ensures
        total_of(entries.remove(i)) + entries[i].count == total_of(entries),
    decreases entries.len(),
{
    let after = entries.remove(i);
    if i == entries.len() - 1 {
        assert(after == entries.drop_last());
    } else {
        assert(after.drop_last() == entries.drop_last().remove(i));
        assert(after.last() == entries.last());
        lemma_total_remove(entries.drop_last(), i);
    }
}

/// A table of terms with their counts.
#[derive(PartialEq, Eq, Debug)]
pub struct TermTable {
    pub entries: Vec<Entry>,
}

impl View for TermTable {
    type V = Map<Seq<char>, nat>;

    /// The map from each term of the table to its count.
    open spec fn view(&self) -> Map<Seq<char>, nat> {
        Map::new(|term: Seq<char>| self.count(term) > 0, |term: Seq<char>| self.count(term))
    }
}

impl TermTable {
    /// No term stands twice, and no count is zero.
    pub open spec fn wf(&self) -> bool {
        &&& distinct_terms(self.entries@)
        &&& positive_counts(self.entries@)
    }

    /// The count of `term`, zero where the table does not have it.
    pub open spec fn count(&self, term: Seq<char>) -> nat {
        count_of(self.entries@, term)
    }

    /// The sum of all counts.
    pub open spec fn total(&self) -> nat {
        total_of(self.entries@)
    }

    /// The empty table.
    pub fn new() -> (table: TermTable)
        ensures
            table.wf(),
            table.entries@.len() == 0,
            table@ == Map::<Seq<char>, nat>::empty(),
            table.total() == 0,
    {
        let table = TermTable { entries: Vec::new() };
        assert(table@ =~= Map::<Seq<char>, nat>::empty());
        table
    }

    /// The place of `term` in the table.
    pub fn find(&self, term: &String) -> (place: Option<usize>)
        ensures
            match place {
                Some(i) => i < self.entries@.len() && self.entries@[i as int].term@ == term@,
                None => absent(self.entries@, term@),
            },
    {
        let mut i: usize = 0;
        while i < self.entries.len()
            invariant
                i <= self.entries@.len(),
                forall|k: int| 0 <= k < i ==> (#[trigger] self.entries@[k]).term@ != term@,
            decreases self.entries@.len() - i,
        {
            if self.entries[i].term == *term {
                return Some(i);
            }
            i += 1;
        }
        None
    }

    /// The count of `term`, zero where the table does not have it.
    pub fn get(&self, term: &String) -> (count: usize)
        requires
            self.wf(),
        ensures
            count == self.count(term@),
    {
        match self.find(term) {
            Some(i) => {
                proof {
                    lemma_count_at(self.entries@, i as int);
                }
                self.entries[i].count
            },
            None => {
                proof {
                    lemma_count_absent(self.entries@, term@);
                }
                0
            },
        }
    }

    /// Counts one more occurrence of `term`.
    pub fn bump(&mut self, term: String)
        requires
            old(self).wf(),
            old(self).count(term@) < usize::MAX,
        ensures
            final(self).wf(),
            forall|t: Seq<char>|
                #[trigger] final(self).count(t) == old(self).count(t) + if t == term@ {
                    1nat
                } else {
                    0nat
                },
            final(self).total() == old(self).total() + 1,
    {
        let ghost before = self.entries@;
        let ghost word = term@;
        match self.find(&term) {
            Some(i) => {
                proof {
                    lemma_count_at(before, i as int);
                }
                let count = self.entries[i].count;
                let entry = Entry { term, count: count + 1 };
                self.entries.set(i, entry);
                proof {
                    let after = self.entries@;
                    lemma_total_update(before, i as int, entry);
                    assert forall|t: Seq<char>|
                        #[trigger] count_of(after, t) == count_of(before, t) + if t == word {
                            1nat
                        } else {
                            0nat
                        } by {
                        lemma_count_same_terms(before, after, i as int, t);
                    }
                }
            },
            None => {
                let entry = Entry { term, count: 1 };
                self.entries.push(entry);
                proof {
                    let after = self.entries@;
                    assert(after.drop_last() == before);
                    assert forall|t: Seq<char>|
                        #[trigger] count_of(after, t) == count_of(before, t) + if t == word {
                            1nat
                        } else {
                            0nat
                        } by {
                        lemma_count_absent(before, word);
                    }
                }
            },
        }
    }

    /// Counts one occurrence of `term` less, and drops the term when none is
    /// left. A term that the table does not have changes nothing.
    pub fn drop_one(&mut self, term: &String)
        requires
            old(self).wf(),
        ensures
            final(self).wf(),
            forall|t: Seq<char>|
                #[trigger] final(self).count(t) == if t == term@ && old(self).count(t) > 0 {
                    (old(self).count(t) - 1) as nat
                } else {
                    old(self).count(t)
                },
            final(self).total() + (if old(self).count(term@) > 0 {
                1nat
            } else {
                0nat
            }) == old(self).total(),
    {
        let ghost before = self.entries@;
        match self.find(term) {
            Some(i) => {
                proof {
                    lemma_count_at(before, i as int);
                }
                let count = self.entries[i].count;
                if count > 1 {
                    let entry = Entry { term: term.clone(), count: count - 1 };
                    self.entries.set(i, entry);
                    proof {
                        let after = self.entries@;
                        lemma_total_update(before, i as int, entry);
                        assert forall|t: Seq<char>|
                            #[trigger] count_of(after, t) == if t == term@ && count_of(before, t)
                                > 0 {
                                (count_of(before, t) - 1) as nat
                            } else {
                                count_of(before, t)
                            } by {
                            lemma_count_same_terms(before, after, i as int, t);
                        }
                    }
                } else {
                    self.entries.remove(i);
                    proof {
                        let after = self.entries@;
                        lemma_total_remove(before, i as int);
                        assert forall|t: Seq<char>|
                            #[trigger] count_of(after, t) == if t == term@ && count_of(before, t)
                                > 0 {
                                (count_of(before, t) - 1) as nat
                            } else {
                                count_of(before, t)
                            } by {
                            lemma_count_remove(before, i as int, t);
                        }
                    }
                }
            },
            None => {
                proof {
                    lemma_count_absent(before, term@);
                }
            },
        }
    }
}

/// The counts after the entry at `i` got another count and kept its term.
pub proof fn lemma_count_same_terms(before: Seq<Entry>, after: Seq<Entry>, i: int, term: Seq<char>)
    requires
        distinct_terms(before),
        0 <= i < before.len(),
        after.len() == before.len(),
        after[i].term@ == before[i].term@,
        forall|k: int| 0 <= k < before.len() && k != i ==> after[k] == before[k],
    ensures
        distinct_terms(after),
        count_of(after, term) == if term == before[i].term@ {
            after[i].count as nat
        } else {
            count_of(before, term)
        },
        count_of(before, before[i].term@) == before[i].count,
{
    assert forall|a: int, b: int| 0 <= a < b < after.len() implies (#[trigger] after[a]).term@ != (
    #[trigger] after[b]).term@ by {
        assert(after[a].term@ == before[a].term@);
        assert(after[b].term@ == before[b].term@);
    }
    lemma_count_at(before, i);
    lemma_count_at(after, i);
    if term != before[i].term@ {
        if exists|k: int| 0 <= k < before.len() && (#[trigger] before[k]).term@ == term {
            let k = choose|k: int| 0 <= k < before.len() && (#[trigger] before[k]).term@ == term;
            lemma_count_at(before, k);
            lemma_count_at(after, k);
        } else {
            assert forall|k: int| 0 <= k < after.len() implies (#[trigger] after[k]).term@
                != term by {
                assert(after[k].term@ == before[k].term@);
            }
            lemma_count_absent(before, term);
            lemma_count_absent(after, term);
        }
    }
}

/// The counts after the entry at `i` was taken out.
pub proof fn lemma_count_remove(before: Seq<Entry>, i: int, term: Seq<char>)
    requires
        distinct_terms(before),
        0 <= i < before.len(),
    ensures
        distinct_terms(before.remove(i)),
        count_of(before.remove(i), term) == if term == before[i].term@ {
            0nat
        } else {
            count_of(before, term)
        },
        count_of(before, before[i].term@) == before[i].count,
{
    let after = before.remove(i);
    assert forall|k: int| 0 <= k < after.len() implies #[trigger] after[k] == before[if k < i {
        k
    } else {
        k + 1
    }] by {}
    assert forall|a: int, b: int| 0 <= a < b < after.len() implies (#[trigger] after[a]).term@ != (
    #[trigger] after[b]).term@ by {
        let a0 = if a < i { a } else { a + 1 };
        let b0 = if b < i { b } else { b + 1 };
        assert(after[a] == before[a0] && after[b] == before[b0]);
    }
    lemma_count_at(before, i);
    if term == before[i].term@ {
        assert forall|k: int| 0 <= k < after.len() implies (#[trigger] after[k]).term@ != term by {
            let k0 = if k < i { k } else { k + 1 };
            assert(after[k] == before[k0]);
        }
        lemma_count_absent(after, term);
    } else if exists|k: int| 0 <= k < before.len() && (#[trigger] before[k]).term@ == term {
        let k = choose|k: int| 0 <= k < before.len() && (#[trigger] before[k]).term@ == term;
        let k1 = if k < i { k } else { k - 1 };
        assert(after[k1] == before[k]);
        lemma_count_at(before, k);
        lemma_count_at(after, k1);
    } else {
        assert forall|k: int| 0 <= k < after.len() implies (#[trigger] after[k]).term@ != term by {
            let k0 = if k < i { k } else { k + 1 };
            assert(after[k] == before[k0]);
        }
        lemma_count_absent(before, term);
        lemma_count_absent(after, term);
    }
}

} // verus!
