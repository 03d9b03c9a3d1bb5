//! The frequency model: for each document its term counts, and for the whole
//! corpus the number of documents that each term occurs in.
use vstd::prelude::*;
use crate::lexer::{lemma_blank_len_bound, lemma_term_len_bounds, skip_blank, term_len, terms, Lexer};
use crate::table::{
    absent, count_of, distinct_terms, lemma_count_absent, lemma_count_at, lemma_count_le_total,
    positive_counts, Entry, TermTable,
};

verus! {

/// How often `term` stands in `tokens`.
pub open spec fn occurrences(tokens: Seq<Seq<char>>, term: Seq<char>) -> nat
    decreases tokens.len(),
{
    if tokens.len() == 0 {
        0
    } else {
        occurrences(tokens.drop_last(), term) + if tokens.last() == term {
            1nat
        } else {
            0nat
        }
    }
}

/// What is recorded of one document, as a mathematical value.
pub struct RecordView {
    /// The number of tokens of the document, repeats included.
    pub total: nat,
    /// For each term of the document, how often it occurs.
    pub counts: Map<Seq<char>, nat>,
}

/// The record of a document whose text has the terms `tokens`.
pub open spec fn record_of(tokens: Seq<Seq<char>>) -> RecordView {
    RecordView {
        total: tokens.len(),
        counts: Map::new(
            |term: Seq<char>| occurrences(tokens, term) > 0,
            |term: Seq<char>| occurrences(tokens, term),
        ),
    }
}

/// The record of one document.
#[derive(PartialEq, Eq, Debug)]
pub struct DocRecord {
    /// The document's identifier.
    pub id: String,
    /// The number of tokens of the document, repeats included.
    pub total: usize,
    /// How often each term occurs in the document.
    pub terms: TermTable,
}

impl View for DocRecord {
    type V = RecordView;

    open spec fn view(&self) -> RecordView {
        RecordView { total: self.total as nat, counts: self.terms@ }
    }
}

impl DocRecord {
    /// The table is well formed, and its counts add up to the stored total.
    pub open spec fn wf(&self) -> bool {
        &&& self.terms.wf()
        &&& self.terms.total() == self.total
    }

    /// Whether `term` occurs in the document.
    pub open spec fn has(&self, term: Seq<char>) -> bool {
        self.terms.count(term) > 0
    }

    /// Tokenizes `content` and counts its terms.
    pub fn from_text(id: String, content: &[char]) -> (record: DocRecord)
        ensures
            record.wf(),
            record.id == id,
            record@ == record_of(terms(content@)),
            forall|term: Seq<char>|
                #[trigger] record.terms.count(term) == occurrences(terms(content@), term),
    {
        let mut lexer = Lexer::new(content);
        let mut table = TermTable::new();
        let length: usize = content.len();
        let mut total: usize = 0;
        let ghost mut done: Seq<Seq<char>> = Seq::empty();
        proof {
            lemma_terms_len(content@);
            assert(content@.len() == length);
            assert(done + terms(lexer@) == terms(content@));
        }
        loop
            invariant
                table.wf(),
                table.total() == total,
                total == done.len(),
                done + terms(lexer@) == terms(content@),
                terms(content@).len() <= usize::MAX,
                forall|term: Seq<char>| #[trigger] table.count(term) == occurrences(done, term),
            decreases lexer@.len(),
        {
            let ghost before = lexer@;
            proof {
                lemma_blank_len_bound(before);
                if skip_blank(before).len() > 0 {
                    lemma_term_len_bounds(skip_blank(before));
                }
            }
            match lexer.next_token() {
                Some(term) => {
                    proof {
                        lemma_count_le_total(table.entries@, term@);
                        assert((done + terms(before)).len() == done.len() + terms(before).len());
                    }
                    let ghost word = term@;
                    table.bump(term);
                    total += 1;
                    proof {
                        let next = done.push(word);
                        assert(next.drop_last() == done);
                        assert(done + (seq![word] + terms(lexer@)) == next + terms(lexer@));
                        done = next;
                    }
                },
                None => {
                    assert(done + Seq::<Seq<char>>::empty() == done);
                    let record = DocRecord { id, total, terms: table };
                    assert(record@.counts =~= record_of(done).counts);
                    return record;
                },
            }
        }
    }
}

/// A text has no more terms than characters.
pub proof fn lemma_terms_len(s: Seq<char>)
    ensures
        terms(s).len() <= s.len(),
    decreases s.len(),
{
    lemma_blank_len_bound(s);
    let t = skip_blank(s);
    if t.len() > 0 {
        lemma_term_len_bounds(t);
        lemma_terms_len(t.skip(term_len(t) as int));
    }
}

/// The number of records of `docs` in which `term` occurs.
pub open spec fn containing(docs: Seq<DocRecord>, term: Seq<char>) -> nat
    decreases docs.len(),
{
    if docs.len() == 0 {
        0
    } else {
        containing(docs.drop_last(), term) + if docs.last().has(term) {
            1nat
        } else {
            0nat
        }
    }
}

/// No identifier stands twice in `docs`.
pub open spec fn distinct_ids(docs: Seq<DocRecord>) -> bool {
    forall|i: int, j: int|
        0 <= i < j < docs.len() ==> (#[trigger] docs[i]).id@ != (#[trigger] docs[j]).id@
}

/// No record of `docs` has the identifier `id`.
pub open spec fn unknown_id(docs: Seq<DocRecord>, id: Seq<char>) -> bool {
    forall|i: int| 0 <= i < docs.len() ==> (#[trigger] docs[i]).id@ != id
}

/// The place of the first record of `docs` with the identifier `id`, and
/// the length of `docs` where there is none.
pub open spec fn place_of(docs: Seq<DocRecord>, id: Seq<char>) -> int
    decreases docs.len(),
{
    if docs.len() == 0 {
        0
    } else if docs[0].id@ == id {
        0
    } else {
        1 + place_of(docs.drop_first(), id)
    }
}

/// `docs` without the first record that has the identifier `id`.
pub open spec fn without(docs: Seq<DocRecord>, id: Seq<char>) -> Seq<DocRecord> {
    if place_of(docs, id) < docs.len() {
        docs.remove(place_of(docs, id))
    } else {
        docs
    }
}

/// The records of `docs` by identifier; of two with one identifier the
/// later one.
pub open spec fn records_by_id(docs: Seq<DocRecord>) -> Map<Seq<char>, RecordView>
    decreases docs.len(),
{
    if docs.len() == 0 {
        Map::empty()
    } else {
        records_by_id(docs.drop_last()).insert(docs.last().id@, docs.last()@)
    }
}

/// The frequency model as a mathematical value.
pub struct ModelView {
    /// The record of each document, by identifier.
    pub docs: Map<Seq<char>, RecordView>,
    /// For each term of the corpus, the number of documents it occurs in.
    pub df: Map<Seq<char>, nat>,
}

/// The frequency model: the records of the documents, and the document
/// frequency table of the corpus.
#[derive(PartialEq, Eq, Debug)]
pub struct Model {
    /// One record for each document.
    pub docs: Vec<DocRecord>,
    /// For each term, the number of documents it occurs in.
    pub df: TermTable,
}

impl View for Model {
    type V = ModelView;

    open spec fn view(&self) -> ModelView {
        ModelView { docs: records_by_id(self.docs@), df: self.df@ }
    }
}

impl Model {
    /// Every record is well formed, no identifier stands twice, and the
    /// document frequency of every term is the number of records that the
    /// term occurs in.
    pub open spec fn wf(&self) -> bool {
        &&& forall|i: int| 0 <= i < self.docs@.len() ==> (#[trigger] self.docs@[i]).wf()
        &&& distinct_ids(self.docs@)
        &&& self.df.wf()
        &&& forall|term: Seq<char>| #[trigger]
            self.df.count(term) == containing(self.docs@, term)
    }

    /// The model of the empty corpus.
    pub fn new() -> (model: Model)
        ensures
            model.wf(),
            model.docs@.len() == 0,
            model@.docs == Map::<Seq<char>, RecordView>::empty(),
            model@.df == Map::<Seq<char>, nat>::empty(),
    {
        Model { docs: Vec::new(), df: TermTable::new() }
    }

    /// The place of the first record with the identifier `id`.
    pub fn position(&self, id: &String) -> (place: Option<usize>)
        ensures
            match place {
                Some(i) => i == place_of(self.docs@, id@) && i < self.docs@.len()
                    && self.docs@[i as int].id@ == id@,
                None => place_of(self.docs@, id@) == self.docs@.len() && unknown_id(
                    self.docs@,
                    id@,
                ),
            },
    {
        let mut i: usize = 0;
        assert(self.docs@.skip(0) == self.docs@);
        while i < self.docs.len()
            invariant
                i <= self.docs@.len(),
                forall|k: int| 0 <= k < i ==> (#[trigger] self.docs@[k]).id@ != id@,
                place_of(self.docs@, id@) == i + place_of(self.docs@.skip(i as int), id@),
            decreases self.docs@.len() - i,
        {
            proof {
                let rest = self.docs@.skip(i as int);
                assert(rest.drop_first() == self.docs@.skip(i + 1));
                assert(rest[0] == self.docs@[i as int]);
            }
            if self.docs[i].id == *id {
                return Some(i);
            }
            i += 1;
        }
        None
    }
}

/// Whether `term` stands in `entries` at a place from `lo` up to, but not
/// at, `hi`.
pub open spec fn listed(entries: Seq<Entry>, lo: int, hi: int, term: Seq<char>) -> bool {
    exists|k: int| lo <= k < hi && 0 <= k < entries.len() && (#[trigger] entries[k]).term@ == term
}

/// In a well-formed table a term has a count exactly when it is listed.
pub proof fn lemma_counted_iff_listed(entries: Seq<Entry>, term: Seq<char>)
    requires
        distinct_terms(entries),
        positive_counts(entries),
    ensures
        count_of(entries, term) > 0 <==> listed(entries, 0, entries.len() as int, term),
{
    if listed(entries, 0, entries.len() as int, term) {
        let k = choose|k: int|
            0 <= k < entries.len() && 0 <= k < entries.len() && (#[trigger] entries[k]).term@
                == term;
        lemma_count_at(entries, k);
    } else {
        assert(absent(entries, term));
        lemma_count_absent(entries, term);
    }
}

/// Widening a range by the place `j` lists the term at `j` and nothing else
/// new; where no term stands twice, that term was not listed in the part
/// before `j`, nor is it in the part after.
pub proof fn lemma_listed_step(entries: Seq<Entry>, j: int, term: Seq<char>)
    requires
        distinct_terms(entries),
        0 <= j < entries.len(),
    ensures
        listed(entries, 0, j + 1, term) == (listed(entries, 0, j, term) || entries[j].term@
            == term),
        listed(entries, j, entries.len() as int, term) == (listed(
            entries,
            j + 1,
            entries.len() as int,
            term,
        ) || entries[j].term@ == term),
        entries[j].term@ == term ==> !listed(entries, 0, j, term) && !listed(
            entries,
            j + 1,
            entries.len() as int,
            term,
        ),
{
    let n = entries.len() as int;
    if listed(entries, 0, j + 1, term) {
        let k = choose|k: int|
            0 <= k < j + 1 && 0 <= k < entries.len() && (#[trigger] entries[k]).term@ == term;
        if k < j {
            assert(listed(entries, 0, j, term));
        }
    }
    if listed(entries, j, n, term) {
        let k = choose|k: int|
            j <= k < n && 0 <= k < entries.len() && (#[trigger] entries[k]).term@ == term;
        if k > j {
            assert(listed(entries, j + 1, n, term));
        }
    }
    if listed(entries, 0, j, term) {
        let k = choose|k: int|
            0 <= k < j && 0 <= k < entries.len() && (#[trigger] entries[k]).term@ == term;
        assert(listed(entries, 0, j + 1, term));
        assert(entries[k].term@ != entries[j].term@);
    }
    if listed(entries, j + 1, n, term) {
        let k = choose|k: int|
            j + 1 <= k < n && 0 <= k < entries.len() && (#[trigger] entries[k]).term@ == term;
        assert(listed(entries, j, n, term));
        assert(entries[j].term@ != entries[k].term@);
    }
    if entries[j].term@ == term {
        assert(listed(entries, 0, j + 1, term));
        assert(listed(entries, j, n, term));
    }
}

/// A term occurs in no more records than there are.
pub proof fn lemma_containing_le(docs: Seq<DocRecord>, term: Seq<char>)
    ensures
        containing(docs, term) <= docs.len(),
    decreases docs.len(),
{
    if docs.len() > 0 {
        lemma_containing_le(docs.drop_last(), term);
    }
}

/// Taking a record out lowers by one the document frequency of the terms
/// that occur in it, and of no other.
pub proof fn lemma_containing_remove(docs: Seq<DocRecord>, i: int, term: Seq<char>)
    requires
        0 <= i < docs.len(),
    ensures
        containing(docs.remove(i), term) + (if docs[i].has(term) {
            1nat
        } else {
            0nat
        }) == containing(docs, term),
    decreases docs.len(),
{
    let after = docs.remove(i);
    if i == docs.len() - 1 {
        assert(after == docs.drop_last());
    } else {
        assert(after.drop_last() == docs.drop_last().remove(i));
        assert(after.last() == docs.last());
        lemma_containing_remove(docs.drop_last(), i, term);
    }
}

/// The identifiers that have a record are those of `docs`.
pub proof fn lemma_records_dom(docs: Seq<DocRecord>, id: Seq<char>)
    ensures
        records_by_id(docs).contains_key(id) <==> !unknown_id(docs, id),
    decreases docs.len(),
{
    if docs.len() > 0 {
        let rest = docs.drop_last();
        lemma_records_dom(rest, id);
        if !unknown_id(rest, id) {
            let k = choose|k: int| 0 <= k < rest.len() && (#[trigger] rest[k]).id@ == id;
            assert(docs[k].id@ == id);
        }
        if !unknown_id(docs, id) {
            let k = choose|k: int| 0 <= k < docs.len() && (#[trigger] docs[k]).id@ == id;
            if k < rest.len() {
                assert(rest[k].id@ == id);
            }
        }
    }
}

/// Where no identifier stands twice, each record is found under its
/// identifier.
pub proof fn lemma_records_at(docs: Seq<DocRecord>, i: int)
    requires
        distinct_ids(docs),
        0 <= i < docs.len(),
    ensures
        records_by_id(docs).contains_key(docs[i].id@),
        records_by_id(docs)[docs[i].id@] == docs[i]@,
    decreases docs.len(),
{
    let rest = docs.drop_last();
    if i < docs.len() - 1 {
        assert forall|a: int, b: int| 0 <= a < b < rest.len() implies (#[trigger] rest[a]).id@ != (
        #[trigger] rest[b]).id@ by {
            assert(rest[a] == docs[a] && rest[b] == docs[b]);
        }
        assert(rest[i] == docs[i]);
        lemma_records_at(rest, i);
        assert(docs[i].id@ != docs[docs.len() - 1].id@);
    }
}

/// Taking a record out of a list without repeated identifiers takes its
/// identifier out of the map, and leaves a list without repeated
/// identifiers.
pub proof fn lemma_records_remove(docs: Seq<DocRecord>, i: int)
    requires
        distinct_ids(docs),
        0 <= i < docs.len(),
    ensures
        distinct_ids(docs.remove(i)),
        unknown_id(docs.remove(i), docs[i].id@),
        records_by_id(docs.remove(i)) == records_by_id(docs).remove(docs[i].id@),
{
    let after = docs.remove(i);
    let gone = docs[i].id@;
    assert forall|k: int| 0 <= k < after.len() implies #[trigger] after[k] == docs[if k < i {
        k
    } else {
        k + 1
    }] by {}
    assert forall|a: int, b: int| 0 <= a < b < after.len() implies (#[trigger] after[a]).id@ != (
    #[trigger] after[b]).id@ by {
        let a0 = if a < i { a } else { a + 1 };
        let b0 = if b < i { b } else { b + 1 };
        assert(after[a] == docs[a0] && after[b] == docs[b0]);
    }
    assert forall|k: int| 0 <= k < after.len() implies (#[trigger] after[k]).id@ != gone by {
        let k0 = if k < i { k } else { k + 1 };
        assert(after[k] == docs[k0]);
    }
    let left = records_by_id(after);
    let right = records_by_id(docs).remove(gone);
    assert forall|id: Seq<char>| left.contains_key(id) <==> right.contains_key(id) by {
        lemma_records_dom(after, id);
        lemma_records_dom(docs, id);
        if !unknown_id(after, id) {
            let k = choose|k: int| 0 <= k < after.len() && (#[trigger] after[k]).id@ == id;
            let k0 = if k < i { k } else { k + 1 };
            assert(docs[k0].id@ == id);
        }
        if !unknown_id(docs, id) && id != gone {
            let k = choose|k: int| 0 <= k < docs.len() && (#[trigger] docs[k]).id@ == id;
            let k1 = if k < i { k } else { k - 1 };
            assert(after[k1].id@ == id);
        }
    }
    assert forall|id: Seq<char>| left.contains_key(id) implies left[id] == right[id] by {
        lemma_records_dom(after, id);
        let k = choose|k: int| 0 <= k < after.len() && (#[trigger] after[k]).id@ == id;
        let k0 = if k < i { k } else { k + 1 };
        assert(after[k] == docs[k0]);
        lemma_records_at(after, k);
        lemma_records_at(docs, k0);
    }
    assert(left =~= right);
}

impl Model {
    /// Takes the record at `i` out of the model and lowers the document
    /// frequency of each of its terms by one.
    fn take_out(&mut self, i: usize) -> (record: DocRecord)
        requires
            old(self).wf(),
            i < old(self).docs@.len(),
        ensures
            final(self).wf(),
            final(self).docs@ == old(self).docs@.remove(i as int),
            record == old(self).docs@[i as int],
    {
        let ghost before = self.docs@;
        let record = self.docs.remove(i);
        let ghost rest = self.docs@;
        let ghost entries = record.terms.entries@;
        proof {
            assert(before[i as int].wf());
            lemma_records_remove(before, i as int);
            assert forall|k: int| 0 <= k < rest.len() implies (#[trigger] rest[k]).wf() by {
                let k0 = if k < i { k } else { k + 1 };
                assert(rest[k] == before[k0]);
            }
            assert forall|term: Seq<char>| #[trigger]
                self.df.count(term) == containing(rest, term) + if listed(
                    entries,
                    0,
                    entries.len() as int,
                    term,
                ) {
                    1nat
                } else {
                    0nat
                } by {
                lemma_containing_remove(before, i as int, term);
                lemma_counted_iff_listed(entries, term);
            }
        }
        let mut j: usize = 0;
        while j < record.terms.entries.len()
            invariant
                j <= entries.len(),
                entries == record.terms.entries@,
                distinct_terms(entries),
                self.docs@ == rest,
                self.df.wf(),
                forall|term: Seq<char>| #[trigger]
                    self.df.count(term) == containing(rest, term) + if listed(
                        entries,
                        j as int,
                        entries.len() as int,
                        term,
                    ) {
                        1nat
                    } else {
                        0nat
                    },
            decreases entries.len() - j,
        {
            let ghost table = self.df;
            self.df.drop_one(&record.terms.entries[j].term);
            proof {
                assert forall|term: Seq<char>| #[trigger]
                    self.df.count(term) == containing(rest, term) + if listed(
                        entries,
                        j + 1,
                        entries.len() as int,
                        term,
                    ) {
                        1nat
                    } else {
                        0nat
                    } by {
                    lemma_listed_step(entries, j as int, term);
                    assert(table.count(term) == containing(rest, term) + if listed(
                        entries,
                        j as int,
                        entries.len() as int,
                        term,
                    ) {
                        1nat
                    } else {
                        0nat
                    });
                }
            }
            j += 1;
        }
        proof {
            assert forall|term: Seq<char>| #[trigger]
                self.df.count(term) == containing(rest, term) by {
                assert(!listed(entries, j as int, entries.len() as int, term));
            }
        }
        record
    }

    /// Puts `record` into the model and raises the document frequency of
    /// each of its terms by one.
    pub(crate) fn put_in(&mut self, record: DocRecord)
        requires
            old(self).wf(),
            record.wf(),
            unknown_id(old(self).docs@, record.id@),
            old(self).docs@.len() < usize::MAX,
        ensures
            final(self).wf(),
            final(self).docs@ == old(self).docs@.push(record),
    {
        let ghost rest = self.docs@;
        let ghost entries = record.terms.entries@;
        let mut j: usize = 0;
        proof {
            assert forall|term: Seq<char>| !listed(entries, 0, 0, term) by {}
        }
        while j < record.terms.entries.len()
            invariant
                j <= entries.len(),
                entries == record.terms.entries@,
                distinct_terms(entries),
                self.docs@ == rest,
                rest.len() < usize::MAX,
                self.df.wf(),
                forall|term: Seq<char>| #[trigger]
                    self.df.count(term) == containing(rest, term) + if listed(
                        entries,
                        0,
                        j as int,
                        term,
                    ) {
                        1nat
                    } else {
                        0nat
                    },
            decreases entries.len() - j,
        {
            let ghost table = self.df;
            let term = record.terms.entries[j].term.clone();
            proof {
                lemma_listed_step(entries, j as int, term@);
                lemma_containing_le(rest, term@);
                assert(table.count(term@) == containing(rest, term@));
            }
            self.df.bump(term);
            proof {
                assert forall|term: Seq<char>| #[trigger]
                    self.df.count(term) == containing(rest, term) + if listed(
                        entries,
                        0,
                        j + 1,
                        term,
                    ) {
                        1nat
                    } else {
                        0nat
                    } by {
                    lemma_listed_step(entries, j as int, term);
                    assert(table.count(term) == containing(rest, term) + if listed(
                        entries,
                        0,
                        j as int,
                        term,
                    ) {
                        1nat
                    } else {
                        0nat
                    });
                }
            }
            j += 1;
        }
        self.docs.push(record);
        proof {
            let after = self.docs@;
            assert(after.drop_last() == rest);
            assert forall|term: Seq<char>| #[trigger]
                self.df.count(term) == containing(after, term) by {
                lemma_counted_iff_listed(entries, term);
            }
            assert forall|a: int, b: int| 0 <= a < b < after.len() implies (#[trigger] after[a]).id@
                != (#[trigger] after[b]).id@ by {
                if b < rest.len() {
                    assert(after[a] == rest[a] && after[b] == rest[b]);
                } else {
                    assert(after[a] == rest[a]);
                }
            }
            assert forall|k: int| 0 <= k < after.len() implies (#[trigger] after[k]).wf() by {
                if k < rest.len() {
                    assert(after[k] == rest[k]);
                }
            }
        }
    }

    /// Takes the document `id` out of the model. Says whether the model had
    /// it.
    pub fn remove_document(&mut self, id: &String) -> (found: bool)
        requires
            old(self).wf(),
        ensures
            final(self).wf(),
            found == old(self)@.docs.contains_key(id@),
            final(self)@.docs == old(self)@.docs.remove(id@),
            final(self).docs@ == without(old(self).docs@, id@),
            final(self).docs@.len() + (if found {
                1nat
            } else {
                0nat
            }) == old(self).docs@.len(),
    {
        proof {
            lemma_records_dom(self.docs@, id@);
        }
        match self.position(id) {
            Some(i) => {
                proof {
                    lemma_records_remove(self.docs@, i as int);
                }
                let _ = self.take_out(i);
                true
            },
            None => {
                assert(self@.docs.remove(id@) =~= self@.docs);
                false
            },
        }
    }

    /// Indexes the document `id` with the text `content`: tokenizes the
    /// text, records the count of each term, and counts the document once
    /// for each of its distinct terms. A record that the model already has
    /// under `id` is replaced, and what it had added to the document
    /// frequencies is taken back.
    pub fn add_document(&mut self, id: String, content: &[char])
        requires
            old(self).wf(),
            old(self).docs@.len() < usize::MAX,
        ensures
            final(self).wf(),
            final(self)@.docs == old(self)@.docs.insert(id@, record_of(terms(content@))),
            final(self).docs@.len() == old(self).docs@.len() + if old(self)@.docs.contains_key(
                id@,
            ) {
                0nat
            } else {
                1nat
            },
            final(self).docs@.drop_last() == without(old(self).docs@, id@),
            final(self).docs@.last().id == id,
            final(self).docs@.last()@ == record_of(terms(content@)),
    {
        let ghost before = self@.docs;
        let ghost name = id@;
        let _ = self.remove_document(&id);
        let record = DocRecord::from_text(id, content);
        let ghost rest = self.docs@;
        proof {
            lemma_records_dom(rest, name);
        }
        self.put_in(record);
        proof {
            let after = self.docs@;
            assert(after.drop_last() == rest);
            assert(after.last() == record);
            assert(records_by_id(after) == records_by_id(rest).insert(name, record@));
            assert(before.remove(name).insert(name, record@) =~= before.insert(name, record@));
        }
    }
}

impl Default for Model {
    /// The model of the empty corpus.
    fn default() -> (model: Model)
        ensures
            model.wf(),
            model.docs@.len() == 0,
            model@.docs == Map::<Seq<char>, RecordView>::empty(),
            model@.df == Map::<Seq<char>, nat>::empty(),
    {
        Model::new()
    }
}

/// A document as it is handed to the indexer: its identifier, and its text
/// where the text could be had.
#[derive(PartialEq, Eq, Debug)]
pub struct Source {
    /// The document's identifier.
    pub id: String,
    /// The document's text; `None` where it could not be extracted.
    pub text: Option<Vec<char>>,
}

/// The records of the documents of `sources` that have a text, by
/// identifier; of two with one identifier the later one.
pub open spec fn indexed(sources: Seq<Source>) -> Map<Seq<char>, RecordView>
    decreases sources.len(),
{
    if sources.len() == 0 {
        Map::empty()
    } else {
        let earlier = indexed(sources.drop_last());
        match sources.last().text {
            Some(text) => earlier.insert(sources.last().id@, record_of(terms(text@))),
            None => earlier,
        }
    }
}

/// Builds the model of a corpus from nothing. A document without a text is
/// passed over, and the others are indexed all the same.
pub fn build(sources: &Vec<Source>) -> (model: Model)
    ensures
        model.wf(),
        model@.docs == indexed(sources@),
{
    let mut model = Model::new();
    let mut i: usize = 0;
    assert(sources@.take(0) == Seq::<Source>::empty());
    while i < sources.len()
        invariant
            i <= sources@.len(),
            model.wf(),
            model.docs@.len() <= i,
            model@.docs == indexed(sources@.take(i as int)),
        decreases sources@.len() - i,
    {
        proof {
            let upto = sources@.take(i + 1);
            assert(upto.drop_last() == sources@.take(i as int));
            assert(upto.last() == sources@[i as int]);
        }
        match &sources[i].text {
            Some(text) => {
                model.add_document(sources[i].id.clone(), text.as_slice());
            },
            None => {},
        }
        i += 1;
    }
    assert(sources@.take(sources@.len() as int) == sources@);
    model
}

/// A term occurs in some record exactly when the number of records that it
/// occurs in is not zero.
pub proof fn lemma_containing_positive(docs: Seq<DocRecord>, term: Seq<char>)
    ensures
        containing(docs, term) > 0 <==> exists|i: int|
            0 <= i < docs.len() && (#[trigger] docs[i]).has(term),
    decreases docs.len(),
{
    if docs.len() > 0 {
        let rest = docs.drop_last();
        lemma_containing_positive(rest, term);
        if containing(rest, term) > 0 {
            let i = choose|i: int| 0 <= i < rest.len() && (#[trigger] rest[i]).has(term);
            assert(docs[i].has(term));
        }
        if docs.last().has(term) {
            assert(docs[docs.len() - 1].has(term));
        }
        if exists|i: int| 0 <= i < docs.len() && (#[trigger] docs[i]).has(term) {
            let i = choose|i: int| 0 <= i < docs.len() && (#[trigger] docs[i]).has(term);
            if i < rest.len() {
                assert(rest[i].has(term));
            }
        }
    }
}

/// In a well-formed model the term counts of every document add up to the
/// document's token count.
pub proof fn lemma_counts_add_up(model: Model, i: int)
    requires
        model.wf(),
        0 <= i < model.docs@.len(),
    ensures
        model.docs@[i].terms.total() == model.docs@[i].total,
        model.docs@[i]@.total == model.docs@[i].terms.total(),
{
    assert(model.docs@[i].wf());
}

/// In a well-formed model the document frequency of every term is the
/// number of records that the term occurs in. The table has the term
/// exactly when some record has it, and then its frequency is at least one
/// and at most the number of documents.
pub proof fn lemma_document_frequency(model: Model, term: Seq<char>)
    requires
        model.wf(),
    ensures
        model.df.count(term) == containing(model.docs@, term),
        model@.df.contains_key(term) <==> exists|i: int|
            0 <= i < model.docs@.len() && (#[trigger] model.docs@[i]).has(term),
        model@.df.contains_key(term) ==> 1 <= model@.df[term] <= model.docs@.len(),
{
    assert(model.df.count(term) == containing(model.docs@, term));
    lemma_containing_positive(model.docs@, term);
    lemma_containing_le(model.docs@, term);
}

/// The documents that are indexed are those that were handed over with a
/// text: one failed extraction takes nothing away from the others, and
/// leaves no record of its own.
pub proof fn lemma_indexed_ids(sources: Seq<Source>, id: Seq<char>)
    ensures
        indexed(sources).contains_key(id) <==> exists|i: int|
            0 <= i < sources.len() && (#[trigger] sources[i]).id@ == id && sources[i].text is Some,
    decreases sources.len(),
{
    if sources.len() > 0 {
        let rest = sources.drop_last();
        let n = sources.len() - 1;
        lemma_indexed_ids(rest, id);
        if indexed(rest).contains_key(id) {
            let i = choose|i: int|
                0 <= i < rest.len() && (#[trigger] rest[i]).id@ == id && rest[i].text is Some;
            assert(sources[i].id@ == id && sources[i].text is Some);
        }
        if sources.last().text is Some && sources.last().id@ == id {
            assert(sources[n].id@ == id && sources[n].text is Some);
        }
        if exists|i: int|
            0 <= i < sources.len() && (#[trigger] sources[i]).id@ == id && sources[i].text is Some {
            let i = choose|i: int|
                0 <= i < sources.len() && (#[trigger] sources[i]).id@ == id && sources[i].text
                    is Some;
            if i < n {
                assert(rest[i].id@ == id && rest[i].text is Some);
            }
        }
    }
}

} // verus!
