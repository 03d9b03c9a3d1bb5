//! The persisted form of the frequency model: a JSON object with the
//! member `tfpf`, which holds for each document identifier the pair of the
//! document's token count and its term counts, and the member `df`, which
//! holds the document frequency of each term.
use vstd::prelude::*;
use crate::json::{
    lemma_list_view, lemma_object_view, member_views, parse_json, parsed_json, print_json,
    printed_json, JsonNode, JsonTree, Member,
};
use crate::model::{
    containing, distinct_ids, lemma_counted_iff_listed, listed, records_by_id, unknown_id,
    DocRecord, Model,
};
use crate::table::{
    count_of, distinct_terms, lemma_count_at, positive_counts, total_of, Entry, TermTable,
};

verus! {

/// The name of the member that holds the records of the documents.
pub open spec fn records_key() -> Seq<char> {
    "tfpf"@
}

/// The name of the member that holds the document frequencies.
pub open spec fn frequencies_key() -> Seq<char> {
    "df"@
}

/// The JSON number `n`.
pub open spec fn count_tree(n: usize) -> JsonTree {
    JsonTree::Number(Some(n as u64))
}

/// The JSON object with one member for each entry: the term with its count.
pub open spec fn table_tree(entries: Seq<Entry>) -> JsonTree {
    JsonTree::Object(
        Seq::new(entries.len(), |i: int| (entries[i].term@, count_tree(entries[i].count))),
    )
}

/// The JSON pair of a token count and term counts.
pub open spec fn pair_tree(total: usize, entries: Seq<Entry>) -> JsonTree {
    JsonTree::List(seq![count_tree(total), table_tree(entries)])
}

/// The JSON pair of a record's token count and its term counts.
pub open spec fn record_tree(record: DocRecord) -> JsonTree {
    pair_tree(record.total, record.terms.entries@)
}

/// The JSON object with one member for each record: the identifier with the
/// record.
pub open spec fn docs_tree(docs: Seq<DocRecord>) -> JsonTree {
    JsonTree::Object(Seq::new(docs.len(), |i: int| (docs[i].id@, record_tree(docs[i]))))
}

/// The JSON value that a model is persisted as.
pub open spec fn model_tree(model: Model) -> JsonTree {
    JsonTree::Object(
        seq![
            (records_key(), docs_tree(model.docs@)),
            (frequencies_key(), table_tree(model.df.entries@)),
        ],
    )
}

/// The JSON object of a term table.
fn table_node(table: &TermTable) -> (node: JsonNode)
    ensures
        node@ == table_tree(table.entries@),
{
    let mut members: Vec<Member> = Vec::new();
    let mut i: usize = 0;
    while i < table.entries.len()
        invariant
            i <= table.entries@.len(),
            members@.len() == i,
            forall|k: int|
                0 <= k < i ==> (#[trigger] members@[k]).key@ == table.entries@[k].term@
                    && members@[k].value@ == count_tree(table.entries@[k].count),
        decreases table.entries@.len() - i,
    {
        let entry = &table.entries[i];
        let value = JsonNode::Number(Some(entry.count as u64));
        members.push(Member { key: entry.term.clone(), value });
        i += 1;
    }
    let node = JsonNode::Object(members);
    assert(node@->Object_0 =~= table_tree(table.entries@)->Object_0);
    node
}

/// The JSON pair of a record.
fn record_node(record: &DocRecord) -> (node: JsonNode)
    ensures
        node@ == record_tree(*record),
{
    let total = JsonNode::Number(Some(record.total as u64));
    let terms = table_node(&record.terms);
    assert(total@ == count_tree(record.total));
    let mut pair: Vec<JsonNode> = Vec::new();
    pair.push(total);
    pair.push(terms);
    let node = JsonNode::List(pair);
    assert(node@->List_0 =~= record_tree(*record)->List_0);
    node
}

/// The JSON value that `model` is persisted as.
pub fn model_node(model: &Model) -> (node: JsonNode)
    ensures
        node@ == model_tree(*model),
{
    let mut records: Vec<Member> = Vec::new();
    let mut i: usize = 0;
    while i < model.docs.len()
        invariant
            i <= model.docs@.len(),
            records@.len() == i,
            forall|k: int|
                0 <= k < i ==> (#[trigger] records@[k]).key@ == model.docs@[k].id@
                    && records@[k].value@ == record_tree(model.docs@[k]),
        decreases model.docs@.len() - i,
    {
        let record = &model.docs[i];
        records.push(Member { key: record.id.clone(), value: record_node(record) });
        i += 1;
    }
    let docs = JsonNode::Object(records);
    assert(docs@->Object_0 =~= docs_tree(model.docs@)->Object_0);
    let mut members: Vec<Member> = Vec::new();
    members.push(Member { key: "tfpf".to_owned(), value: docs });
    members.push(Member { key: "df".to_owned(), value: table_node(&model.df) });
    let node = JsonNode::Object(members);
    assert(node@->Object_0 =~= model_tree(*model)->Object_0);
    node
}

/// Writes `model` as JSON text. `None` where the writer gives up.
pub fn encode(model: &Model) -> (text: Option<String>)
    ensures
        match text {
            Some(t) => printed_json(model_tree(*model)) == Some(t@),
            None => printed_json(model_tree(*model)) is None,
        },
{
    let node = model_node(model);
    print_json(&node)
}

/// `members` are the members of the JSON object of the entries `entries`,
/// in which no term stands twice and no count is zero.
pub open spec fn is_table(members: Seq<(Seq<char>, JsonTree)>, entries: Seq<Entry>) -> bool {
    &&& distinct_terms(entries)
    &&& positive_counts(entries)
    &&& JsonTree::Object(members) == table_tree(entries)
}

/// `members` are the members of the JSON object of a term table: no key
/// stands twice, and every value is a whole number from 1 up to the largest
/// count.
pub open spec fn table_shaped(members: Seq<(Seq<char>, JsonTree)>) -> bool {
    exists|entries: Seq<Entry>| is_table(members, entries)
}

/// The member at `i` is the first that keeps `members` from being a term
/// table.
pub open spec fn table_fails_at(members: Seq<(Seq<char>, JsonTree)>, i: int) -> bool {
    &&& 0 <= i < members.len()
    &&& table_shaped(members.take(i))
    &&& !table_shaped(members.take(i + 1))
}

/// What the member at `i` of the JSON object of a table is.
pub proof fn lemma_is_table_at(members: Seq<(Seq<char>, JsonTree)>, entries: Seq<Entry>, i: int)
    requires
        is_table(members, entries),
        0 <= i < members.len(),
    ensures
        entries.len() == members.len(),
        members[i] == (entries[i].term@, count_tree(entries[i].count)),
        entries[i].count >= 1,
{
    let other = table_tree(entries)->Object_0;
    assert(other == members);
    assert(other.len() == entries.len());
    assert(other[i] == (entries[i].term@, count_tree(entries[i].count)));
}

/// The start of a term table is a term table.
pub proof fn lemma_table_prefix(members: Seq<(Seq<char>, JsonTree)>, k: int)
    requires
        table_shaped(members),
        0 <= k <= members.len(),
    ensures
        table_shaped(members.take(k)),
{
    let entries = choose|entries: Seq<Entry>| is_table(members, entries);
    if members.len() > 0 {
        lemma_is_table_at(members, entries, 0);
    } else {
        assert(table_tree(entries)->Object_0.len() == entries.len());
    }
    let start = entries.take(k);
    assert forall|i: int| 0 <= i < k implies members[i] == (
        #[trigger] entries[i].term@,
        count_tree(entries[i].count),
    ) by {
        lemma_is_table_at(members, entries, i);
    }
    assert(members.take(k) =~= table_tree(start)->Object_0);
    assert(is_table(members.take(k), start));
}

/// Two lists of entries with the same terms and counts, place by place,
/// give every term the same count, and have the same sum.
pub proof fn lemma_same_entries(a: Seq<Entry>, b: Seq<Entry>)
    requires
        a.len() == b.len(),
        forall|i: int|
            0 <= i < a.len() ==> (#[trigger] a[i]).term@ == b[i].term@ && a[i].count == b[i].count,
    ensures
        total_of(a) == total_of(b),
        forall|term: Seq<char>| #[trigger] count_of(a, term) == count_of(b, term),
    decreases a.len(),
{
    if a.len() > 0 {
        let x = a.drop_last();
        let y = b.drop_last();
        assert forall|i: int| 0 <= i < x.len() implies (#[trigger] x[i]).term@ == y[i].term@
            && x[i].count == y[i].count by {
            assert(x[i] == a[i] && y[i] == b[i]);
        }
        lemma_same_entries(x, y);
        assert(a[a.len() - 1].term@ == b[a.len() - 1].term@);
        assert forall|term: Seq<char>| #[trigger] count_of(a, term) == count_of(b, term) by {
            assert(count_of(x, term) == count_of(y, term));
        }
    }
}

/// Two lists of entries with one JSON object have the same terms with the
/// same counts, place by place.
pub proof fn lemma_table_tree_same(a: Seq<Entry>, b: Seq<Entry>)
    requires
        table_tree(a) == table_tree(b),
    ensures
        a.len() == b.len(),
        forall|i: int|
            0 <= i < a.len() ==> (#[trigger] a[i]).term@ == b[i].term@ && a[i].count == b[i].count,
        total_of(a) == total_of(b),
        forall|term: Seq<char>| #[trigger] count_of(a, term) == count_of(b, term),
{
    let x = table_tree(a)->Object_0;
    let y = table_tree(b)->Object_0;
    assert(x == y);
    assert(x.len() == a.len() && y.len() == b.len());
    assert forall|i: int| 0 <= i < a.len() implies (#[trigger] a[i]).term@ == b[i].term@
        && a[i].count == b[i].count by {
        assert(x[i] == (a[i].term@, count_tree(a[i].count)));
        assert(y[i] == (b[i].term@, count_tree(b[i].count)));
        assert(a[i].count as u64 == b[i].count as u64);
    }
    lemma_same_entries(a, b);
}

/// Reads a count: a whole number that fits the machine's counts.
fn count_of_node(node: &JsonNode) -> (count: Option<usize>)
    ensures
        match count {
            Some(n) => node@ == count_tree(n),
            None => forall|n: usize| node@ != count_tree(n),
        },
{
    match node {
        JsonNode::Number(Some(n)) => {
            if *n <= usize::MAX as u64 {
                Some(*n as usize)
            } else {
                assert forall|m: usize| node@ != count_tree(m) by {
                    assert(m as u64 <= usize::MAX as u64);
                }
                None
            }
        },
        _ => None,
    }
}

/// Reads a term table from the members of a JSON object. On failure, names
/// the term of the first member that is at fault: its value is not a count
/// of at least one, or its term stood before.
fn table_of_members(members: &Vec<Member>) -> (outcome: Result<TermTable, String>)
    ensures
        match outcome {
            Ok(table) => table.wf() && is_table(member_views(members@), table.entries@),
            Err(term) => exists|i: int|
                table_fails_at(member_views(members@), i) && (#[trigger] members@[i]).key@
                    == term@,
        },
{
    let ghost all = member_views(members@);
    let mut table = TermTable::new();
    let mut i: usize = 0;
    assert(all.take(0) =~= table_tree(table.entries@)->Object_0);
    while i < members.len()
        invariant
            all == member_views(members@),
            i <= members@.len(),
            table.wf(),
            table.entries@.len() == i,
            is_table(all.take(i as int), table.entries@),
        decreases members@.len() - i,
    {
        let member = &members[i];
        let ghost before = table.entries@;
        let ghost upto = all.take(i + 1);
        let count = match count_of_node(&member.value) {
            Some(n) => n,
            None => 0,
        };
        if count == 0 {
            proof {
                assert forall|entries: Seq<Entry>| !is_table(upto, entries) by {
                    if is_table(upto, entries) {
                        lemma_is_table_at(upto, entries, i as int);
                        let found = entries[i as int].count;
                        assert(members@[i as int].value@ == count_tree(found));
                        assert(0usize as u64 != found as u64);
                    }
                }
                assert(table_fails_at(all, i as int));
            }
            return Err(member.key.clone());
        }
        match table.find(&member.key) {
            Some(j) => {
                proof {
                    lemma_is_table_at(all.take(i as int), before, j as int);
                    assert forall|entries: Seq<Entry>| !is_table(upto, entries) by {
                        if is_table(upto, entries) {
                            lemma_is_table_at(upto, entries, i as int);
                            lemma_is_table_at(upto, entries, j as int);
                            assert(entries[j as int].term@ == entries[i as int].term@);
                        }
                    }
                    assert(table_fails_at(all, i as int));
                }
                return Err(member.key.clone());
            },
            None => {},
        }
        table.entries.push(Entry { term: member.key.clone(), count });
        proof {
            let after = table.entries@;
            assert forall|a: int, b: int| 0 <= a < b < after.len() implies (#[trigger] after[a]).term@
                != (#[trigger] after[b]).term@ by {
                if b < before.len() {
                    assert(after[a] == before[a] && after[b] == before[b]);
                } else {
                    assert(after[a] == before[a]);
                }
            }
            assert forall|k: int| 0 <= k < after.len() implies (#[trigger] after[k]).count >= 1 by {
                if k < before.len() {
                    assert(after[k] == before[k]);
                }
            }
            assert forall|k: int| 0 <= k < i + 1 implies upto[k] == (
                #[trigger] after[k].term@,
                count_tree(after[k].count),
            ) by {
                if k < before.len() {
                    assert(after[k] == before[k]);
                    lemma_is_table_at(all.take(i as int), before, k);
                }
            }
            assert(upto =~= table_tree(after)->Object_0);
        }
        i += 1;
    }
    assert(all.take(i as int) == all);
    Ok(table)
}

/// `tree` is the JSON pair of the token count `total` and the entries
/// `entries`, in which no term stands twice and no count is zero.
pub open spec fn is_pair(tree: JsonTree, total: usize, entries: Seq<Entry>) -> bool {
    &&& distinct_terms(entries)
    &&& positive_counts(entries)
    &&& tree == pair_tree(total, entries)
}

/// `tree` is a pair of a token count and a term table.
pub open spec fn pair_shaped(tree: JsonTree) -> bool {
    exists|total: usize, entries: Seq<Entry>| is_pair(tree, total, entries)
}

/// `tree` is a pair of a token count and a term table whose counts add up
/// to the token count.
pub open spec fn balanced(tree: JsonTree) -> bool {
    exists|total: usize, entries: Seq<Entry>|
        is_pair(tree, total, entries) && total_of(entries) == total
}

/// Two pairs with one JSON value have the same token count, and the same
/// terms with the same counts.
pub proof fn lemma_pair_tree_same(total: usize, entries: Seq<Entry>, other: usize, others: Seq<Entry>)
    requires
        pair_tree(total, entries) == pair_tree(other, others),
    ensures
        total == other,
        table_tree(entries) == table_tree(others),
        total_of(entries) == total_of(others),
        forall|term: Seq<char>| #[trigger] count_of(entries, term) == count_of(others, term),
{
    let x = pair_tree(total, entries)->List_0;
    let y = pair_tree(other, others)->List_0;
    assert(x == y);
    assert(x[0] == count_tree(total) && y[0] == count_tree(other));
    assert(x[1] == table_tree(entries) && y[1] == table_tree(others));
    assert(total as u64 == other as u64);
    lemma_table_tree_same(entries, others);
}

/// The sum of the counts of the first `k` entries is no more than the sum
/// of all.
pub proof fn lemma_total_prefix(entries: Seq<Entry>, k: int)
    requires
        0 <= k <= entries.len(),
    ensures
        total_of(entries.take(k)) <= total_of(entries),
    decreases entries.len(),
{
    if k == entries.len() {
        assert(entries.take(k) == entries);
    } else {
        assert(entries.drop_last().take(k) == entries.take(k));
        lemma_total_prefix(entries.drop_last(), k);
    }
}

/// The sum of the counts of `table`, where it fits.
fn sum_counts(table: &TermTable) -> (sum: Option<usize>)
    ensures
        match sum {
            Some(n) => n == table.total(),
            None => table.total() > usize::MAX,
        },
{
    let mut sum: usize = 0;
    let mut i: usize = 0;
    assert(table.entries@.take(0) == Seq::<Entry>::empty());
    while i < table.entries.len()
        invariant
            i <= table.entries@.len(),
            sum == total_of(table.entries@.take(i as int)),
        decreases table.entries@.len() - i,
    {
        let count = table.entries[i].count;
        proof {
            let next = table.entries@.take(i + 1);
            assert(next.drop_last() == table.entries@.take(i as int));
            assert(next.last() == table.entries@[i as int]);
            lemma_total_prefix(table.entries@, i + 1);
        }
        if count > usize::MAX - sum {
            return None;
        }
        sum += count;
        i += 1;
    }
    assert(table.entries@.take(i as int) == table.entries@);
    Some(sum)
}

/// What keeps a JSON value from being the record of a document.
#[derive(Clone, Copy, PartialEq, Eq, Structural, Debug)]
pub enum RecordFault {
    /// It is not a pair of a token count and a term table.
    Shape,
    /// It is such a pair, but the counts do not add up to the token count.
    Total,
}

/// Reads the record of the document `id`.
fn record_of_node(id: String, node: &JsonNode) -> (outcome: Result<DocRecord, RecordFault>)
    ensures
        match outcome {
            Ok(record) => record.id == id && record.wf() && node@ == record_tree(record),
            Err(RecordFault::Shape) => !pair_shaped(node@),
            Err(RecordFault::Total) => pair_shaped(node@) && !balanced(node@),
        },
{
    let items = match node {
        JsonNode::List(items) => items,
        _ => {
            return Err(RecordFault::Shape);
        },
    };
    proof {
        lemma_list_view(*items);
    }
    if items.len() != 2 {
        assert forall|total: usize, entries: Seq<Entry>| !is_pair(node@, total, entries) by {
            assert(pair_tree(total, entries)->List_0.len() == 2);
        }
        return Err(RecordFault::Shape);
    }
    let total = match count_of_node(&items[0]) {
        Some(n) => n,
        None => {
            assert forall|total: usize, entries: Seq<Entry>| !is_pair(node@, total, entries) by {
                assert(pair_tree(total, entries)->List_0[0] == count_tree(total));
            }
            return Err(RecordFault::Shape);
        },
    };
    let members = match &items[1] {
        JsonNode::Object(members) => members,
        _ => {
            assert forall|total: usize, entries: Seq<Entry>| !is_pair(node@, total, entries) by {
                assert(pair_tree(total, entries)->List_0[1] == table_tree(entries));
            }
            return Err(RecordFault::Shape);
        },
    };
    proof {
        lemma_object_view(*members);
    }
    let table = match table_of_members(members) {
        Ok(table) => table,
        Err(_) => {
            assert forall|total: usize, entries: Seq<Entry>| !is_pair(node@, total, entries) by {
                if is_pair(node@, total, entries) {
                    assert(pair_tree(total, entries)->List_0[1] == table_tree(entries));
                    assert(is_table(member_views(members@), entries));
                    let i = choose|i: int| table_fails_at(member_views(members@), i);
                    lemma_table_prefix(member_views(members@), i + 1);
                }
            }
            return Err(RecordFault::Shape);
        },
    };
    assert(node@->List_0 =~= pair_tree(total, table.entries@)->List_0);
    assert(is_pair(node@, total, table.entries@));
    match sum_counts(&table) {
        Some(sum) => {
            if sum == total {
                return Ok(DocRecord { id, total, terms: table });
            }
        },
        None => {},
    }
    proof {
        assert forall|other: usize, others: Seq<Entry>|
            !(is_pair(node@, other, others) && total_of(others) == other) by {
            if is_pair(node@, other, others) {
                lemma_pair_tree_same(total, table.entries@, other, others);
            }
        }
    }
    Err(RecordFault::Total)
}

/// `members` are the members of the JSON object of the records `docs`,
/// which are well formed and have no identifier twice.
pub open spec fn are_records(members: Seq<(Seq<char>, JsonTree)>, docs: Seq<DocRecord>) -> bool {
    &&& forall|i: int| 0 <= i < docs.len() ==> (#[trigger] docs[i]).wf()
    &&& distinct_ids(docs)
    &&& JsonTree::Object(members) == docs_tree(docs)
}

/// `members` are the members of the JSON object of the records of some
/// documents: no identifier stands twice, and every value is a pair of a
/// token count and a term table whose counts add up to the token count.
pub open spec fn records_shaped(members: Seq<(Seq<char>, JsonTree)>) -> bool {
    exists|docs: Seq<DocRecord>| are_records(members, docs)
}

/// What the member at `i` of the JSON object of some records is.
pub proof fn lemma_are_records_at(members: Seq<(Seq<char>, JsonTree)>, docs: Seq<DocRecord>, i: int)
    requires
        JsonTree::Object(members) == docs_tree(docs),
        0 <= i < members.len(),
    ensures
        docs.len() == members.len(),
        members[i] == (docs[i].id@, record_tree(docs[i])),
{
    let other = docs_tree(docs)->Object_0;
    assert(other == members);
    assert(other.len() == docs.len());
    assert(other[i] == (docs[i].id@, record_tree(docs[i])));
}

/// Two lists of records with one JSON object have the same identifiers,
/// token counts and term counts, place by place; so every term occurs in as
/// many records of the one as of the other.
pub proof fn lemma_docs_tree_same(a: Seq<DocRecord>, b: Seq<DocRecord>)
    requires
        docs_tree(a) == docs_tree(b),
    ensures
        a.len() == b.len(),
        forall|i: int|
            0 <= i < a.len() ==> (#[trigger] a[i]).id@ == b[i].id@ && a[i].total == b[i].total
                && a[i]@ == b[i]@,
        forall|term: Seq<char>| #[trigger] containing(a, term) == containing(b, term),
        records_by_id(a) == records_by_id(b),
    decreases a.len(),
{
    let members = docs_tree(a)->Object_0;
    assert(members.len() == a.len() && members.len() == b.len());
    assert forall|i: int| 0 <= i < a.len() implies (#[trigger] a[i]).id@ == b[i].id@
        && a[i].total == b[i].total && a[i]@ == b[i]@ && (forall|term: Seq<char>| #[trigger]
        a[i].has(term) == b[i].has(term)) by {
        lemma_are_records_at(members, a, i);
        lemma_are_records_at(members, b, i);
        lemma_pair_tree_same(a[i].total, a[i].terms.entries@, b[i].total, b[i].terms.entries@);
        assert(a[i].terms@ =~= b[i].terms@);
    }
    if a.len() > 0 {
        let x = a.drop_last();
        let y = b.drop_last();
        assert forall|i: int| 0 <= i < x.len() implies members[i] == (
            #[trigger] x[i].id@,
            record_tree(x[i]),
        ) && members[i] == (y[i].id@, record_tree(y[i])) by {
            lemma_are_records_at(members, a, i);
            lemma_are_records_at(members, b, i);
        }
        assert(docs_tree(x)->Object_0 =~= docs_tree(y)->Object_0);
        lemma_docs_tree_same(x, y);
        let n = a.len() - 1;
        assert(a[n].id@ == b[n].id@ && a[n]@ == b[n]@);
        assert forall|term: Seq<char>| #[trigger] containing(a, term) == containing(b, term) by {
            assert(containing(x, term) == containing(y, term));
            assert(a[n].has(term) == b[n].has(term));
        }
    }
}

/// The value of the first member of `members` with the key `key`.
pub open spec fn member_of(members: Seq<(Seq<char>, JsonTree)>, key: Seq<char>) -> Option<
    JsonTree,
>
    decreases members.len(),
{
    if members.len() == 0 {
        None
    } else if members[0].0 == key {
        Some(members[0].1)
    } else {
        member_of(members.drop_first(), key)
    }
}

/// `tree` is an object whose members `tfpf` and `df` are objects.
pub open spec fn laid_out(tree: JsonTree) -> bool {
    &&& tree is Object
    &&& member_of(tree->Object_0, records_key()) matches Some(records) && records is Object
    &&& member_of(tree->Object_0, frequencies_key()) matches Some(table) && table is Object
}

/// The members of the member `tfpf` of `tree`.
pub open spec fn records_of(tree: JsonTree) -> Seq<(Seq<char>, JsonTree)> {
    member_of(tree->Object_0, records_key())->Some_0->Object_0
}

/// The members of the member `df` of `tree`.
pub open spec fn frequencies_of(tree: JsonTree) -> Seq<(Seq<char>, JsonTree)> {
    member_of(tree->Object_0, frequencies_key())->Some_0->Object_0
}

/// `tree` is a persisted form of `model`: its member `tfpf` is the object
/// of the model's records, and its member `df` the object of the model's
/// document frequencies.
pub open spec fn holds(tree: JsonTree, model: Model) -> bool {
    &&& laid_out(tree)
    &&& JsonTree::Object(records_of(tree)) == docs_tree(model.docs@)
    &&& JsonTree::Object(frequencies_of(tree)) == table_tree(model.df.entries@)
}

/// The document frequencies `entries` are those of the records `docs`.
pub open spec fn agrees(docs: Seq<DocRecord>, entries: Seq<Entry>) -> bool {
    forall|term: Seq<char>| #[trigger] count_of(entries, term) == containing(docs, term)
}

/// `tree` is a persisted form of a well-formed model.
pub open spec fn decodable(tree: JsonTree) -> bool {
    &&& laid_out(tree)
    &&& exists|docs: Seq<DocRecord>, entries: Seq<Entry>|
        are_records(records_of(tree), docs) && is_table(frequencies_of(tree), entries) && agrees(
            docs,
            entries,
        )
}

/// Why a persisted index was refused.
#[derive(PartialEq, Eq, Debug)]
pub enum CorruptIndex {
    /// The text is not JSON: reading it gave up at this line and column.
    Syntax { line: usize, column: usize },
    /// The value is not an object, or its member `tfpf` or `df` is missing
    /// or is not an object.
    Layout,
    /// The record of this document is not a pair of a token count and a
    /// term table.
    Record { doc: String },
    /// The term counts of this document do not add up to its token count.
    Total { doc: String },
    /// This document has two records.
    Repeated { doc: String },
    /// The document frequency of this term is not a count of at least one,
    /// or the term has two.
    Frequency { term: String },
    /// The document frequency of this term is not the number of records
    /// that the term occurs in.
    Mismatch { term: String },
}

impl CorruptIndex {
    /// The fault is the first that `tree` has. The records are read in
    /// order, and each is looked at for its shape, then for its total, then
    /// for its identifier; after them the document frequencies are read in
    /// order, and then held against the records.
    pub open spec fn explains(self, tree: JsonTree) -> bool {
        let records = records_of(tree);
        let table = frequencies_of(tree);
        match self {
            CorruptIndex::Syntax { line, column } => false,
            CorruptIndex::Layout => !laid_out(tree),
            CorruptIndex::Record { doc } => laid_out(tree) && exists|i: int|
                0 <= i < records.len() && records_shaped(records.take(i)) && (
                #[trigger] records[i]).0 == doc@ && !pair_shaped(records[i].1),
            CorruptIndex::Total { doc } => laid_out(tree) && exists|i: int|
                0 <= i < records.len() && records_shaped(records.take(i)) && (
                #[trigger] records[i]).0 == doc@ && pair_shaped(records[i].1) && !balanced(
                    records[i].1,
                ),
            CorruptIndex::Repeated { doc } => laid_out(tree) && exists|i: int, k: int|
                0 <= k < i < records.len() && records_shaped(records.take(i)) && (
                #[trigger] records[i]).0 == doc@ && balanced(records[i].1) && (
                #[trigger] records[k]).0 == doc@,
            CorruptIndex::Frequency { term } => laid_out(tree) && records_shaped(records)
                && exists|i: int| table_fails_at(table, i) && (#[trigger] table[i]).0 == term@,
            CorruptIndex::Mismatch { term } => laid_out(tree) && records_shaped(records)
                && table_shaped(table) && forall|docs: Seq<DocRecord>, entries: Seq<Entry>|
                are_records(records, docs) && is_table(table, entries) ==> count_of(entries, term@)
                    != containing(docs, term@),
        }
    }
}

/// The place of the first member with the key `key`.
fn find_member(members: &Vec<Member>, key: &String) -> (place: Option<usize>)
    ensures
        match place {
            Some(i) => i < members@.len() && member_of(member_views(members@), key@) == Some(
                members@[i as int].value@,
            ),
            None => member_of(member_views(members@), key@) is None,
        },
{
    let ghost all = member_views(members@);
    let mut i: usize = 0;
    assert(all.skip(0) == all);
    while i < members.len()
        invariant
            all == member_views(members@),
            i <= members@.len(),
            member_of(all, key@) == member_of(all.skip(i as int), key@),
        decreases members@.len() - i,
    {
        proof {
            assert(all.skip(i as int).drop_first() == all.skip(i + 1));
            assert(all.skip(i as int)[0] == all[i as int]);
        }
        if members[i].key == *key {
            return Some(i);
        }
        i += 1;
    }
    None
}

/// A term of `a` to which `b` gives another count than `a` does.
fn differs_on(a: &TermTable, b: &TermTable) -> (found: Option<String>)
    requires
        a.wf(),
        b.wf(),
    ensures
        match found {
            Some(term) => a.count(term@) != b.count(term@),
            None => forall|i: int|
                0 <= i < a.entries@.len() ==> b.count((#[trigger] a.entries@[i]).term@)
                    == a.entries@[i].count,
        },
{
    let mut i: usize = 0;
    while i < a.entries.len()
        invariant
            a.wf(),
            b.wf(),
            i <= a.entries@.len(),
            forall|k: int|
                0 <= k < i ==> b.count((#[trigger] a.entries@[k]).term@) == a.entries@[k].count,
        decreases a.entries@.len() - i,
    {
        let entry = &a.entries[i];
        if b.get(&entry.term) != entry.count {
            proof {
                lemma_count_at(a.entries@, i as int);
            }
            return Some(entry.term.clone());
        }
        i += 1;
    }
    None
}

/// A term to which the two tables give different counts.
fn disagreement(a: &TermTable, b: &TermTable) -> (found: Option<String>)
    requires
        a.wf(),
        b.wf(),
    ensures
        match found {
            Some(term) => a.count(term@) != b.count(term@),
            None => forall|term: Seq<char>| #[trigger] a.count(term) == b.count(term),
        },
{
    match differs_on(a, b) {
        Some(term) => {
            return Some(term);
        },
        None => {},
    }
    match differs_on(b, a) {
        Some(term) => {
            return Some(term);
        },
        None => {},
    }
    proof {
        assert forall|term: Seq<char>| #[trigger] a.count(term) == b.count(term) by {
            lemma_counted_iff_listed(a.entries@, term);
            lemma_counted_iff_listed(b.entries@, term);
            if listed(a.entries@, 0, a.entries@.len() as int, term) {
                let k = choose|k: int|
                    0 <= k < a.entries@.len() && 0 <= k < a.entries@.len() && (
                    #[trigger] a.entries@[k]).term@ == term;
                lemma_count_at(a.entries@, k);
            } else if listed(b.entries@, 0, b.entries@.len() as int, term) {
                let k = choose|k: int|
                    0 <= k < b.entries@.len() && 0 <= k < b.entries@.len() && (
                    #[trigger] b.entries@[k]).term@ == term;
                lemma_count_at(b.entries@, k);
            }
        }
    }
    None
}

/// `outcome` is what reading `tree` must give: a well-formed model that
/// `tree` is a persisted form of, where there is one, and else the first
/// fault of `tree`.
pub open spec fn decodes(tree: JsonTree, outcome: Result<Model, CorruptIndex>) -> bool {
    &&& outcome is Ok <==> decodable(tree)
    &&& match outcome {
        Ok(model) => model.wf() && holds(tree, model),
        Err(fault) => fault.explains(tree),
    }
}

/// A member that is not as the record of a document must be keeps the
/// members from being the records of some documents.
proof fn lemma_record_fault(members: Seq<(Seq<char>, JsonTree)>, i: int)
    requires
        0 <= i < members.len(),
        !balanced(members[i].1) || exists|k: int|
            0 <= k < i && (#[trigger] members[k]).0 == members[i].0,
    ensures
        !records_shaped(members),
{
    assert forall|docs: Seq<DocRecord>| !are_records(members, docs) by {
        if are_records(members, docs) {
            lemma_are_records_at(members, docs, i);
            assert(docs[i].wf());
            assert(is_pair(members[i].1, docs[i].total, docs[i].terms.entries@));
            assert(balanced(members[i].1));
            let k = choose|k: int| 0 <= k < i && (#[trigger] members[k]).0 == members[i].0;
            lemma_are_records_at(members, docs, k);
            assert(docs[k].id@ == docs[i].id@);
        }
    }
}

/// Reads a model from a JSON value, and checks all that a well-formed model
/// promises: that no document and no term stands twice, that no count is
/// zero, that the term counts of each document add up to its token count,
/// and that the document frequency of each term is the number of records
/// that the term occurs in. Members of the value other than `tfpf` and `df`
/// are passed over.
pub fn decode_node(node: &JsonNode) -> (outcome: Result<Model, CorruptIndex>)
    ensures
        decodes(node@, outcome),
{
    let members = match node {
        JsonNode::Object(members) => members,
        _ => {
            return Err(CorruptIndex::Layout);
        },
    };
    proof {
        lemma_object_view(*members);
    }
    let records_name = "tfpf".to_owned();
    let table_name = "df".to_owned();
    let records = match find_member(members, &records_name) {
        Some(i) => match &members[i].value {
            JsonNode::Object(records) => records,
            _ => {
                return Err(CorruptIndex::Layout);
            },
        },
        None => {
            return Err(CorruptIndex::Layout);
        },
    };
    let entries = match find_member(members, &table_name) {
        Some(i) => match &members[i].value {
            JsonNode::Object(entries) => entries,
            _ => {
                return Err(CorruptIndex::Layout);
            },
        },
        None => {
            return Err(CorruptIndex::Layout);
        },
    };
    let ghost recs = member_views(records@);
    let ghost dfm = member_views(entries@);
    proof {
        lemma_object_view(*records);
        lemma_object_view(*entries);
        assert(laid_out(node@));
        assert(records_of(node@) == recs);
        assert(frequencies_of(node@) == dfm);
    }
    let mut model = Model::new();
    let mut i: usize = 0;
    assert(recs.take(0) =~= docs_tree(model.docs@)->Object_0);
    while i < records.len()
        invariant
            recs == member_views(records@),
            laid_out(node@),
            records_of(node@) == recs,
            i <= records@.len(),
            model.wf(),
            model.docs@.len() == i,
            are_records(recs.take(i as int), model.docs@),
        decreases records@.len() - i,
    {
        let member = &records[i];
        let ghost before = model.docs@;
        assert(recs[i as int] == (member.key@, member.value@));
        match record_of_node(member.key.clone(), &member.value) {
            Err(RecordFault::Shape) => {
                proof {
                    assert(!balanced(recs[i as int].1));
                    lemma_record_fault(recs, i as int);
                }
                return Err(CorruptIndex::Record { doc: member.key.clone() });
            },
            Err(RecordFault::Total) => {
                proof {
                    lemma_record_fault(recs, i as int);
                }
                return Err(CorruptIndex::Total { doc: member.key.clone() });
            },
            Ok(record) => {
                assert(is_pair(recs[i as int].1, record.total, record.terms.entries@));
                match model.position(&record.id) {
                    Some(k) => {
                        proof {
                            lemma_are_records_at(recs.take(i as int), before, k as int);
                            assert(recs[k as int].0 == recs[i as int].0);
                            lemma_record_fault(recs, i as int);
                        }
                        return Err(CorruptIndex::Repeated { doc: member.key.clone() });
                    },
                    None => {},
                }
                model.put_in(record);
                proof {
                    let after = model.docs@;
                    let upto = recs.take(i + 1);
                    assert forall|k: int| 0 <= k < i + 1 implies upto[k] == (
                        #[trigger] after[k].id@,
                        record_tree(after[k]),
                    ) by {
                        if k < i {
                            assert(after[k] == before[k]);
                            lemma_are_records_at(recs.take(i as int), before, k);
                        }
                    }
                    assert(upto =~= docs_tree(after)->Object_0);
                }
            },
        }
        i += 1;
    }
    assert(recs.take(i as int) == recs);
    let table = match table_of_members(entries) {
        Ok(table) => table,
        Err(term) => {
            proof {
                let k = choose|k: int|
                    table_fails_at(dfm, k) && (#[trigger] entries@[k]).key@ == term@;
                assert(dfm[k].0 == term@);
                if table_shaped(dfm) {
                    lemma_table_prefix(dfm, k + 1);
                }
            }
            return Err(CorruptIndex::Frequency { term });
        },
    };
    match disagreement(&table, &model.df) {
        Some(term) => {
            proof {
                assert forall|docs: Seq<DocRecord>, others: Seq<Entry>|
                    are_records(recs, docs) && is_table(dfm, others) implies count_of(
                    others,
                    term@,
                ) != containing(docs, term@) by {
                    lemma_table_tree_same(others, table.entries@);
                    lemma_docs_tree_same(docs, model.docs@);
                    assert(model.df.count(term@) == containing(model.docs@, term@));
                }
            }
            return Err(CorruptIndex::Mismatch { term });
        },
        None => {},
    }
    proof {
        assert forall|term: Seq<char>| #[trigger]
            count_of(table.entries@, term) == containing(model.docs@, term) by {
            assert(table.count(term) == model.df.count(term));
            assert(model.df.count(term) == containing(model.docs@, term));
        }
        assert(agrees(model.docs@, table.entries@));
    }
    model.df = table;
    Ok(model)
}

/// Reads a model from JSON text. A text that is not JSON is refused with
/// the place where reading it gave up; a JSON value is read as
/// [`decode_node`] reads it.
pub fn decode(text: &str) -> (outcome: Result<Model, CorruptIndex>)
    ensures
        match parsed_json(text@) {
            Ok(tree) => decodes(tree, outcome),
            Err(fault) => outcome == Err::<Model, CorruptIndex>(
                CorruptIndex::Syntax { line: fault.line, column: fault.column },
            ),
        },
{
    match parse_json(text) {
        Ok(node) => decode_node(&node),
        Err(fault) => Err(CorruptIndex::Syntax { line: fault.line, column: fault.column }),
    }
}

/// The JSON value that a well-formed model is persisted as is a persisted
/// form of that model.
pub proof fn lemma_model_tree_holds(model: Model)
    requires
        model.wf(),
    ensures
        holds(model_tree(model), model),
        decodable(model_tree(model)),
{
    reveal_strlit("tfpf");
    reveal_strlit("df");
    let members = model_tree(model)->Object_0;
    assert(records_key().len() != frequencies_key().len());
    assert(members[0] == (records_key(), docs_tree(model.docs@)));
    assert(members.drop_first()[0] == (frequencies_key(), table_tree(model.df.entries@)));
    assert(member_of(members, frequencies_key()) == member_of(
        members.drop_first(),
        frequencies_key(),
    ));
    assert(are_records(records_of(model_tree(model)), model.docs@));
    assert(is_table(frequencies_of(model_tree(model)), model.df.entries@));
    assert(agrees(model.docs@, model.df.entries@)) by {
        assert forall|term: Seq<char>| #[trigger]
            count_of(model.df.entries@, term) == containing(model.docs@, term) by {
            assert(model.df.count(term) == containing(model.docs@, term));
        }
    }
}

/// Writing a well-formed model and reading the value back gives the model
/// again: reading succeeds, and the model read has the same records in the
/// same order, the same document frequencies in the same order, and so the
/// same view.
pub proof fn lemma_round_trip(model: Model, outcome: Result<Model, CorruptIndex>)
    requires
        model.wf(),
        decodes(model_tree(model), outcome),
    ensures
        outcome is Ok,
        docs_tree(outcome->Ok_0.docs@) == docs_tree(model.docs@),
        table_tree(outcome->Ok_0.df.entries@) == table_tree(model.df.entries@),
        outcome->Ok_0@ == model@,
{
    lemma_model_tree_holds(model);
    let back = outcome->Ok_0;
    lemma_docs_tree_same(back.docs@, model.docs@);
    lemma_table_tree_same(back.df.entries@, model.df.entries@);
    assert(back.df@ =~= model.df@) by {
        assert forall|term: Seq<char>| back.df.count(term) == model.df.count(term) by {
            assert(count_of(back.df.entries@, term) == count_of(model.df.entries@, term));
        }
    }
}

} // verus!
