//! The order of a ranking: larger keys first, and among equal keys the
//! smaller identifier first.
//!
//! Identifiers are ordered as strings are: by the bytes of their UTF-8
//! encoding, the first byte that differs deciding, and a proper prefix
//! standing before what it is a prefix of.
use vstd::multiset::Multiset;
use vstd::prelude::*;
use vstd::utf8::{encode_utf8, encode_utf8_decode_utf8};

verus! {

/// `a` stands before `b` in the lexicographic order of byte sequences.
pub open spec fn lex_less(a: Seq<u8>, b: Seq<u8>) -> bool
    decreases a.len(),
{
    if b.len() == 0 {
        false
    } else if a.len() == 0 {
        true
    } else if a[0] != b[0] {
        a[0] < b[0]
    } else {
        lex_less(a.drop_first(), b.drop_first())
    }
}

/// The identifier `a` stands before the identifier `b`.
pub open spec fn id_before(a: Seq<char>, b: Seq<char>) -> bool {
    lex_less(encode_utf8(a), encode_utf8(b))
}

/// Nothing stands before itself.
pub proof fn lemma_lex_irreflexive(a: Seq<u8>)
    ensures
        !lex_less(a, a),
    decreases a.len(),
{
    if a.len() > 0 {
        lemma_lex_irreflexive(a.drop_first());
    }
}

/// What stands before something that stands before a third stands before
/// the third.
pub proof fn lemma_lex_transitive(a: Seq<u8>, b: Seq<u8>, c: Seq<u8>)
    requires
        lex_less(a, b),
        lex_less(b, c),
    ensures
        lex_less(a, c),
    decreases a.len(),
{
    if a.len() > 0 && a[0] == b[0] && b[0] == c[0] {
        lemma_lex_transitive(a.drop_first(), b.drop_first(), c.drop_first());
    }
}

/// Of two different byte sequences one stands before the other.
pub proof fn lemma_lex_connected(a: Seq<u8>, b: Seq<u8>)
    requires
        a != b,
    ensures
        lex_less(a, b) || lex_less(b, a),
    decreases a.len(),
{
    if a.len() > 0 && b.len() > 0 && a[0] == b[0] {
        if a.drop_first() == b.drop_first() {
            assert(a =~= seq![a[0]] + a.drop_first());
            assert(b =~= seq![b[0]] + b.drop_first());
        }
        lemma_lex_connected(a.drop_first(), b.drop_first());
    } else if a.len() == 0 && b.len() == 0 {
        assert(a =~= b);
    }
}

/// Of two different identifiers one stands before the other, and never
/// both.
pub proof fn lemma_id_order_total(a: Seq<char>, b: Seq<char>)
    ensures
        !id_before(a, a),
        a != b ==> id_before(a, b) || id_before(b, a),
        !(id_before(a, b) && id_before(b, a)),
{
    lemma_lex_irreflexive(encode_utf8(a));
    if a != b {
        encode_utf8_decode_utf8(a);
        encode_utf8_decode_utf8(b);
        lemma_lex_connected(encode_utf8(a), encode_utf8(b));
    }
    if id_before(a, b) && id_before(b, a) {
        lemma_lex_transitive(encode_utf8(a), encode_utf8(b), encode_utf8(a));
    }
}

/// Decides whether the identifier `a` stands before the identifier `b`.
pub fn comes_before(a: &str, b: &str) -> (before: bool)
    ensures
        before == id_before(a@, b@),
{
    let x = a.as_bytes();
    let y = b.as_bytes();
    let mut i: usize = 0;
    assert(x@.skip(0) == x@ && y@.skip(0) == y@);
    while i < x.len() && i < y.len()
        invariant
            x@ == encode_utf8(a@),
            y@ == encode_utf8(b@),
            i <= x@.len(),
            i <= y@.len(),
            lex_less(x@, y@) == lex_less(x@.skip(i as int), y@.skip(i as int)),
        decreases x@.len() - i,
    {
        proof {
            assert(x@.skip(i as int).drop_first() == x@.skip(i + 1));
            assert(y@.skip(i as int).drop_first() == y@.skip(i + 1));
            assert(x@.skip(i as int)[0] == x@[i as int]);
            assert(y@.skip(i as int)[0] == y@[i as int]);
        }
        if x[i] != y[i] {
            return x[i] < y[i];
        }
        i += 1;
    }
    x.len() < y.len()
}

/// The place of a score in the order of scores, read from the 32 bits of
/// its binary floating-point form: the magnitude for a score with the sign
/// bit clear, and below all of those, in falling order of magnitude, the
/// scores with the sign bit set. Of two scores that are numbers the larger
/// has the larger place; negative zero stands just below zero.
pub open spec fn place_of_bits(bits: u32) -> int {
    if bits >= 0x8000_0000 {
        -(bits - 0x8000_0000) - 1
    } else {
        bits as int
    }
}

/// The key of the score with the bits `bits`: its place in the order of
/// scores, moved up so that the lowest place is key zero.
pub fn key_of_bits(bits: u32) -> (key: u32)
    ensures
        key == place_of_bits(bits) + 0x8000_0000,
{
    if bits >= 0x8000_0000 {
        0xffff_ffff - bits
    } else {
        bits + 0x8000_0000
    }
}

/// The bits of the score with the key `key`.
pub fn bits_of_key(key: u32) -> (bits: u32)
    ensures
        key == place_of_bits(bits) + 0x8000_0000,
{
    if key >= 0x8000_0000 {
        key - 0x8000_0000
    } else {
        0xffff_ffff - key
    }
}

/// Keys keep the order of the scores, and two scores with one key are the
/// same score.
pub proof fn lemma_keys_keep_order(a: u32, b: u32, key_a: u32, key_b: u32)
    requires
        key_a == place_of_bits(a) + 0x8000_0000,
        key_b == place_of_bits(b) + 0x8000_0000,
    ensures
        key_a < key_b <==> place_of_bits(a) < place_of_bits(b),
        key_a == key_b <==> a == b,
{
}

/// A document with the key that stands for its score: of two documents the
/// one with the larger score has the larger key.
#[derive(PartialEq, Eq, Debug)]
pub struct Ranked {
    /// The document's identifier.
    pub id: String,
    /// The key of the document's score.
    pub key: u32,
}

/// `a` must stand before `b` in a ranking: its key is larger, or the keys
/// are equal and its identifier stands before that of `b`.
pub open spec fn outranks(a: Ranked, b: Ranked) -> bool {
    a.key > b.key || (a.key == b.key && id_before(a.id@, b.id@))
}

/// No document of `s` stands behind one that it outranks.
pub open spec fn in_rank_order(s: Seq<Ranked>) -> bool {
    forall|i: int, j: int| 0 <= i < j < s.len() ==> !outranks(#[trigger] s[j], #[trigger] s[i])
}

/// No identifier stands twice in `s`.
pub open spec fn distinct_ranked(s: Seq<Ranked>) -> bool {
    forall|i: int, j: int| 0 <= i < j < s.len() ==> (#[trigger] s[i]).id@ != (#[trigger] s[j]).id@
}

/// Outranking is transitive.
pub proof fn lemma_outranks_transitive(a: Ranked, b: Ranked, c: Ranked)
    requires
        outranks(a, b),
        outranks(b, c),
    ensures
        outranks(a, c),
{
    if a.key == b.key && b.key == c.key {
        lemma_lex_transitive(encode_utf8(a.id@), encode_utf8(b.id@), encode_utf8(c.id@));
    }
}

/// Decides whether `a` outranks `b`.
fn goes_first(a: &Ranked, b: &Ranked) -> (first: bool)
    ensures
        first == outranks(*a, *b),
{
    a.key > b.key || (a.key == b.key && comes_before(a.id.as_str(), b.id.as_str()))
}

/// The place of a document of `items` that none of the others outranks.
fn best_of(items: &Vec<Ranked>) -> (best: usize)
    requires
        items@.len() > 0,
    ensures
        best < items@.len(),
        forall|k: int| 0 <= k < items@.len() ==> !outranks(#[trigger] items@[k], items@[best as int]),
{
    let mut best: usize = 0;
    let mut j: usize = 1;
    proof {
        lemma_lex_irreflexive(encode_utf8(items@[0].id@));
    }
    while j < items.len()
        invariant
            best < j <= items@.len(),
            forall|k: int| 0 <= k < j ==> !outranks(#[trigger] items@[k], items@[best as int]),
        decreases items@.len() - j,
    {
        if goes_first(&items[j], &items[best]) {
            proof {
                let old_best = items@[best as int];
                let new_best = items@[j as int];
                lemma_lex_irreflexive(encode_utf8(new_best.id@));
                assert forall|k: int| 0 <= k < j + 1 implies !outranks(
                    #[trigger] items@[k],
                    new_best,
                ) by {
                    if k < j && outranks(items@[k], new_best) {
                        lemma_outranks_transitive(items@[k], new_best, old_best);
                    }
                }
            }
            best = j;
        }
        j += 1;
    }
    best
}

/// Puts a ranking in order: the documents with the larger keys first, and
/// those with equal keys by their identifiers. The result holds the
/// documents of `items`, each as often as `items` does.
pub fn sort_ranking(items: Vec<Ranked>) -> (out: Vec<Ranked>)
    ensures
        out@.to_multiset() == items@.to_multiset(),
        in_rank_order(out@),
{
    broadcast use vstd::seq_lib::group_to_multiset_ensures;

    let mut rest = items;
    let mut out: Vec<Ranked> = Vec::new();
    assert(out@.to_multiset().add(rest@.to_multiset()) =~= items@.to_multiset());
    while rest.len() > 0
        invariant
            out@.to_multiset().add(rest@.to_multiset()) == items@.to_multiset(),
            in_rank_order(out@),
            forall|x: int, y: int|
                0 <= x < out@.len() && 0 <= y < rest@.len() ==> !outranks(
                    #[trigger] rest@[y],
                    #[trigger] out@[x],
                ),
        decreases rest@.len(),
    {
        let ghost placed = out@;
        let ghost left = rest@;
        let best = best_of(&rest);
        let item = rest.remove(best);
        out.push(item);
        proof {
            assert(out@ == placed.push(item));
            assert(rest@ == left.remove(best as int));
            assert(item == left[best as int]);
            vstd::seq_lib::to_multiset_build(placed, item);
            vstd::seq_lib::to_multiset_remove(left, best as int);
            left.to_multiset_ensures();
            assert(left.contains(item));
            assert(left.to_multiset().count(item) > 0);
            assert(placed.to_multiset().insert(item).add(left.to_multiset().remove(item))
                =~= placed.to_multiset().add(left.to_multiset()));
            assert forall|y: int| 0 <= y < rest@.len() implies #[trigger] rest@[y] == left[if y
                < best {
                y
            } else {
                y + 1
            }] by {}
            assert forall|i: int, j: int| 0 <= i < j < out@.len() implies !outranks(
                #[trigger] out@[j],
                #[trigger] out@[i],
            ) by {
                if j < placed.len() {
                    assert(out@[i] == placed[i] && out@[j] == placed[j]);
                } else {
                    assert(out@[i] == placed[i]);
                    assert(out@[j] == left[best as int]);
                }
            }
            assert forall|x: int, y: int|
                0 <= x < out@.len() && 0 <= y < rest@.len() implies !outranks(
                #[trigger] rest@[y],
                #[trigger] out@[x],
            ) by {
                let y0 = if y < best { y } else { y + 1 };
                assert(rest@[y] == left[y0]);
                if x < placed.len() {
                    assert(out@[x] == placed[x]);
                } else {
                    assert(out@[x] == left[best as int]);
                }
            }
        }
    }
    assert(rest@.to_multiset() =~= Multiset::<Ranked>::empty());
    assert(out@.to_multiset().add(Multiset::<Ranked>::empty()) =~= out@.to_multiset());
    out
}

/// Where no identifier stands twice, a ranking in order is in strict order:
/// each document outranks all that stand behind it, so the order is the
/// only one.
pub proof fn lemma_rank_order_strict(s: Seq<Ranked>)
    requires
        in_rank_order(s),
        distinct_ranked(s),
    ensures
        forall|i: int, j: int| 0 <= i < j < s.len() ==> outranks(#[trigger] s[i], #[trigger] s[j]),
{
    assert forall|i: int, j: int| 0 <= i < j < s.len() implies outranks(
        #[trigger] s[i],
        #[trigger] s[j],
    ) by {
        assert(!outranks(s[j], s[i]));
        lemma_id_order_total(s[i].id@, s[j].id@);
    }
}

/// Where all keys are equal, a ranking in order is in the order of the
/// identifiers.
pub proof fn lemma_equal_keys_by_id(s: Seq<Ranked>)
    requires
        in_rank_order(s),
        forall|i: int, j: int| 0 <= i < s.len() && 0 <= j < s.len() ==> s[i].key == s[j].key,
    ensures
        forall|i: int, j: int|
            0 <= i < j < s.len() ==> !id_before(#[trigger] s[j].id@, #[trigger] s[i].id@),
        distinct_ranked(s) ==> forall|i: int, j: int|
            0 <= i < j < s.len() ==> id_before(#[trigger] s[i].id@, #[trigger] s[j].id@),
{
    assert forall|i: int, j: int| 0 <= i < j < s.len() implies !id_before(
        #[trigger] s[j].id@,
        #[trigger] s[i].id@,
    ) by {
        assert(!outranks(s[j], s[i]));
    }
    if distinct_ranked(s) {
        assert forall|i: int, j: int| 0 <= i < j < s.len() implies id_before(
            #[trigger] s[i].id@,
            #[trigger] s[j].id@,
        ) by {
            assert(!outranks(s[j], s[i]));
            lemma_id_order_total(s[i].id@, s[j].id@);
        }
    }
}

} // verus!
