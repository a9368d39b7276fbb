//! The order in which selected records are written: by scaffold, as text,
//! then by position. Records with the same scaffold and position keep the
//! order in which they came.

use crate::record::{Snp, SnpView};
use vstd::prelude::*;
use vstd::utf8::encode_utf8;

verus! {

/// Text `a` stands before text `b`: at the first byte where they differ `a`
/// has the smaller one, or `a` ends there and `b` goes on.
pub open spec fn text_before(a: Seq<u8>, b: Seq<u8>) -> bool
    decreases a.len(),
{
    if b.len() == 0 {
        false
    } else if a.len() == 0 {
        true
    } else if a[0] != b[0] {
        a[0] < b[0]
    } else {
        text_before(a.drop_first(), b.drop_first())
    }
}

/// What a record is ordered by: the bytes of its scaffold name, in UTF-8,
/// and its position.
pub struct SortKey {
    pub scaffold: Seq<u8>,
    pub pos: int,
}

/// The key of a record.
pub open spec fn key_of(record: SnpView) -> SortKey {
    SortKey { scaffold: encode_utf8(record.scaffold), pos: record.pos }
}

/// Key `a` does not come after key `b`.
pub open spec fn key_le(a: SortKey, b: SortKey) -> bool {
    text_before(a.scaffold, b.scaffold) || (a.scaffold == b.scaffold && a.pos <= b.pos)
}

/// Record `a` may be written before record `b`.
pub open spec fn precedes(a: SnpView, b: SnpView) -> bool {
    key_le(key_of(a), key_of(b))
}

/// No text stands before itself.
pub proof fn lemma_text_before_irreflexive(a: Seq<u8>)
    ensures
        !text_before(a, a),
    decreases a.len(),
{
    if a.len() > 0 {
        lemma_text_before_irreflexive(a.drop_first());
    }
}

/// Of two texts one stands before the other, or they are the same text.
pub proof fn lemma_text_before_total(a: Seq<u8>, b: Seq<u8>)
    ensures
        text_before(a, b) || text_before(b, a) || a == b,
    decreases a.len(),
{
    if a.len() == 0 || b.len() == 0 {
        assert(a.len() == 0 && b.len() == 0 ==> a =~= b);
    } else if a[0] == b[0] {
        lemma_text_before_total(a.drop_first(), b.drop_first());
        if a.drop_first() == b.drop_first() {
            assert(a =~= seq![a[0]] + a.drop_first());
            assert(b =~= seq![b[0]] + b.drop_first());
        }
    }
}

/// Of two texts only one can stand before the other.
pub proof fn lemma_text_before_asymmetric(a: Seq<u8>, b: Seq<u8>)
    requires
        text_before(a, b),
    ensures
        !text_before(b, a),
    decreases a.len(),
{
    if a.len() > 0 && b.len() > 0 && a[0] == b[0] {
        lemma_text_before_asymmetric(a.drop_first(), b.drop_first());
    }
}

/// What stands before a text stands before all that the text stands before.
pub proof fn lemma_text_before_transitive(a: Seq<u8>, b: Seq<u8>, c: Seq<u8>)
    requires
        text_before(a, b),
        text_before(b, c),
    ensures
        text_before(a, c),
    decreases a.len(),
{
    if a.len() > 0 && a[0] == b[0] && b[0] == c[0] {
        lemma_text_before_transitive(a.drop_first(), b.drop_first(), c.drop_first());
    }
}

/// Any two keys can be compared.
pub proof fn lemma_key_le_total(a: SortKey, b: SortKey)
    ensures
        key_le(a, b) || key_le(b, a),
{
    lemma_text_before_total(a.scaffold, b.scaffold);
}

/// The order of keys carries over a key in between.
pub proof fn lemma_key_le_transitive(a: SortKey, b: SortKey, c: SortKey)
    requires
        key_le(a, b),
        key_le(b, c),
    ensures
        key_le(a, c),
{
    if text_before(a.scaffold, b.scaffold) && text_before(b.scaffold, c.scaffold) {
        lemma_text_before_transitive(a.scaffold, b.scaffold, c.scaffold);
    }
}

/// Keys that do not come after each other are the same key.
pub proof fn lemma_key_le_antisymmetric(a: SortKey, b: SortKey)
    requires
        key_le(a, b),
        key_le(b, a),
    ensures
        a == b,
{
    if text_before(a.scaffold, b.scaffold) {
        lemma_text_before_asymmetric(a.scaffold, b.scaffold);
        lemma_text_before_irreflexive(a.scaffold);
    }
    if text_before(b.scaffold, a.scaffold) {
        lemma_text_before_asymmetric(b.scaffold, a.scaffold);
        lemma_text_before_irreflexive(a.scaffold);
    }
}

/// How two texts stand to each other.
#[derive(Clone, Copy, Debug, PartialEq, Eq, Structural)]
pub enum Side {
    Before,
    Same,
    After,
}

/// Compares two texts byte by byte.
pub fn collate(a: &[u8], b: &[u8]) -> (side: Side)
    ensures
        side == Side::Before <==> text_before(a@, b@),
        side == Side::Same <==> a@ == b@,
        side == Side::After <==> text_before(b@, a@),
{
    let mut i: usize = 0;
    proof {
        assert(a@.skip(0) =~= a@);
        assert(b@.skip(0) =~= b@);
    }
    while i < a.len() && i < b.len()
        invariant
            0 <= i <= a.len(),
            i <= b.len(),
            a@.take(i as int) == b@.take(i as int),
            text_before(a@, b@) == text_before(a@.skip(i as int), b@.skip(i as int)),
            text_before(b@, a@) == text_before(b@.skip(i as int), a@.skip(i as int)),
        decreases a.len() - i,
    {
        let x = a[i];
        let y = b[i];
        proof {
            assert(a@.skip(i as int)[0] == x);
            assert(b@.skip(i as int)[0] == y);
            assert(a@.skip(i as int).drop_first() =~= a@.skip(i + 1));
            assert(b@.skip(i as int).drop_first() =~= b@.skip(i + 1));
        }
        if x < y {
            proof {
                lemma_text_before_asymmetric(a@, b@);
                assert(a@.take(i + 1)[i as int] != b@.take(i + 1)[i as int]);
            }
            return Side::Before;
        }
        if x > y {
            proof {
                lemma_text_before_asymmetric(b@, a@);
                assert(a@.take(i + 1)[i as int] != b@.take(i + 1)[i as int]);
            }
            return Side::After;
        }
        proof {
            assert(a@.take(i + 1) =~= a@.take(i as int).push(x));
            assert(b@.take(i + 1) =~= b@.take(i as int).push(y));
        }
        i += 1;
    }
    proof {
        lemma_text_before_irreflexive(a@);
        if i == a.len() && i == b.len() {
            assert(a@ =~= a@.take(i as int));
            assert(b@ =~= b@.take(i as int));
        }
    }
    if i < b.len() {
        Side::Before
    } else if i < a.len() {
        Side::After
    } else {
        Side::Same
    }
}

/// May record `a` be written before record `b`?
pub fn not_after(a: &Snp, b: &Snp) -> (le: bool)
    ensures
        le == precedes(a@, b@),
{
    match collate(a.scaffold.as_str().as_bytes(), b.scaffold.as_str().as_bytes()) {
        Side::Before => true,
        Side::Same => a.pos <= b.pos,
        Side::After => {
            proof {
                lemma_text_before_asymmetric(key_of(b@).scaffold, key_of(a@).scaffold);
                lemma_text_before_irreflexive(key_of(a@).scaffold);
            }
            false
        },
    }
}

/// Each record may be written before all that follow it.
pub open spec fn ordered(records: Seq<Snp>) -> bool {
    forall|i: int, j: int| 0 <= i < j < records.len() ==> precedes(records[i]@, records[j]@)
}

/// The records of a sequence that have a given key, in their order.
pub open spec fn with_key(records: Seq<Snp>, key: SortKey) -> Seq<Snp> {
    records.filter(|r: Snp| key_of(r@) == key)
}

/// `out` is `input` put in order: ordered, made of the same records, and
/// with the records of any one key in the order in which `input` has them.
pub open spec fn is_ordering_of(out: Seq<Snp>, input: Seq<Snp>) -> bool {
    &&& ordered(out)
    &&& out.to_multiset() == input.to_multiset()
    &&& forall|key: SortKey| #[trigger] with_key(out, key) == with_key(input, key)
}

/// Two ordered sequences run together into one, read from their ends. Where
/// the last records tie, that of `b` goes last.
pub open spec fn merged(a: Seq<Snp>, b: Seq<Snp>) -> Seq<Snp>
    decreases a.len() + b.len(),
{
    if a.len() == 0 {
        b
    } else if b.len() == 0 {
        a
    } else if precedes(a.last()@, b.last()@) {
        merged(a, b.drop_last()).push(b.last())
    } else {
        merged(a.drop_last(), b).push(a.last())
    }
}

/// A merge holds the records of both sequences and no others.
proof fn lemma_merged_members(a: Seq<Snp>, b: Seq<Snp>)
    ensures
        merged(a, b).len() == a.len() + b.len(),
        merged(a, b).to_multiset() == a.to_multiset().add(b.to_multiset()),
        forall|i: int|
            0 <= i < merged(a, b).len() ==> a.contains(#[trigger] merged(a, b)[i]) || b.contains(
                merged(a, b)[i],
            ),
    decreases a.len() + b.len(),
{
    broadcast use vstd::seq_lib::group_to_multiset_ensures;

    let m = merged(a, b);
    if a.len() == 0 {
        assert(a.to_multiset().len() == 0);
        assert(m.to_multiset() =~= a.to_multiset().add(b.to_multiset()));
        assert forall|i: int| 0 <= i < m.len() implies b.contains(#[trigger] m[i]) by {
            assert(b[i] == m[i]);
        }
    } else if b.len() == 0 {
        assert(b.to_multiset().len() == 0);
        assert(m.to_multiset() =~= a.to_multiset().add(b.to_multiset()));
        assert forall|i: int| 0 <= i < m.len() implies a.contains(#[trigger] m[i]) by {
            assert(a[i] == m[i]);
        }
    } else if precedes(a.last()@, b.last()@) {
        let rest = b.drop_last();
        lemma_merged_members(a, rest);
        assert(b =~= rest.push(b.last()));
        assert(m.to_multiset() =~= a.to_multiset().add(b.to_multiset()));
        assert forall|i: int| 0 <= i < m.len() implies a.contains(#[trigger] m[i]) || b.contains(
            m[i],
        ) by {
            if i < m.len() - 1 {
                let inner = merged(a, rest);
                assert(m[i] == inner[i]);
                if rest.contains(inner[i]) {
                    let k = choose|k: int| 0 <= k < rest.len() && rest[k] == inner[i];
                    assert(b[k] == inner[i]);
                }
            } else {
                assert(b[b.len() - 1] == m[i]);
            }
        }
    } else {
        let rest = a.drop_last();
        lemma_merged_members(rest, b);
        assert(a =~= rest.push(a.last()));
        assert(m.to_multiset() =~= a.to_multiset().add(b.to_multiset()));
        assert forall|i: int| 0 <= i < m.len() implies a.contains(#[trigger] m[i]) || b.contains(
            m[i],
        ) by {
            if i < m.len() - 1 {
                let inner = merged(rest, b);
                assert(m[i] == inner[i]);
                if rest.contains(inner[i]) {
                    let k = choose|k: int| 0 <= k < rest.len() && rest[k] == inner[i];
                    assert(a[k] == inner[i]);
                }
            } else {
                assert(a[a.len() - 1] == m[i]);
            }
        }
    }
}

/// In an ordered sequence every record may be written before the last.
proof fn lemma_last_is_greatest(s: Seq<Snp>, x: Snp)
    requires
        ordered(s),
        s.contains(x),
    ensures
        precedes(x@, s.last()@),
{
    let k = choose|k: int| 0 <= k < s.len() && s[k] == x;
    if k < s.len() - 1 {
        assert(precedes(s[k]@, s[s.len() - 1]@));
    }
}

/// The merge of two ordered sequences is ordered.
proof fn lemma_merged_ordered(a: Seq<Snp>, b: Seq<Snp>)
    requires
        ordered(a),
        ordered(b),
    ensures
        ordered(merged(a, b)),
    decreases a.len() + b.len(),
{
    let m = merged(a, b);
    if a.len() == 0 || b.len() == 0 {
    } else {
        let take_b = precedes(a.last()@, b.last()@);
        let (ra, rb, top) = if take_b {
            (a, b.drop_last(), b.last())
        } else {
            (a.drop_last(), b, a.last())
        };
        let inner = merged(ra, rb);
        assert(m == inner.push(top));
        lemma_merged_ordered(ra, rb);
        lemma_merged_members(ra, rb);
        lemma_key_le_total(key_of(a.last()@), key_of(b.last()@));
        assert forall|i: int, j: int| 0 <= i < j < m.len() implies precedes(m[i]@, m[j]@) by {
            if j < m.len() - 1 {
                assert(precedes(inner[i]@, inner[j]@));
            } else {
                let x = inner[i];
                assert(m[i] == x);
                if a.contains(x) && ra.contains(x) {
                    lemma_last_is_greatest(a, x);
                    lemma_key_le_transitive(key_of(x@), key_of(a.last()@), key_of(top@));
                } else if ra.contains(x) {
                    let k = choose|k: int| 0 <= k < ra.len() && ra[k] == x;
                    assert(a[k] == x);
                    assert(a.contains(x));
                    lemma_last_is_greatest(a, x);
                    lemma_key_le_transitive(key_of(x@), key_of(a.last()@), key_of(top@));
                } else {
                    assert(rb.contains(x));
                    let k = choose|k: int| 0 <= k < rb.len() && rb[k] == x;
                    assert(b[k] == x);
                    assert(b.contains(x));
                    lemma_last_is_greatest(b, x);
                    lemma_key_le_transitive(key_of(x@), key_of(b.last()@), key_of(top@));
                }
            }
        }
    }
}

/// Merging keeps the records of one key in their order, those of `a` before
/// those of `b`.
proof fn lemma_merged_stable(a: Seq<Snp>, b: Seq<Snp>, key: SortKey)
    requires
        ordered(a),
        ordered(b),
    ensures
        with_key(merged(a, b), key) == with_key(a, key) + with_key(b, key),
    decreases a.len() + b.len(),
{
    let keyed = |r: Snp| key_of(r@) == key;
    let m = merged(a, b);
    if a.len() == 0 {
        assert(a.filter(keyed).len() == 0) by {
            a.lemma_filter_len(keyed);
        }
        assert(with_key(a, key) + with_key(b, key) =~= with_key(b, key));
    } else if b.len() == 0 {
        assert(b.filter(keyed).len() == 0) by {
            b.lemma_filter_len(keyed);
        }
        assert(with_key(a, key) + with_key(b, key) =~= with_key(a, key));
    } else if precedes(a.last()@, b.last()@) {
        let rest = b.drop_last();
        lemma_merged_stable(a, rest, key);
        merged(a, rest).lemma_filter_push(b.last(), keyed);
        rest.lemma_filter_push(b.last(), keyed);
        assert(b =~= rest.push(b.last()));
        assert(with_key(m, key) =~= with_key(a, key) + with_key(b, key));
    } else {
        let rest = a.drop_last();
        lemma_merged_stable(rest, b, key);
        merged(rest, b).lemma_filter_push(a.last(), keyed);
        rest.lemma_filter_push(a.last(), keyed);
        assert(a =~= rest.push(a.last()));
        if keyed(a.last()) {
            assert forall|i: int| 0 <= i < b.len() implies !keyed(#[trigger] b[i]) by {
                if keyed(b[i]) {
                    assert(b.contains(b[i]));
                    lemma_last_is_greatest(b, b[i]);
                }
            }
            assert(b.all(|x: Snp| !keyed(x)));
            b.lemma_all_neg_filter_empty(keyed);
        }
        assert(with_key(m, key) =~= with_key(a, key) + with_key(b, key));
    }
}

/// Merges two ordered vectors into one.
fn merge(a: Vec<Snp>, b: Vec<Snp>) -> (out: Vec<Snp>)
    ensures
        out@ == merged(a@, b@),
{
    let ghost whole = merged(a@, b@);
    let mut a = a;
    let mut b = b;
    let mut back: Vec<Snp> = Vec::new();
    proof {
        assert(merged(a@, b@) + back@.reverse() =~= whole);
    }
    while a.len() > 0 && b.len() > 0
        invariant
            merged(a@, b@) + back@.reverse() == whole,
        decreases a.len() + b.len(),
    {
        let ghost before = merged(a@, b@);
        let ghost tail = back@;
        let top = if not_after(&a[a.len() - 1], &b[b.len() - 1]) {
            b.pop()
        } else {
            a.pop()
        };
        match top {
            Some(record) => {
                back.push(record);
                proof {
                    assert(before == merged(a@, b@).push(record));
                    assert(back@.reverse() =~= seq![record] + tail.reverse());
                    assert(merged(a@, b@) + back@.reverse() =~= before + tail.reverse());
                }
            },
            None => {},
        }
    }
    let mut out = if a.len() > 0 {
        a
    } else {
        b
    };
    while back.len() > 0
        invariant
            out@ + back@.reverse() == whole,
        decreases back.len(),
    {
        let ghost front = out@;
        let ghost tail = back@;
        match back.pop() {
            Some(record) => {
                out.push(record);
                proof {
                    assert(tail.reverse() =~= seq![record] + back@.reverse());
                    assert(out@ + back@.reverse() =~= front + tail.reverse());
                }
            },
            None => {},
        }
    }
    proof {
        assert(out@ + back@.reverse() =~= out@);
    }
    out
}

/// Puts the records in the order in which they are written: by scaffold,
/// then by position, records of one key in the order in which they came.
pub fn sort_for_output(records: Vec<Snp>) -> (sorted: Vec<Snp>)
    ensures
        is_ordering_of(sorted@, records@),
    decreases records.len(),
{
    if records.len() <= 1 {
        return records;
    }
    let ghost input = records@;
    let mut left = records;
    let half = left.len() / 2;
    let right = left.split_off(half);
    let ghost first = left@;
    let ghost second = right@;
    let left = sort_for_output(left);
    let right = sort_for_output(right);
    proof {
        assert(input =~= first + second);
        lemma_merged_ordered(left@, right@);
        lemma_merged_members(left@, right@);
        vstd::seq_lib::lemma_multiset_commutative(first, second);
        assert forall|key: SortKey| #[trigger]
            with_key(merged(left@, right@), key) == with_key(input, key) by {
            lemma_merged_stable(left@, right@, key);
            Seq::filter_distributes_over_add(first, second, |r: Snp| key_of(r@) == key);
        }
    }
    merge(left, right)
}

/// Two ordered sequences that agree on the records of each key, and on
/// their order, are the same sequence.
proof fn lemma_same_classes_same_seq(a: Seq<Snp>, b: Seq<Snp>)
    requires
        ordered(a),
        ordered(b),
        a.len() == b.len(),
        forall|key: SortKey| #[trigger] with_key(a, key) == with_key(b, key),
    ensures
        a == b,
    decreases a.len(),
{
    if a.len() == 0 {
        assert(a =~= b);
    } else {
        let la = a.last();
        let lb = b.last();
        let ka = key_of(la@);
        let kb = key_of(lb@);
        let ra = a.drop_last();
        let rb = b.drop_last();
        assert(a =~= ra.push(la));
        assert(b =~= rb.push(lb));
        assert forall|key: SortKey|
            with_key(a, key) == #[trigger] with_key(ra, key) + (if key == ka {
                seq![la]
            } else {
                seq![]
            }) by {
            ra.lemma_filter_push(la, |r: Snp| key_of(r@) == key);
            assert(with_key(ra, key).push(la) =~= with_key(ra, key) + seq![la]);
            assert(with_key(ra, key) =~= with_key(ra, key) + Seq::<Snp>::empty());
        }
        assert forall|key: SortKey|
            with_key(b, key) == #[trigger] with_key(rb, key) + (if key == kb {
                seq![lb]
            } else {
                seq![]
            }) by {
            rb.lemma_filter_push(lb, |r: Snp| key_of(r@) == key);
            assert(with_key(rb, key).push(lb) =~= with_key(rb, key) + seq![lb]);
            assert(with_key(rb, key) =~= with_key(rb, key) + Seq::<Snp>::empty());
        }
        assert(ka == kb) by {
            assert(with_key(a, ka) == with_key(b, ka));
            assert(with_key(a, ka) == with_key(ra, ka) + seq![la]);
            assert(with_key(b, ka).last() == la);
            assert(with_key(b, ka).contains(la));
            b.lemma_filter_contains_rev(|r: Snp| key_of(r@) == ka, la);
            lemma_last_is_greatest(b, la);
            assert(with_key(a, kb) == with_key(b, kb));
            assert(with_key(b, kb) == with_key(rb, kb) + seq![lb]);
            assert(with_key(a, kb).last() == lb);
            assert(with_key(a, kb).contains(lb));
            a.lemma_filter_contains_rev(|r: Snp| key_of(r@) == kb, lb);
            lemma_last_is_greatest(a, lb);
            lemma_key_le_antisymmetric(ka, kb);
        }
        assert(la == lb) by {
            assert(with_key(a, ka) == with_key(b, ka));
            assert((with_key(ra, ka) + seq![la]).last() == la);
            assert((with_key(rb, ka) + seq![lb]).last() == lb);
        }
        assert forall|key: SortKey| #[trigger] with_key(ra, key) == with_key(rb, key) by {
            assert(with_key(a, key) == with_key(b, key));
            let x = with_key(ra, key);
            let y = with_key(rb, key);
            if key == ka {
                assert(x =~= (x + seq![la]).drop_last());
                assert(y =~= (y + seq![lb]).drop_last());
            } else {
                assert(x =~= x + Seq::<Snp>::empty());
                assert(y =~= y + Seq::<Snp>::empty());
            }
        }
        assert(ordered(ra)) by {
            assert forall|i: int, j: int| 0 <= i < j < ra.len() implies precedes(
                ra[i]@,
                ra[j]@,
            ) by {
                assert(precedes(a[i]@, a[j]@));
            }
        }
        assert(ordered(rb)) by {
            assert forall|i: int, j: int| 0 <= i < j < rb.len() implies precedes(
                rb[i]@,
                rb[j]@,
            ) by {
                assert(precedes(b[i]@, b[j]@));
            }
        }
        lemma_same_classes_same_seq(ra, rb);
    }
}

/// There is one way only to put records in order: two orderings of the same
/// input are the same sequence.
pub proof fn lemma_ordering_unique(input: Seq<Snp>, a: Seq<Snp>, b: Seq<Snp>)
    requires
        is_ordering_of(a, input),
        is_ordering_of(b, input),
    ensures
        a == b,
{
    vstd::seq_lib::to_multiset_len(a);
    vstd::seq_lib::to_multiset_len(b);
    assert forall|key: SortKey| #[trigger] with_key(a, key) == with_key(b, key) by {
        assert(with_key(a, key) == with_key(input, key));
        assert(with_key(b, key) == with_key(input, key));
    }
    lemma_same_classes_same_seq(a, b);
}

/// Records that are in order already are left as they are.
pub proof fn lemma_ordered_is_kept(input: Seq<Snp>, out: Seq<Snp>)
    requires
        ordered(input),
        is_ordering_of(out, input),
    ensures
        out == input,
{
    lemma_ordering_unique(input, out, input);
}

/// Ordering twice gives what ordering once gives.
pub proof fn lemma_ordering_twice(input: Seq<Snp>, once: Seq<Snp>, twice: Seq<Snp>)
    requires
        is_ordering_of(once, input),
        is_ordering_of(twice, once),
    ensures
        twice == once,
{
    lemma_ordered_is_kept(once, twice);
}

} // verus!
