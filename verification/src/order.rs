//! The order in which the listed ids are kept: strings compare by their UTF-8
//! bytes, a shorter string before any of its extensions.

use vstd::prelude::*;
use vstd::string::*;
use vstd::utf8::{encode_utf8, encode_utf8_decode_utf8};
use crate::text::texts;

verus! {

/// `a` comes strictly before `b`, byte by byte.
pub open spec fn bytes_less(a: Seq<u8>, b: Seq<u8>) -> bool
    decreases a.len(),
{
    if b.len() == 0 {
        false
    } else if a.len() == 0 {
        true
    } else if a[0] != b[0] {
        a[0] < b[0]
    } else {
        bytes_less(a.drop_first(), b.drop_first())
    }
}

/// `a` comes strictly before `b` in the order of strings.
pub open spec fn str_less(a: Seq<char>, b: Seq<char>) -> bool {
    bytes_less(encode_utf8(a), encode_utf8(b))
}

/// Every pair of positions is in strictly ascending order.
pub open spec fn strictly_sorted(list: Seq<Seq<char>>) -> bool {
    forall|i: int, j: int| 0 <= i < j < list.len() ==> str_less(#[trigger] list[i], #[trigger] list[j])
}

pub proof fn lemma_bytes_less_irreflexive(a: Seq<u8>)
    ensures
        !bytes_less(a, a),
    decreases a.len(),
{
    if a.len() > 0 {
        lemma_bytes_less_irreflexive(a.drop_first());
    }
}

pub proof fn lemma_bytes_less_transitive(a: Seq<u8>, b: Seq<u8>, c: Seq<u8>)
    requires
        bytes_less(a, b),
        bytes_less(b, c),
    ensures
        bytes_less(a, c),
    decreases a.len(),
{
    if a.len() > 0 && a[0] == b[0] && b[0] == c[0] {
        lemma_bytes_less_transitive(a.drop_first(), b.drop_first(), c.drop_first());
    }
}

pub proof fn lemma_bytes_less_total(a: Seq<u8>, b: Seq<u8>)
    ensures
        a == b || bytes_less(a, b) || bytes_less(b, a),
    decreases a.len(),
{
    if a.len() == 0 || b.len() == 0 {
        if a.len() == 0 && b.len() == 0 {
            assert(a =~= b);
        }
    } else if a[0] == b[0] {
        lemma_bytes_less_total(a.drop_first(), b.drop_first());
        if a.drop_first() == b.drop_first() {
            assert(a =~= seq![a[0]] + a.drop_first());
            assert(b =~= seq![b[0]] + b.drop_first());
        }
    }
}

/// No string comes before itself.
pub proof fn lemma_str_less_irreflexive(a: Seq<char>)
    ensures
        !str_less(a, a),
{
    lemma_bytes_less_irreflexive(encode_utf8(a));
}

/// The order is transitive.
pub proof fn lemma_str_less_transitive(a: Seq<char>, b: Seq<char>, c: Seq<char>)
    requires
        str_less(a, b),
        str_less(b, c),
    ensures
        str_less(a, c),
{
    lemma_bytes_less_transitive(encode_utf8(a), encode_utf8(b), encode_utf8(c));
}

/// Two different strings are ordered one way or the other.
pub proof fn lemma_str_less_total(a: Seq<char>, b: Seq<char>)
    ensures
        a == b || str_less(a, b) || str_less(b, a),
{
    lemma_bytes_less_total(encode_utf8(a), encode_utf8(b));
    encode_utf8_decode_utf8(a);
    encode_utf8_decode_utf8(b);
}

/// Whether `a` sorts strictly before `b`.
pub fn less_than(a: &str, b: &str) -> (r: bool)
    ensures
        r == str_less(a@, b@),
{
    let x = a.as_bytes();
    let y = b.as_bytes();
    let mut i: usize = 0;
    assert(x@.skip(0) == x@ && y@.skip(0) == y@);
    while i < x.len() && i < y.len()
        invariant
            i <= x.len(),
            i <= y.len(),
            x@ == encode_utf8(a@),
            y@ == encode_utf8(b@),
            bytes_less(x@, y@) == bytes_less(x@.skip(i as int), y@.skip(i as int)),
        decreases x.len() - i,
    {
        assert(x@.skip(i as int).drop_first() == x@.skip(i + 1));
        assert(y@.skip(i as int).drop_first() == y@.skip(i + 1));
        assert(x@.skip(i as int)[0] == x@[i as int]);
        assert(y@.skip(i as int)[0] == y@[i as int]);
        if x[i] != y[i] {
            return x[i] < y[i];
        }
        i += 1;
    }
    i < y.len()
}

/// Whether `a` and `b` hold the same text.
pub fn same_text(a: &str, b: &str) -> (r: bool)
    ensures
        r == (a@ == b@),
{
    let x = a.as_bytes();
    let y = b.as_bytes();
    proof {
        encode_utf8_decode_utf8(a@);
        encode_utf8_decode_utf8(b@);
    }
    if x.len() != y.len() {
        return false;
    }
    let mut i: usize = 0;
    while i < x.len()
        invariant
            i <= x.len(),
            x.len() == y.len(),
            x@ == encode_utf8(a@),
            y@ == encode_utf8(b@),
            forall|j: int| 0 <= j < i ==> x@[j] == y@[j],
        decreases x.len() - i,
    {
        if x[i] != y[i] {
            return false;
        }
        i += 1;
    }
    assert(x@ =~= y@);
    true
}

/// `after` holds exactly the members of `before` and `extra`, in strictly
/// ascending order and so without repeats.
pub open spec fn merged(before: Seq<Seq<char>>, extra: Seq<Seq<char>>, after: Seq<Seq<char>>) -> bool {
    &&& strictly_sorted(after)
    &&& forall|t: Seq<char>| after.contains(t) <==> before.contains(t) || extra.contains(t)
}

/// A strictly sorted list is determined by its members.
pub proof fn lemma_sorted_unique(a: Seq<Seq<char>>, b: Seq<Seq<char>>)
    requires
        strictly_sorted(a),
        strictly_sorted(b),
        forall|t: Seq<char>| a.contains(t) <==> b.contains(t),
    ensures
        a == b,
    decreases a.len(),
{
    if a.len() == 0 {
        if b.len() > 0 {
            assert(b.contains(b[0]));
        }
        assert(a =~= b);
    } else if b.len() == 0 {
        assert(a.contains(a[0]));
    } else {
        // The least member heads both lists.
        assert(a.contains(a[0]));
        assert(b.contains(b[0]));
        let i = choose|i: int| 0 <= i < b.len() && b[i] == a[0];
        let j = choose|j: int| 0 <= j < a.len() && a[j] == b[0];
        if i > 0 && j > 0 {
            lemma_str_less_transitive(a[0], a[j], b[i]);
            lemma_str_less_irreflexive(a[0]);
        } else if i > 0 {
            lemma_str_less_irreflexive(b[0]);
        } else if j > 0 {
            lemma_str_less_irreflexive(a[0]);
        }
        assert(a[0] == b[0]);
        let ta = a.drop_first();
        let tb = b.drop_first();
        assert forall|t: Seq<char>| ta.contains(t) <==> tb.contains(t) by {
            if ta.contains(t) {
                let k = choose|k: int| 0 <= k < ta.len() && ta[k] == t;
                assert(a[k + 1] == t);
                assert(a.contains(t));
                let m = choose|m: int| 0 <= m < b.len() && b[m] == t;
                if m == 0 {
                    lemma_str_less_irreflexive(t);
                }
                assert(tb[m - 1] == t);
            }
            if tb.contains(t) {
                let k = choose|k: int| 0 <= k < tb.len() && tb[k] == t;
                assert(b[k + 1] == t);
                assert(b.contains(t));
                let m = choose|m: int| 0 <= m < a.len() && a[m] == t;
                if m == 0 {
                    lemma_str_less_irreflexive(t);
                }
                assert(ta[m - 1] == t);
            }
        }
        assert(strictly_sorted(ta)) by {
            assert forall|p: int, q: int| 0 <= p < q < ta.len() implies str_less(
                #[trigger] ta[p],
                #[trigger] ta[q],
            ) by {
                assert(str_less(a[p + 1], a[q + 1]));
            }
        }
        assert(strictly_sorted(tb)) by {
            assert forall|p: int, q: int| 0 <= p < q < tb.len() implies str_less(
                #[trigger] tb[p],
                #[trigger] tb[q],
            ) by {
                assert(str_less(b[p + 1], b[q + 1]));
            }
        }
        lemma_sorted_unique(ta, tb);
        assert(a =~= seq![a[0]] + ta);
        assert(b =~= seq![b[0]] + tb);
    }
}

/// Puts `item` at its place in a strictly sorted list, unless it is there already.
pub(crate) fn insert_sorted(list: &mut Vec<String>, item: String)
    requires
        strictly_sorted(texts(old(list)@)),
    ensures
        merged(texts(old(list)@), seq![item@], texts(final(list)@)),
{
    let ghost before = texts(list@);
    let mut i: usize = 0;
    while i < list.len() && less_than(list[i].as_str(), item.as_str())
        invariant
            i <= list.len(),
            texts(list@) == before,
            forall|j: int| 0 <= j < i ==> str_less(#[trigger] before[j], item@),
        decreases list.len() - i,
    {
        assert(before[i as int] == list@[i as int]@);
        i += 1;
    }
    let ghost extra = seq![item@];
    assert(extra[0] == item@);
    if i < list.len() && same_text(list[i].as_str(), item.as_str()) {
        proof {
            assert(before[i as int] == item@);
            assert forall|t: Seq<char>| before.contains(t) <==> before.contains(t)
                || extra.contains(t) by {
                if extra.contains(t) {
                    assert(t == item@);
                }
            }
        }
        return ;
    }
    proof {
        let after = before.insert(i as int, item@);
        assert(texts(list@.insert(i as int, item)) =~= after);
        assert forall|p: int, q: int| 0 <= p < q < after.len() implies str_less(
            #[trigger] after[p],
            #[trigger] after[q],
        ) by {
            if q == i {
                assert(after[p] == before[p]);
            } else if p == i {
                assert(after[q] == before[q - 1]);
                assert(before[i as int] == list@[i as int]@);
                lemma_str_less_total(item@, before[i as int]);
                if q - 1 > i {
                    assert(str_less(before[i as int], before[q - 1]));
                    lemma_str_less_transitive(item@, before[i as int], before[q - 1]);
                }
            } else {
                let pp = if p < i { p } else { p - 1 };
                let qq = if q < i { q } else { q - 1 };
                assert(after[p] == before[pp] && after[q] == before[qq]);
                assert(str_less(before[pp], before[qq]));
            }
        }
        assert forall|t: Seq<char>| after.contains(t) <==> before.contains(t) || extra.contains(
            t,
        ) by {
            if after.contains(t) {
                let k = choose|k: int| 0 <= k < after.len() && after[k] == t;
                if k < i {
                    assert(before[k] == t);
                } else if k == i {
                    assert(extra[0] == t);
                } else {
                    assert(before[k - 1] == t);
                }
            }
            if before.contains(t) {
                let k = choose|k: int| 0 <= k < before.len() && before[k] == t;
                if k < i {
                    assert(after[k] == t);
                } else {
                    assert(after[k + 1] == t);
                }
            }
            if extra.contains(t) {
                assert(after[i as int] == t);
            }
        }
    }
    list.insert(i, item);
}

/// Members of either list are members of their concatenation, and no others.
pub proof fn lemma_contains_add(a: Seq<Seq<char>>, b: Seq<Seq<char>>, t: Seq<char>)
    ensures
        (a + b).contains(t) <==> a.contains(t) || b.contains(t),
{
    if a.contains(t) {
        let i = choose|i: int| 0 <= i < a.len() && a[i] == t;
        assert((a + b)[i] == t);
    }
    if b.contains(t) {
        let i = choose|i: int| 0 <= i < b.len() && b[i] == t;
        assert((a + b)[a.len() + i] == t);
    }
    if (a + b).contains(t) {
        let i = choose|i: int| 0 <= i < (a + b).len() && (a + b)[i] == t;
        if i < a.len() {
            assert(a[i] == t);
        } else {
            assert(b[i - a.len()] == t);
        }
    }
}

/// The members of `items`, sorted and without repeats.
pub fn sort_dedup(items: &[String]) -> (sorted: Vec<String>)
    ensures
        merged(texts(items@), Seq::empty(), texts(sorted@)),
{
    let ghost all = texts(items@);
    let mut sorted: Vec<String> = Vec::new();
    let mut i: usize = 0;
    proof {
        assert(texts(sorted@) =~= Seq::<Seq<char>>::empty());
        assert(all.take(0) =~= Seq::<Seq<char>>::empty());
    }
    while i < items.len()
        invariant
            i <= items.len(),
            all == texts(items@),
            merged(all.take(i as int), Seq::empty(), texts(sorted@)),
        decreases items.len() - i,
    {
        let ghost before = texts(sorted@);
        let item = items[i].clone();
        insert_sorted(&mut sorted, item);
        proof {
            let after = texts(sorted@);
            assert(all.take(i + 1) == all.take(i as int).push(item@));
            assert(all.take(i as int).push(item@) == all.take(i as int) + seq![item@]);
            assert forall|t: Seq<char>| after.contains(t) <==> all.take(i + 1).contains(t)
                || Seq::<Seq<char>>::empty().contains(t) by {
                lemma_contains_add(all.take(i as int), seq![item@], t);
            }
        }
        i += 1;
    }
    proof {
        assert(all.take(all.len() as int) == all);
    }
    sorted
}

} // verus!
