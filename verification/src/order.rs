//! The order of texts, and sorting by it.

use vstd::prelude::*;
use vstd::relations::*;
use vstd::seq_lib::*;
use vstd::string::*;

use crate::text::{chars_of, texts};

verus! {

/// Lexicographic order by the codes of the characters, which is also the order
/// of the UTF-8 bytes.
pub open spec fn text_le(a: Seq<char>, b: Seq<char>) -> bool
    decreases a.len(),
{
    if a.len() == 0 {
        true
    } else if b.len() == 0 {
        false
    } else if a[0] == b[0] {
        text_le(a.skip(1), b.skip(1))
    } else {
        a[0] < b[0]
    }
}

/// A list of texts in ascending order.
pub open spec fn sorted_texts(list: Seq<Seq<char>>) -> Seq<Seq<char>> {
    list.sort_by(|a: Seq<char>, b: Seq<char>| text_le(a, b))
}

proof fn lemma_le_reflexive(a: Seq<char>)
    ensures
        text_le(a, a),
    decreases a.len(),
{
    if a.len() > 0 {
        lemma_le_reflexive(a.skip(1));
    }
}

proof fn lemma_le_antisymmetric(a: Seq<char>, b: Seq<char>)
    requires
        text_le(a, b),
        text_le(b, a),
    ensures
        a == b,
    decreases a.len(),
{
    if a.len() == 0 || b.len() == 0 {
        assert(a =~= b);
    } else {
        lemma_le_antisymmetric(a.skip(1), b.skip(1));
        assert(a =~= seq![a[0]] + a.skip(1));
        assert(b =~= seq![b[0]] + b.skip(1));
    }
}

proof fn lemma_le_transitive(a: Seq<char>, b: Seq<char>, c: Seq<char>)
    requires
        text_le(a, b),
        text_le(b, c),
    ensures
        text_le(a, c),
    decreases a.len(),
{
    if a.len() > 0 && b.len() > 0 && c.len() > 0 && a[0] == b[0] && b[0] == c[0] {
        lemma_le_transitive(a.skip(1), b.skip(1), c.skip(1));
    }
}

proof fn lemma_le_total(a: Seq<char>, b: Seq<char>)
    ensures
        text_le(a, b) || text_le(b, a),
    decreases a.len(),
{
    if a.len() > 0 && b.len() > 0 && a[0] == b[0] {
        lemma_le_total(a.skip(1), b.skip(1));
    }
}

/// Texts are totally ordered.
pub proof fn law_text_order()
    ensures
        total_ordering(|a: Seq<char>, b: Seq<char>| text_le(a, b)),
{
    let le = |a: Seq<char>, b: Seq<char>| text_le(a, b);
    assert forall|a: Seq<char>| #[trigger] le(a, a) by {
        lemma_le_reflexive(a);
    }
    assert forall|a: Seq<char>, b: Seq<char>| #[trigger] le(a, b) && #[trigger] le(b, a) implies a
        == b by {
        lemma_le_antisymmetric(a, b);
    }
    assert forall|a: Seq<char>, b: Seq<char>, c: Seq<char>| #[trigger]
        le(a, b) && #[trigger] le(b, c) implies le(a, c) by {
        lemma_le_transitive(a, b, c);
    }
    assert forall|a: Seq<char>, b: Seq<char>| #[trigger] le(a, b) || #[trigger] le(b, a) by {
        lemma_le_total(a, b);
    }
}

/// Of two texts that agree up to a place, the one that ends there comes first, and else
/// the one with the smaller character there; the other one does not.
pub proof fn law_order_by_place(a: Seq<char>, b: Seq<char>, i: int)
    requires
        0 <= i <= a.len(),
        i <= b.len(),
        a.take(i) == b.take(i),
    ensures
        i == a.len() ==> text_le(a, b),
        i == a.len() && i < b.len() ==> !text_le(b, a),
        i < a.len() && i < b.len() && a[i] < b[i] ==> text_le(a, b) && !text_le(b, a),
    decreases i,
{
    if i > 0 {
        assert(a[0] == a.take(i)[0] && b[0] == b.take(i)[0]);
        assert(a.skip(1).take(i - 1) =~= a.take(i).skip(1));
        assert(b.skip(1).take(i - 1) =~= b.take(i).skip(1));
        law_order_by_place(a.skip(1), b.skip(1), i - 1);
    }
}

/// A sorted list is in ascending order and holds the same texts.
pub proof fn law_sorted(list: Seq<Seq<char>>)
    ensures
        sorted_texts(list).to_multiset() == list.to_multiset(),
        sorted_texts(list).len() == list.len(),
        forall|i: int, j: int|
            0 <= i <= j < list.len() ==> text_le(
                #[trigger] sorted_texts(list)[i],
                #[trigger] sorted_texts(list)[j],
            ),
{
    let le = |a: Seq<char>, b: Seq<char>| text_le(a, b);
    law_text_order();
    list.lemma_sort_by_ensures(le);
    list.to_multiset_ensures();
    sorted_texts(list).to_multiset_ensures();
    assert forall|i: int, j: int| 0 <= i <= j < list.len() implies text_le(
        #[trigger] sorted_texts(list)[i],
        #[trigger] sorted_texts(list)[j],
    ) by {
        if i == j {
            lemma_le_reflexive(sorted_texts(list)[i]);
        } else {
            assert(le(sorted_texts(list)[i], sorted_texts(list)[j]));
        }
    }
}

/// Lists of the same texts, in whatever order, sort alike.
pub proof fn law_sorting_ignores_order(a: Seq<Seq<char>>, b: Seq<Seq<char>>)
    requires
        a.to_multiset() == b.to_multiset(),
    ensures
        sorted_texts(a) == sorted_texts(b),
{
    let le = |a: Seq<char>, b: Seq<char>| text_le(a, b);
    law_text_order();
    a.lemma_sort_by_ensures(le);
    b.lemma_sort_by_ensures(le);
    lemma_sorted_unique(sorted_texts(a), sorted_texts(b), le);
}

/// Whether one text comes before another or equals it.
pub fn comes_first(a: &str, b: &str) -> (r: bool)
    ensures
        r == text_le(a@, b@),
{
    let x = chars_of(a);
    let y = chars_of(b);
    let mut i: usize = 0;
    assert(x@.skip(0) =~= x@);
    assert(y@.skip(0) =~= y@);
    while i < x.len() && i < y.len()
        invariant
            x@ == a@,
            y@ == b@,
            i <= x@.len(),
            i <= y@.len(),
            text_le(x@.skip(i as int), y@.skip(i as int)) == text_le(x@, y@),
        decreases x@.len() - i,
    {
        assert(x@.skip(i as int)[0] == x@[i as int]);
        assert(y@.skip(i as int)[0] == y@[i as int]);
        if x[i] != y[i] {
            return x[i] < y[i];
        }
        assert(x@.skip(i as int).skip(1) =~= x@.skip(i + 1));
        assert(y@.skip(i as int).skip(1) =~= y@.skip(i + 1));
        i = i + 1;
    }
    i >= x.len()
}

/// Ascending order, stated over texts.
spec fn ascending(list: Seq<Seq<char>>) -> bool {
    sorted_by(list, |a: Seq<char>, b: Seq<char>| text_le(a, b))
}

/// Puts a text behind all that come before it.
fn insert_sorted(list: &mut Vec<String>, item: String)
    requires
        ascending(texts(old(list)@)),
    ensures
        ascending(texts(final(list)@)),
        texts(final(list)@).to_multiset() == texts(old(list)@).to_multiset().insert(item@),
{
    let mut at: usize = list.len();
    let ghost le = |a: Seq<char>, b: Seq<char>| text_le(a, b);
    let ghost before = texts(list@);
    proof {
        law_text_order();
    }
    while at > 0 && !comes_first(list[at - 1].as_str(), item.as_str())
        invariant
            at <= list@.len(),
            texts(list@) == before,
            list@ == old(list)@,
            ascending(before),
            le == (|a: Seq<char>, b: Seq<char>| text_le(a, b)),
            total_ordering(le),
            forall|j: int| at <= j < before.len() ==> text_le(item@, #[trigger] before[j]),
        decreases at,
    {
        proof {
            assert(before[at - 1] == list@[at - 1]@);
            lemma_le_total(before[at - 1], item@);
        }
        at = at - 1;
    }
    list.insert(at, item);
    proof {
        let after = texts(list@);
        assert(after =~= before.insert(at as int, item@));
        before.to_multiset_ensures();
        after.to_multiset_ensures();
        assert(after.remove(at as int) =~= before);
        assert(after.to_multiset() =~= before.to_multiset().insert(item@)) by {
            assert(after[at as int] == item@);
            assert(after.contains(item@));
            assert(after.to_multiset().contains(item@));
        }
        assert forall|i: int, j: int| 0 <= i < j < after.len() implies #[trigger] le(
            after[i],
            after[j],
        ) by {
            if i < at && j < at {
                assert(le(before[i], before[j]));
            } else if i < at && j == at {
                assert(before[at - 1] == old(list)@[at - 1]@);
                if i < at - 1 {
                    assert(le(before[i], before[at - 1]));
                    lemma_le_transitive(before[i], before[at - 1], item@);
                }
            } else if i < at {
                assert(le(before[i], before[j - 1]));
            } else if i == at {
                assert(after[j] == before[j - 1]);
            } else {
                assert(le(before[i - 1], before[j - 1]));
            }
        }
    }
}

/// Sorts texts into ascending order.
pub fn sort(list: Vec<String>) -> (r: Vec<String>)
    ensures
        texts(r@) == sorted_texts(texts(list@)),
{
    let mut out: Vec<String> = Vec::new();
    let mut i: usize = 0;
    assert(texts(out@) =~= texts(list@).take(0));
    while i < list.len()
        invariant
            i <= list@.len(),
            ascending(texts(out@)),
            texts(out@).to_multiset() == texts(list@).take(i as int).to_multiset(),
        decreases list@.len() - i,
    {
        proof {
            let done = texts(list@).take(i as int);
            assert(texts(list@).take(i + 1) =~= done.push(list@[i as int]@));
            done.to_multiset_ensures();
        }
        insert_sorted(&mut out, list[i].clone());
        i = i + 1;
    }
    proof {
        let le = |a: Seq<char>, b: Seq<char>| text_le(a, b);
        assert(texts(list@).take(i as int) =~= texts(list@));
        law_text_order();
        texts(list@).lemma_sort_by_ensures(le);
        lemma_sorted_unique(texts(out@), sorted_texts(texts(list@)), le);
    }
    out
}

} // verus!
