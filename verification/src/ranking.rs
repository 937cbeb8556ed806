//! Putting numbered items in order.

use vstd::prelude::*;
use vstd::seq_lib::*;

verus! {

/// A strict total order on numbered items.
pub trait Ranking {
    /// Whether an item takes part in the ranking.
    spec fn ranks(&self, item: usize) -> bool;

    /// Whether item `a` comes before item `b`.
    spec fn ahead(&self, a: usize, b: usize) -> bool;

    /// No item comes before itself.
    proof fn irreflexive(&self, a: usize)
        requires
            self.ranks(a),
        ensures
            !self.ahead(a, a),
    ;

    /// Of two items one comes before the other.
    proof fn total(&self, a: usize, b: usize)
        requires
            self.ranks(a),
            self.ranks(b),
            a != b,
        ensures
            self.ahead(a, b) || self.ahead(b, a),
    ;

    /// What comes before an item comes before all that follow it.
    proof fn transitive(&self, a: usize, b: usize, c: usize)
        requires
            self.ranks(a),
            self.ranks(b),
            self.ranks(c),
            self.ahead(a, b),
            self.ahead(b, c),
        ensures
            self.ahead(a, c),
    ;

    /// Whether item `a` comes before item `b`.
    fn is_ahead(&self, a: usize, b: usize) -> (r: bool)
        requires
            self.ranks(a),
            self.ranks(b),
        ensures
            r == self.ahead(a, b),
    ;
}

/// Whether all items of a list take part in a ranking.
pub open spec fn all_ranked<R: Ranking>(ranking: &R, items: Seq<usize>) -> bool {
    forall|i: int| 0 <= i < items.len() ==> ranking.ranks(#[trigger] items[i])
}

/// Whether each item of a list comes before all that stand after it.
pub open spec fn in_order<R: Ranking>(ranking: &R, items: Seq<usize>) -> bool {
    forall|i: int, j: int|
        0 <= i < j < items.len() ==> ranking.ahead(#[trigger] items[i], #[trigger] items[j])
}

/// Whether all items of one list come before all of another.
spec fn all_ahead<R: Ranking>(ranking: &R, first: Seq<usize>, second: Seq<usize>) -> bool {
    forall|i: int, j: int|
        0 <= i < first.len() && 0 <= j < second.len() ==> ranking.ahead(
            #[trigger] first[i],
            #[trigger] second[j],
        )
}

/// Whether two lists have no item in common.
spec fn apart(first: Seq<usize>, second: Seq<usize>) -> bool {
    forall|i: int, j: int|
        0 <= i < first.len() && 0 <= j < second.len() ==> #[trigger] first[i]
            != #[trigger] second[j]
}

/// Taking one more item of a list adds it to the multiset.
proof fn lemma_take_one_more(items: Seq<usize>, n: int)
    requires
        0 <= n < items.len(),
    ensures
        items.take(n + 1).to_multiset() == items.take(n).to_multiset().insert(items[n]),
{
    assert(items.take(n + 1) =~= items.take(n).push(items[n]));
    items.take(n).to_multiset_ensures();
}

/// Appends item `head` of the rest of a list to the output of a merge.
proof fn lemma_step<R: Ranking>(
    ranking: &R,
    out: Seq<usize>,
    mine: Seq<usize>,
    other: Seq<usize>,
)
    requires
        mine.len() > 0,
        all_ranked(ranking, mine),
        all_ranked(ranking, other),
        in_order(ranking, out),
        in_order(ranking, mine),
        in_order(ranking, other),
        all_ahead(ranking, out, mine),
        all_ahead(ranking, out, other),
        other.len() > 0 ==> ranking.ahead(mine[0], other[0]),
    ensures
        in_order(ranking, out.push(mine[0])),
        all_ahead(ranking, out.push(mine[0]), mine.skip(1)),
        all_ahead(ranking, out.push(mine[0]), other),
{
    assert forall|i: int, j: int|
        0 <= i < out.push(mine[0]).len() && 0 <= j < other.len() implies ranking.ahead(
        #[trigger] out.push(mine[0])[i],
        #[trigger] other[j],
    ) by {
        if i == out.len() && j > 0 {
            ranking.transitive(mine[0], other[0], other[j]);
        }
    }
}

/// Merges two ordered lists.
fn merge<R: Ranking>(ranking: &R, left: &Vec<usize>, right: &Vec<usize>) -> (out: Vec<usize>)
    requires
        all_ranked(ranking, left@),
        all_ranked(ranking, right@),
        in_order(ranking, left@),
        in_order(ranking, right@),
        apart(left@, right@),
    ensures
        in_order(ranking, out@),
        out@.to_multiset() == left@.to_multiset().add(right@.to_multiset()),
{
    let mut out: Vec<usize> = Vec::new();
    let mut i: usize = 0;
    let mut j: usize = 0;
    assert(out@.to_multiset() =~= left@.take(0).to_multiset().add(right@.take(0).to_multiset())) by {
        assert(left@.take(0) =~= out@);
        assert(right@.take(0) =~= out@);
        out@.to_multiset_ensures();
    }
    assert(left@.skip(0) =~= left@);
    assert(right@.skip(0) =~= right@);
    while i < left.len() || j < right.len()
        invariant
            i <= left@.len(),
            j <= right@.len(),
            all_ranked(ranking, left@),
            all_ranked(ranking, right@),
            in_order(ranking, left@),
            in_order(ranking, right@),
            apart(left@, right@),
            in_order(ranking, out@),
            all_ahead(ranking, out@, left@.skip(i as int)),
            all_ahead(ranking, out@, right@.skip(j as int)),
            out@.to_multiset() == left@.take(i as int).to_multiset().add(
                right@.take(j as int).to_multiset(),
            ),
        decreases left@.len() - i + right@.len() - j,
    {
        let ghost rest_left = left@.skip(i as int);
        let ghost rest_right = right@.skip(j as int);
        let from_left = if i == left.len() {
            false
        } else if j == right.len() {
            true
        } else {
            proof {
                assert(left@[i as int] != right@[j as int]);
                ranking.total(left@[i as int], right@[j as int]);
            }
            ranking.is_ahead(left[i], right[j])
        };
        proof {
            out@.to_multiset_ensures();
        }
        if from_left {
            proof {
                lemma_step(ranking, out@, rest_left, rest_right);
                lemma_take_one_more(left@, i as int);
                assert(rest_left.skip(1) =~= left@.skip(i + 1));
            }
            let ghost grown = out@.to_multiset().insert(left@[i as int]);
            assert(grown =~= left@.take(i + 1).to_multiset().add(right@.take(j as int).to_multiset()));
            out.push(left[i]);
            i += 1;
        } else {
            proof {
                lemma_step(ranking, out@, rest_right, rest_left);
                lemma_take_one_more(right@, j as int);
                assert(rest_right.skip(1) =~= right@.skip(j + 1));
            }
            let ghost grown = out@.to_multiset().insert(right@[j as int]);
            assert(grown =~= left@.take(i as int).to_multiset().add(right@.take(j + 1).to_multiset()));
            out.push(right[j]);
            j += 1;
        }
    }
    assert(left@.take(left@.len() as int) =~= left@);
    assert(right@.take(right@.len() as int) =~= right@);
    out
}

/// Puts items in the order of a ranking.
pub fn sort<R: Ranking>(ranking: &R, items: Vec<usize>) -> (sorted: Vec<usize>)
    requires
        all_ranked(ranking, items@),
        items@.no_duplicates(),
    ensures
        in_order(ranking, sorted@),
        sorted@.to_multiset() == items@.to_multiset(),
    decreases items@.len(),
{
    if items.len() <= 1 {
        return items;
    }
    let ghost whole = items@;
    let mut first = items;
    let half: usize = first.len() / 2;
    let second = first.split_off(half);
    let ghost front = first@;
    let ghost back = second@;
    assert(whole =~= front + back);
    assert forall|i: int| 0 <= i < front.len() implies ranking.ranks(#[trigger] front[i]) by {
        assert(front[i] == whole[i]);
    }
    assert forall|i: int| 0 <= i < back.len() implies ranking.ranks(#[trigger] back[i]) by {
        assert(back[i] == whole[half + i]);
    }
    let left = sort(ranking, first);
    let right = sort(ranking, second);
    proof {
        lemma_multiset_commutative(front, back);
        lemma_same_items(front, left@);
        lemma_same_items(back, right@);
        assert forall|i: int| 0 <= i < left@.len() implies ranking.ranks(#[trigger] left@[i]) by {
            assert(front.contains(left@[i]));
        }
        assert forall|i: int| 0 <= i < right@.len() implies ranking.ranks(#[trigger] right@[i]) by {
            assert(back.contains(right@[i]));
        }
        assert forall|i: int, j: int|
            0 <= i < left@.len() && 0 <= j < right@.len() implies #[trigger] left@[i]
            != #[trigger] right@[j] by {
            assert(front.contains(left@[i]));
            assert(back.contains(right@[j]));
            let a = choose|a: int| 0 <= a < front.len() && front[a] == left@[i];
            let b = choose|b: int| 0 <= b < back.len() && back[b] == right@[j];
            assert(whole[a] == front[a]);
            assert(whole[half + b] == back[b]);
        }
    }
    merge(ranking, &left, &right)
}

/// The items have only one order.
pub proof fn lemma_one_order<R: Ranking>(ranking: &R, a: Seq<usize>, b: Seq<usize>)
    requires
        all_ranked(ranking, a),
        in_order(ranking, a),
        in_order(ranking, b),
        a.to_multiset() == b.to_multiset(),
    ensures
        a == b,
    decreases a.len(),
{
    lemma_same_items(a, b);
    if a.len() == 0 {
        assert(a =~= b);
    } else {
        let x = a.last();
        let y = b.last();
        assert(b.contains(x)) by {
            assert(a.contains(x));
        }
        assert(a.contains(y)) by {
            assert(b.contains(y));
        }
        let i = b.index_of(x);
        let j = a.index_of(y);
        if x != y {
            assert(ranking.ahead(b[i], b[b.len() - 1]));
            assert(ranking.ahead(a[j], a[a.len() - 1]));
            ranking.transitive(x, y, x);
            ranking.irreflexive(x);
        }
        a.to_multiset_ensures();
        b.to_multiset_ensures();
        assert(a.remove(a.len() - 1) =~= a.drop_last());
        assert(b.remove(b.len() - 1) =~= b.drop_last());
        lemma_one_order(ranking, a.drop_last(), b.drop_last());
        assert(a =~= a.drop_last().push(x));
        assert(b =~= b.drop_last().push(y));
    }
}

/// Lists with one multiset have the same length and the same items, and if
/// one holds no item twice neither does the other.
pub proof fn lemma_same_items(a: Seq<usize>, b: Seq<usize>)
    requires
        a.to_multiset() == b.to_multiset(),
    ensures
        a.len() == b.len(),
        forall|x: usize| a.contains(x) <==> b.contains(x),
        a.no_duplicates() ==> b.no_duplicates(),
{
    a.to_multiset_ensures();
    b.to_multiset_ensures();
    assert forall|x: usize| a.contains(x) <==> b.contains(x) by {
        assert(a.contains(x) <==> a.to_multiset().count(x) > 0);
        assert(b.contains(x) <==> b.to_multiset().count(x) > 0);
    }
    if a.no_duplicates() {
        a.lemma_multiset_has_no_duplicates();
        b.lemma_multiset_has_no_duplicates_conv();
    }
}

} // verus!
