//! Stable sorting by a total preorder.

use vstd::prelude::*;
use vstd::relations::*;
use vstd::seq_lib::*;
use vstd::set_lib::*;

verus! {

/// Values that a total preorder ranks.
pub trait Ranking: Sized {
    /// `self` may stand before `other`.
    spec fn before(&self, other: &Self) -> bool;

    /// Of two values, one may stand before the other.
    proof fn lemma_total(a: &Self, b: &Self)
        ensures
            a.before(b) || b.before(a),
    ;

    /// What may stand before a value may stand before all that the value
    /// may stand before.
    proof fn lemma_transitive(a: &Self, b: &Self, c: &Self)
        requires
            a.before(b),
            b.before(c),
        ensures
            a.before(c),
    ;
}

/// Ranked values whose rank can be decided at run time.
pub trait Ranked: Ranking {
    /// Decides whether `self` may stand before `other`.
    fn stands_before(&self, other: &Self) -> (b: bool)
        ensures
            b == self.before(other),
    ;
}

/// `a`, which came from position `a_from`, belongs before `b`, which came
/// from position `b_from`: by rank, and among equals by position.
pub open spec fn goes_before<T: Ranking>(a: T, a_from: int, b: T, b_from: int) -> bool {
    a.before(&b) && (b.before(&a) ==> a_from < b_from)
}

/// Each of `items` is the value of `input` at the position that `from`
/// gives for it.
pub open spec fn drawn<T>(input: Seq<T>, items: Seq<T>, from: Seq<int>) -> bool {
    &&& items.len() == from.len()
    &&& forall|i: int|
        0 <= i < items.len() ==> 0 <= #[trigger] from[i] < input.len() && items[i]
            == input[from[i]]
}

/// `items` stand in rank order, equals in the order of their positions.
pub open spec fn ranked<T: Ranking>(items: Seq<T>, from: Seq<int>) -> bool {
    forall|i: int, j: int|
        0 <= i < j < items.len() ==> goes_before(
            #[trigger] items[i],
            from[i],
            #[trigger] items[j],
            from[j],
        )
}

/// `output` is `input` sorted stably, as `from` shows: it holds the
/// values of `input`, each drawn from its own position, in rank order,
/// and values of equal rank in the order in which `input` has them.
pub open spec fn sorted_from<T: Ranking>(input: Seq<T>, output: Seq<T>, from: Seq<int>) -> bool {
    &&& output.len() == input.len()
    &&& drawn(input, output, from)
    &&& ranked(output, from)
}

/// `output` is `input` sorted stably.
pub open spec fn stably_sorted<T: Ranking>(input: Seq<T>, output: Seq<T>) -> bool {
    exists|from: Seq<int>| sorted_from(input, output, from)
}

/// The order in which stable sorting puts the positions of `input`: by
/// the rank of the values there, and among equals by position.
pub open spec fn position_order<T: Ranking>(input: Seq<T>) -> spec_fn(int, int) -> bool {
    |p: int, q: int| p == q || goes_before(input[p], p, input[q], q)
}

/// The order of positions is a total order.
proof fn lemma_position_order_total<T: Ranking>(input: Seq<T>)
    ensures
        total_ordering(position_order(input)),
{
    let r = position_order(input);
    assert forall|x: int, y: int, z: int| #[trigger] r(x, y) && #[trigger] r(y, z) implies r(
        x,
        z,
    ) by {
        if x != y && y != z {
            T::lemma_transitive(&input[x], &input[y], &input[z]);
            if input[z].before(&input[x]) {
                T::lemma_transitive(&input[z], &input[x], &input[y]);
                T::lemma_transitive(&input[y], &input[z], &input[x]);
            }
        }
    }
    assert forall|x: int, y: int| #[trigger] r(x, y) || #[trigger] r(y, x) by {
        T::lemma_total(&input[x], &input[y]);
    }
}

/// Sorting rearranges: what is sorted draws from every position of the
/// input, and from none twice.
pub proof fn lemma_positions_cover<T: Ranking>(input: Seq<T>, output: Seq<T>, from: Seq<int>)
    requires
        sorted_from(input, output, from),
    ensures
        from.no_duplicates(),
        forall|p: int| 0 <= p < input.len() <==> from.contains(p),
{
    let drawn_set = from.to_set();
    let all = set_int_range(0, input.len() as int);
    from.unique_seq_to_set();
    lemma_int_range(0, input.len() as int);
    assert(drawn_set.subset_of(all));
    lemma_subset_equality(drawn_set, all);
    assert forall|p: int| 0 <= p < input.len() <==> from.contains(p) by {
        assert(all.contains(p) <==> 0 <= p < input.len());
    }
}

/// Stable sorting has one result: two stable sorts of the same input are
/// the same sequence.
pub proof fn lemma_stable_sort_unique<T: Ranking>(input: Seq<T>, first: Seq<T>, second: Seq<T>)
    requires
        stably_sorted(input, first),
        stably_sorted(input, second),
    ensures
        first == second,
{
    let f = choose|from: Seq<int>| sorted_from(input, first, from);
    let g = choose|from: Seq<int>| sorted_from(input, second, from);
    let r = position_order(input);
    lemma_position_order_total(input);
    lemma_positions_cover(input, first, f);
    lemma_positions_cover(input, second, g);
    assert(sorted_by(f, r));
    assert(sorted_by(g, r));
    f.lemma_multiset_has_no_duplicates();
    g.lemma_multiset_has_no_duplicates();
    assert(f.to_multiset() =~= g.to_multiset()) by {
        assert forall|p: int| f.to_multiset().count(p) == g.to_multiset().count(p) by {
            to_multiset_contains(f, p);
            to_multiset_contains(g, p);
        }
    }
    lemma_sorted_unique(f, g, r);
    assert forall|i: int| 0 <= i < first.len() implies first[i] == second[i] by {
        assert(0 <= f[i] < input.len() && first[i] == input[f[i]]);
    }
}

/// `arranged` holds the values of `items`, each once and in any order:
/// `to` says where in `items` each of them stands.
pub open spec fn rearranged<T>(items: Seq<T>, arranged: Seq<T>, to: Seq<int>) -> bool {
    &&& arranged.len() == items.len()
    &&& drawn(items, arranged, to)
    &&& to.no_duplicates()
}

/// No two of `items` have the same rank.
pub open spec fn ranks_differ<T: Ranking>(items: Seq<T>) -> bool {
    forall|i: int, j: int|
        #![trigger items[i], items[j]]
        0 <= i < items.len() && 0 <= j < items.len() && i != j ==> !(items[i].before(&items[j])
            && items[j].before(&items[i]))
}

/// The order of the positions of `input` by the rank of the values
/// there; positions outside `input` come last, in their own order.
spec fn rank_order<T: Ranking>(input: Seq<T>) -> spec_fn(int, int) -> bool {
    |p: int, q: int|
        if 0 <= p < input.len() && 0 <= q < input.len() {
            p == q || input[p].before(&input[q])
        } else if 0 <= p < input.len() {
            true
        } else if 0 <= q < input.len() {
            false
        } else {
            p <= q
        }
}

/// Where no two values have the same rank, the order of positions by
/// rank is a total order.
proof fn lemma_rank_order_total<T: Ranking>(input: Seq<T>)
    requires
        ranks_differ(input),
    ensures
        total_ordering(rank_order(input)),
{
    let r = rank_order(input);
    assert forall|x: int, y: int, z: int| #[trigger] r(x, y) && #[trigger] r(y, z) implies r(
        x,
        z,
    ) by {
        if 0 <= x < input.len() && 0 <= y < input.len() && 0 <= z < input.len() && x != y && y
            != z {
            T::lemma_transitive(&input[x], &input[y], &input[z]);
        }
    }
    assert forall|x: int, y: int| #[trigger] r(x, y) || #[trigger] r(y, x) by {
        T::lemma_total(&input[x], &input[y]);
    }
    assert forall|x: int, y: int| #[trigger] r(x, y) && #[trigger] r(y, x) implies x == y by {
        if 0 <= x < input.len() && 0 <= y < input.len() && x != y {
            assert(!(input[x].before(&input[y]) && input[y].before(&input[x])));
        }
    }
}

/// As many different positions as a sequence is long are all its
/// positions.
proof fn lemma_positions_all(positions: Seq<int>, n: nat)
    requires
        positions.len() == n,
        positions.no_duplicates(),
        forall|i: int| 0 <= i < n ==> 0 <= #[trigger] positions[i] < n,
    ensures
        forall|p: int| 0 <= p < n <==> positions.contains(p),
{
    let held = positions.to_set();
    let all = set_int_range(0, n as int);
    positions.unique_seq_to_set();
    lemma_int_range(0, n as int);
    assert(held.subset_of(all));
    lemma_subset_equality(held, all);
    assert forall|p: int| 0 <= p < n <==> positions.contains(p) by {
        assert(all.contains(p) <==> 0 <= p < n);
    }
}

/// Where no two values have the same rank, sorting does not depend on
/// the order in which the values come: the same values in another order
/// are sorted into the same sequence.
pub proof fn lemma_sorting_ignores_arrangement<T: Ranking>(
    items: Seq<T>,
    arranged: Seq<T>,
    to: Seq<int>,
    first: Seq<T>,
    second: Seq<T>,
)
    requires
        rearranged(items, arranged, to),
        ranks_differ(items),
        stably_sorted(items, first),
        stably_sorted(arranged, second),
    ensures
        first == second,
{
    let n = items.len();
    let f = choose|from: Seq<int>| sorted_from(items, first, from);
    let g = choose|from: Seq<int>| sorted_from(arranged, second, from);
    let h = Seq::new(n, |i: int| to[g[i]]);
    let r = rank_order(items);
    lemma_rank_order_total(items);
    lemma_positions_cover(items, first, f);
    lemma_positions_cover(arranged, second, g);
    assert forall|i: int| 0 <= i < n implies 0 <= #[trigger] h[i] < n && second[i]
        == items[h[i]] by {
        assert(0 <= g[i] < n && second[i] == arranged[g[i]]);
        assert(0 <= to[g[i]] < n && arranged[g[i]] == items[to[g[i]]]);
    }
    assert(h.no_duplicates()) by {
        assert forall|i: int, j: int| 0 <= i < n && 0 <= j < n && i != j implies h[i] != h[j] by {
            assert(0 <= g[i] < n && 0 <= g[j] < n && g[i] != g[j]);
        }
    }
    lemma_positions_all(h, n);
    assert(sorted_by(f, r)) by {
        assert forall|i: int, j: int| 0 <= i < j < f.len() implies #[trigger] r(f[i], f[j]) by {
            assert(goes_before(first[i], f[i], first[j], f[j]));
            assert(0 <= f[i] < n && first[i] == items[f[i]]);
            assert(0 <= f[j] < n && first[j] == items[f[j]]);
        }
    }
    assert(sorted_by(h, r)) by {
        assert forall|i: int, j: int| 0 <= i < j < h.len() implies #[trigger] r(h[i], h[j]) by {
            assert(goes_before(second[i], g[i], second[j], g[j]));
            assert(second[i] == items[h[i]] && second[j] == items[h[j]]);
        }
    }
    f.lemma_multiset_has_no_duplicates();
    h.lemma_multiset_has_no_duplicates();
    assert(f.to_multiset() =~= h.to_multiset()) by {
        assert forall|p: int| f.to_multiset().count(p) == h.to_multiset().count(p) by {
            to_multiset_contains(f, p);
            to_multiset_contains(h, p);
        }
    }
    lemma_sorted_unique(f, h, r);
    assert forall|i: int| 0 <= i < first.len() implies first[i] == second[i] by {
        assert(0 <= f[i] < n && first[i] == items[f[i]]);
        assert(second[i] == items[h[i]]);
    }
}

/// `items` stand in falling rank order, equals in the falling order of
/// their positions.
spec fn falling<T: Ranking>(items: Seq<T>, from: Seq<int>) -> bool {
    forall|i: int, j: int|
        0 <= i < j < items.len() ==> goes_before(
            #[trigger] items[j],
            from[j],
            #[trigger] items[i],
            from[i],
        )
}

/// Every one of the first `count` of `low` belongs before every one of
/// `high`.
spec fn below<T: Ranking>(
    low: Seq<T>,
    low_from: Seq<int>,
    count: int,
    high: Seq<T>,
    high_from: Seq<int>,
) -> bool {
    forall|i: int, j: int|
        0 <= i < count && 0 <= j < high.len() ==> goes_before(
            #[trigger] low[i],
            low_from[i],
            #[trigger] high[j],
            high_from[j],
        )
}

/// Turns a falling sequence into a rising one.
fn reversed<T: Ranked>(
    items: Vec<T>,
    Ghost(input): Ghost<Seq<T>>,
    Ghost(from): Ghost<Seq<int>>,
) -> (result: (Vec<T>, Ghost<Seq<int>>))
    requires
        drawn(input, items@, from),
        falling(items@, from),
    ensures
        result.0@.len() == items@.len(),
        drawn(input, result.0@, result.1@),
        ranked(result.0@, result.1@),
{
    let ghost all = items@;
    let total: usize = items.len();
    let mut rest = items;
    let mut output: Vec<T> = Vec::new();
    let ghost mut output_from: Seq<int> = Seq::empty();
    while rest.len() > 0
        invariant
            all.len() == total,
            from.len() == total,
            rest@.len() + output@.len() == total,
            rest@ == all.subrange(0, rest@.len() as int),
            output_from.len() == output@.len(),
            forall|i: int|
                0 <= i < output@.len() ==> #[trigger] output@[i] == all[total - 1 - i]
                    && output_from[i] == from[total - 1 - i],
        decreases rest.len(),
    {
        let ghost at = rest@.len() - 1;
        let item = rest.pop().unwrap();
        output.push(item);
        proof {
            output_from = output_from.push(from[at]);
        }
    }
    proof {
        assert forall|i: int| 0 <= i < output@.len() implies 0 <= #[trigger] output_from[i]
            < input.len() && output@[i] == input[output_from[i]] by {
            assert(output@[i] == all[total - 1 - i]);
        }
    }
    (output, Ghost(output_from))
}

/// Merges two sorted runs, of which every value of the first was drawn
/// from a position before every position of the second.
fn merge<T: Ranked>(
    left: Vec<T>,
    right: Vec<T>,
    Ghost(input): Ghost<Seq<T>>,
    Ghost(left_from): Ghost<Seq<int>>,
    Ghost(right_from): Ghost<Seq<int>>,
) -> (result: (Vec<T>, Ghost<Seq<int>>))
    requires
        drawn(input, left@, left_from),
        drawn(input, right@, right_from),
        ranked(left@, left_from),
        ranked(right@, right_from),
        forall|i: int, j: int|
            0 <= i < left_from.len() && 0 <= j < right_from.len() ==> #[trigger] left_from[i]
                < #[trigger] right_from[j],
    ensures
        result.0@.len() == left@.len() + right@.len(),
        drawn(input, result.0@, result.1@),
        ranked(result.0@, result.1@),
{
    let ghost lower = left@;
    let ghost upper = right@;
    let mut left = left;
    let mut right = right;
    let mut taken: Vec<T> = Vec::new();
    let ghost mut taken_from: Seq<int> = Seq::empty();
    while left.len() > 0 || right.len() > 0
        invariant
            left@ == lower.subrange(0, left@.len() as int),
            right@ == upper.subrange(0, right@.len() as int),
            left@.len() <= lower.len(),
            right@.len() <= upper.len(),
            taken@.len() == (lower.len() - left@.len()) + (upper.len() - right@.len()),
            drawn(input, lower, left_from),
            drawn(input, upper, right_from),
            ranked(lower, left_from),
            ranked(upper, right_from),
            forall|i: int, j: int|
                0 <= i < left_from.len() && 0 <= j < right_from.len() ==> #[trigger] left_from[i]
                    < #[trigger] right_from[j],
            drawn(input, taken@, taken_from),
            falling(taken@, taken_from),
            below(lower, left_from, left@.len() as int, taken@, taken_from),
            below(upper, right_from, right@.len() as int, taken@, taken_from),
        decreases left.len() + right.len(),
    {
        let ghost li = left@.len() as int;
        let ghost ri = right@.len() as int;
        let from_right: bool = if left.len() == 0 {
            true
        } else if right.len() == 0 {
            false
        } else {
            left[left.len() - 1].stands_before(&right[right.len() - 1])
        };
        if from_right {
            let item = right.pop().unwrap();
            taken.push(item);
            proof {
                taken_from = taken_from.push(right_from[ri - 1]);
                assert forall|i: int, j: int|
                    0 <= i < li && 0 <= j < taken@.len() implies goes_before(
                    #[trigger] lower[i],
                    left_from[i],
                    #[trigger] taken@[j],
                    taken_from[j],
                ) by {
                    if j == taken@.len() - 1 {
                        if i < li - 1 {
                            T::lemma_transitive(&lower[i], &lower[li - 1], &upper[ri - 1]);
                        }
                    }
                }
            }
        } else {
            let item = left.pop().unwrap();
            taken.push(item);
            proof {
                taken_from = taken_from.push(left_from[li - 1]);
                if ri > 0 {
                    T::lemma_total(&lower[li - 1], &upper[ri - 1]);
                }
                assert forall|i: int, j: int|
                    0 <= i < ri && 0 <= j < taken@.len() implies goes_before(
                    #[trigger] upper[i],
                    right_from[i],
                    #[trigger] taken@[j],
                    taken_from[j],
                ) by {
                    if j == taken@.len() - 1 {
                        if i < ri - 1 {
                            T::lemma_transitive(&upper[i], &upper[ri - 1], &lower[li - 1]);
                            if lower[li - 1].before(&upper[i]) {
                                T::lemma_transitive(&lower[li - 1], &upper[i], &upper[ri - 1]);
                            }
                        }
                    }
                }
            }
        }
    }
    reversed(taken, Ghost(input), Ghost(taken_from))
}

/// Sorts `items` stably: by rank, and values of equal rank in the order
/// in which they came.
pub fn stable_sort<T: Ranked>(items: Vec<T>) -> (sorted: Vec<T>)
    ensures
        stably_sorted(items@, sorted@),
    decreases items@.len(),
{
    let ghost input = items@;
    let total: usize = items.len();
    if total <= 1 {
        proof {
            let from = Seq::new(input.len(), |i: int| i);
            assert(sorted_from(input, items@, from));
        }
        return items;
    }
    let middle: usize = total / 2;
    let mut left = items;
    let right = left.split_off(middle);
    let ghost left_input = left@;
    let ghost right_input = right@;
    let left = stable_sort(left);
    let right = stable_sort(right);
    let ghost left_from = choose|from: Seq<int>| sorted_from(left_input, left@, from);
    let ghost right_own = choose|from: Seq<int>| sorted_from(right_input, right@, from);
    let ghost right_from = Seq::new(right_own.len(), |i: int| right_own[i] + middle);
    let (sorted, Ghost(from)) = merge(
        left,
        right,
        Ghost(input),
        Ghost(left_from),
        Ghost(right_from),
    );
    proof {
        assert(sorted_from(input, sorted@, from));
    }
    sorted
}

} // verus!
