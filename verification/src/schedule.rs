//! The order in which a tick visits its working set: shuffled, so that no
//! side is preferred, and then sorted by row without disturbing the shuffle
//! within a row, so that what lies lower moves first.

use crate::particle::Particle;
use crate::random::shuffle_indices;
use rand::rngs::StdRng;
use vstd::prelude::*;

verus! {

/// The row of the particle that each index of `particles` stands for.
pub open spec fn row_of(particles: Seq<Particle>) -> spec_fn(usize) -> int {
    |k: usize| particles[k as int].position.y as int
}

/// The test for the indices whose row is `r`.
pub open spec fn in_row(rows: spec_fn(usize) -> int, r: int) -> spec_fn(usize) -> bool {
    |k: usize| rows(k) == r
}

/// The test for the indices whose row is below `r` and not negative.
pub open spec fn below_row(rows: spec_fn(usize) -> int, r: int) -> spec_fn(usize) -> bool {
    |k: usize| 0 <= rows(k) < r
}

/// The indices `order` sorted by row, for the rows below `height`: those of
/// row zero in the order they have in `order`, then those of row one, and so
/// on.
pub open spec fn by_rows(order: Seq<usize>, rows: spec_fn(usize) -> int, height: int) -> Seq<usize>
    decreases height,
{
    if height <= 0 {
        Seq::empty()
    } else {
        by_rows(order, rows, height - 1) + order.filter(in_row(rows, height - 1))
    }
}

/// Whether every index of `order` stands for a particle, and one in a row
/// below `height`.
pub open spec fn order_ok(order: Seq<usize>, particles: Seq<Particle>, height: int) -> bool {
    forall|i: int|
        0 <= i < order.len() ==> (#[trigger] order[i]) < particles.len() && 0 <= row_of(particles)(
            order[i],
        ) < height
}

/// Sorts `order` by the rows of the particles it stands for, keeping the
/// order within each row.
pub fn sort_by_row(order: &Vec<usize>, particles: &Vec<Particle>, height: i32) -> (sorted: Vec<
    usize,
>)
    requires
        forall|i: int| 0 <= i < order@.len() ==> (#[trigger] order@[i]) < particles@.len(),
    ensures
        sorted@ == by_rows(order@, row_of(particles@), height as int),
{
    let ghost rows = row_of(particles@);
    let mut sorted: Vec<usize> = Vec::with_capacity(order.len());
    let mut r: i32 = 0;
    while r < height
        invariant
            rows == row_of(particles@),
            0 <= r,
            r <= height || (height < 0 && r == 0),
            forall|i: int| 0 <= i < order@.len() ==> (#[trigger] order@[i]) < particles@.len(),
            sorted@ == by_rows(order@, rows, r as int),
        decreases height - r,
    {
        let ghost before = sorted@;
        let mut i: usize = 0;
        while i < order.len()
            invariant
                rows == row_of(particles@),
                i <= order@.len(),
                forall|j: int| 0 <= j < order@.len() ==> (#[trigger] order@[j]) < particles@.len(),
                sorted@ == before + order@.take(i as int).filter(in_row(rows, r as int)),
            decreases order.len() - i,
        {
            let k: usize = order[i];
            proof {
                order@.take(i as int).lemma_filter_push(k, in_row(rows, r as int));
                assert(order@.take(i + 1) =~= order@.take(i as int).push(k));
            }
            if particles[k].position.y == r {
                sorted.push(k);
                assert(sorted@ =~= before + order@.take(i + 1).filter(in_row(rows, r as int)));
            }
            i += 1;
        }
        assert(order@.take(i as int) =~= order@);
        r += 1;
    }
    sorted
}

/// What is sorted by row was in the order before, and lies in a row below
/// `height`.
pub proof fn lemma_by_rows_members(order: Seq<usize>, rows: spec_fn(usize) -> int, height: int)
    ensures
        forall|i: int|
            0 <= i < by_rows(order, rows, height).len() ==> {
                let k = #[trigger] by_rows(order, rows, height)[i];
                order.contains(k) && 0 <= rows(k) < height
            },
    decreases height,
{
    if height > 0 {
        lemma_by_rows_members(order, rows, height - 1);
        let head = by_rows(order, rows, height - 1);
        let tail = order.filter(in_row(rows, height - 1));
        assert forall|i: int| 0 <= i < by_rows(order, rows, height).len() implies {
            let k = #[trigger] by_rows(order, rows, height)[i];
            order.contains(k) && 0 <= rows(k) < height
        } by {
            if i < head.len() {
                assert(by_rows(order, rows, height)[i] == head[i]);
            } else {
                let j = i - head.len();
                assert(by_rows(order, rows, height)[i] == tail[j]);
                order.lemma_filter_pred(in_row(rows, height - 1), j);
                assert(tail.contains(tail[j]));
                order.lemma_filter_contains_rev(in_row(rows, height - 1), tail[j]);
            }
        }
    }
}

/// Sorting by row puts what lies lower first.
pub proof fn lemma_by_rows_sorted(order: Seq<usize>, rows: spec_fn(usize) -> int, height: int)
    ensures
        forall|a: int, b: int|
            0 <= a < b < by_rows(order, rows, height).len() ==> rows(
                #[trigger] by_rows(order, rows, height)[a],
            ) <= rows(#[trigger] by_rows(order, rows, height)[b]),
    decreases height,
{
    if height > 0 {
        lemma_by_rows_sorted(order, rows, height - 1);
        lemma_by_rows_members(order, rows, height - 1);
        let head = by_rows(order, rows, height - 1);
        let tail = order.filter(in_row(rows, height - 1));
        let all = by_rows(order, rows, height);
        assert forall|a: int, b: int| 0 <= a < b < all.len() implies rows(#[trigger] all[a]) <= rows(
            #[trigger] all[b],
        ) by {
            if a < head.len() {
                assert(all[a] == head[a]);
            } else {
                assert(all[a] == tail[a - head.len()]);
                order.lemma_filter_pred(in_row(rows, height - 1), a - head.len());
            }
            if b < head.len() {
                assert(all[b] == head[b]);
            } else {
                assert(all[b] == tail[b - head.len()]);
                order.lemma_filter_pred(in_row(rows, height - 1), b - head.len());
            }
        }
    }
}

/// The indices of rows below `r` and those of row `r` are, together, those
/// of the rows below `r + 1`.
proof fn lemma_rows_split(order: Seq<usize>, rows: spec_fn(usize) -> int, r: int)
    requires
        0 <= r,
    ensures
        order.filter(below_row(rows, r)).to_multiset().add(
            order.filter(in_row(rows, r)).to_multiset(),
        ) == order.filter(below_row(rows, r + 1)).to_multiset(),
    decreases order.len(),
{
    broadcast use vstd::seq_lib::to_multiset_build;
    broadcast use vstd::multiset::group_multiset_axioms;

    let low = below_row(rows, r);
    let at = in_row(rows, r);
    let both = below_row(rows, r + 1);
    if order.len() == 0 {
        broadcast use vstd::seq_lib::group_to_multiset_ensures;

        order.lemma_filter_len(low);
        order.lemma_filter_len(at);
        order.lemma_filter_len(both);
        assert(order.filter(low) =~= Seq::<usize>::empty());
        assert(order.filter(at) =~= Seq::<usize>::empty());
        assert(order.filter(both) =~= Seq::<usize>::empty());
        assert(Seq::<usize>::empty().to_multiset().len() == 0);
        assert(order.filter(low).to_multiset().add(order.filter(at).to_multiset())
            =~= order.filter(both).to_multiset());
    } else {
        let rest = order.drop_last();
        let k = order.last();
        lemma_rows_split(rest, rows, r);
        assert(rest.push(k) =~= order);
        rest.lemma_filter_push(k, low);
        rest.lemma_filter_push(k, at);
        rest.lemma_filter_push(k, both);
        assert(both(k) == (low(k) || at(k)));
        assert(!(low(k) && at(k)));
        let below = rest.filter(low).to_multiset();
        let level = rest.filter(at).to_multiset();
        if low(k) {
            assert(order.filter(low).to_multiset() =~= below.insert(k));
            assert(order.filter(both).to_multiset() =~= below.add(level).insert(k));
            assert(below.insert(k).add(level) =~= below.add(level).insert(k));
        } else if at(k) {
            assert(order.filter(at).to_multiset() =~= level.insert(k));
            assert(order.filter(both).to_multiset() =~= below.add(level).insert(k));
            assert(below.add(level.insert(k)) =~= below.add(level).insert(k));
        }
    }
}

/// A test that nothing passes filters everything out.
proof fn lemma_filter_none(s: Seq<usize>, pred: spec_fn(usize) -> bool)
    requires
        forall|i: int| 0 <= i < s.len() ==> !pred(#[trigger] s[i]),
    ensures
        s.filter(pred) == Seq::<usize>::empty(),
    decreases s.len(),
{
    reveal(Seq::filter);
    if s.len() > 0 {
        let rest = s.drop_last();
        assert forall|i: int| 0 <= i < rest.len() implies !pred(#[trigger] rest[i]) by {
            assert(rest[i] == s[i]);
        }
        lemma_filter_none(rest, pred);
    }
}

/// Sorting by row keeps every index whose row is below `height`, as often
/// as it occurs.
pub proof fn lemma_by_rows_keeps(order: Seq<usize>, rows: spec_fn(usize) -> int, height: int)
    ensures
        by_rows(order, rows, height).to_multiset() == order.filter(
            below_row(rows, height),
        ).to_multiset(),
    decreases height,
{
    if height <= 0 {
        lemma_filter_none(order, below_row(rows, height));
    } else {
        lemma_by_rows_keeps(order, rows, height - 1);
        lemma_rows_split(order, rows, height - 1);
        vstd::seq_lib::lemma_multiset_commutative(
            by_rows(order, rows, height - 1),
            order.filter(in_row(rows, height - 1)),
        );
    }
}

/// Sorting by row permutes: where every index lies in a row below `height`,
/// the sorted order holds each as often as the order before.
pub proof fn lemma_by_rows_permutes(order: Seq<usize>, rows: spec_fn(usize) -> int, height: int)
    requires
        forall|i: int| 0 <= i < order.len() ==> 0 <= rows(#[trigger] order[i]) < height,
    ensures
        by_rows(order, rows, height).to_multiset() == order.to_multiset(),
{
    lemma_by_rows_keeps(order, rows, height);
    lemma_filter_all(order, below_row(rows, height));
}

/// A test that everything passes filters nothing out.
proof fn lemma_filter_all(s: Seq<usize>, pred: spec_fn(usize) -> bool)
    requires
        forall|i: int| 0 <= i < s.len() ==> pred(#[trigger] s[i]),
    ensures
        s.filter(pred) == s,
    decreases s.len(),
{
    reveal(Seq::filter);
    if s.len() > 0 {
        let rest = s.drop_last();
        assert forall|i: int| 0 <= i < rest.len() implies pred(#[trigger] rest[i]) by {
            assert(rest[i] == s[i]);
        }
        lemma_filter_all(rest, pred);
        assert(rest.push(s.last()) =~= s);
    }
}

/// The indices below `n`, in ascending order.
pub open spec fn indices_below(n: nat) -> Seq<usize> {
    Seq::new(n, |i: int| i as usize)
}

/// Whether `shuffled` holds each index below `n` exactly once.
pub open spec fn is_shuffle(shuffled: Seq<usize>, n: nat) -> bool {
    shuffled.to_multiset() == indices_below(n).to_multiset()
}

/// What is shuffled from the indices below `n` is below `n`.
pub proof fn lemma_shuffle_members(shuffled: Seq<usize>, n: nat)
    requires
        is_shuffle(shuffled, n),
    ensures
        forall|i: int| 0 <= i < shuffled.len() ==> (#[trigger] shuffled[i]) < n,
{
    broadcast use vstd::seq_lib::to_multiset_contains;

    assert forall|i: int| 0 <= i < shuffled.len() implies (#[trigger] shuffled[i]) < n by {
        assert(shuffled.contains(shuffled[i]));
        assert(indices_below(n).to_multiset().count(shuffled[i]) > 0);
        assert(indices_below(n).contains(shuffled[i]));
    }
}

/// The order in which a tick visits the particles of its working set: their
/// indices, shuffled and then sorted by row.
pub fn update_order(particles: &Vec<Particle>, height: i32, rng: &mut StdRng) -> (order: Vec<usize>)
    ensures
        exists|shuffled: Seq<usize>|
            is_shuffle(shuffled, particles@.len()) && order@ == #[trigger] by_rows(
                shuffled,
                row_of(particles@),
                height as int,
            ),
        forall|i: int| 0 <= i < order@.len() ==> (#[trigger] order@[i]) < particles@.len(),
{
    let mut shuffled: Vec<usize> = Vec::with_capacity(particles.len());
    let mut i: usize = 0;
    while i < particles.len()
        invariant
            i <= particles@.len(),
            shuffled@ == indices_below(i as nat),
        decreases particles.len() - i,
    {
        shuffled.push(i);
        i += 1;
        assert(shuffled@ =~= indices_below(i as nat));
    }
    shuffle_indices(rng, &mut shuffled);
    proof {
        lemma_shuffle_members(shuffled@, particles@.len());
    }
    let order = sort_by_row(&shuffled, particles, height);
    proof {
        lemma_by_rows_members(shuffled@, row_of(particles@), height as int);
        assert forall|i: int| 0 <= i < order@.len() implies (#[trigger] order@[i])
            < particles@.len() by {
            let k = by_rows(shuffled@, row_of(particles@), height as int)[i];
            assert(shuffled@.contains(k));
        }
    }
    order
}

} // verus!