//! The piece supply: a bag that hands out the seven piece identifiers in a
//! random order, each once, and is refilled when it runs empty.

use vstd::prelude::*;
use vstd::seq_lib::*;
use rand::seq::SliceRandom;
use crate::pieces::is_piece;

verus! {

/// The seven piece identifiers in ascending order.
pub open spec fn all_pieces() -> Seq<usize> {
    seq![1usize, 2usize, 3usize, 4usize, 5usize, 6usize, 7usize]
}

/// What a bag may hold in the middle of a cycle: piece identifiers, none of
/// them twice.
pub open spec fn is_bag(bag: Seq<usize>) -> bool {
    &&& forall|i: int| 0 <= i < bag.len() ==> is_piece(#[trigger] bag[i] as int)
    &&& bag.no_duplicates()
}

/// A whole cycle: the seven identifiers, each exactly once, in some order.
pub open spec fn is_full_cycle(bag: Seq<usize>) -> bool {
    bag.to_multiset() == all_pieces().to_multiset()
}

/// One draw: a bag that holds something gives up its last item; an empty bag
/// is first refilled with a whole cycle in some order, so that the piece drawn
/// and what is left make up that cycle.
pub open spec fn draw_step(bag: Seq<usize>, piece: usize, rest: Seq<usize>) -> bool {
    if bag.len() > 0 {
        piece == bag.last() && rest == bag.drop_last()
    } else {
        is_full_cycle(rest.push(piece))
    }
}

/// The `k`-th draw of a run: it takes `pieces[k]` out of `bags[k]` and
/// leaves `bags[k + 1]`.
pub open spec fn step_at(bags: Seq<Seq<usize>>, pieces: Seq<usize>, k: int) -> bool {
    draw_step(bags[k], pieces[k], bags[k + 1])
}

/// `bags` lists the bag before the first draw of a run, after each draw, and
/// so at its end.
pub open spec fn is_draw_run(
    bag: Seq<usize>,
    pieces: Seq<usize>,
    rest: Seq<usize>,
    bags: Seq<Seq<usize>>,
) -> bool {
    &&& bags.len() == pieces.len() + 1
    &&& bags[0] == bag
    &&& bags[pieces.len() as int] == rest
    &&& forall|k: int| 0 <= k < pieces.len() ==> #[trigger] step_at(bags, pieces, k)
}

/// Consecutive draws: starting from `bag`, the draws give `pieces` in order
/// and leave `rest`.
pub open spec fn draws(bag: Seq<usize>, pieces: Seq<usize>, rest: Seq<usize>) -> bool {
    exists|bags: Seq<Seq<usize>>| is_draw_run(bag, pieces, rest, bags)
}

/// A whole cycle has seven items, is a valid bag, and holds every piece
/// identifier.
pub proof fn lemma_full_cycle(bag: Seq<usize>)
    requires
        is_full_cycle(bag),
    ensures
        bag.len() == 7,
        is_bag(bag),
        forall|id: usize| is_piece(id as int) ==> bag.contains(id),
{
    let all = all_pieces();
    to_multiset_len(bag);
    to_multiset_len(all);
    assert(all.no_duplicates());
    all.lemma_multiset_has_no_duplicates();
    bag.lemma_multiset_has_no_duplicates_conv();
    assert forall|i: int| 0 <= i < bag.len() implies is_piece(#[trigger] bag[i] as int) by {
        to_multiset_contains(bag, bag[i]);
        to_multiset_contains(all, bag[i]);
        assert(bag.contains(bag[i]));
        assert(all.contains(bag[i]));
    }
    assert forall|id: usize| is_piece(id as int) implies bag.contains(id) by {
        assert(all[id - 1] == id);
        assert(all.contains(id));
        to_multiset_contains(bag, id);
        to_multiset_contains(all, id);
    }
}

/// Taking the last item out of a valid bag leaves a valid bag and gives a
/// piece identifier.
pub proof fn lemma_bag_drop_last(bag: Seq<usize>)
    requires
        is_bag(bag),
        bag.len() > 0,
    ensures
        is_bag(bag.drop_last()),
        is_piece(bag.last() as int),
{
    let rest = bag.drop_last();
    assert forall|i: int| 0 <= i < rest.len() implies is_piece(#[trigger] rest[i] as int) by {
        assert(rest[i] == bag[i]);
    }
    assert forall|i: int, j: int| 0 <= i < rest.len() && 0 <= j < rest.len() && i != j implies rest[i]
        != rest[j] by {
        assert(rest[i] == bag[i] && rest[j] == bag[j]);
    }
}

/// A draw from a valid bag gives a piece identifier and leaves a valid bag.
pub proof fn lemma_draw_step_keeps_bag(bag: Seq<usize>, piece: usize, rest: Seq<usize>)
    requires
        is_bag(bag),
        draw_step(bag, piece, rest),
    ensures
        is_bag(rest),
        is_piece(piece as int),
{
    if bag.len() > 0 {
        lemma_bag_drop_last(bag);
    } else {
        let cycle = rest.push(piece);
        lemma_full_cycle(cycle);
        lemma_bag_drop_last(cycle);
        assert(cycle.drop_last() =~= rest);
    }
}

/// In a run of draws that the bag can serve without a refill, the bag
/// before draw `k` is the first bag without its last `k` items.
proof fn lemma_run_prefix(bag: Seq<usize>, pieces: Seq<usize>, rest: Seq<usize>, bags: Seq<Seq<usize>>, k: int)
    requires
        is_draw_run(bag, pieces, rest, bags),
        pieces.len() <= bag.len(),
        0 <= k <= pieces.len(),
    ensures
        bags[k] == bag.take(bag.len() - k),
    decreases k,
{
    if k == 0 {
        assert(bag.take(bag.len() as int) =~= bag);
    } else {
        lemma_run_prefix(bag, pieces, rest, bags, k - 1);
        assert(step_at(bags, pieces, k - 1));
        assert(bags[k] =~= bag.take(bag.len() - k));
    }
}

/// While the bag holds enough, the draws are fixed: they take its items from
/// the back, one by one.
pub proof fn lemma_draws_from_bag(bag: Seq<usize>, pieces: Seq<usize>, rest: Seq<usize>)
    requires
        draws(bag, pieces, rest),
        pieces.len() <= bag.len(),
    ensures
        rest == bag.take(bag.len() - pieces.len()),
        forall|k: int| 0 <= k < pieces.len() ==> #[trigger] pieces[k] == bag[bag.len() - 1 - k],
{
    let bags = choose|bags: Seq<Seq<usize>>| is_draw_run(bag, pieces, rest, bags);
    lemma_run_prefix(bag, pieces, rest, bags, pieces.len() as int);
    assert forall|k: int| 0 <= k < pieces.len() implies #[trigger] pieces[k] == bag[bag.len() - 1
        - k] by {
        lemma_run_prefix(bag, pieces, rest, bags, k);
        assert(step_at(bags, pieces, k));
    }
}

/// A run of draws continues from where its first draw left off.
pub proof fn lemma_draws_split(bag: Seq<usize>, pieces: Seq<usize>, rest: Seq<usize>)
    requires
        draws(bag, pieces, rest),
        pieces.len() > 0,
    ensures
        exists|mid: Seq<usize>|
            draw_step(bag, pieces[0], mid) && #[trigger] draws(mid, pieces.skip(1), rest),
{
    let bags = choose|bags: Seq<Seq<usize>>| is_draw_run(bag, pieces, rest, bags);
    let mid = bags[1];
    let tail = bags.skip(1);
    let later = pieces.skip(1);
    assert(step_at(bags, pieces, 0));
    assert forall|k: int| 0 <= k < later.len() implies #[trigger] step_at(tail, later, k) by {
        assert(step_at(bags, pieces, k + 1));
    }
    assert(is_draw_run(mid, later, rest, tail));
    assert(draws(mid, later, rest));
}

/// One draw followed by a run of draws is a run of draws.
pub proof fn lemma_draws_join(
    bag: Seq<usize>,
    piece: usize,
    mid: Seq<usize>,
    later: Seq<usize>,
    rest: Seq<usize>,
)
    requires
        draw_step(bag, piece, mid),
        draws(mid, later, rest),
    ensures
        draws(bag, seq![piece] + later, rest),
{
    let tail = choose|bags: Seq<Seq<usize>>| is_draw_run(mid, later, rest, bags);
    let bags = seq![bag] + tail;
    let pieces = seq![piece] + later;
    assert forall|k: int| 0 <= k < pieces.len() implies #[trigger] step_at(bags, pieces, k) by {
        if k > 0 {
            assert(step_at(tail, later, k - 1));
        }
    }
    assert(is_draw_run(bag, pieces, rest, bags));
}

/// No draw at all leaves the bag as it is.
pub proof fn lemma_draws_none(bag: Seq<usize>)
    ensures
        draws(bag, Seq::<usize>::empty(), bag),
{
    assert(is_draw_run(bag, Seq::<usize>::empty(), bag, seq![bag]));
}

/// Seven draws from a bag that holds a whole cycle give the seven
/// identifiers, each exactly once, and empty the bag, so that the draw after
/// them starts a new cycle.
pub proof fn lemma_seven_draws_from_full_bag(bag: Seq<usize>, pieces: Seq<usize>, rest: Seq<usize>)
    requires
        is_full_cycle(bag),
        pieces.len() == 7,
        draws(bag, pieces, rest),
    ensures
        is_full_cycle(pieces),
        pieces == bag.reverse(),
        rest.len() == 0,
{
    lemma_full_cycle(bag);
    lemma_draws_from_bag(bag, pieces, rest);
    assert(pieces =~= bag.reverse());
    bag.lemma_reverse_to_multiset();
}

/// Seven draws that start from an empty bag give the seven identifiers, each
/// exactly once, and leave the bag empty again.
pub proof fn lemma_seven_draws_from_empty_bag(pieces: Seq<usize>, rest: Seq<usize>)
    requires
        pieces.len() == 7,
        draws(Seq::<usize>::empty(), pieces, rest),
    ensures
        is_full_cycle(pieces),
        rest.len() == 0,
{
    let empty = Seq::<usize>::empty();
    lemma_draws_split(empty, pieces, rest);
    let mid = choose|mid: Seq<usize>|
        draw_step(empty, pieces[0], mid) && #[trigger] draws(mid, pieces.skip(1), rest);
    let cycle = mid.push(pieces[0]);
    lemma_full_cycle(cycle);
    lemma_draws_from_bag(mid, pieces.skip(1), rest);
    assert forall|k: int| 0 <= k < 7 implies pieces[k] == cycle.reverse()[k] by {
        if k > 0 {
            assert(pieces[k] == pieces.skip(1)[k - 1]);
        }
    }
    assert(pieces =~= cycle.reverse());
    cycle.lemma_reverse_to_multiset();
}

/// Rearranges the items in a random order. This is
/// `rand::seq::SliceRandom::shuffle`, driven by `rand::thread_rng()`, which
/// swaps items of the slice among themselves. Nothing is claimed of the order
/// that comes out, only that the items are the same ones, each as often as
/// before. The generator takes its seed from the system, when a thread
/// first uses it and again whenever it reseeds itself; where the system
/// gives no seed, the call panics. No value of `items` brings that about.
#[verifier::external_body]
fn shuffle(items: &mut Vec<usize>)
    ensures
        final(items)@.to_multiset() == old(items)@.to_multiset(),
{
    items.shuffle(&mut rand::thread_rng());
}

/// A bag filled with a whole cycle in a random order.
pub fn fresh_cycle() -> (bag: Vec<usize>)
    ensures
        is_full_cycle(bag@),
{
    let mut bag: Vec<usize> = vec![1, 2, 3, 4, 5, 6, 7];
    assert(bag@ =~= all_pieces());
    shuffle(&mut bag);
    bag
}

/// Takes the last item out of a bag that holds something.
pub fn take_last(bag: Vec<usize>) -> (drawn: (usize, Vec<usize>))
    requires
        bag.len() > 0,
    ensures
        drawn.0 == bag@.last(),
        drawn.1@ == bag@.drop_last(),
{
    let mut rest = bag;
    let piece = rest.pop().unwrap();
    assert(rest@ =~= bag@.drop_last());
    (piece, rest)
}

/// Draws one piece: returns it together with the bag that is left. An empty
/// bag is refilled with a whole cycle in a random order before the draw.
pub fn draw(bag: &Vec<usize>) -> (drawn: (usize, Vec<usize>))
    ensures
        draw_step(bag@, drawn.0, drawn.1@),
{
    if bag.len() == 0 {
        let cycle = fresh_cycle();
        proof {
            lemma_full_cycle(cycle@);
        }
        let drawn = take_last(cycle);
        assert(drawn.1@.push(drawn.0) =~= cycle@);
        drawn
    } else {
        let copy = bag.clone();
        assert(copy@ =~= bag@);
        take_last(copy)
    }
}

/// Whether the items are what a bag may hold: piece identifiers, none of
/// them twice.
pub fn is_valid_bag(bag: &Vec<usize>) -> (ok: bool)
    ensures
        ok == is_bag(bag@),
{
    let mut i: usize = 0;
    while i < bag.len()
        invariant
            i <= bag.len(),
            forall|a: int| 0 <= a < i ==> is_piece(#[trigger] bag@[a] as int),
            forall|a: int, b: int| 0 <= a < i && 0 <= b < a ==> bag@[a] != bag@[b],
        decreases bag.len() - i,
    {
        if bag[i] < 1 || bag[i] > 7 {
            return false;
        }
        let mut j: usize = 0;
        while j < i
            invariant
                j <= i,
                i < bag.len(),
                forall|b: int| 0 <= b < j ==> bag@[i as int] != bag@[b],
            decreases i - j,
        {
            if bag[j] == bag[i] {
                return false;
            }
            j += 1;
        }
        i += 1;
    }
    assert forall|a: int, b: int| 0 <= a < bag@.len() && 0 <= b < bag@.len() && a != b implies bag@[a]
        != bag@[b] by {
        if b < a {
        } else {
            assert(bag@[b] != bag@[a]);
        }
    }
    true
}

} // verus!
