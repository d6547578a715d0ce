//! Which producer coordinates an indexed footer entry keeps.
//!
//! The fold reads at most [`IDEMPOTENT_WINDOW`] batches of each producer, those
//! of its highest epoch, so an entry held in memory needs no more of them. The
//! laws at the end say that dropping the rest cannot be told from a fold.

use crate::producer::{ProducerCoord, Tail, IDEMPOTENT_WINDOW};
use vstd::prelude::*;

verus! {

/// The tail after the coordinates of producer `id` in `coords`, in log order,
/// for a region whose first record is at offset `base`.
pub open spec fn fold_coords(tail: Tail, coords: Seq<ProducerCoord>, id: i64, base: i64) -> Tail
    decreases coords.len(),
{
    if coords.len() == 0 {
        tail
    } else {
        let head = coords[0];
        let next = if head.carries_sequence() && head.producer_id == id {
            tail.after(
                head.producer_epoch,
                head.base_sequence,
                head.last_sequence,
                (base + head.offset_delta) as i64,
            )
        } else {
            tail
        };
        fold_coords(next, coords.skip(1), id, base)
    }
}

/// Whether `coord` folds, and no coordinate of its producer among `all` has a
/// higher epoch.
pub open spec fn is_current(coord: ProducerCoord, all: Seq<ProducerCoord>) -> bool {
    coord.carries_sequence() && forall|j: int|
        #![trigger all[j]]
        0 <= j < all.len() && all[j].carries_sequence() && all[j].producer_id == coord.producer_id
            ==> all[j].producer_epoch <= coord.producer_epoch
}

/// The current coordinates of producer `id` in `run`, a part of `all`.
pub open spec fn current_of(run: Seq<ProducerCoord>, all: Seq<ProducerCoord>, id: i64) -> Seq<
    ProducerCoord,
>
    decreases run.len(),
{
    if run.len() == 0 {
        Seq::empty()
    } else {
        let rest = current_of(run.skip(1), all, id);
        if run[0].producer_id == id && is_current(run[0], all) {
            seq![run[0]] + rest
        } else {
            rest
        }
    }
}

/// The coordinates of `run`, a part of `all`, worth keeping: those current in
/// `all` with fewer than [`IDEMPOTENT_WINDOW`] successors that are too.
pub open spec fn kept_of(run: Seq<ProducerCoord>, all: Seq<ProducerCoord>) -> Seq<ProducerCoord>
    decreases run.len(),
{
    if run.len() == 0 {
        Seq::empty()
    } else {
        let rest = kept_of(run.skip(1), all);
        if is_current(run[0], all) && current_of(run.skip(1), all, run[0].producer_id).len()
            < IDEMPOTENT_WINDOW {
            seq![run[0]] + rest
        } else {
            rest
        }
    }
}

/// What pruning leaves of an entry's coordinates.
pub open spec fn retained(coords: Seq<ProducerCoord>) -> Seq<ProducerCoord> {
    kept_of(coords, coords)
}

/// The coordinates of producer `id` in `coords`.
pub open spec fn of_producer(coords: Seq<ProducerCoord>, id: i64) -> Seq<ProducerCoord> {
    coords.filter(|coord: ProducerCoord| coord.producer_id == id)
}

/// The last [`IDEMPOTENT_WINDOW`] elements.
pub open spec fn last_window<A>(items: Seq<A>) -> Seq<A> {
    if items.len() > IDEMPOTENT_WINDOW {
        items.skip(items.len() - IDEMPOTENT_WINDOW)
    } else {
        items
    }
}

/// Where the association list holds `id`, if it does.
fn find_id<T>(list: &Vec<(i64, T)>, id: i64) -> (at: Option<usize>)
    ensures
        match at {
            Some(at) => at < list@.len() && list@[at as int].0 == id,
            None => forall|j: int| 0 <= j < list@.len() ==> (#[trigger] list@[j]).0 != id,
        },
{
    let mut at: usize = 0;
    while at < list.len()
        invariant
            at <= list@.len(),
            forall|j: int| 0 <= j < at ==> (#[trigger] list@[j]).0 != id,
        decreases list@.len() - at,
    {
        if list[at].0 == id {
            return Some(at);
        }
        at = at + 1;
    }
    None
}

/// The highest epoch of producer `id` among the coordinates of `seen` that fold.
spec fn highest(seen: Seq<ProducerCoord>, id: i64) -> Option<i16>
    decreases seen.len(),
{
    if seen.len() == 0 {
        None
    } else {
        let before = highest(seen.drop_last(), id);
        let coord = seen.last();
        if !coord.carries_sequence() || coord.producer_id != id {
            before
        } else {
            match before {
                Some(epoch) if epoch >= coord.producer_epoch => before,
                _ => Some(coord.producer_epoch),
            }
        }
    }
}

proof fn lemma_highest(seen: Seq<ProducerCoord>, id: i64)
    ensures
        forall|j: int|
            #![trigger seen[j]]
            0 <= j < seen.len() && seen[j].carries_sequence() && seen[j].producer_id == id ==> (
            highest(seen, id) matches Some(epoch) && seen[j].producer_epoch <= epoch),
        highest(seen, id) matches Some(epoch) ==> exists|j: int|
            0 <= j < seen.len() && (#[trigger] seen[j]).carries_sequence() && seen[j].producer_id
                == id && seen[j].producer_epoch == epoch,
    decreases seen.len(),
{
    if seen.len() > 0 {
        let init = seen.drop_last();
        lemma_highest(init, id);
        assert forall|j: int|
            #![trigger seen[j]]
            0 <= j < seen.len() && seen[j].carries_sequence() && seen[j].producer_id == id implies (
        highest(seen, id) matches Some(epoch) && seen[j].producer_epoch <= epoch) by {
            if j < init.len() {
                assert(init[j] == seen[j]);
            }
        }
        if highest(seen, id) is Some {
            if highest(seen, id) == highest(init, id) {
                let j = choose|j: int|
                    0 <= j < init.len() && (#[trigger] init[j]).carries_sequence()
                        && init[j].producer_id == id && Some(init[j].producer_epoch) == highest(
                        init,
                        id,
                    );
                assert(seen[j] == init[j]);
            } else {
                assert(seen[seen.len() - 1] == seen.last());
            }
        }
    }
}

/// Being current is having the highest epoch of one's producer.
proof fn lemma_current_is_highest(coord: ProducerCoord, all: Seq<ProducerCoord>, at: int)
    requires
        0 <= at < all.len(),
        all[at] == coord,
    ensures
        is_current(coord, all) == (coord.carries_sequence() && highest(all, coord.producer_id)
            == Some(coord.producer_epoch)),
{
    lemma_highest(all, coord.producer_id);
}

/// Whether `top` gives the highest folding epoch of every producer of `seen`.
spec fn is_top(top: Seq<(i64, i16)>, seen: Seq<ProducerCoord>) -> bool {
    &&& forall|a: int, b: int|
        #![trigger top[a], top[b]]
        0 <= a < b < top.len() ==> top[a].0 != top[b].0
    &&& forall|a: int|
        0 <= a < top.len() ==> highest(seen, (#[trigger] top[a]).0) == Some(top[a].1)
    &&& forall|id: i64|
        (forall|a: int| 0 <= a < top.len() ==> (#[trigger] top[a]).0 != id) ==> (
        #[trigger] highest(seen, id)) is None
}

/// The highest epoch of each producer, over the coordinates that fold.
fn top_epochs(coords: &Vec<ProducerCoord>) -> (top: Vec<(i64, i16)>)
    ensures
        is_top(top@, coords@),
{
    let mut top: Vec<(i64, i16)> = Vec::new();
    let mut i: usize = 0;
    assert(coords@.subrange(0, 0) =~= Seq::empty());
    while i < coords.len()
        invariant
            i <= coords@.len(),
            is_top(top@, coords@.subrange(0, i as int)),
        decreases coords@.len() - i,
    {
        let ghost before = top@;
        let ghost seen = coords@.subrange(0, i as int);
        let ghost more = coords@.subrange(0, i + 1);
        let coord = coords[i];
        proof {
            assert(more.drop_last() =~= seen);
            assert(more.last() == coord);
            assert forall|id: i64| id != coord.producer_id || !coord.carries_sequence() implies (
            #[trigger] highest(more, id)) == highest(seen, id) by {}
        }
        if coord.folds() {
            match find_id(&top, coord.producer_id) {
                Some(at) => {
                    let epoch: i16 = top[at].1;
                    if coord.producer_epoch > epoch {
                        top.set(at, (coord.producer_id, coord.producer_epoch));
                    }
                    assert(top@[at as int].0 == coord.producer_id);
                    proof {
                        assert forall|id: i64|
                            (forall|a: int|
                                0 <= a < top@.len() ==> (#[trigger] top@[a]).0 != id) implies (
                        #[trigger] highest(more, id)) is None by {
                            assert(forall|a: int|
                                0 <= a < before.len() ==> (#[trigger] before[a]).0 == top@[a].0);
                        }
                    }
                },
                None => {
                    top.push((coord.producer_id, coord.producer_epoch));
                    proof {
                        assert(highest(seen, coord.producer_id) is None);
                        assert forall|id: i64|
                            (forall|a: int|
                                0 <= a < top@.len() ==> (#[trigger] top@[a]).0 != id) implies (
                        #[trigger] highest(more, id)) is None by {
                            assert(top@[before.len() as int].0 != id);
                            assert(forall|a: int|
                                0 <= a < before.len() ==> (#[trigger] before[a]).0 == top@[a].0);
                        }
                    }
                },
            }
        }
        i = i + 1;
    }
    assert(coords@.subrange(0, i as int) =~= coords@);
    top
}

/// Whether `taken` counts, up to the window, the current coordinates of every
/// producer in `run`.
spec fn counts(taken: Seq<(i64, usize)>, run: Seq<ProducerCoord>, all: Seq<ProducerCoord>) -> bool {
    &&& forall|a: int, b: int|
        #![trigger taken[a], taken[b]]
        0 <= a < b < taken.len() ==> taken[a].0 != taken[b].0
    &&& forall|a: int|
        0 <= a < taken.len() ==> {
            let n = current_of(run, all, (#[trigger] taken[a]).0).len();
            taken[a].1 == if n < IDEMPOTENT_WINDOW {
                n
            } else {
                IDEMPOTENT_WINDOW as nat
            }
        }
    &&& forall|id: i64|
        (forall|a: int| 0 <= a < taken.len() ==> (#[trigger] taken[a]).0 != id) ==> (
        #[trigger] current_of(run, all, id)).len() == 0
}

/// Drop the coordinates that cannot change the tail their entry contributes to.
///
/// Walked newest first: the last [`IDEMPOTENT_WINDOW`] of a producer are the
/// first ones met.
pub fn retain_foldable(coords: &Vec<ProducerCoord>) -> (kept: Vec<ProducerCoord>)
    ensures
        kept@ == retained(coords@),
{
    let top = top_epochs(coords);
    let ghost all = coords@;
    let mut newest: Vec<ProducerCoord> = Vec::new();
    let mut taken: Vec<(i64, usize)> = Vec::new();
    let mut i: usize = coords.len();
    assert(all.skip(i as int) =~= Seq::empty());
    assert(newest@.reverse() =~= kept_of(all.skip(i as int), all));
    while i > 0
        invariant
            i <= coords@.len(),
            all == coords@,
            is_top(top@, all),
            counts(taken@, all.skip(i as int), all),
            newest@.reverse() == kept_of(all.skip(i as int), all),
        decreases i,
    {
        i = i - 1;
        let coord = coords[i];
        let ghost run = all.skip(i as int);
        let ghost rest = all.skip(i + 1);
        let ghost taken_before = taken@;
        proof {
            assert(run.skip(1) =~= rest);
            assert(run[0] == coord);
            assert(all[i as int] == coord);
        }
        let current = coord.folds() && match find_id(&top, coord.producer_id) {
            Some(at) => coord.producer_epoch == top[at].1,
            None => false,
        };
        proof {
            lemma_current_is_highest(coord, all, i as int);
            assert(current == is_current(coord, all));
            assert forall|id: i64| (id != coord.producer_id || !current) implies (
            #[trigger] current_of(run, all, id)) == current_of(rest, all, id) by {}
        }
        if current {
            let at: usize = match find_id(&taken, coord.producer_id) {
                Some(at) => at,
                None => {
                    taken.push((coord.producer_id, 0));
                    taken.len() - 1
                },
            };
            let ghost padded = taken@;
            proof {
                assert(counts(padded, rest, all)) by {
                    assert forall|id: i64|
                        (forall|a: int|
                            0 <= a < padded.len() ==> (#[trigger] padded[a]).0 != id) implies (
                    #[trigger] current_of(rest, all, id)).len() == 0 by {
                        assert forall|a: int| 0 <= a < taken_before.len() implies (
                        #[trigger] taken_before[a]).0 != id by {
                            assert(padded[a] == taken_before[a]);
                        }
                    }
                }
                assert(padded[at as int].0 == coord.producer_id);
                assert(current_of(run, all, coord.producer_id).len() == current_of(
                    rest,
                    all,
                    coord.producer_id,
                ).len() + 1);
            }
            let count: usize = taken[at].1;
            if count < IDEMPOTENT_WINDOW {
                taken.set(at, (coord.producer_id, count + 1));
                newest.push(coord);
                assert(newest@.reverse() =~= kept_of(run, all));
            }
            proof {
                assert forall|id: i64|
                    (forall|a: int| 0 <= a < taken@.len() ==> (#[trigger] taken@[a]).0 != id) implies (
                #[trigger] current_of(run, all, id)).len() == 0 by {
                    assert forall|a: int| 0 <= a < padded.len() implies (
                    #[trigger] padded[a]).0 != id by {
                        assert(taken@[a].0 == padded[a].0);
                    }
                    assert(taken@[at as int].0 != id);
                    assert(current_of(rest, all, id).len() == 0);
                }
            }
        }
    }
    let mut kept: Vec<ProducerCoord> = Vec::new();
    let mut k: usize = newest.len();
    assert(newest@.subrange(k as int, newest@.len() as int).reverse() =~= Seq::empty());
    while k > 0
        invariant
            k <= newest@.len(),
            kept@ == newest@.subrange(k as int, newest@.len() as int).reverse(),
        decreases k,
    {
        k = k - 1;
        kept.push(newest[k]);
        assert(kept@ =~= newest@.subrange(k as int, newest@.len() as int).reverse());
    }
    assert(newest@.subrange(0, newest@.len() as int) =~= newest@);
    assert(all.skip(0) =~= all);
    kept
}

/// The base sequence and offset that a coordinate leaves in a window.
spec fn pairs(coords: Seq<ProducerCoord>, base: i64) -> Seq<(i32, i64)> {
    coords.map_values(
        |coord: ProducerCoord| (coord.base_sequence, (base + coord.offset_delta) as i64),
    )
}

/// Whether every coordinate folds, is of producer `id` and of epoch `epoch`.
spec fn uniform(coords: Seq<ProducerCoord>, id: i64, epoch: i16) -> bool {
    forall|j: int|
        #![trigger coords[j]]
        0 <= j < coords.len() ==> coords[j].carries_sequence() && coords[j].producer_id == id
            && coords[j].producer_epoch == epoch
}

proof fn lemma_fold_above(tail: Tail, coords: Seq<ProducerCoord>, id: i64, base: i64, epoch: i16)
    requires
        uniform(coords, id, epoch),
        tail.epoch > epoch,
    ensures
        fold_coords(tail, coords, id, base) == tail,
    decreases coords.len(),
{
    if coords.len() > 0 {
        let rest = coords.skip(1);
        assert forall|j: int|
            #![trigger rest[j]]
            0 <= j < rest.len() implies rest[j].carries_sequence() && rest[j].producer_id == id
            && rest[j].producer_epoch == epoch by {
            assert(rest[j] == coords[j + 1]);
        }
        lemma_fold_above(tail, rest, id, base, epoch);
    }
}

/// Folding coordinates of one epoch leaves the last of them in the window.
proof fn lemma_fold_uniform(tail: Tail, coords: Seq<ProducerCoord>, id: i64, base: i64, epoch: i16)
    requires
        uniform(coords, id, epoch),
        coords.len() > 0,
        tail.bounded(),
        tail.epoch <= epoch,
    ensures
        fold_coords(tail, coords, id, base) == (Tail {
            epoch,
            seen: true,
            next_sequence: crate::producer::next_of(coords.last().last_sequence),
            window: last_window(
                (if tail.epoch < epoch {
                    Seq::empty()
                } else {
                    tail.window
                }) + pairs(coords, base),
            ),
        }),
    decreases coords.len(),
{
    let head = coords[0];
    let rest = coords.skip(1);
    let kept = if tail.epoch < epoch {
        Seq::<(i32, i64)>::empty()
    } else {
        tail.window
    };
    let pair = (head.base_sequence, (base + head.offset_delta) as i64);
    let next = tail.after(
        head.producer_epoch,
        head.base_sequence,
        head.last_sequence,
        (base + head.offset_delta) as i64,
    );
    assert(next.window =~= last_window(kept.push(pair)));
    assert(pairs(coords, base) =~= seq![pair] + pairs(rest, base));
    if rest.len() == 0 {
        assert(fold_coords(next, rest, id, base) == next);
        assert(kept + pairs(coords, base) =~= kept.push(pair));
    } else {
        assert forall|j: int|
            #![trigger rest[j]]
            0 <= j < rest.len() implies rest[j].carries_sequence() && rest[j].producer_id == id
            && rest[j].producer_epoch == epoch by {
            assert(rest[j] == coords[j + 1]);
        }
        lemma_fold_uniform(next, rest, id, base, epoch);
        assert(rest.last() == coords.last());
        assert(last_window(last_window(kept.push(pair)) + pairs(rest, base)) =~= last_window(
            kept + pairs(coords, base),
        ));
    }
}

proof fn lemma_fold_last_window(tail: Tail, coords: Seq<ProducerCoord>, id: i64, base: i64, epoch: i16)
    requires
        uniform(coords, id, epoch),
        tail.bounded(),
    ensures
        fold_coords(tail, last_window(coords), id, base) == fold_coords(tail, coords, id, base),
{
    let last = last_window(coords);
    assert(uniform(last, id, epoch)) by {
        assert forall|j: int|
            #![trigger last[j]]
            0 <= j < last.len() implies last[j].carries_sequence() && last[j].producer_id == id
            && last[j].producer_epoch == epoch by {
            assert(last[j] == coords[j + coords.len() - last.len()]);
        }
    }
    if coords.len() > 0 {
        if tail.epoch > epoch {
            lemma_fold_above(tail, coords, id, base, epoch);
            lemma_fold_above(tail, last, id, base, epoch);
        } else {
            lemma_fold_uniform(tail, coords, id, base, epoch);
            lemma_fold_uniform(tail, last, id, base, epoch);
            let kept = if tail.epoch < epoch {
                Seq::<(i32, i64)>::empty()
            } else {
                tail.window
            };
            assert(last_window(kept + pairs(last, base)) =~= last_window(
                kept + pairs(coords, base),
            ));
            assert(last.last() == coords.last());
        }
    } else {
        assert(last =~= coords);
    }
}

/// Whether `epoch` is what being current means for the coordinates of producer
/// `id` in `run`.
spec fn topped(run: Seq<ProducerCoord>, all: Seq<ProducerCoord>, id: i64, epoch: i16) -> bool {
    forall|j: int|
        #![trigger run[j]]
        0 <= j < run.len() && run[j].carries_sequence() && run[j].producer_id == id ==> {
            &&& run[j].producer_epoch <= epoch
            &&& is_current(run[j], all) <==> run[j].producer_epoch == epoch
        }
}

proof fn lemma_topped_skip(run: Seq<ProducerCoord>, all: Seq<ProducerCoord>, id: i64, epoch: i16)
    requires
        topped(run, all, id, epoch),
        run.len() > 0,
    ensures
        topped(run.skip(1), all, id, epoch),
{
    let rest = run.skip(1);
    assert forall|j: int|
        #![trigger rest[j]]
        0 <= j < rest.len() && rest[j].carries_sequence() && rest[j].producer_id == id implies {
        &&& rest[j].producer_epoch <= epoch
        &&& is_current(rest[j], all) <==> rest[j].producer_epoch == epoch
    } by {
        assert(rest[j] == run[j + 1]);
    }
}

proof fn lemma_current_uniform(run: Seq<ProducerCoord>, all: Seq<ProducerCoord>, id: i64, epoch: i16)
    requires
        topped(run, all, id, epoch),
    ensures
        uniform(current_of(run, all, id), id, epoch),
    decreases run.len(),
{
    if run.len() > 0 {
        lemma_topped_skip(run, all, id, epoch);
        lemma_current_uniform(run.skip(1), all, id, epoch);
        let rest = current_of(run.skip(1), all, id);
        let whole = current_of(run, all, id);
        assert forall|j: int|
            #![trigger whole[j]]
            0 <= j < whole.len() implies whole[j].carries_sequence() && whole[j].producer_id == id
            && whole[j].producer_epoch == epoch by {
            if run[0].producer_id == id && is_current(run[0], all) {
                if j > 0 {
                    assert(whole[j] == rest[j - 1]);
                } else {
                    assert(whole[0] == run[0]);
                }
            }
        }
    }
}

/// Once at the top epoch or above, the fold reads only current coordinates.
proof fn lemma_fold_current(
    tail: Tail,
    run: Seq<ProducerCoord>,
    all: Seq<ProducerCoord>,
    id: i64,
    base: i64,
    epoch: i16,
)
    requires
        topped(run, all, id, epoch),
        tail.epoch >= epoch,
    ensures
        fold_coords(tail, run, id, base) == fold_coords(tail, current_of(run, all, id), id, base),
    decreases run.len(),
{
    if run.len() > 0 {
        let head = run[0];
        lemma_topped_skip(run, all, id, epoch);
        let rest = current_of(run.skip(1), all, id);
        if head.carries_sequence() && head.producer_id == id && head.producer_epoch == epoch {
            let next = tail.after(
                head.producer_epoch,
                head.base_sequence,
                head.last_sequence,
                (base + head.offset_delta) as i64,
            );
            lemma_fold_current(next, run.skip(1), all, id, base, epoch);
            assert((seq![head] + rest).skip(1) =~= rest);
        } else {
            lemma_fold_current(tail, run.skip(1), all, id, base, epoch);
        }
    }
}

/// Below the top epoch, the first current coordinate starts the stream over, so
/// nothing of what came before it is left.
proof fn lemma_fold_restart(
    tail: Tail,
    other: Tail,
    run: Seq<ProducerCoord>,
    all: Seq<ProducerCoord>,
    id: i64,
    base: i64,
    epoch: i16,
)
    requires
        topped(run, all, id, epoch),
        tail.epoch < epoch,
        other.epoch < epoch,
        current_of(run, all, id).len() > 0,
    ensures
        fold_coords(tail, run, id, base) == fold_coords(other, current_of(run, all, id), id, base),
    decreases run.len(),
{
    if run.len() > 0 {
        let head = run[0];
        lemma_topped_skip(run, all, id, epoch);
        let rest = current_of(run.skip(1), all, id);
        if head.carries_sequence() && head.producer_id == id {
            let offset = (base + head.offset_delta) as i64;
            let next = tail.after(
                head.producer_epoch,
                head.base_sequence,
                head.last_sequence,
                offset,
            );
            if head.producer_epoch == epoch {
                assert(next == other.after(
                    head.producer_epoch,
                    head.base_sequence,
                    head.last_sequence,
                    offset,
                ));
                lemma_fold_current(next, run.skip(1), all, id, base, epoch);
                assert((seq![head] + rest).skip(1) =~= rest);
            } else {
                lemma_fold_restart(next, other, run.skip(1), all, id, base, epoch);
            }
        } else {
            lemma_fold_restart(tail, other, run.skip(1), all, id, base, epoch);
        }
    }
}

proof fn lemma_fold_none(tail: Tail, run: Seq<ProducerCoord>, id: i64, base: i64)
    requires
        forall|j: int|
            #![trigger run[j]]
            0 <= j < run.len() ==> !(run[j].carries_sequence() && run[j].producer_id == id),
    ensures
        fold_coords(tail, run, id, base) == tail,
    decreases run.len(),
{
    if run.len() > 0 {
        assert forall|j: int|
            #![trigger run.skip(1)[j]]
            0 <= j < run.skip(1).len() implies !(run.skip(1)[j].carries_sequence() && run.skip(
            1,
        )[j].producer_id == id) by {
            assert(run.skip(1)[j] == run[j + 1]);
        }
        lemma_fold_none(tail, run.skip(1), id, base);
    }
}

/// What is kept of a run folds as the last current coordinates of each producer.
proof fn lemma_fold_kept(
    tail: Tail,
    run: Seq<ProducerCoord>,
    all: Seq<ProducerCoord>,
    id: i64,
    base: i64,
)
    ensures
        fold_coords(tail, kept_of(run, all), id, base) == fold_coords(
            tail,
            last_window(current_of(run, all, id)),
            id,
            base,
        ),
    decreases run.len(),
{
    if run.len() > 0 {
        let head = run[0];
        let rest = run.skip(1);
        let later = current_of(rest, all, head.producer_id);
        let kept = kept_of(rest, all);
        if is_current(head, all) && later.len() < IDEMPOTENT_WINDOW {
            assert((seq![head] + kept).skip(1) =~= kept);
            if head.producer_id == id {
                let next = tail.after(
                    head.producer_epoch,
                    head.base_sequence,
                    head.last_sequence,
                    (base + head.offset_delta) as i64,
                );
                lemma_fold_kept(next, rest, all, id, base);
                assert(last_window(later) =~= later);
                assert(last_window(seq![head] + later) =~= seq![head] + later);
                assert((seq![head] + later).skip(1) =~= later);
            } else {
                lemma_fold_kept(tail, rest, all, id, base);
            }
        } else {
            lemma_fold_kept(tail, rest, all, id, base);
            if is_current(head, all) && head.producer_id == id {
                assert(last_window(seq![head] + later) =~= last_window(later));
            }
        }
    }
}

/// Pruning an entry's coordinates cannot change the fold: from any tail, for
/// every producer, the pruned entry leads to the very tail of the complete one,
/// and so does whatever is folded after it.
pub proof fn pruning_keeps_the_fold(tail: Tail, coords: Seq<ProducerCoord>, id: i64, base: i64)
    requires
        tail.bounded(),
    ensures
        fold_coords(tail, retained(coords), id, base) == fold_coords(tail, coords, id, base),
{
    lemma_highest(coords, id);
    lemma_fold_kept(tail, coords, coords, id, base);
    match highest(coords, id) {
        None => {
            lemma_fold_none(tail, coords, id, base);
            lemma_current_none(coords, coords, id);
            assert(last_window(current_of(coords, coords, id)) =~= Seq::empty());
        },
        Some(epoch) => {
            assert(topped(coords, coords, id, epoch)) by {
                assert forall|j: int|
                    #![trigger coords[j]]
                    0 <= j < coords.len() && coords[j].carries_sequence() && coords[j].producer_id
                        == id implies {
                    &&& coords[j].producer_epoch <= epoch
                    &&& is_current(coords[j], coords) <==> coords[j].producer_epoch == epoch
                } by {
                    lemma_current_is_highest(coords[j], coords, j);
                }
            }
            let current = current_of(coords, coords, id);
            lemma_current_uniform(coords, coords, id, epoch);
            lemma_fold_last_window(tail, current, id, base, epoch);
            if tail.epoch >= epoch {
                lemma_fold_current(tail, coords, coords, id, base, epoch);
            } else {
                let j = choose|j: int|
                    0 <= j < coords.len() && (#[trigger] coords[j]).carries_sequence()
                        && coords[j].producer_id == id && coords[j].producer_epoch == epoch;
                lemma_current_some(coords, coords, id, j);
                lemma_fold_restart(tail, tail, coords, coords, id, base, epoch);
            }
        },
    }
}

proof fn lemma_current_none(run: Seq<ProducerCoord>, all: Seq<ProducerCoord>, id: i64)
    requires
        forall|j: int|
            #![trigger run[j]]
            0 <= j < run.len() ==> !(run[j].carries_sequence() && run[j].producer_id == id),
    ensures
        current_of(run, all, id).len() == 0,
    decreases run.len(),
{
    if run.len() > 0 {
        assert forall|j: int|
            #![trigger run.skip(1)[j]]
            0 <= j < run.skip(1).len() implies !(run.skip(1)[j].carries_sequence() && run.skip(
            1,
        )[j].producer_id == id) by {
            assert(run.skip(1)[j] == run[j + 1]);
        }
        lemma_current_none(run.skip(1), all, id);
    }
}

proof fn lemma_current_some(run: Seq<ProducerCoord>, all: Seq<ProducerCoord>, id: i64, at: int)
    requires
        0 <= at < run.len(),
        run[at].producer_id == id,
        is_current(run[at], all),
    ensures
        current_of(run, all, id).len() > 0,
    decreases run.len(),
{
    if at > 0 {
        assert(run.skip(1)[at - 1] == run[at]);
        lemma_current_some(run.skip(1), all, id, at - 1);
    }
}

/// Every coordinate kept is one of the run, and current.
proof fn lemma_kept_members(run: Seq<ProducerCoord>, all: Seq<ProducerCoord>)
    ensures
        kept_of(run, all).len() <= run.len(),
        forall|j: int|
            #![trigger kept_of(run, all)[j]]
            0 <= j < kept_of(run, all).len() ==> is_current(kept_of(run, all)[j], all)
                && run.contains(kept_of(run, all)[j]),
    decreases run.len(),
{
    if run.len() > 0 {
        let rest = run.skip(1);
        lemma_kept_members(rest, all);
        let kept = kept_of(rest, all);
        let whole = kept_of(run, all);
        assert forall|j: int| #![trigger whole[j]] 0 <= j < whole.len() implies is_current(
            whole[j],
            all,
        ) && run.contains(whole[j]) by {
            let k = if whole.len() == kept.len() {
                j
            } else {
                j - 1
            };
            if k >= 0 {
                assert(whole[j] == kept[k]);
                let w = choose|w: int| 0 <= w < rest.len() && rest[w] == kept[k];
                assert(run[w + 1] == whole[j]);
            } else {
                assert(run[0] == whole[0]);
            }
        }
    }
}

/// The coordinates kept of one producer are the last of its current ones.
proof fn lemma_kept_count(run: Seq<ProducerCoord>, all: Seq<ProducerCoord>, id: i64)
    ensures
        of_producer(kept_of(run, all), id).len() == last_window(current_of(run, all, id)).len(),
    decreases run.len(),
{
    reveal(Seq::filter);
    if run.len() > 0 {
        let head = run[0];
        let rest = run.skip(1);
        lemma_kept_count(rest, all, id);
        if is_current(head, all) && current_of(rest, all, head.producer_id).len()
            < IDEMPOTENT_WINDOW {
            lemma_of_producer_cons(head, kept_of(rest, all), id);
        }
    }
}

proof fn lemma_of_producer_cons(head: ProducerCoord, rest: Seq<ProducerCoord>, id: i64)
    ensures
        of_producer(seq![head] + rest, id) == if head.producer_id == id {
            seq![head] + of_producer(rest, id)
        } else {
            of_producer(rest, id)
        },
    decreases rest.len(),
{
    reveal(Seq::filter);
    let whole = seq![head] + rest;
    if rest.len() == 0 {
        assert(whole.drop_last() =~= Seq::empty());
        assert(of_producer(whole.drop_last(), id) =~= Seq::empty());
    } else {
        lemma_of_producer_cons(head, rest.drop_last(), id);
        assert(whole.drop_last() =~= seq![head] + rest.drop_last());
        assert(whole.last() == rest.last());
        assert(of_producer(whole, id) =~= if head.producer_id == id {
            seq![head] + of_producer(rest, id)
        } else {
            of_producer(rest, id)
        });
    }
}

/// What is retained is bounded by the window and not by the history: never more
/// than there was, and at most [`IDEMPOTENT_WINDOW`] coordinates of a producer.
pub proof fn retained_is_bounded(coords: Seq<ProducerCoord>, id: i64)
    ensures
        retained(coords).len() <= coords.len(),
        of_producer(retained(coords), id).len() <= IDEMPOTENT_WINDOW,
{
    lemma_kept_members(coords, coords);
    lemma_kept_count(coords, coords, id);
}

/// The number of coordinates retained is at most [`IDEMPOTENT_WINDOW`] for each
/// distinct producer among them.
pub proof fn retained_is_bounded_by_producers(coords: Seq<ProducerCoord>, ids: Set<i64>)
    requires
        ids.finite(),
        forall|j: int|
            0 <= j < retained(coords).len() ==> ids.contains(
                (#[trigger] retained(coords)[j]).producer_id,
            ),
    ensures
        retained(coords).len() <= IDEMPOTENT_WINDOW * ids.len(),
{
    assert forall|id: i64| (#[trigger] of_producer(retained(coords), id)).len()
        <= IDEMPOTENT_WINDOW by {
        retained_is_bounded(coords, id);
    }
    lemma_len_by_producers(retained(coords), ids);
}

proof fn lemma_len_by_producers(coords: Seq<ProducerCoord>, ids: Set<i64>)
    requires
        ids.finite(),
        forall|j: int| 0 <= j < coords.len() ==> ids.contains((#[trigger] coords[j]).producer_id),
        forall|id: i64| (#[trigger] of_producer(coords, id)).len() <= IDEMPOTENT_WINDOW,
    ensures
        coords.len() <= IDEMPOTENT_WINDOW * ids.len(),
    decreases ids.len(),
{
    if ids.len() == 0 {
        if coords.len() > 0 {
            assert(ids.contains(coords[0].producer_id));
        }
    } else {
        let id = ids.choose();
        let others = coords.filter(|coord: ProducerCoord| coord.producer_id != id);
        lemma_split_producer(coords, id);
        assert forall|j: int| 0 <= j < others.len() implies ids.remove(id).contains(
            (#[trigger] others[j]).producer_id,
        ) by {
            coords.lemma_filter_contains_rev(
                |coord: ProducerCoord| coord.producer_id != id,
                others[j],
            );
            coords.lemma_filter_pred(|coord: ProducerCoord| coord.producer_id != id, j);
            let w = choose|w: int| 0 <= w < coords.len() && coords[w] == others[j];
            assert(ids.contains(coords[w].producer_id));
        }
        assert forall|k: i64| (#[trigger] of_producer(others, k)).len() <= IDEMPOTENT_WINDOW by {
            lemma_filter_twice(coords, id, k);
            assert(of_producer(coords, k).len() <= IDEMPOTENT_WINDOW);
        }
        lemma_len_by_producers(others, ids.remove(id));
        assert(of_producer(coords, id).len() <= IDEMPOTENT_WINDOW);
        assert(IDEMPOTENT_WINDOW * ids.len() == IDEMPOTENT_WINDOW * (ids.len() - 1)
            + IDEMPOTENT_WINDOW) by (nonlinear_arith);
    }
}

proof fn lemma_split_producer(coords: Seq<ProducerCoord>, id: i64)
    ensures
        coords.len() == of_producer(coords, id).len() + coords.filter(
            |coord: ProducerCoord| coord.producer_id != id,
        ).len(),
    decreases coords.len(),
{
    reveal(Seq::filter);
    if coords.len() > 0 {
        lemma_split_producer(coords.drop_last(), id);
    }
}

proof fn lemma_filter_twice(coords: Seq<ProducerCoord>, id: i64, k: i64)
    ensures
        of_producer(coords.filter(|coord: ProducerCoord| coord.producer_id != id), k).len()
            <= of_producer(coords, k).len(),
    decreases coords.len(),
{
    reveal(Seq::filter);
    if coords.len() > 0 {
        lemma_filter_twice(coords.drop_last(), id, k);
        let others = coords.drop_last().filter(|coord: ProducerCoord| coord.producer_id != id);
        if coords.last().producer_id != id {
            assert(others.push(coords.last()).drop_last() =~= others);
        }
    }
}

/// Pruning what is pruned changes nothing.
pub proof fn pruning_twice_prunes_no_further(coords: Seq<ProducerCoord>)
    ensures
        retained(retained(coords)) == retained(coords),
{
    let once = retained(coords);
    lemma_kept_members(coords, coords);
    assert forall|j: int| 0 <= j < once.len() implies is_current(#[trigger] once[j], once) by {
        assert(is_current(once[j], coords));
        assert forall|k: int|
            #![trigger once[k]]
            0 <= k < once.len() && once[k].carries_sequence() && once[k].producer_id
                == once[j].producer_id implies once[k].producer_epoch <= once[j].producer_epoch by {
            let w = choose|w: int| 0 <= w < coords.len() && coords[w] == once[k];
            assert(coords[w].producer_epoch <= once[j].producer_epoch);
        }
    }
    assert(coords.skip(0) =~= coords);
    lemma_kept_again(coords, coords, once);
}

/// A run of what was kept is kept whole, where each of it is current.
proof fn lemma_kept_again(
    run: Seq<ProducerCoord>,
    all: Seq<ProducerCoord>,
    once: Seq<ProducerCoord>,
)
    requires
        forall|j: int|
            0 <= j < kept_of(run, all).len() ==> is_current(#[trigger] kept_of(run, all)[j], once),
    ensures
        kept_of(kept_of(run, all), once) == kept_of(run, all),
        forall|id: i64|
            (#[trigger] current_of(kept_of(run, all), once, id)).len() == last_window(
                current_of(run, all, id),
            ).len(),
    decreases run.len(),
{
    if run.len() > 0 {
        let head = run[0];
        let rest = run.skip(1);
        let kept = kept_of(rest, all);
        let whole = kept_of(run, all);
        let keeps = is_current(head, all) && current_of(rest, all, head.producer_id).len()
            < IDEMPOTENT_WINDOW;
        assert forall|j: int| 0 <= j < kept.len() implies is_current(#[trigger] kept[j], once) by {
            if keeps {
                assert(whole[j + 1] == kept[j]);
            } else {
                assert(whole[j] == kept[j]);
            }
        }
        lemma_kept_again(rest, all, once);
        if keeps {
            assert(whole.skip(1) =~= kept);
            assert(whole[0] == head);
            assert(is_current(whole[0], once));
        }
        assert forall|id: i64|
            (#[trigger] current_of(whole, once, id)).len() == last_window(
                current_of(run, all, id),
            ).len() by {
            assert(current_of(kept, once, id).len() == last_window(current_of(rest, all, id)).len());
            if keeps && head.producer_id == id {
                assert(current_of(whole, once, id) == seq![head] + current_of(kept, once, id));
            }
        }
    }
}

/// Only the coordinates of a producer that carry a sequence are folded into its tail, one
/// after the other, each at the region's base and its own place in it; the coordinates of
/// other producers, and markers, leave it as it is.
pub proof fn only_its_own_coordinates_are_folded(
    tail: Tail,
    coords: Seq<ProducerCoord>,
    coord: ProducerCoord,
    id: i64,
    base: i64,
)
    ensures
        fold_coords(tail, Seq::empty(), id, base) == tail,
        coord.producer_id != id || !coord.carries_sequence() ==> fold_coords(
            tail,
            coords.push(coord),
            id,
            base,
        ) == fold_coords(tail, coords, id, base),
        coord.producer_id == id && coord.carries_sequence() ==> fold_coords(
            tail,
            coords.push(coord),
            id,
            base,
        ) == fold_coords(tail, coords, id, base).after(
            coord.producer_epoch,
            coord.base_sequence,
            coord.last_sequence,
            (base + coord.offset_delta) as i64,
        ),
    decreases coords.len(),
{
    let all = coords.push(coord);
    if coords.len() == 0 {
        assert(all.skip(1) =~= Seq::empty());
        reveal_with_fuel(fold_coords, 2);
    } else {
        assert(all.skip(1) =~= coords.skip(1).push(coord));
        let head = coords[0];
        let next = if head.carries_sequence() && head.producer_id == id {
            tail.after(
                head.producer_epoch,
                head.base_sequence,
                head.last_sequence,
                (base + head.offset_delta) as i64,
            )
        } else {
            tail
        };
        only_its_own_coordinates_are_folded(next, coords.skip(1), coord, id, base);
    }
}

/// What pruning leaves of an entry's coordinates are coordinates of it that carry a
/// sequence, and none of an epoch that its producer left behind.
pub proof fn what_is_retained_is_current(coords: Seq<ProducerCoord>, j: int, other: int)
    requires
        0 <= j < retained(coords).len(),
        0 <= other < coords.len(),
        coords[other].carries_sequence(),
        coords[other].producer_id == retained(coords)[j].producer_id,
    ensures
        coords.contains(retained(coords)[j]),
        retained(coords)[j].carries_sequence(),
        coords[other].producer_epoch <= retained(coords)[j].producer_epoch,
{
    lemma_kept_current(coords, coords, j);
}

proof fn lemma_kept_current(run: Seq<ProducerCoord>, all: Seq<ProducerCoord>, j: int)
    requires
        0 <= j < kept_of(run, all).len(),
    ensures
        run.contains(kept_of(run, all)[j]),
        is_current(kept_of(run, all)[j], all),
    decreases run.len(),
{
    let rest = kept_of(run.skip(1), all);
    let kept = kept_of(run, all);
    let first = is_current(run[0], all) && current_of(
        run.skip(1),
        all,
        run[0].producer_id,
    ).len() < IDEMPOTENT_WINDOW;
    if first && j == 0 {
        assert(kept[0] == run[0]);
        assert(run.contains(run[0]));
    } else {
        let at = if first {
            j - 1
        } else {
            j
        };
        assert(kept[j] == rest[at]);
        lemma_kept_current(run.skip(1), all, at);
        let w = choose|w: int| 0 <= w < run.skip(1).len() && run.skip(1)[w] == rest[at];
        assert(run[w + 1] == rest[at]);
    }
}

} // verus!
