//! The order in which waiting tasks are offered to a worker.

use std::collections::HashMap;
use vstd::prelude::*;

use crate::clock::Instant;
use crate::envelope::{MessageEnvelope, TaskView};

verus! {

broadcast use vstd::std_specs::hash::group_hash_axioms;

/// The tasks of a broker by their identifiers.
pub open spec fn tasks_view(tasks: Map<u128, MessageEnvelope>) -> Map<u128, TaskView> {
    tasks.map_values(|t: MessageEnvelope| t@)
}

/// What decides when the turn of a task comes: its priority and the time of its
/// submission.
pub struct Rank {
    pub priority: int,
    pub created_at: Instant,
}

impl Rank {
    /// Whether this rank comes before the other: by a higher priority, and
    /// within one priority by an earlier submission.
    pub open spec fn before(self, other: Rank) -> bool {
        self.priority > other.priority || (self.priority == other.priority && self.created_at.before(
            other.created_at,
        ))
    }
}

/// The rank of a task.
pub open spec fn rank(tasks: Map<u128, TaskView>, id: u128) -> Rank {
    Rank { priority: tasks[id].priority as int, created_at: tasks[id].created_at }
}

/// Those of the tasks that have a given rank, in their order. A task that the
/// broker no longer knows has none.
pub open spec fn of_rank(tasks: Map<u128, TaskView>, ids: Seq<u128>, r: Rank) -> Seq<u128> {
    ids.filter(|id: u128| tasks.contains_key(id) && rank(tasks, id) == r)
}

/// Whether `order` puts the waiting tasks that the broker knows in their turn: none
/// comes before one that ought to precede it, and those of one rank come as they
/// waited.
pub open spec fn is_ranking(
    tasks: Map<u128, TaskView>,
    waiting: Seq<u128>,
    order: Seq<u128>,
) -> bool {
    &&& forall|i: int| 0 <= i < order.len() ==> tasks.contains_key(#[trigger] order[i])
    &&& forall|i: int, j: int|
        0 <= i < j < order.len() ==> !(#[trigger] rank(tasks, order[j])).before(
            #[trigger] rank(tasks, order[i]),
        )
    &&& forall|r: Rank| #[trigger] of_rank(tasks, order, r) == of_rank(tasks, waiting, r)
}

/// The waiting tasks that the broker knows, in their turn.
pub open spec fn ranking(tasks: Map<u128, TaskView>, waiting: Seq<u128>) -> Seq<u128> {
    choose|order: Seq<u128>| is_ranking(tasks, waiting, order)
}

/// How many of the first `i` waiting tasks the broker knows.
pub open spec fn known_before(tasks: Map<u128, TaskView>, waiting: Seq<u128>, i: int) -> int
    decreases i,
{
    if i <= 0 {
        0
    } else {
        known_before(tasks, waiting, i - 1) + (if tasks.contains_key(waiting[i - 1]) {
            1int
        } else {
            0
        })
    }
}

/// The order in which waiting tasks are offered. One that the broker no longer knows
/// keeps its place; the others take the remaining places in their turn.
pub open spec fn schedule(tasks: Map<u128, TaskView>, waiting: Seq<u128>) -> Seq<u128> {
    Seq::new(
        waiting.len(),
        |i: int|
            if tasks.contains_key(waiting[i]) {
                ranking(tasks, waiting)[known_before(tasks, waiting, i)]
            } else {
                waiting[i]
            },
    )
}

/// The count of known tasks depends on the tasks counted alone.
proof fn lemma_known_before_prefix(
    tasks: Map<u128, TaskView>,
    a: Seq<u128>,
    b: Seq<u128>,
    i: int,
)
    requires
        forall|j: int| 0 <= j < i ==> a[j] == b[j],
    ensures
        known_before(tasks, a, i) == known_before(tasks, b, i),
    decreases i,
{
    if i > 0 {
        lemma_known_before_prefix(tasks, a, b, i - 1);
    }
}

/// The count of known tasks grows, past each known task.
proof fn lemma_known_before_grows(tasks: Map<u128, TaskView>, waiting: Seq<u128>, i: int, j: int)
    requires
        0 <= i <= j,
    ensures
        0 <= known_before(tasks, waiting, i) <= known_before(tasks, waiting, j),
        i < j && tasks.contains_key(waiting[i]) ==> known_before(tasks, waiting, i) < known_before(
            tasks,
            waiting,
            j,
        ),
    decreases j,
{
    if i < j {
        lemma_known_before_grows(tasks, waiting, i, j - 1);
    } else if i > 0 {
        lemma_known_before_grows(tasks, waiting, i - 1, j - 1);
    }
}

/// Leaving out the last task leaves it out among those of its rank.
proof fn lemma_of_rank_drop_last(tasks: Map<u128, TaskView>, ids: Seq<u128>, r: Rank)
    requires
        ids.len() > 0,
    ensures
        of_rank(tasks, ids, r) == (if tasks.contains_key(ids.last()) && rank(tasks, ids.last())
            == r {
            of_rank(tasks, ids.drop_last(), r).push(ids.last())
        } else {
            of_rank(tasks, ids.drop_last(), r)
        }),
{
    reveal(Seq::filter);
}

/// A task of some rank is among those of that rank, and nothing else is.
proof fn lemma_of_rank_contains(tasks: Map<u128, TaskView>, ids: Seq<u128>, r: Rank, id: u128)
    ensures
        of_rank(tasks, ids, r).contains(id) <==> ids.contains(id) && tasks.contains_key(id) && rank(
            tasks,
            id,
        ) == r,
    decreases ids.len(),
{
    if ids.len() > 0 {
        lemma_of_rank_drop_last(tasks, ids, r);
        lemma_of_rank_contains(tasks, ids.drop_last(), r, id);
        let rest = ids.drop_last();
        assert(ids =~= rest.push(ids.last()));
        assert(ids.contains(id) <==> rest.contains(id) || id == ids.last()) by {
            if rest.contains(id) {
                let i = choose|i: int| 0 <= i < rest.len() && rest[i] == id;
                assert(ids[i] == id);
            }
            if id == ids.last() {
                assert(ids[ids.len() - 1] == id);
            }
            if ids.contains(id) && id != ids.last() {
                let i = choose|i: int| 0 <= i < ids.len() && ids[i] == id;
                assert(rest[i] == id);
            }
        }
        let inner = of_rank(tasks, rest, r);
        let outer = of_rank(tasks, ids, r);
        if outer != inner {
            assert(outer == inner.push(ids.last()));
            assert(outer[outer.len() - 1] == ids.last());
            assert(outer.contains(id) <==> inner.contains(id) || id == ids.last()) by {
                if inner.contains(id) {
                    let i = choose|i: int| 0 <= i < inner.len() && inner[i] == id;
                    assert(outer[i] == id);
                }
                if outer.contains(id) && id != ids.last() {
                    let i = choose|i: int| 0 <= i < outer.len() && outer[i] == id;
                    assert(inner[i] == id);
                }
            }
        }
    } else {
        reveal(Seq::filter);
    }
}

/// There is only one such order.
pub proof fn lemma_ranking_unique(
    tasks: Map<u128, TaskView>,
    waiting: Seq<u128>,
    a: Seq<u128>,
    b: Seq<u128>,
)
    requires
        is_ranking(tasks, waiting, a),
        is_ranking(tasks, waiting, b),
    ensures
        a == b,
{
    assert forall|r: Rank| #[trigger] of_rank(tasks, a, r) == of_rank(tasks, b, r) by {
        assert(of_rank(tasks, b, r) == of_rank(tasks, waiting, r));
    }
    lemma_sorted_unique(tasks, a, b);
}

/// Two sorted orders that agree on each rank are the same.
proof fn lemma_sorted_unique(tasks: Map<u128, TaskView>, a: Seq<u128>, b: Seq<u128>)
    requires
        forall|i: int| 0 <= i < a.len() ==> tasks.contains_key(#[trigger] a[i]),
        forall|i: int| 0 <= i < b.len() ==> tasks.contains_key(#[trigger] b[i]),
        forall|i: int, j: int|
            0 <= i < j < a.len() ==> !(#[trigger] rank(tasks, a[j])).before(
                #[trigger] rank(tasks, a[i]),
            ),
        forall|i: int, j: int|
            0 <= i < j < b.len() ==> !(#[trigger] rank(tasks, b[j])).before(
                #[trigger] rank(tasks, b[i]),
            ),
        forall|r: Rank| #[trigger] of_rank(tasks, a, r) == of_rank(tasks, b, r),
    ensures
        a == b,
    decreases a.len(),
{
    if a.len() == 0 {
        if b.len() > 0 {
            let r = rank(tasks, b.last());
            lemma_of_rank_contains(tasks, b, r, b.last());
            lemma_of_rank_contains(tasks, a, r, b.last());
            assert(b.contains(b.last()));
        }
        assert(a =~= b);
    } else {
        let ra = rank(tasks, a.last());
        lemma_of_rank_contains(tasks, a, ra, a.last());
        lemma_of_rank_contains(tasks, b, ra, a.last());
        assert(a.contains(a.last()));
        assert(b.contains(a.last()));
        let rb = rank(tasks, b.last());
        lemma_of_rank_contains(tasks, a, rb, b.last());
        lemma_of_rank_contains(tasks, b, rb, b.last());
        assert(b.contains(b.last()));
        assert(a.contains(b.last()));
        let i = choose|i: int| 0 <= i < b.len() && b[i] == a.last();
        let j = choose|j: int| 0 <= j < a.len() && a[j] == b.last();
        assert(!rb.before(ra)) by {
            if i < b.len() - 1 {
                assert(!rank(tasks, b[b.len() - 1]).before(rank(tasks, b[i])));
            }
        }
        assert(!ra.before(rb)) by {
            if j < a.len() - 1 {
                assert(!rank(tasks, a[a.len() - 1]).before(rank(tasks, a[j])));
            }
        }
        assert(ra == rb);
        lemma_of_rank_drop_last(tasks, a, ra);
        lemma_of_rank_drop_last(tasks, b, ra);
        assert(of_rank(tasks, a, ra).last() == a.last());
        assert(of_rank(tasks, b, ra).last() == b.last());
        assert(a.last() == b.last());
        assert forall|r: Rank| #[trigger]
            of_rank(tasks, a.drop_last(), r) == of_rank(tasks, b.drop_last(), r) by {
            lemma_of_rank_drop_last(tasks, a, r);
            lemma_of_rank_drop_last(tasks, b, r);
            assert(of_rank(tasks, a, r) == of_rank(tasks, b, r));
            if r == ra {
                assert(of_rank(tasks, a.drop_last(), r) =~= of_rank(tasks, a, r).drop_last());
                assert(of_rank(tasks, b.drop_last(), r) =~= of_rank(tasks, b, r).drop_last());
            }
        }
        lemma_sorted_unique(tasks, a.drop_last(), b.drop_last());
        assert(a =~= a.drop_last().push(a.last()));
        assert(b =~= b.drop_last().push(b.last()));
    }
}

/// Putting a task in front of tasks that it precedes, behind all others, takes it
/// last among those of its rank.
proof fn lemma_of_rank_insert(
    tasks: Map<u128, TaskView>,
    order: Seq<u128>,
    place: int,
    id: u128,
    r: Rank,
)
    requires
        0 <= place <= order.len(),
        tasks.contains_key(id),
        forall|i: int|
            place <= i < order.len() ==> rank(tasks, id).before(rank(tasks, #[trigger] order[i])),
    ensures
        of_rank(tasks, order.insert(place, id), r) == (if rank(tasks, id) == r {
            of_rank(tasks, order, r).push(id)
        } else {
            of_rank(tasks, order, r)
        }),
    decreases order.len() - place,
{
    let all = order.insert(place, id);
    lemma_of_rank_drop_last(tasks, all, r);
    if place == order.len() {
        assert(all.drop_last() =~= order);
    } else {
        assert(all.drop_last() =~= order.drop_last().insert(place, id));
        assert(all.last() == order.last());
        lemma_of_rank_insert(tasks, order.drop_last(), place, id, r);
        lemma_of_rank_drop_last(tasks, order, r);
        assert(rank(tasks, id).before(rank(tasks, order[order.len() - 1])));
    }
}

/// Whether the first task comes before the second.
fn comes_before(a: &MessageEnvelope, b: &MessageEnvelope) -> (r: bool)
    ensures
        r == (Rank { priority: a@.priority as int, created_at: a@.created_at }).before(
            Rank { priority: b@.priority as int, created_at: b@.created_at },
        ),
{
    a.priority > b.priority || (a.priority == b.priority && a.created_at.before(&b.created_at))
}

/// Puts the waiting tasks that the broker knows in their turn.
fn rank_tasks(tasks: &HashMap<u128, MessageEnvelope>, waiting: &Vec<u128>) -> (order: Vec<u128>)
    ensures
        order@ == ranking(tasks_view(tasks@), waiting@),
{
    let ghost views = tasks_view(tasks@);
    let mut order: Vec<u128> = Vec::new();
    let mut i: usize = 0;
    proof {
        reveal(Seq::filter);
        assert(waiting@.take(0) =~= Seq::<u128>::empty());
    }
    while i < waiting.len()
        invariant
            i <= waiting.len(),
            views == tasks_view(tasks@),
            is_ranking(views, waiting@.take(i as int), order@),
        decreases waiting.len() - i,
    {
        let id: u128 = waiting[i];
        let ghost seen = waiting@.take(i as int);
        proof {
            assert(waiting@.take(i + 1) =~= seen.push(id));
            assert(seen.push(id).drop_last() =~= seen);
        }
        match tasks.get(&id) {
            Some(task) => {
                let mut place: usize = order.len();
                while place > 0
                    invariant
                        place <= order.len(),
                        views == tasks_view(tasks@),
                        views.contains_key(id),
                        task@ == views[id],
                        forall|k: int|
                            0 <= k < order@.len() ==> views.contains_key(#[trigger] order@[k]),
                        forall|k: int|
                            place <= k < order@.len() ==> rank(views, id).before(
                                rank(views, #[trigger] order@[k]),
                            ),
                    ensures
                        place <= order.len(),
                        place > 0 ==> !rank(views, id).before(rank(views, order@[place - 1])),
                    decreases place,
                {
                    let ahead: u128 = order[place - 1];
                    assert(views.contains_key(order@[place - 1]));
                    match tasks.get(&ahead) {
                        Some(other) => {
                            if !comes_before(task, other) {
                                break;
                            }
                        },
                        None => {
                            break;
                        },
                    }
                    place = place - 1;
                }
                let ghost before = order@;
                order.insert(place, id);
                proof {
                    assert(order@ =~= before.insert(place as int, id));
                    assert forall|r: Rank| #[trigger]
                        of_rank(views, order@, r) == of_rank(views, seen.push(id), r) by {
                        lemma_of_rank_insert(views, before, place as int, id, r);
                        lemma_of_rank_drop_last(views, seen.push(id), r);
                        assert(of_rank(views, before, r) == of_rank(views, seen, r));
                    }
                    assert forall|k: int, l: int| 0 <= k < l < order@.len() implies !(
                    #[trigger] rank(views, order@[l])).before(#[trigger] rank(views, order@[k])) by {
                        lemma_insert_keeps_sorted(views, before, place as int, id, k, l);
                    }
                }
            },
            None => {
                proof {
                    assert forall|r: Rank| #[trigger]
                        of_rank(views, order@, r) == of_rank(views, seen.push(id), r) by {
                        lemma_of_rank_drop_last(views, seen.push(id), r);
                        assert(of_rank(views, order@, r) == of_rank(views, seen, r));
                    }
                }
            },
        }
        i = i + 1;
    }
    proof {
        assert(waiting@.take(i as int) =~= waiting@);
        lemma_ranking_unique(views, waiting@, order@, ranking(views, waiting@));
    }
    order
}

/// Putting a task in its place keeps the order sorted.
proof fn lemma_insert_keeps_sorted(
    tasks: Map<u128, TaskView>,
    order: Seq<u128>,
    place: int,
    id: u128,
    k: int,
    l: int,
)
    requires
        0 <= place <= order.len(),
        forall|i: int, j: int|
            0 <= i < j < order.len() ==> !(#[trigger] rank(tasks, order[j])).before(
                #[trigger] rank(tasks, order[i]),
            ),
        forall|i: int|
            place <= i < order.len() ==> rank(tasks, id).before(rank(tasks, #[trigger] order[i])),
        place > 0 ==> !rank(tasks, id).before(rank(tasks, order[place - 1])),
        0 <= k < l <= order.len(),
    ensures
        !rank(tasks, order.insert(place, id)[l]).before(rank(tasks, order.insert(place, id)[k])),
{
    let all = order.insert(place, id);
    let old_k = if k < place { k } else { k - 1 };
    let old_l = if l < place { l } else { l - 1 };
    if k == place {
        assert(rank(tasks, id).before(rank(tasks, order[old_l])));
    } else if l == place {
        if k < place - 1 {
            assert(!rank(tasks, order[place - 1]).before(rank(tasks, order[k])));
        }
    } else {
        assert(!rank(tasks, order[old_l]).before(rank(tasks, order[old_k])));
    }
}

/// Known tasks can always be put in their turn, and there are as many as are known.
pub proof fn lemma_ranking_exists(tasks: Map<u128, TaskView>, waiting: Seq<u128>)
    ensures
        is_ranking(tasks, waiting, ranking(tasks, waiting)),
        ranking(tasks, waiting).len() == known_before(tasks, waiting, waiting.len() as int),
{
    let order = build_ranking(tasks, waiting);
    lemma_ranking_unique(tasks, waiting, order, ranking(tasks, waiting));
}

/// Puts known tasks in their turn, one by one.
proof fn build_ranking(tasks: Map<u128, TaskView>, waiting: Seq<u128>) -> (order: Seq<u128>)
    ensures
        is_ranking(tasks, waiting, order),
        order.len() == known_before(tasks, waiting, waiting.len() as int),
    decreases waiting.len(),
{
    if waiting.len() == 0 {
        assert(waiting =~= Seq::<u128>::empty());
        waiting
    } else {
        let before = build_ranking(tasks, waiting.drop_last());
        lemma_known_before_prefix(tasks, waiting.drop_last(), waiting, waiting.len() - 1);
        let id = waiting.last();
        if tasks.contains_key(id) {
            let place = find_place(tasks, before, id);
            let order = before.insert(place, id);
            assert forall|r: Rank| #[trigger] of_rank(tasks, order, r) == of_rank(
                tasks,
                waiting,
                r,
            ) by {
                lemma_of_rank_insert(tasks, before, place, id, r);
                lemma_of_rank_drop_last(tasks, waiting, r);
                assert(of_rank(tasks, before, r) == of_rank(tasks, waiting.drop_last(), r));
            }
            assert forall|k: int, l: int| 0 <= k < l < order.len() implies !(
            #[trigger] rank(tasks, order[l])).before(#[trigger] rank(tasks, order[k])) by {
                lemma_insert_keeps_sorted(tasks, before, place, id, k, l);
            }
            assert forall|k: int| 0 <= k < order.len() implies tasks.contains_key(
                #[trigger] order[k],
            ) by {
                if k < place {
                    assert(order[k] == before[k]);
                } else if k > place {
                    assert(order[k] == before[k - 1]);
                }
            }
            order
        } else {
            assert forall|r: Rank| #[trigger] of_rank(tasks, before, r) == of_rank(
                tasks,
                waiting,
                r,
            ) by {
                lemma_of_rank_drop_last(tasks, waiting, r);
                assert(of_rank(tasks, before, r) == of_rank(tasks, waiting.drop_last(), r));
            }
            before
        }
    }
}

/// The place of a task in a sorted order: in front of all that it precedes.
proof fn find_place(tasks: Map<u128, TaskView>, order: Seq<u128>, id: u128) -> (place: int)
    requires
        forall|i: int, j: int|
            0 <= i < j < order.len() ==> !(#[trigger] rank(tasks, order[j])).before(
                #[trigger] rank(tasks, order[i]),
            ),
    ensures
        0 <= place <= order.len(),
        forall|i: int|
            place <= i < order.len() ==> rank(tasks, id).before(rank(tasks, #[trigger] order[i])),
        place > 0 ==> !rank(tasks, id).before(rank(tasks, order[place - 1])),
    decreases order.len(),
{
    if order.len() == 0 || !rank(tasks, id).before(rank(tasks, order.last())) {
        order.len() as int
    } else {
        let rest = order.drop_last();
        let place = find_place(tasks, rest, id);
        assert forall|i: int| place <= i < order.len() implies rank(tasks, id).before(
            rank(tasks, #[trigger] order[i]),
        ) by {
            if i < rest.len() {
                assert(rest[i] == order[i]);
            }
        }
        place
    }
}

/// Puts waiting tasks in the order in which they are offered.
pub fn order_tasks(tasks: &HashMap<u128, MessageEnvelope>, waiting: &Vec<u128>) -> (order: Vec<u128>)
    ensures
        order@ == schedule(tasks_view(tasks@), waiting@),
{
    let ghost views = tasks_view(tasks@);
    let ranked: Vec<u128> = rank_tasks(tasks, waiting);
    proof {
        lemma_ranking_exists(views, waiting@);
    }
    let mut order: Vec<u128> = Vec::new();
    let mut next: usize = 0;
    let mut i: usize = 0;
    while i < waiting.len()
        invariant
            i <= waiting.len(),
            views == tasks_view(tasks@),
            ranked@ == ranking(views, waiting@),
            ranked@.len() == known_before(views, waiting@, waiting@.len() as int),
            next == known_before(views, waiting@, i as int),
            order@ == schedule(views, waiting@).take(i as int),
        decreases waiting.len() - i,
    {
        let id: u128 = waiting[i];
        proof {
            lemma_known_before_grows(views, waiting@, i as int, waiting@.len() as int);
        }
        if tasks.contains_key(&id) {
            assert(views.contains_key(id));
            assert(next < ranked.len());
            order.push(ranked[next]);
            next = next + 1;
        } else {
            order.push(id);
        }
        assert(order@ =~= schedule(views, waiting@).take(i + 1));
        i = i + 1;
    }
    assert(schedule(views, waiting@).take(i as int) =~= schedule(views, waiting@));
    order
}

/// A place on offer is taken by a known task where one waited there, and keeps its
/// task otherwise.
proof fn lemma_schedule_place(tasks: Map<u128, TaskView>, waiting: Seq<u128>, i: int)
    requires
        0 <= i < waiting.len(),
    ensures
        tasks.contains_key(schedule(tasks, waiting)[i]) == tasks.contains_key(waiting[i]),
        !tasks.contains_key(waiting[i]) ==> schedule(tasks, waiting)[i] == waiting[i],
        tasks.contains_key(waiting[i]) ==> 0 <= known_before(tasks, waiting, i) < ranking(
            tasks,
            waiting,
        ).len(),
{
    lemma_ranking_exists(tasks, waiting);
    lemma_known_before_grows(tasks, waiting, i, waiting.len() as int);
}

/// Among the tasks on offer that the broker knows, none comes before one that ought to
/// precede it.
pub proof fn lemma_schedule_sorted(
    tasks: Map<u128, TaskView>,
    waiting: Seq<u128>,
    i: int,
    j: int,
)
    requires
        0 <= i < j < waiting.len(),
        tasks.contains_key(schedule(tasks, waiting)[i]),
        tasks.contains_key(schedule(tasks, waiting)[j]),
    ensures
        !rank(tasks, schedule(tasks, waiting)[j]).before(rank(tasks, schedule(tasks, waiting)[i])),
{
    lemma_ranking_exists(tasks, waiting);
    lemma_schedule_place(tasks, waiting, i);
    lemma_schedule_place(tasks, waiting, j);
    lemma_known_before_grows(tasks, waiting, i, j);
    let order = ranking(tasks, waiting);
    let k = known_before(tasks, waiting, i);
    let l = known_before(tasks, waiting, j);
    assert(!rank(tasks, order[l]).before(rank(tasks, order[k])));
}

/// The known tasks of some rank among the first places on offer.
proof fn lemma_schedule_prefix(tasks: Map<u128, TaskView>, waiting: Seq<u128>, i: int, r: Rank)
    requires
        0 <= i <= waiting.len(),
    ensures
        of_rank(tasks, schedule(tasks, waiting).take(i), r) == of_rank(
            tasks,
            ranking(tasks, waiting).take(known_before(tasks, waiting, i)),
            r,
        ),
    decreases i,
{
    let order = schedule(tasks, waiting);
    let ranked = ranking(tasks, waiting);
    if i == 0 {
        assert(order.take(0) =~= ranked.take(0));
    } else {
        lemma_schedule_prefix(tasks, waiting, i - 1, r);
        lemma_schedule_place(tasks, waiting, i - 1);
        lemma_of_rank_drop_last(tasks, order.take(i), r);
        assert(order.take(i).drop_last() =~= order.take(i - 1));
        if tasks.contains_key(waiting[i - 1]) {
            let k = known_before(tasks, waiting, i - 1);
            lemma_of_rank_drop_last(tasks, ranked.take(k + 1), r);
            assert(ranked.take(k + 1).drop_last() =~= ranked.take(k));
        }
    }
}

/// Tasks of one rank are offered as they waited.
pub proof fn lemma_schedule_of_rank(tasks: Map<u128, TaskView>, waiting: Seq<u128>, r: Rank)
    ensures
        of_rank(tasks, schedule(tasks, waiting), r) == of_rank(tasks, waiting, r),
{
    lemma_ranking_exists(tasks, waiting);
    lemma_schedule_prefix(tasks, waiting, waiting.len() as int, r);
    let order = schedule(tasks, waiting);
    let ranked = ranking(tasks, waiting);
    assert(order.take(waiting.len() as int) =~= order);
    assert(ranked.take(ranked.len() as int) =~= ranked);
    assert(of_rank(tasks, ranked, r) == of_rank(tasks, waiting, r));
}

/// Exactly the waiting tasks are offered.
pub proof fn lemma_schedule_contains(tasks: Map<u128, TaskView>, waiting: Seq<u128>, id: u128)
    ensures
        schedule(tasks, waiting).contains(id) <==> waiting.contains(id),
{
    let order = schedule(tasks, waiting);
    if tasks.contains_key(id) {
        let r = rank(tasks, id);
        lemma_schedule_of_rank(tasks, waiting, r);
        lemma_of_rank_contains(tasks, order, r, id);
        lemma_of_rank_contains(tasks, waiting, r, id);
    } else {
        if order.contains(id) {
            let i = choose|i: int| 0 <= i < order.len() && order[i] == id;
            lemma_schedule_place(tasks, waiting, i);
            assert(waiting[i] == id);
        }
        if waiting.contains(id) {
            let i = choose|i: int| 0 <= i < waiting.len() && waiting[i] == id;
            lemma_schedule_place(tasks, waiting, i);
            assert(order[i] == id);
        }
    }
}

/// How often a known task occurs shows among the tasks of its rank.
proof fn lemma_of_rank_count(tasks: Map<u128, TaskView>, ids: Seq<u128>, id: u128)
    requires
        tasks.contains_key(id),
    ensures
        of_rank(tasks, ids, rank(tasks, id)).to_multiset().count(id) == ids.to_multiset().count(id),
    decreases ids.len(),
{
    broadcast use vstd::seq_lib::group_to_multiset_ensures;

    let r = rank(tasks, id);
    if ids.len() == 0 {
        reveal(Seq::filter);
    } else {
        let rest = ids.drop_last();
        lemma_of_rank_count(tasks, rest, id);
        lemma_of_rank_drop_last(tasks, ids, r);
        assert(ids =~= rest.push(ids.last()));
    }
}

/// An unknown task occurs as often in two lists that differ in known tasks alone.
proof fn lemma_unknown_count(tasks: Map<u128, TaskView>, a: Seq<u128>, b: Seq<u128>, id: u128)
    requires
        a.len() == b.len(),
        forall|i: int|
            0 <= i < a.len() ==> #[trigger] a[i] == #[trigger] b[i] || (tasks.contains_key(a[i])
                && tasks.contains_key(b[i])),
        !tasks.contains_key(id),
    ensures
        a.to_multiset().count(id) == b.to_multiset().count(id),
    decreases a.len(),
{
    broadcast use vstd::seq_lib::group_to_multiset_ensures;

    if a.len() == 0 {
        assert(a =~= b);
    } else {
        assert(a[a.len() - 1] == b[b.len() - 1] || (tasks.contains_key(a.last())
            && tasks.contains_key(b.last())));
        lemma_unknown_count(tasks, a.drop_last(), b.drop_last(), id);
        assert(a =~= a.drop_last().push(a.last()));
        assert(b =~= b.drop_last().push(b.last()));
    }
}

/// Each task is offered as often as it waits: scheduling loses none and repeats none.
pub proof fn lemma_schedule_keeps_all(tasks: Map<u128, TaskView>, waiting: Seq<u128>, id: u128)
    ensures
        schedule(tasks, waiting).to_multiset().count(id) == waiting.to_multiset().count(id),
{
    let order = schedule(tasks, waiting);
    if tasks.contains_key(id) {
        lemma_schedule_of_rank(tasks, waiting, rank(tasks, id));
        lemma_of_rank_count(tasks, order, id);
        lemma_of_rank_count(tasks, waiting, id);
    } else {
        assert forall|i: int| 0 <= i < order.len() implies #[trigger] order[i]
            == #[trigger] waiting[i] || (tasks.contains_key(order[i]) && tasks.contains_key(
            waiting[i],
        )) by {
            lemma_schedule_place(tasks, waiting, i);
        }
        lemma_unknown_count(tasks, order, waiting, id);
    }
}

/// The tasks of a rank among the first of a list come first among those of the list.
proof fn lemma_of_rank_prefix(tasks: Map<u128, TaskView>, ids: Seq<u128>, n: int, r: Rank)
    requires
        0 <= n <= ids.len(),
    ensures
        of_rank(tasks, ids, r) == of_rank(tasks, ids.take(n), r) + of_rank(tasks, ids.skip(n), r),
    decreases ids.len() - n,
{
    if n == ids.len() {
        assert(ids.take(n) =~= ids);
        assert(ids.skip(n) =~= Seq::<u128>::empty());
        reveal(Seq::filter);
        assert(of_rank(tasks, ids.skip(n), r) =~= Seq::<u128>::empty());
        assert(of_rank(tasks, ids, r) =~= of_rank(tasks, ids.take(n), r) + of_rank(
            tasks,
            ids.skip(n),
            r,
        ));
    } else {
        let rest = ids.drop_last();
        lemma_of_rank_prefix(tasks, rest, n, r);
        assert(rest.take(n) =~= ids.take(n));
        assert(ids.skip(n).drop_last() =~= rest.skip(n));
        lemma_of_rank_drop_last(tasks, ids, r);
        lemma_of_rank_drop_last(tasks, ids.skip(n), r);
        assert(of_rank(tasks, ids, r) =~= of_rank(tasks, ids.take(n), r) + of_rank(
            tasks,
            ids.skip(n),
            r,
        ));
    }
}

/// Of two tasks of one priority and one time of submission, the one that waits ahead of
/// the other is offered ahead of it.
pub proof fn lemma_schedule_fair(
    tasks: Map<u128, TaskView>,
    waiting: Seq<u128>,
    p: int,
    q: int,
    k: int,
)
    requires
        0 <= p < q < waiting.len(),
        tasks.contains_key(waiting[p]),
        tasks.contains_key(waiting[q]),
        tasks[waiting[p]].priority == tasks[waiting[q]].priority,
        tasks[waiting[p]].created_at == tasks[waiting[q]].created_at,
        !waiting.take(q).contains(waiting[q]),
        0 <= k < waiting.len(),
        schedule(tasks, waiting)[k] == waiting[q],
    ensures
        schedule(tasks, waiting).take(k).contains(waiting[p]),
{
    let x = waiting[p];
    let y = waiting[q];
    let r = rank(tasks, x);
    let order = schedule(tasks, waiting);
    let offered = of_rank(tasks, order.take(k + 1), r);
    let ahead = of_rank(tasks, waiting.take(q), r);
    let all = of_rank(tasks, waiting, r);
    lemma_schedule_of_rank(tasks, waiting, r);
    lemma_of_rank_prefix(tasks, order, k + 1, r);
    lemma_of_rank_prefix(tasks, waiting, q, r);
    assert(waiting.take(q)[p] == x);
    assert(order.take(k + 1)[k] == y);
    assert(order.take(k + 1).contains(y));
    lemma_of_rank_contains(tasks, waiting.take(q), r, x);
    lemma_of_rank_contains(tasks, waiting.take(q), r, y);
    lemma_of_rank_contains(tasks, order.take(k + 1), r, y);
    lemma_of_rank_contains(tasks, order.take(k + 1), r, x);
    let a = choose|a: int| 0 <= a < ahead.len() && ahead[a] == x;
    let c = choose|c: int| 0 <= c < offered.len() && offered[c] == y;
    assert(all[a] == x);
    assert(all[c] == y);
    if c < ahead.len() {
        assert(ahead[c] == y);
    } else {
        assert(offered[a] == x);
    }
    let first = order.take(k + 1);
    let j = choose|j: int| 0 <= j < first.len() && first[j] == x;
    assert(x != y) by {
        assert(waiting.take(q).contains(x));
    }
    assert(order.take(k)[j] == x);
}

} // verus!
