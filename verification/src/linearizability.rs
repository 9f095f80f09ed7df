//! Linearizability of a complete history against the model, and its
//! agreement with the search.
use vstd::prelude::*;
use vstd::std_specs::cmp::PartialEqSpec;
use crate::action::{Action, Model, model_step};
use crate::history::{Entry, complete, invoked, request_of, response_of, res_pos, lemma_response_of_invocation};
use crate::checker::{
    remove_pair, pair_map, pair_unmap, answers, explained, explained_via, lemma_remove_pair,
    lemma_remove_pair_complete, lemma_explained_iff_via, search_from,
};

verus! {

/// The position of the invocation of operation `id`.
pub open spec fn inv_pos<A: Action>(h: Seq<Entry<A>>, id: usize) -> int {
    choose|i: int| 0 <= i < h.len() && h[i].id == id && h[i].data is Invoke
}

/// `order` names each operation of `h` once, and an operation that responded
/// before another was invoked comes before it.
pub open spec fn is_linearization<A: Action>(h: Seq<Entry<A>>, order: Seq<usize>) -> bool {
    &&& order.no_duplicates()
    &&& forall|t: int| 0 <= t < order.len() ==> invoked(h, #[trigger] order[t] as int)
    &&& forall|i: int| 0 <= i < h.len() && (#[trigger] h[i]).data is Invoke ==> order.contains(h[i].id)
    &&& forall|t: int, u: int|
        0 <= t < u < order.len() ==> !(res_pos(h, #[trigger] order[u]) < inv_pos(h, #[trigger] order[t]))
}

/// Running the operations of `order` one after the other on the model, from
/// state `s`, gives each of them the response recorded for it.
pub open spec fn replays<A: Action, S: Sync + Send + Clone + 'static, M: Model<A, S>>(
    h: Seq<Entry<A>>,
    order: Seq<usize>,
    s: S,
) -> bool
    decreases order.len(),
{
    if order.len() == 0 {
        true
    } else {
        let o = model_step::<A, S, M>(s, request_of(h[inv_pos(h, order[0])]));
        o.0.eq_spec(&response_of(h[res_pos(h, order[0])])) && replays::<A, S, M>(h, order.drop_first(), o.1)
    }
}

/// Some order of the operations of `h` that respects their real-time order
/// explains every recorded response when run on the model from `s`.
pub open spec fn linearizable<A: Action, S: Sync + Send + Clone + 'static, M: Model<A, S>>(
    h: Seq<Entry<A>>,
    s: S,
) -> bool {
    exists|order: Seq<usize>| is_linearization(h, order) && replays::<A, S, M>(h, order, s)
}

/// In a complete history, an operation has one invocation and, after it, one
/// response, and no other event.
pub proof fn lemma_op_positions<A: Action>(h: Seq<Entry<A>>, id: usize)
    requires
        complete(h),
        invoked(h, id as int),
    ensures
        0 <= inv_pos(h, id) < res_pos(h, id) < h.len(),
        h[inv_pos(h, id)].id == id,
        h[inv_pos(h, id)].data is Invoke,
        h[res_pos(h, id)].id == id,
        h[res_pos(h, id)].data is Response,
        forall|t: int| 0 <= t < h.len() && #[trigger] h[t].id == id ==> t == inv_pos(h, id) || t == res_pos(h, id),
{
    let i = inv_pos(h, id);
    lemma_response_of_invocation(h, i);
}

/// Removing the two events of the operation invoked at `k` leaves the other
/// operations with the same events, in the same order.
pub proof fn lemma_remove_op<A: Action>(h: Seq<Entry<A>>, k: int)
    requires
        complete(h),
        0 <= k < h.len(),
        h[k].data is Invoke,
    ensures
        ({
            let a = h[k].id;
            let j = res_pos(h, a);
            let h2 = remove_pair(h, k, j);
            &&& k < j < h.len()
            &&& inv_pos(h, a) == k
            &&& complete(h2)
            &&& h2.len() == h.len() - 2
            &&& forall|x: usize| #[trigger] invoked(h2, x as int) <==> (invoked(h, x as int) && x != a)
            &&& forall|x: usize| #[trigger] invoked(h2, x as int) ==> {
                &&& inv_pos(h2, x) == pair_map(inv_pos(h, x), k, j)
                &&& res_pos(h2, x) == pair_map(res_pos(h, x), k, j)
                &&& h2[inv_pos(h2, x)] == h[inv_pos(h, x)]
                &&& h2[res_pos(h2, x)] == h[res_pos(h, x)]
            }
            &&& forall|x: usize, y: usize| #[trigger] invoked(h2, x as int) && #[trigger] invoked(h2, y as int)
                ==> (res_pos(h2, y) < inv_pos(h2, x) <==> res_pos(h, y) < inv_pos(h, x))
        }),
{
    let a = h[k].id;
    lemma_response_of_invocation(h, k);
    let j = res_pos(h, a);
    lemma_remove_pair(h, k, j);
    lemma_remove_pair_complete(h, k);
    let h2 = remove_pair(h, k, j);
    assert(invoked(h, a as int));
    lemma_op_positions(h, a);
    assert(inv_pos(h, a) == k);
    assert forall|x: usize| #[trigger] invoked(h2, x as int) implies (invoked(h, x as int) && x != a) by {
        let q = choose|q: int| 0 <= q < h2.len() && h2[q].id == x && h2[q].data is Invoke;
        let p = pair_unmap(q, k, j);
        assert(h2[q] == h[p]);
        assert(invoked(h, x as int));
        if x == a {
            assert(h[p].id == a);
        }
    }
    assert forall|x: usize| invoked(h, x as int) && x != a implies #[trigger] invoked(h2, x as int) by {
        lemma_op_positions(h, x);
        let p = inv_pos(h, x);
        let q = pair_map(p, k, j);
        assert(h2[q] == h[pair_unmap(q, k, j)]);
    }
    assert forall|x: usize| #[trigger] invoked(h2, x as int) implies {
        &&& inv_pos(h2, x) == pair_map(inv_pos(h, x), k, j)
        &&& res_pos(h2, x) == pair_map(res_pos(h, x), k, j)
        &&& h2[inv_pos(h2, x)] == h[inv_pos(h, x)]
        &&& h2[res_pos(h2, x)] == h[res_pos(h, x)]
    } by {
        assert(invoked(h, x as int) && x != a);
        lemma_op_positions(h, x);
        lemma_op_positions(h2, x);
        let qi = inv_pos(h2, x);
        let qr = res_pos(h2, x);
        let pi = pair_unmap(qi, k, j);
        let pr = pair_unmap(qr, k, j);
        assert(h2[qi] == h[pi]);
        assert(h2[qr] == h[pr]);
        assert(h[pi].id == x);
        assert(h[pr].id == x);
    }
    assert forall|x: usize, y: usize| #[trigger] invoked(h2, x as int) && #[trigger] invoked(h2, y as int)
        implies (res_pos(h2, y) < inv_pos(h2, x) <==> res_pos(h, y) < inv_pos(h, x)) by {
        lemma_op_positions(h2, x);
        lemma_op_positions(h2, y);
        let q1 = res_pos(h2, y);
        let q2 = inv_pos(h2, x);
        assert(pair_unmap(q1, k, j) == res_pos(h, y));
        assert(pair_unmap(q2, k, j) == inv_pos(h, x));
        if q1 < q2 {
            assert(pair_unmap(q1, k, j) < pair_unmap(q2, k, j));
        }
        if q2 < q1 {
            assert(pair_unmap(q2, k, j) < pair_unmap(q1, k, j));
        }
    }
}

proof fn lemma_replays_transfer<A: Action, S: Sync + Send + Clone + 'static, M: Model<A, S>>(
    h: Seq<Entry<A>>,
    h2: Seq<Entry<A>>,
    order: Seq<usize>,
    s: S,
)
    requires
        forall|t: int| 0 <= t < order.len() ==> {
            let x = #[trigger] order[t];
            &&& h2[inv_pos(h2, x)] == h[inv_pos(h, x)]
            &&& h2[res_pos(h2, x)] == h[res_pos(h, x)]
        },
    ensures
        replays::<A, S, M>(h2, order, s) == replays::<A, S, M>(h, order, s),
    decreases order.len(),
{
    if order.len() > 0 {
        let x = order[0];
        assert(h2[inv_pos(h2, x)] == h[inv_pos(h, x)]);
        let o = model_step::<A, S, M>(s, request_of(h[inv_pos(h, x)]));
        let rest = order.drop_first();
        assert forall|t: int| 0 <= t < rest.len() implies {
            let x = #[trigger] rest[t];
            &&& h2[inv_pos(h2, x)] == h[inv_pos(h, x)]
            &&& h2[res_pos(h2, x)] == h[res_pos(h, x)]
        } by {
            assert(rest[t] == order[t + 1]);
        }
        lemma_replays_transfer::<A, S, M>(h, h2, rest, o.1);
    }
}

/// Putting the operation invoked first-possible at `k` in front of a
/// linearization of the rest gives a linearization of the whole.
proof fn lemma_prepend<A: Action, S: Sync + Send + Clone + 'static, M: Model<A, S>>(
    h: Seq<Entry<A>>,
    s: S,
    k: int,
    order2: Seq<usize>,
)
    requires
        complete(h),
        0 <= k < h.len(),
        forall|t: int| 0 <= t <= k ==> (#[trigger] h[t]).data is Invoke,
        answers::<A, S, M>(h, s, k, res_pos(h, h[k].id)),
        is_linearization(remove_pair(h, k, res_pos(h, h[k].id)), order2),
        replays::<A, S, M>(
            remove_pair(h, k, res_pos(h, h[k].id)),
            order2,
            model_step::<A, S, M>(s, request_of(h[k])).1,
        ),
    ensures
        is_linearization(h, seq![h[k].id] + order2),
        replays::<A, S, M>(h, seq![h[k].id] + order2, s),
{
    let a = h[k].id;
    lemma_remove_op(h, k);
    let j = res_pos(h, a);
    let h2 = remove_pair(h, k, j);
    let o = model_step::<A, S, M>(s, request_of(h[k]));
    assert(invoked(h, a as int));
    lemma_op_positions(h, a);
    let order = seq![a] + order2;
    assert(order.drop_first() =~= order2);
    assert forall|t: int| 0 <= t < order2.len() implies #[trigger] order2[t] != a by {
        assert(invoked(h2, order2[t] as int));
    }
    assert(order.no_duplicates()) by {
        assert forall|t: int, u: int| 0 <= t < u < order.len() implies order[t] != order[u] by {
            if t > 0 {
                assert(order[t] == order2[t - 1]);
                assert(order[u] == order2[u - 1]);
            } else {
                assert(order[u] == order2[u - 1]);
            }
        }
    }
    assert forall|t: int| 0 <= t < order.len() implies invoked(h, #[trigger] order[t] as int) by {
        if t > 0 {
            assert(order[t] == order2[t - 1]);
            assert(invoked(h2, order2[t - 1] as int));
        }
    }
    assert forall|i: int| 0 <= i < h.len() && (#[trigger] h[i]).data is Invoke implies order.contains(h[i].id) by {
        if h[i].id == a {
            assert(order[0] == a);
        } else {
            let x = h[i].id;
            assert(invoked(h, x as int));
            assert(invoked(h2, x as int));
            lemma_op_positions(h2, x);
            let q = inv_pos(h2, x);
            assert(order2.contains(h2[q].id));
            let u = choose|u: int| 0 <= u < order2.len() && order2[u] == x;
            assert(order[u + 1] == x);
        }
    }
    assert forall|t: int, u: int| 0 <= t < u < order.len()
        implies !(res_pos(h, #[trigger] order[u]) < inv_pos(h, #[trigger] order[t])) by {
        let y = order[u];
        assert(y == order2[u - 1]);
        assert(invoked(h2, y as int));
        if t == 0 {
            assert(order[t] == a);
            lemma_op_positions(h, y);
            let r = res_pos(h, y);
            if r < k {
                assert(h[r].data is Invoke);
            }
        } else {
            let x = order[t];
            assert(x == order2[t - 1]);
            assert(invoked(h2, x as int));
            assert(!(res_pos(h2, order2[u - 1]) < inv_pos(h2, order2[t - 1])));
        }
    }
    assert forall|t: int| 0 <= t < order2.len() implies {
        let x = #[trigger] order2[t];
        &&& h2[inv_pos(h2, x)] == h[inv_pos(h, x)]
        &&& h2[res_pos(h2, x)] == h[res_pos(h, x)]
    } by {
        assert(invoked(h2, order2[t] as int));
    }
    lemma_replays_transfer::<A, S, M>(h, h2, order2, o.1);
    assert(order[0] == a);
    assert(inv_pos(h, order[0]) == k);
    assert(res_pos(h, order[0]) == j);
}

/// What the search explains is linearizable.
proof fn lemma_explained_is_linearizable<A: Action, S: Sync + Send + Clone + 'static, M: Model<A, S>>(
    h: Seq<Entry<A>>,
    s: S,
)
    requires
        complete(h),
        explained::<A, S, M>(h, s),
    ensures
        linearizable::<A, S, M>(h, s),
    decreases h.len(),
{
    lemma_explained_iff_via::<A, S, M>(h, s);
    let k = choose|k: int| #[trigger] explained_via::<A, S, M>(h, s, k);
    let a = h[k].id;
    lemma_remove_op(h, k);
    let j = res_pos(h, a);
    let h2 = remove_pair(h, k, j);
    let o = model_step::<A, S, M>(s, request_of(h[k]));
    if h.len() <= 2 {
        let order2 = Seq::<usize>::empty();
        assert forall|i: int| 0 <= i < h2.len() && (#[trigger] h2[i]).data is Invoke implies order2.contains(h2[i].id) by {}
        assert(is_linearization(h2, order2));
        lemma_prepend::<A, S, M>(h, s, k, order2);
    } else {
        lemma_explained_is_linearizable::<A, S, M>(h2, o.1);
        let order2 = choose|order: Seq<usize>| is_linearization(h2, order) && replays::<A, S, M>(h2, order, o.1);
        lemma_prepend::<A, S, M>(h, s, k, order2);
    }
}

/// A linearization names first an operation that the search can start with,
/// and the rest of it linearizes the history without that operation.
proof fn lemma_linearization_head<A: Action, S: Sync + Send + Clone + 'static, M: Model<A, S>>(
    h: Seq<Entry<A>>,
    s: S,
    order: Seq<usize>,
)
    requires
        complete(h),
        h.len() > 0,
        is_linearization(h, order),
        replays::<A, S, M>(h, order, s),
    ensures
        order.len() > 0,
        ({
            let k = inv_pos(h, order[0]);
            let j = res_pos(h, h[k].id);
            let h2 = remove_pair(h, k, j);
            let o = model_step::<A, S, M>(s, request_of(h[k]));
            &&& 0 <= k < h.len()
            &&& h[k].id == order[0]
            &&& h[k].data is Invoke
            &&& forall|t: int| 0 <= t <= k ==> (#[trigger] h[t]).data is Invoke
            &&& k < j < h.len()
            &&& answers::<A, S, M>(h, s, k, j)
            &&& is_linearization(h2, order.drop_first())
            &&& replays::<A, S, M>(h2, order.drop_first(), o.1)
        }),
{
    reveal(complete);
    assert(h[0].data is Invoke);
    assert(order.contains(h[0].id));
    let a = order[0];
    assert(invoked(h, a as int));
    lemma_op_positions(h, a);
    let k = inv_pos(h, a);
    let j = res_pos(h, a);
    assert forall|t: int| 0 <= t <= k implies (#[trigger] h[t]).data is Invoke by {
        if h[t].data is Response {
            let y = h[t].id;
            let i = choose|i: int| 0 <= i < t && h[i].id == h[t].id;
            assert(h[i].id == h[t].id);
            assert(invoked(h, y as int));
            lemma_op_positions(h, y);
            assert(t == res_pos(h, y));
            assert(y != a);
            assert(order.contains(y));
            let u = choose|u: int| 0 <= u < order.len() && order[u] == y;
            assert(u != 0);
            assert(!(res_pos(h, order[u]) < inv_pos(h, order[0])));
        }
    }
    lemma_remove_op(h, k);
    let h2 = remove_pair(h, k, j);
    let o = model_step::<A, S, M>(s, request_of(h[k]));
    let order2 = order.drop_first();
    assert forall|t: int| 0 <= t < order2.len() implies invoked(h2, #[trigger] order2[t] as int) by {
        assert(order2[t] == order[t + 1]);
        assert(invoked(h, order[t + 1] as int));
        assert(order[t + 1] != order[0]);
    }
    assert forall|i: int| 0 <= i < h2.len() && (#[trigger] h2[i]).data is Invoke implies order2.contains(h2[i].id) by {
        let x = h2[i].id;
        assert(invoked(h2, x as int));
        assert(invoked(h, x as int) && x != a);
        lemma_op_positions(h, x);
        assert(order.contains(h[inv_pos(h, x)].id));
        let u = choose|u: int| 0 <= u < order.len() && order[u] == x;
        assert(u != 0);
        assert(order2[u - 1] == x);
    }
    assert forall|t: int, u: int| 0 <= t < u < order2.len()
        implies !(res_pos(h2, #[trigger] order2[u]) < inv_pos(h2, #[trigger] order2[t])) by {
        assert(order2[t] == order[t + 1]);
        assert(order2[u] == order[u + 1]);
        assert(invoked(h2, order2[t] as int));
        assert(invoked(h2, order2[u] as int));
        assert(!(res_pos(h, order[u + 1]) < inv_pos(h, order[t + 1])));
    }
    assert(order2.no_duplicates()) by {
        assert forall|t: int, u: int| 0 <= t < u < order2.len() implies order2[t] != order2[u] by {
            assert(order2[t] == order[t + 1]);
            assert(order2[u] == order[u + 1]);
        }
    }
    assert forall|t: int| 0 <= t < order2.len() implies {
        let x = #[trigger] order2[t];
        &&& h2[inv_pos(h2, x)] == h[inv_pos(h, x)]
        &&& h2[res_pos(h2, x)] == h[res_pos(h, x)]
    } by {
        assert(invoked(h2, order2[t] as int));
    }
    lemma_replays_transfer::<A, S, M>(h, h2, order2, o.1);
}

/// What is linearizable, the search explains, unless the history is empty.
proof fn lemma_linearizable_is_explained<A: Action, S: Sync + Send + Clone + 'static, M: Model<A, S>>(
    h: Seq<Entry<A>>,
    s: S,
)
    requires
        complete(h),
        h.len() > 0,
        linearizable::<A, S, M>(h, s),
    ensures
        explained::<A, S, M>(h, s),
    decreases h.len(),
{
    let order = choose|order: Seq<usize>| is_linearization(h, order) && replays::<A, S, M>(h, order, s);
    lemma_linearization_head::<A, S, M>(h, s, order);
    let k = inv_pos(h, order[0]);
    lemma_remove_op(h, k);
    let j = res_pos(h, h[k].id);
    let h2 = remove_pair(h, k, j);
    let o = model_step::<A, S, M>(s, request_of(h[k]));
    if h.len() > 2 {
        lemma_linearizable_is_explained::<A, S, M>(h2, o.1);
    }
    assert(explained_via::<A, S, M>(h, s, k));
    lemma_explained_iff_via::<A, S, M>(h, s);
}

/// The search explains a nonempty complete history from a state exactly when
/// the history is linearizable with respect to the model from that state.
pub proof fn lemma_check_decides_linearizability<A: Action, S: Sync + Send + Clone + 'static, M: Model<A, S>>(
    h: Seq<Entry<A>>,
    s: S,
)
    requires
        complete(h),
        h.len() > 0,
    ensures
        explained::<A, S, M>(h, s) <==> linearizable::<A, S, M>(h, s),
{
    if explained::<A, S, M>(h, s) {
        lemma_explained_is_linearizable::<A, S, M>(h, s);
    }
    if linearizable::<A, S, M>(h, s) {
        lemma_linearizable_is_explained::<A, S, M>(h, s);
    }
}

/// `h` with the events at `i` and `i + 1` exchanged.
pub open spec fn swap_adjacent<T>(h: Seq<T>, i: int) -> Seq<T> {
    h.update(i, h[i + 1]).update(i + 1, h[i])
}

/// Where the event at `p` stands after the events at `i` and `i + 1` are exchanged.
pub open spec fn swap_pos(p: int, i: int) -> int {
    if p == i {
        i + 1
    } else if p == i + 1 {
        i
    } else {
        p
    }
}

/// Exchanging two adjacent events moves the events of each operation as
/// `swap_pos` says.
proof fn lemma_swap_positions<A: Action>(h: Seq<Entry<A>>, i: int)
    requires
        complete(h),
        complete(swap_adjacent(h, i)),
        0 <= i < h.len() - 1,
    ensures
        forall|x: usize| #[trigger] invoked(h, x as int) ==> {
            let h2 = swap_adjacent(h, i);
            &&& invoked(h2, x as int)
            &&& inv_pos(h2, x) == swap_pos(inv_pos(h, x), i)
            &&& res_pos(h2, x) == swap_pos(res_pos(h, x), i)
            &&& h2[inv_pos(h2, x)] == h[inv_pos(h, x)]
            &&& h2[res_pos(h2, x)] == h[res_pos(h, x)]
        },
        forall|x: usize| #[trigger] invoked(swap_adjacent(h, i), x as int) ==> invoked(h, x as int),
{
    let h2 = swap_adjacent(h, i);
    assert(h2.len() == h.len());
    assert forall|p: int| 0 <= p < h.len() implies #[trigger] h2[swap_pos(p, i)] == h[p] by {}
    assert forall|x: usize| #[trigger] invoked(h, x as int) implies {
        &&& invoked(h2, x as int)
        &&& inv_pos(h2, x) == swap_pos(inv_pos(h, x), i)
        &&& res_pos(h2, x) == swap_pos(res_pos(h, x), i)
        &&& h2[inv_pos(h2, x)] == h[inv_pos(h, x)]
        &&& h2[res_pos(h2, x)] == h[res_pos(h, x)]
    } by {
        lemma_op_positions(h, x);
        let pi = inv_pos(h, x);
        let pr = res_pos(h, x);
        assert(h2[swap_pos(pi, i)] == h[pi]);
        assert(h2[swap_pos(pr, i)] == h[pr]);
        assert(invoked(h2, x as int));
        lemma_op_positions(h2, x);
        assert(h2[swap_pos(pi, i)].id == x);
        assert(h2[swap_pos(pr, i)].id == x);
    }
    assert forall|x: usize| #[trigger] invoked(h2, x as int) implies invoked(h, x as int) by {
        let q = choose|q: int| 0 <= q < h2.len() && h2[q].id == x && h2[q].data is Invoke;
        assert(h2[swap_pos(swap_pos(q, i), i)] == h[swap_pos(q, i)]);
    }
}

/// Exchanging two adjacent events, unless an invocation comes right before a
/// response, keeps every linearization a linearization.
proof fn lemma_swap_keeps_linearization<A: Action, S: Sync + Send + Clone + 'static, M: Model<A, S>>(
    h: Seq<Entry<A>>,
    i: int,
    s: S,
    order: Seq<usize>,
)
    requires
        complete(h),
        complete(swap_adjacent(h, i)),
        0 <= i < h.len() - 1,
        !(h[i].data is Invoke && h[i + 1].data is Response),
        is_linearization(h, order),
        replays::<A, S, M>(h, order, s),
    ensures
        is_linearization(swap_adjacent(h, i), order),
        replays::<A, S, M>(swap_adjacent(h, i), order, s),
{
    let h2 = swap_adjacent(h, i);
    lemma_swap_positions(h, i);
    assert forall|t: int| 0 <= t < order.len() implies invoked(h2, #[trigger] order[t] as int) by {
        assert(invoked(h, order[t] as int));
    }
    assert forall|q: int| 0 <= q < h2.len() && (#[trigger] h2[q]).data is Invoke implies order.contains(h2[q].id) by {
        let p = swap_pos(q, i);
        assert(h2[q] == h[p]);
    }
    assert forall|t: int, u: int| 0 <= t < u < order.len()
        implies !(res_pos(h2, #[trigger] order[u]) < inv_pos(h2, #[trigger] order[t])) by {
        let x = order[t];
        let y = order[u];
        assert(invoked(h, x as int));
        assert(invoked(h, y as int));
        lemma_op_positions(h, x);
        lemma_op_positions(h, y);
        let r = res_pos(h, y);
        let v = inv_pos(h, x);
        assert(!(r < v));
        assert(r != v);
    }
    assert forall|t: int| 0 <= t < order.len() implies {
        let x = #[trigger] order[t];
        &&& h2[inv_pos(h2, x)] == h[inv_pos(h, x)]
        &&& h2[res_pos(h2, x)] == h[res_pos(h, x)]
    } by {
        assert(invoked(h, order[t] as int));
    }
    lemma_replays_transfer::<A, S, M>(h, h2, order, s);
}

proof fn lemma_explained_empty<A: Action, S: Sync + Send + Clone + 'static, M: Model<A, S>>(h: Seq<Entry<A>>, s: S)
    requires
        h.len() == 0,
    ensures
        !explained::<A, S, M>(h, s),
{
    reveal(search_from);
}

/// A response moved right after the invocation that followed it loosens the
/// real-time order: what was linearizable stays so, and what the search
/// explains it still explains.
pub proof fn lemma_relax_real_time<A: Action, S: Sync + Send + Clone + 'static, M: Model<A, S>>(
    h: Seq<Entry<A>>,
    i: int,
    s: S,
)
    requires
        complete(h),
        complete(swap_adjacent(h, i)),
        0 <= i < h.len() - 1,
        h[i].data is Response,
        h[i + 1].data is Invoke,
    ensures
        linearizable::<A, S, M>(h, s) ==> linearizable::<A, S, M>(swap_adjacent(h, i), s),
        explained::<A, S, M>(h, s) ==> explained::<A, S, M>(swap_adjacent(h, i), s),
{
    let h2 = swap_adjacent(h, i);
    if linearizable::<A, S, M>(h, s) {
        let order = choose|order: Seq<usize>| is_linearization(h, order) && replays::<A, S, M>(h, order, s);
        lemma_swap_keeps_linearization::<A, S, M>(h, i, s, order);
    }
    lemma_check_decides_linearizability::<A, S, M>(h, s);
    lemma_check_decides_linearizability::<A, S, M>(h2, s);
}

/// Exchanging two adjacent invocations, or two adjacent responses, changes
/// neither linearizability nor what the search explains.
pub proof fn lemma_swap_same_kind<A: Action, S: Sync + Send + Clone + 'static, M: Model<A, S>>(
    h: Seq<Entry<A>>,
    i: int,
    s: S,
)
    requires
        complete(h),
        complete(swap_adjacent(h, i)),
        0 <= i < h.len() - 1,
        (h[i].data is Invoke && h[i + 1].data is Invoke) || (h[i].data is Response && h[i + 1].data is Response),
    ensures
        linearizable::<A, S, M>(h, s) == linearizable::<A, S, M>(swap_adjacent(h, i), s),
        explained::<A, S, M>(h, s) == explained::<A, S, M>(swap_adjacent(h, i), s),
{
    let h2 = swap_adjacent(h, i);
    assert(swap_adjacent(h2, i) =~= h);
    if linearizable::<A, S, M>(h, s) {
        let order = choose|order: Seq<usize>| is_linearization(h, order) && replays::<A, S, M>(h, order, s);
        lemma_swap_keeps_linearization::<A, S, M>(h, i, s, order);
    }
    if linearizable::<A, S, M>(h2, s) {
        let order = choose|order: Seq<usize>| is_linearization(h2, order) && replays::<A, S, M>(h2, order, s);
        lemma_swap_keeps_linearization::<A, S, M>(h2, i, s, order);
    }
    lemma_check_decides_linearizability::<A, S, M>(h, s);
    lemma_check_decides_linearizability::<A, S, M>(h2, s);
}

/// `h` with every operation id `x` renamed to `f(x)`.
pub open spec fn rename<A: Action>(h: Seq<Entry<A>>, f: spec_fn(usize) -> usize) -> Seq<Entry<A>> {
    h.map_values(|e: Entry<A>| Entry::<A> { id: f(e.id), data: e.data })
}

/// `f` gives different names to different operations of `h`.
pub open spec fn renames_apart<A: Action>(h: Seq<Entry<A>>, f: spec_fn(usize) -> usize) -> bool {
    forall|i: int, j: int|
        0 <= i < h.len() && 0 <= j < h.len() && #[trigger] f(h[i].id) == #[trigger] f(h[j].id) ==> h[i].id == h[j].id
}

proof fn lemma_rename_forward<A: Action, S: Sync + Send + Clone + 'static, M: Model<A, S>>(
    h: Seq<Entry<A>>,
    f: spec_fn(usize) -> usize,
    s: S,
)
    requires
        complete(h),
        renames_apart(h, f),
    ensures
        complete(rename(h, f)),
        linearizable::<A, S, M>(h, s) ==> linearizable::<A, S, M>(rename(h, f), s),
{
    let h2 = rename(h, f);
    assert(h2.len() == h.len());
    assert forall|p: int| 0 <= p < h.len() implies #[trigger] h2[p] == (Entry::<A> { id: f(h[p].id), data: h[p].data }) by {}
    assert forall|p: int, q: int| 0 <= p < h.len() && 0 <= q < h.len()
        implies (#[trigger] h2[p].id == #[trigger] h2[q].id <==> h[p].id == h[q].id) by {
        assert(h2[p].id == f(h[p].id));
        assert(h2[q].id == f(h[q].id));
    }
    assert(complete(h2)) by {
        reveal(complete);
        assert forall|i: int| 0 <= i < h2.len() && (#[trigger] h2[i]).data is Invoke
            implies exists|j: int| i < j < h2.len() && h2[j].id == h2[i].id by {
            let j = choose|j: int| i < j < h.len() && h[j].id == h[i].id;
            assert(h2[j].id == h2[i].id);
        }
        assert forall|j: int| 0 <= j < h2.len() && (#[trigger] h2[j]).data is Response
            implies exists|i: int| 0 <= i < j && h2[i].id == h2[j].id by {
            let i = choose|i: int| 0 <= i < j && h[i].id == h[j].id;
            assert(h2[i].id == h2[j].id);
        }
        assert forall|i: int, j: int| 0 <= i < j < h2.len() && #[trigger] h2[i].id == #[trigger] h2[j].id
            implies h2[i].data is Invoke && h2[j].data is Response by {
            assert(h[i].id == h[j].id);
        }
    }
    // each operation keeps its positions
    assert forall|x: usize| #[trigger] invoked(h, x as int) implies {
        &&& invoked(h2, f(x) as int)
        &&& inv_pos(h2, f(x)) == inv_pos(h, x)
        &&& res_pos(h2, f(x)) == res_pos(h, x)
    } by {
        lemma_op_positions(h, x);
        let pi = inv_pos(h, x);
        let pr = res_pos(h, x);
        assert(h2[pi].id == f(x));
        assert(h2[pr].id == f(x));
        assert(invoked(h2, f(x) as int));
        lemma_op_positions(h2, f(x));
        let qi = inv_pos(h2, f(x));
        let qr = res_pos(h2, f(x));
        assert(h2[qi].id == h2[pi].id);
        assert(h[qi].id == h[pi].id);
        assert(h2[qr].id == h2[pr].id);
        assert(h[qr].id == h[pr].id);
    }
    if linearizable::<A, S, M>(h, s) {
        let order = choose|order: Seq<usize>| is_linearization(h, order) && replays::<A, S, M>(h, order, s);
        let order2 = order.map_values(f);
        assert forall|t: int| 0 <= t < order.len() implies invoked(h2, #[trigger] order2[t] as int) by {
            assert(invoked(h, order[t] as int));
        }
        assert(order2.no_duplicates()) by {
            assert forall|t: int, u: int| 0 <= t < u < order2.len() implies order2[t] != order2[u] by {
                let x = order[t];
                let y = order[u];
                assert(invoked(h, x as int));
                assert(invoked(h, y as int));
                lemma_op_positions(h, x);
                lemma_op_positions(h, y);
                let px = inv_pos(h, x);
                let py = inv_pos(h, y);
                if f(h[px].id) == f(h[py].id) {
                    assert(h[px].id == h[py].id);
                }
            }
        }
        assert forall|q: int| 0 <= q < h2.len() && (#[trigger] h2[q]).data is Invoke implies order2.contains(h2[q].id) by {
            assert(order.contains(h[q].id));
            let t = choose|t: int| 0 <= t < order.len() && order[t] == h[q].id;
            assert(order2[t] == h2[q].id);
        }
        assert forall|t: int, u: int| 0 <= t < u < order2.len()
            implies !(res_pos(h2, #[trigger] order2[u]) < inv_pos(h2, #[trigger] order2[t])) by {
            assert(invoked(h, order[t] as int));
            assert(invoked(h, order[u] as int));
            assert(!(res_pos(h, order[u]) < inv_pos(h, order[t])));
        }
        assert forall|t: int| 0 <= t < order.len() implies {
            let x = #[trigger] order[t];
            &&& inv_pos(rename(h, f), f(x)) == inv_pos(h, x)
            &&& res_pos(rename(h, f), f(x)) == res_pos(h, x)
            &&& 0 <= inv_pos(h, x) < h.len()
            &&& 0 <= res_pos(h, x) < h.len()
        } by {
            assert(invoked(h, order[t] as int));
            lemma_op_positions(h, order[t]);
        }
        lemma_replays_rename::<A, S, M>(h, f, order, s);
        assert(is_linearization(h2, order2));
    }
}

proof fn lemma_replays_rename<A: Action, S: Sync + Send + Clone + 'static, M: Model<A, S>>(
    h: Seq<Entry<A>>,
    f: spec_fn(usize) -> usize,
    order: Seq<usize>,
    s: S,
)
    requires
        forall|t: int| 0 <= t < order.len() ==> {
            let x = #[trigger] order[t];
            &&& inv_pos(rename(h, f), f(x)) == inv_pos(h, x)
            &&& res_pos(rename(h, f), f(x)) == res_pos(h, x)
            &&& 0 <= inv_pos(h, x) < h.len()
            &&& 0 <= res_pos(h, x) < h.len()
        },
    ensures
        replays::<A, S, M>(rename(h, f), order.map_values(f), s) == replays::<A, S, M>(h, order, s),
    decreases order.len(),
{
    let h2 = rename(h, f);
    if order.len() > 0 {
        let x = order[0];
        assert(order.map_values(f)[0] == f(x));
        assert(h2[inv_pos(h, x)].data == h[inv_pos(h, x)].data);
        assert(h2[res_pos(h, x)].data == h[res_pos(h, x)].data);
        let o = model_step::<A, S, M>(s, request_of(h[inv_pos(h, x)]));
        let rest = order.drop_first();
        assert(order.map_values(f).drop_first() =~= rest.map_values(f));
        assert forall|t: int| 0 <= t < rest.len() implies {
            let x = #[trigger] rest[t];
            &&& inv_pos(rename(h, f), f(x)) == inv_pos(h, x)
            &&& res_pos(rename(h, f), f(x)) == res_pos(h, x)
            &&& 0 <= inv_pos(h, x) < h.len()
            &&& 0 <= res_pos(h, x) < h.len()
        } by {
            assert(rest[t] == order[t + 1]);
        }
        lemma_replays_rename::<A, S, M>(h, f, rest, o.1);
    }
}

/// Renaming the operations of a complete history, different names for
/// different operations, changes neither linearizability nor what the search
/// explains.
pub proof fn lemma_rename_ids<A: Action, S: Sync + Send + Clone + 'static, M: Model<A, S>>(
    h: Seq<Entry<A>>,
    f: spec_fn(usize) -> usize,
    s: S,
)
    requires
        complete(h),
        renames_apart(h, f),
    ensures
        complete(rename(h, f)),
        linearizable::<A, S, M>(h, s) == linearizable::<A, S, M>(rename(h, f), s),
        explained::<A, S, M>(h, s) == explained::<A, S, M>(rename(h, f), s),
{
    lemma_rename_forward::<A, S, M>(h, f, s);
    let h2 = rename(h, f);
    let g = |y: usize| h[choose|i: int| 0 <= i < h.len() && f(h[i].id) == y].id;
    assert forall|p: int| 0 <= p < h.len() implies #[trigger] g(f(h[p].id)) == h[p].id by {
        let i = choose|i: int| 0 <= i < h.len() && f(h[i].id) == f(h[p].id);
        assert(f(h[i].id) == f(h[p].id));
    }
    assert(rename(h2, g) =~= h) by {
        assert forall|p: int| 0 <= p < h.len() implies rename(h2, g)[p] == h[p] by {
            assert(h2[p].id == f(h[p].id));
            assert(g(f(h[p].id)) == h[p].id);
        }
    }
    assert(renames_apart(h2, g)) by {
        assert forall|i: int, j: int|
            0 <= i < h2.len() && 0 <= j < h2.len() && #[trigger] g(h2[i].id) == #[trigger] g(h2[j].id)
            implies h2[i].id == h2[j].id by {
            assert(h2[i].id == f(h[i].id));
            assert(h2[j].id == f(h[j].id));
            assert(g(f(h[i].id)) == h[i].id);
            assert(g(f(h[j].id)) == h[j].id);
        }
    }
    lemma_rename_forward::<A, S, M>(h2, g, s);
    if h.len() > 0 {
        lemma_check_decides_linearizability::<A, S, M>(h, s);
        lemma_check_decides_linearizability::<A, S, M>(h2, s);
    } else {
        lemma_explained_empty::<A, S, M>(h, s);
        lemma_explained_empty::<A, S, M>(h2, s);
    }
}

} // verus!
