//! The search for a sequential explanation of a recorded history.
use vstd::prelude::*;
use std::marker::PhantomData;
use vstd::std_specs::cmp::PartialEqSpec;
use crate::action::{Action, Model, model_is_function, model_step, lemma_model_step, default_is_function, default_response};
use crate::history::{Entry, EntryData, complete, request_of, response_of, res_pos, lemma_response_of_invocation};
use crate::linearizability::{linearizable, lemma_check_decides_linearizability};
use crate::live::{live_positions, live_from, live_len, live_at, live_clone, live_remove};

verus! {

/// `h` without the event at `k`, and then without the event at `j - 1` of what
/// is left: the events at `k` and at `j` when `k < j`, and the events at
/// `k - 1` and at `k` when `j` is `k`.
pub open spec fn remove_pair<T>(h: Seq<T>, k: int, j: int) -> Seq<T> {
    h.remove(k).remove(j - 1)
}

/// The position of the first event after `k` of the operation of the event at
/// `k`, or `k` itself when there is none.
pub open spec fn next_event<A: Action>(h: Seq<Entry<A>>, k: int) -> int {
    if exists|j: int| k < j < h.len() && h[j].id == h[k].id {
        choose|j: int|
            k < j < h.len() && h[j].id == h[k].id && (forall|t: int| k < t < j ==> h[t].id != h[k].id)
    } else {
        k
    }
}

/// The response expected for the invocation at `k`: the one recorded at `j`,
/// or the default response when `j` is `k`, for an invocation without response.
pub open spec fn expected_at<A: Action>(h: Seq<Entry<A>>, k: int, j: int) -> A::Response {
    if j == k {
        default_response::<A>()
    } else {
        response_of(h[j])
    }
}

/// The model, from state `s`, answers the invocation at `k` with the response
/// expected from position `j`.
pub open spec fn answers<A: Action, S: Sync + Send + Clone + 'static, M: Model<A, S>>(
    h: Seq<Entry<A>>,
    s: S,
    k: int,
    j: int,
) -> bool {
    model_step::<A, S, M>(s, request_of(h[k])).0.eq_spec(&expected_at(h, k, j))
}

/// The search: some invocation at `k` or later, before the first response,
/// is answered as expected, and either it is the last operation or the rest of
/// the history, from the state that follows, is explained in turn. The rest is
/// the history without the invocation and without the event at `next_event`
/// (or, for an invocation without response, the event just before it).
#[verifier::opaque]
pub open spec fn search_from<A: Action, S: Sync + Send + Clone + 'static, M: Model<A, S>>(
    h: Seq<Entry<A>>,
    s: S,
    k: int,
) -> bool
    decreases h.len(), h.len() - k,
{
    if k < 0 || k >= h.len() || !(h[k].data is Invoke) {
        false
    } else {
        let j = next_event(h, k);
        let here = if k <= j < h.len() && answers::<A, S, M>(h, s, k, j) {
            if h.len() <= 2 {
                true
            } else if 1 <= j {
                search_from::<A, S, M>(
                    remove_pair(h, k, j),
                    model_step::<A, S, M>(s, request_of(h[k])).1,
                    0,
                )
            } else {
                false
            }
        } else {
            false
        };
        here || search_from::<A, S, M>(h, s, k + 1)
    }
}

/// The search from position `k` on runs without failing: the first later
/// event of each operation it tries is a response, and an operation without
/// response that it removes is not the first event.
#[verifier::opaque]
pub open spec fn search_safe<A: Action, S: Sync + Send + Clone + 'static, M: Model<A, S>>(
    h: Seq<Entry<A>>,
    s: S,
    k: int,
) -> bool
    decreases h.len(), h.len() - k,
{
    if k < 0 || k >= h.len() || !(h[k].data is Invoke) {
        true
    } else {
        let j = next_event(h, k);
        if !(k <= j < h.len()) {
            false
        } else if j != k && !(h[j].data is Response) {
            false
        } else if answers::<A, S, M>(h, s, k, j) {
            if h.len() <= 2 {
                true
            } else if 1 <= j {
                search_safe::<A, S, M>(
                    remove_pair(h, k, j),
                    model_step::<A, S, M>(s, request_of(h[k])).1,
                    0,
                ) && search_safe::<A, S, M>(h, s, k + 1)
            } else {
                false
            }
        } else {
            search_safe::<A, S, M>(h, s, k + 1)
        }
    }
}

/// The result of the search on a history `h` from state `s`.
pub open spec fn explained<A: Action, S: Sync + Send + Clone + 'static, M: Model<A, S>>(
    h: Seq<Entry<A>>,
    s: S,
) -> bool {
    search_from::<A, S, M>(h, s, 0)
}


/// `next_event` is the first later event of the same operation.
pub proof fn lemma_next_event_found<A: Action>(h: Seq<Entry<A>>, k: int, j: int)
    requires
        0 <= k < j < h.len(),
        h[j].id == h[k].id,
        forall|t: int| k < t < j ==> h[t].id != h[k].id,
    ensures
        next_event(h, k) == j,
{
    let c = choose|c: int|
        k < c < h.len() && h[c].id == h[k].id && (forall|t: int| k < t < c ==> h[t].id != h[k].id);
    if c < j {
        assert(h[c].id != h[k].id);
    }
    if c > j {
        assert(h[j].id != h[k].id);
    }
}

/// `next_event` is `k` itself when the operation has no later event.
pub proof fn lemma_next_event_none<A: Action>(h: Seq<Entry<A>>, k: int)
    requires
        0 <= k < h.len(),
        forall|t: int| k < t < h.len() ==> h[t].id != h[k].id,
    ensures
        next_event(h, k) == k,
{
}

/// In a complete history, the next event of an invocation is its response.
pub proof fn lemma_next_event_complete<A: Action>(h: Seq<Entry<A>>, k: int)
    requires
        complete(h),
        0 <= k < h.len(),
        h[k].data is Invoke,
    ensures
        next_event(h, k) == res_pos(h, h[k].id),
{
    lemma_response_of_invocation(h, k);
    let j = res_pos(h, h[k].id);
    assert forall|t: int| k < t < j implies h[t].id != h[k].id by {
        if h[t].id == h[k].id {
            assert(t == j);
        }
    }
    lemma_next_event_found(h, k, j);
}

/// On a complete history the search never fails.
pub proof fn lemma_complete_is_safe<A: Action, S: Sync + Send + Clone + 'static, M: Model<A, S>>(
    h: Seq<Entry<A>>,
    s: S,
    k: int,
)
    requires
        complete(h),
    ensures
        search_safe::<A, S, M>(h, s, k),
    decreases h.len(), h.len() - k,
{
    reveal(search_safe);
    if k < 0 || k >= h.len() || !(h[k].data is Invoke) {
    } else {
        lemma_next_event_complete(h, k);
        lemma_response_of_invocation(h, k);
        let j = next_event(h, k);
        lemma_complete_is_safe::<A, S, M>(h, s, k + 1);
        if answers::<A, S, M>(h, s, k, j) && h.len() > 2 {
            lemma_remove_pair_complete(h, k);
            lemma_complete_is_safe::<A, S, M>(
                remove_pair(h, k, j),
                model_step::<A, S, M>(s, request_of(h[k])).1,
                0,
            );
        }
    }
}

/// The search can start with the invocation at `k`: it comes before every
/// response, the model answers it as recorded, and either it is the last
/// operation or the rest of the history is explained from the state that follows.
pub open spec fn explained_via<A: Action, S: Sync + Send + Clone + 'static, M: Model<A, S>>(
    h: Seq<Entry<A>>,
    s: S,
    k: int,
) -> bool {
    let j = res_pos(h, h[k].id);
    &&& 0 <= k < h.len()
    &&& forall|t: int| 0 <= t <= k ==> (#[trigger] h[t]).data is Invoke
    &&& k < j < h.len()
    &&& answers::<A, S, M>(h, s, k, j)
    &&& (h.len() <= 2 || explained::<A, S, M>(
        remove_pair(h, k, j),
        model_step::<A, S, M>(s, request_of(h[k])).1,
    ))
}

proof fn lemma_via_search_from<A: Action, S: Sync + Send + Clone + 'static, M: Model<A, S>>(
    h: Seq<Entry<A>>,
    s: S,
    k0: int,
    k: int,
)
    requires
        complete(h),
        0 <= k0 <= k,
        explained_via::<A, S, M>(h, s, k),
    ensures
        search_from::<A, S, M>(h, s, k0),
    decreases k - k0,
{
    reveal(search_from);
    lemma_next_event_complete(h, k0);
    if k0 < k {
        lemma_via_search_from::<A, S, M>(h, s, k0 + 1, k);
        assert(h[k0].data is Invoke);
    }
}

proof fn lemma_search_from_via<A: Action, S: Sync + Send + Clone + 'static, M: Model<A, S>>(
    h: Seq<Entry<A>>,
    s: S,
    k0: int,
)
    requires
        complete(h),
        0 <= k0,
        search_from::<A, S, M>(h, s, k0),
        forall|t: int| 0 <= t < k0 ==> (#[trigger] h[t]).data is Invoke,
    ensures
        exists|k: int| k0 <= k && explained_via::<A, S, M>(h, s, k),
    decreases h.len() - k0,
{
    reveal(search_from);
    if k0 < h.len() && h[k0].data is Invoke {
        lemma_next_event_complete(h, k0);
        lemma_response_of_invocation(h, k0);
    }
    let j = res_pos(h, h[k0].id);
    if k0 < j < h.len() && answers::<A, S, M>(h, s, k0, j) && (h.len() <= 2 || search_from::<A, S, M>(
        remove_pair(h, k0, j),
        model_step::<A, S, M>(s, request_of(h[k0])).1,
        0,
    )) {
        assert(explained_via::<A, S, M>(h, s, k0));
    } else {
        lemma_search_from_via::<A, S, M>(h, s, k0 + 1);
    }
}

/// The search explains a history if and only if it can start with some invocation.
pub proof fn lemma_explained_iff_via<A: Action, S: Sync + Send + Clone + 'static, M: Model<A, S>>(
    h: Seq<Entry<A>>,
    s: S,
)
    requires
        complete(h),
    ensures
        explained::<A, S, M>(h, s) <==> exists|k: int| #[trigger] explained_via::<A, S, M>(h, s, k),
{
    if explained::<A, S, M>(h, s) {
        lemma_search_from_via::<A, S, M>(h, s, 0);
    }
    if exists|k: int| #[trigger] explained_via::<A, S, M>(h, s, k) {
        let k = choose|k: int| #[trigger] explained_via::<A, S, M>(h, s, k);
        lemma_via_search_from::<A, S, M>(h, s, 0, k);
    }
}

/// An invocation at `k` or later, before the first response, ends the search:
/// it is answered as expected and it is the last operation.
#[verifier::opaque]
pub open spec fn finishes<A: Action, S: Sync + Send + Clone + 'static, M: Model<A, S>>(
    h: Seq<Entry<A>>,
    s: S,
    k: int,
) -> bool
    decreases h.len() - k,
{
    if k < 0 || k >= h.len() || !(h[k].data is Invoke) {
        false
    } else {
        let j = next_event(h, k);
        (h.len() <= 2 && k <= j < h.len() && answers::<A, S, M>(h, s, k, j)) || finishes::<A, S, M>(
            h,
            s,
            k + 1,
        )
    }
}

/// The histories left to explain, with their states, after each invocation
/// at `k` or later, before the first response, that the model answers as
/// expected, when more operations remain: in the order of the invocations.
#[verifier::opaque]
pub open spec fn branches<A: Action, S: Sync + Send + Clone + 'static, M: Model<A, S>>(
    h: Seq<Entry<A>>,
    s: S,
    k: int,
) -> Seq<(Seq<Entry<A>>, S)>
    decreases h.len() - k,
{
    if k < 0 || k >= h.len() || !(h[k].data is Invoke) {
        Seq::empty()
    } else {
        let j = next_event(h, k);
        let rest = branches::<A, S, M>(h, s, k + 1);
        if h.len() > 2 && k <= j < h.len() && 1 <= j && answers::<A, S, M>(h, s, k, j) {
            seq![(remove_pair(h, k, j), model_step::<A, S, M>(s, request_of(h[k])).1)] + rest
        } else {
            rest
        }
    }
}

/// Where the event at position `q` of `remove_pair(h, k, j)` stands in `h`.
pub open spec fn pair_unmap(q: int, k: int, j: int) -> int {
    if q < k {
        q
    } else if q + 1 < j {
        q + 1
    } else {
        q + 2
    }
}

/// Where the event at position `p` of `h` stands in `remove_pair(h, k, j)`.
pub open spec fn pair_map(p: int, k: int, j: int) -> int {
    p - (if p > k { 1int } else { 0int }) - (if p > j { 1int } else { 0int })
}

pub proof fn lemma_remove_pair<T>(h: Seq<T>, k: int, j: int)
    requires
        0 <= k < j < h.len(),
    ensures
        remove_pair(h, k, j).len() == h.len() - 2,
        forall|q: int| 0 <= q < h.len() - 2 ==> #[trigger] remove_pair(h, k, j)[q] == h[pair_unmap(q, k, j)],
        forall|q: int| 0 <= q < h.len() - 2 ==> {
            let p = #[trigger] pair_unmap(q, k, j);
            &&& 0 <= p < h.len()
            &&& p != k
            &&& p != j
            &&& pair_map(p, k, j) == q
        },
        forall|p: int| 0 <= p < h.len() && p != k && p != j ==> {
            let q = #[trigger] pair_map(p, k, j);
            &&& 0 <= q < h.len() - 2
            &&& pair_unmap(q, k, j) == p
        },
        forall|q1: int, q2: int| q1 < q2 ==> #[trigger] pair_unmap(q1, k, j) < #[trigger] pair_unmap(q2, k, j),
{
    let h1 = h.remove(k);
    assert(h1.len() == h.len() - 1);
    assert forall|q: int| 0 <= q < h1.len() implies h1[q] == h[if q < k { q } else { q + 1 }] by {}
    let h2 = h1.remove(j - 1);
    assert forall|q: int| 0 <= q < h.len() - 2 implies #[trigger] remove_pair(h, k, j)[q] == h[pair_unmap(q, k, j)] by {
        if q < j - 1 {
            assert(h2[q] == h1[q]);
        } else {
            assert(h2[q] == h1[q + 1]);
        }
    }
}

/// Removing the events at `k` and at `j - 1` of what is left leaves two events fewer.
pub proof fn lemma_remove_index<T>(h: Seq<T>, k: int)
    requires
        0 <= k < h.len(),
    ensures
        h.remove(k).len() == h.len() - 1,
        forall|q: int| 0 <= q < h.len() - 1 ==> #[trigger] h.remove(k)[q] == h[if q < k { q } else { q + 1 }],
{
}

pub proof fn lemma_remove_pair_len<T>(h: Seq<T>, k: int, j: int)
    requires
        0 <= k <= j < h.len(),
        1 <= j,
    ensures
        remove_pair(h, k, j).len() == h.len() - 2,
{
    assert(h.remove(k).len() == h.len() - 1);
}

/// Removing the two events of the operation invoked at `k` keeps a history complete.
pub proof fn lemma_remove_pair_complete<A: Action>(h: Seq<Entry<A>>, k: int)
    requires
        complete(h),
        0 <= k < h.len(),
        h[k].data is Invoke,
    ensures
        complete(remove_pair(h, k, res_pos(h, h[k].id))),
        remove_pair(h, k, res_pos(h, h[k].id)).len() == h.len() - 2,
{
    lemma_response_of_invocation(h, k);
    let j = res_pos(h, h[k].id);
    lemma_remove_pair(h, k, j);
    reveal(complete);
    let h2 = remove_pair(h, k, j);
    assert forall|a: int, b: int| 0 <= a < b < h2.len() && #[trigger] h2[a].id == #[trigger] h2[b].id
        implies h2[a].data is Invoke && h2[b].data is Response by {
        let pa = pair_unmap(a, k, j);
        let pb = pair_unmap(b, k, j);
        assert(h2[a] == h[pa]);
        assert(h2[b] == h[pb]);
        assert(h[pa].id == h[pb].id);
    }
    assert forall|a: int| 0 <= a < h2.len() && (#[trigger] h2[a]).data is Invoke
        implies exists|b: int| a < b < h2.len() && h2[b].id == h2[a].id by {
        let pa = pair_unmap(a, k, j);
        assert(h2[a] == h[pa]);
        lemma_response_of_invocation(h, pa);
        let pb = res_pos(h, h[pa].id);
        if pb == k {
            assert(h[pb].data is Response);
        }
        if pb == j {
            assert(h[pa].id == h[k].id);
        }
        let b = pair_map(pb, k, j);
        assert(pair_unmap(b, k, j) == pb);
        if b <= a {
            if b == a {
            } else {
                assert(pair_unmap(b, k, j) < pair_unmap(a, k, j));
            }
        }
        assert(h2[b] == h[pb]);
    }
    assert forall|b: int| 0 <= b < h2.len() && (#[trigger] h2[b]).data is Response
        implies exists|a: int| 0 <= a < b && h2[a].id == h2[b].id by {
        let pb = pair_unmap(b, k, j);
        assert(h2[b] == h[pb]);
        let pa = choose|i: int| 0 <= i < pb && h[i].id == h[pb].id;
        assert(h[pa].id == h[pb].id);
        assert(h[pa].data is Invoke);
        if pa == k {
            assert(pb == j);
        }
        if pa == j {
            assert(h[pa].id == h[k].id);
        }
        let a = pair_map(pa, k, j);
        assert(pair_unmap(a, k, j) == pa);
        if a >= b {
            if a == b {
            } else {
                assert(pair_unmap(b, k, j) < pair_unmap(a, k, j));
            }
        }
        assert(h2[a] == h[pa]);
    }
}

/// Each branch is the history without one operation: two events shorter, and
/// the search runs on it without failing when it does on the history.
pub proof fn lemma_branches_shape<A: Action, S: Sync + Send + Clone + 'static, M: Model<A, S>>(
    h: Seq<Entry<A>>,
    s: S,
    k: int,
)
    requires
        search_safe::<A, S, M>(h, s, k) || h.len() <= 2,
    ensures
        forall|i: int| 0 <= i < branches::<A, S, M>(h, s, k).len() ==> {
            &&& (#[trigger] branches::<A, S, M>(h, s, k)[i]).0.len() == h.len() - 2
            &&& search_safe::<A, S, M>(branches::<A, S, M>(h, s, k)[i].0, branches::<A, S, M>(h, s, k)[i].1, 0)
        },
    decreases h.len() - k,
{
    reveal(branches);
    reveal(search_safe);
    if k < 0 || k >= h.len() || !(h[k].data is Invoke) {
    } else {
        let j = next_event(h, k);
        lemma_branches_shape::<A, S, M>(h, s, k + 1);
        let rest = branches::<A, S, M>(h, s, k + 1);
        let b = branches::<A, S, M>(h, s, k);
        if 1 <= j && k <= j < h.len() {
            lemma_remove_pair_len(h, k, j);
        }
        assert forall|i: int| 0 <= i < b.len() implies {
            &&& (#[trigger] b[i]).0.len() == h.len() - 2
            &&& search_safe::<A, S, M>(b[i].0, b[i].1, 0)
        } by {
            if h.len() > 2 && k <= j < h.len() && 1 <= j && answers::<A, S, M>(h, s, k, j) {
                if i > 0 {
                    assert(b[i] == rest[i - 1]);
                } else {
                    assert(remove_pair(h, k, j).len() == h.len() - 2);
                }
            } else {
                assert(b[i] == rest[i]);
            }
        }
    }
}

/// One step of the search: a history is explained if and only if the search
/// finishes on it or one of its branches is explained.
pub proof fn lemma_expansion<A: Action, S: Sync + Send + Clone + 'static, M: Model<A, S>>(
    h: Seq<Entry<A>>,
    s: S,
    k: int,
)
    requires
        0 <= k,
    ensures
        search_from::<A, S, M>(h, s, k) == (finishes::<A, S, M>(h, s, k) || exists|i: int|
            0 <= i < branches::<A, S, M>(h, s, k).len() && explained::<A, S, M>(
                #[trigger] branches::<A, S, M>(h, s, k)[i].0,
                branches::<A, S, M>(h, s, k)[i].1,
            )),
    decreases h.len() - k,
{
    reveal(branches);
    reveal(finishes);
    reveal(search_from);
    if k < 0 || k >= h.len() || !(h[k].data is Invoke) {
    } else {
        lemma_expansion::<A, S, M>(h, s, k + 1);
        let j = next_event(h, k);
        let rest = branches::<A, S, M>(h, s, k + 1);
        let b = branches::<A, S, M>(h, s, k);
        if h.len() > 2 && k <= j < h.len() && 1 <= j && answers::<A, S, M>(h, s, k, j) {
            assert(b[0] == (remove_pair(h, k, j), model_step::<A, S, M>(s, request_of(h[k])).1));
            assert forall|i: int| 0 <= i < rest.len() implies b[i + 1] == rest[i] by {}
            if exists|i: int| 0 <= i < rest.len() && explained::<A, S, M>(#[trigger] rest[i].0, rest[i].1) {
                let i = choose|i: int| 0 <= i < rest.len() && explained::<A, S, M>(#[trigger] rest[i].0, rest[i].1);
                assert(b[i + 1] == rest[i]);
            }
            if exists|i: int| 0 <= i < b.len() && explained::<A, S, M>(#[trigger] b[i].0, b[i].1) {
                let i = choose|i: int| 0 <= i < b.len() && explained::<A, S, M>(#[trigger] b[i].0, b[i].1);
                if i > 0 {
                    assert(b[i] == rest[i - 1]);
                }
            }
            assert(finishes::<A, S, M>(h, s, k) == finishes::<A, S, M>(h, s, k + 1));
            assert(search_from::<A, S, M>(h, s, k) == (explained::<A, S, M>(b[0].0, b[0].1)
                || search_from::<A, S, M>(h, s, k + 1)));
        } else if h.len() <= 2 && k <= j < h.len() && answers::<A, S, M>(h, s, k, j) {
            assert(search_from::<A, S, M>(h, s, k));
            assert(finishes::<A, S, M>(h, s, k));
        } else {
            assert(b == rest);
            assert(finishes::<A, S, M>(h, s, k) == finishes::<A, S, M>(h, s, k + 1));
            assert(search_from::<A, S, M>(h, s, k) == search_from::<A, S, M>(h, s, k + 1));
        }
    }
}

/// One step of `search_safe`, `finishes` and `branches` at an invocation.
proof fn lemma_step<A: Action, S: Sync + Send + Clone + 'static, M: Model<A, S>>(
    h: Seq<Entry<A>>,
    s: S,
    k: int,
)
    requires
        0 <= k < h.len(),
        h[k].data is Invoke,
        search_safe::<A, S, M>(h, s, k),
    ensures
        ({
            let j = next_event(h, k);
            let ans = answers::<A, S, M>(h, s, k, j);
            let child = (remove_pair(h, k, j), model_step::<A, S, M>(s, request_of(h[k])).1);
            &&& k <= j < h.len()
            &&& j != k ==> h[j].data is Response
            &&& ans && h.len() > 2 ==> 1 <= j
            &&& !(ans && h.len() <= 2) ==> search_safe::<A, S, M>(h, s, k + 1)
            &&& finishes::<A, S, M>(h, s, k) == ((h.len() <= 2 && ans) || finishes::<A, S, M>(h, s, k + 1))
            &&& branches::<A, S, M>(h, s, k) == if h.len() > 2 && ans {
                seq![child] + branches::<A, S, M>(h, s, k + 1)
            } else {
                branches::<A, S, M>(h, s, k + 1)
            }
        }),
{
    reveal(search_safe);
    reveal(finishes);
    reveal(branches);
}

/// `search_safe`, `finishes` and `branches` at a response.
proof fn lemma_step_response<A: Action, S: Sync + Send + Clone + 'static, M: Model<A, S>>(
    h: Seq<Entry<A>>,
    s: S,
    k: int,
)
    requires
        0 <= k,
        k >= h.len() || h[k].data is Response,
    ensures
        !finishes::<A, S, M>(h, s, k),
        branches::<A, S, M>(h, s, k) == Seq::<(Seq<Entry<A>>, S)>::empty(),
{
    reveal(finishes);
    reveal(branches);
}

/// A history that is still to be explained, from a state of the model: the
/// events left, as positions into the recorded history, kept in a persistent
/// vector that the branches of the search share.
pub struct ImmutableChecker<'a, A: Action, S: Sync + Send + Clone + 'static, M: Model<A, S>> {
    entries: &'a [Entry<A>],
    history: im::Vector<usize>,
    state: S,
    _p1: PhantomData<M>,
}

impl<'a, A: Action, S: Sync + Send + Clone + 'static, M: Model<A, S>> Clone for ImmutableChecker<'a, A, S, M> {
    /// The same events left, shared, and a clone of the state.
    fn clone(&self) -> (r: Self)
        ensures
            r.recorded() == self.recorded(),
            r.positions() == self.positions(),
            cloned::<S>(self.state(), r.state()),
    {
        ImmutableChecker {
            entries: self.entries,
            history: live_clone(&self.history),
            state: self.state.clone(),
            _p1: PhantomData,
        }
    }
}

/// One step of the search on an `ImmutableChecker`.
pub enum Expansion<'a, A: Action, S: Sync + Send + Clone + 'static, M: Model<A, S>> {
    /// The last operation is answered as recorded: the history is explained.
    Linearized,
    /// The history is explained if and only if one of these is.
    Branches(Vec<ImmutableChecker<'a, A, S, M>>),
}

/// The answers gathered so far for the branches of one step of the search,
/// received in any order: the history is explained as soon as one branch is,
/// and is not once every branch has answered that it is not.
pub struct Tally {
    answered: Vec<bool>,
    found: bool,
    wanted: Ghost<Seq<bool>>,
    target: Ghost<bool>,
}

impl Tally {
    /// Whether each branch is explained.
    pub closed spec fn wanted(&self) -> Seq<bool> {
        self.wanted@
    }

    /// Whether the history whose branches these are is explained.
    pub closed spec fn target(&self) -> bool {
        self.target@
    }

    /// Branch `i` has answered.
    pub closed spec fn is_answered(&self, i: int) -> bool {
        0 <= i < self.answered@.len() && self.answered@[i]
    }

    /// Some branch has answered that it is explained.
    pub closed spec fn is_found(&self) -> bool {
        self.found
    }

    /// The history is explained exactly when a branch is; answers received
    /// are the branches' own.
    pub closed spec fn inv(&self) -> bool {
        &&& self.answered@.len() == self.wanted@.len()
        &&& self.target@ == exists|i: int| 0 <= i < self.wanted@.len() && #[trigger] self.wanted@[i]
        &&& self.found ==> self.target@
        &&& forall|i: int| 0 <= i < self.answered@.len() && #[trigger] self.answered@[i] && self.wanted@[i] ==> self.found
    }

    /// What the answers so far settle: explained once a branch is, not
    /// explained once all have answered and none is, and else nothing yet.
    pub open spec fn verdict(&self) -> Option<bool> {
        if self.is_found() {
            Some(true)
        } else if forall|i: int| 0 <= i < self.wanted().len() ==> #[trigger] self.is_answered(i) {
            Some(false)
        } else {
            None
        }
    }

    /// The number of branches.
    pub fn len(&self) -> (n: usize)
        requires
            self.inv(),
        ensures
            n == self.wanted().len(),
    {
        self.answered.len()
    }

    /// Whether branch `i` has answered.
    pub fn answered(&self, i: usize) -> (b: bool)
        ensures
            b == self.is_answered(i as int),
    {
        i < self.answered.len() && self.answered[i]
    }

    /// What the answers so far settle.
    pub fn settled(&self) -> (r: Option<bool>)
        requires
            self.inv(),
        ensures
            r == self.verdict(),
            r matches Some(v) ==> v == self.target(),
    {
        if self.found {
            return Some(true);
        }
        let mut i: usize = 0;
        while i < self.answered.len()
            invariant
                self.inv(),
                !self.found,
                i <= self.answered@.len(),
                forall|t: int| 0 <= t < i ==> #[trigger] self.is_answered(t),
            decreases self.answered@.len() - i,
        {
            if !self.answered[i] {
                assert(!self.is_answered(i as int));
                return None;
            }
            i += 1;
        }
        assert forall|t: int| 0 <= t < self.wanted@.len() implies !self.wanted@[t] by {
            assert(self.is_answered(t));
        }
        Some(false)
    }

    /// Records the answer of branch `i`, and says what the answers settle now.
    pub fn record(&mut self, i: usize, answer: bool) -> (r: Option<bool>)
        requires
            old(self).inv(),
            i < old(self).wanted().len(),
            !old(self).is_answered(i as int),
            answer == old(self).wanted()[i as int],
        ensures
            final(self).inv(),
            final(self).wanted() == old(self).wanted(),
            final(self).target() == old(self).target(),
            final(self).is_found() == (old(self).is_found() || answer),
            final(self).is_answered(i as int),
            forall|t: int| t != i ==> final(self).is_answered(t) == old(self).is_answered(t),
            r == final(self).verdict(),
            r matches Some(v) ==> v == final(self).target(),
    {
        self.answered.set(i, true);
        if answer {
            assert(self.target@) by {
                assert(self.wanted@[i as int]);
            }
            self.found = true;
        }
        self.settled()
    }
}

impl<'a, A: Action, S: Sync + Send + Clone + 'static, M: Model<A, S>> ImmutableChecker<'a, A, S, M> {
    /// The recorded history that the positions point into.
    pub closed spec fn recorded(&self) -> Seq<Entry<A>> {
        self.entries@
    }

    /// The positions of the events left, in order.
    pub closed spec fn positions(&self) -> Seq<usize> {
        live_positions(self.history)
    }

    /// The events left, in order.
    pub open spec fn history(&self) -> Seq<Entry<A>> {
        self.positions().map_values(|p: usize| self.recorded()[p as int])
    }

    /// The state of the model before the events left.
    pub closed spec fn state(&self) -> S {
        self.state
    }

    /// Every position points into the recorded history.
    pub open spec fn inv(&self) -> bool {
        forall|i: int| 0 <= i < self.positions().len() ==> #[trigger] self.positions()[i] < self.recorded().len()
    }

    pub fn new(entries: &'a [Entry<A>], history: im::Vector<usize>, state: S) -> (r: Self)
        requires
            forall|i: int| 0 <= i < live_positions(history).len()
                ==> #[trigger] live_positions(history)[i] < entries@.len(),
        ensures
            r.inv(),
            r.recorded() == entries@,
            r.positions() == live_positions(history),
            r.state() == state,
    {
        ImmutableChecker { entries, history, state, _p1: PhantomData }
    }

    /// A checker for the events of `entries` at the positions that `history`
    /// holds, from `state`; `None` when a position lies outside `entries`.
    pub fn try_new(entries: &'a [Entry<A>], history: im::Vector<usize>, state: S) -> (r: Option<Self>)
        ensures
            r is Some <==> forall|i: int| 0 <= i < live_positions(history).len()
                ==> #[trigger] live_positions(history)[i] < entries@.len(),
            r matches Some(c) ==> {
                &&& c.inv()
                &&& c.recorded() == entries@
                &&& c.positions() == live_positions(history)
                &&& c.state() == state
            },
    {
        let n: usize = live_len(&history);
        let mut i: usize = 0;
        while i < n
            invariant
                n == live_positions(history).len(),
                i <= n,
                forall|t: int| 0 <= t < i ==> #[trigger] live_positions(history)[t] < entries@.len(),
            decreases n - i,
        {
            if live_at(&history, i) >= entries.len() {
                return None;
            }
            i += 1;
        }
        Some(Self::new(entries, history, state))
    }

    /// A checker for the whole of `entries`, from `state`.
    pub fn from_entries(entries: &'a [Entry<A>], state: S) -> (r: Self)
        ensures
            r.inv(),
            r.recorded() == entries@,
            r.history() == entries@,
            r.state() == state,
    {
        let mut all: Vec<usize> = Vec::new();
        let mut i: usize = 0;
        while i < entries.len()
            invariant
                i <= entries@.len(),
                all@.len() == i,
                forall|t: int| 0 <= t < i ==> all@[t] == t,
            decreases entries@.len() - i,
        {
            all.push(i);
            i += 1;
        }
        let history = live_from(all);
        let r = ImmutableChecker { entries, history, state, _p1: PhantomData };
        assert(r.history() =~= entries@);
        r
    }

    /// The number of events left.
    pub fn len(&self) -> (n: usize)
        ensures
            n == self.history().len(),
    {
        live_len(&self.history)
    }

    /// The events left, in order.
    pub fn remaining(&self) -> (r: Vec<Entry<A>>)
        requires
            self.inv(),
        ensures
            r@ == self.history(),
    {
        let n: usize = live_len(&self.history);
        let mut r: Vec<Entry<A>> = Vec::new();
        let mut i: usize = 0;
        while i < n
            invariant
                self.inv(),
                n == self.history().len(),
                i <= n,
                r@ == self.history().subrange(0, i as int),
            decreases n - i,
        {
            let p: usize = live_at(&self.history, i);
            r.push(self.entries[p]);
            i += 1;
            assert(r@ =~= self.history().subrange(0, i as int));
        }
        assert(self.history().subrange(0, n as int) =~= self.history());
        r
    }

    /// The position, among the events left, of the next event of the
    /// operation invoked at `k`, or `k` when there is none.
    fn find_next(&self, k: usize, n: usize) -> (j: usize)
        requires
            self.inv(),
            n == self.history().len(),
            k < n,
        ensures
            j == next_event(self.history(), k as int),
            k <= j < n,
    {
        let ghost h = self.history();
        let id: usize = self.entries[live_at(&self.history, k)].id;
        let mut j: usize = k + 1;
        while j < n
            invariant
                self.inv(),
                h == self.history(),
                n == h.len(),
                k < j <= n,
                id == h[k as int].id,
                forall|t: int| k < t < j ==> h[t].id != id,
            decreases n - j,
        {
            let p: usize = live_at(&self.history, j);
            assert(h[j as int] == self.recorded()[p as int]);
            if self.entries[p].id == id {
                proof {
                    lemma_next_event_found(h, k as int, j as int);
                }
                return j;
            }
            j += 1;
        }
        proof {
            lemma_next_event_none(h, k as int);
        }
        k
    }

    /// The response expected for the invocation at `k`, whose next event is at `j`.
    fn expected(&self, k: usize, j: usize) -> (r: A::Response)
        requires
            self.inv(),
            k <= j < self.history().len(),
            j != k ==> self.history()[j as int].data is Response,
            default_is_function::<A>(),
        ensures
            r == expected_at(self.history(), k as int, j as int),
    {
        if j != k {
            let answer = self.entries[live_at(&self.history, j)];
            assert(answer == self.history()[j as int]);
            if let EntryData::Response(r) = answer.data {
                return r;
            }
        }
        let d = A::Response::default();
        assert(default_response::<A>() == d);
        d
    }

    /// The events left without those at `k` and at `j - 1` of what remains then.
    fn without_pair(&self, k: usize, j: usize, state: S) -> (r: Self)
        requires
            self.inv(),
            k <= j < self.history().len(),
            1 <= j,
        ensures
            r.inv(),
            r.recorded() == self.recorded(),
            r.history() == remove_pair(self.history(), k as int, j as int),
            r.state() == state,
    {
        let ghost h = self.history();
        let ghost pos = self.positions();
        let mut rest = live_clone(&self.history);
        live_remove(&mut rest, k);
        live_remove(&mut rest, j - 1);
        let r = ImmutableChecker { entries: self.entries, history: rest, state, _p1: PhantomData };
        proof {
            lemma_remove_index(pos, k as int);
            lemma_remove_index(pos.remove(k as int), j - 1);
            lemma_remove_index(h, k as int);
            lemma_remove_index(h.remove(k as int), j - 1);
            lemma_remove_pair_len(h, k as int, j as int);
            assert(r.positions() == remove_pair(pos, k as int, j as int));
            assert forall|i: int| 0 <= i < r.positions().len()
                implies #[trigger] r.positions()[i] < r.recorded().len() by {
                let i1 = if i < j - 1 { i } else { i + 1 };
                let i2 = if i1 < k { i1 } else { i1 + 1 };
                assert(r.positions()[i] == pos.remove(k as int)[i1]);
                assert(pos.remove(k as int)[i1] == pos[i2]);
            }
            assert(r.history() =~= remove_pair(h, k as int, j as int)) by {
                assert forall|i: int| 0 <= i < r.history().len()
                    implies r.history()[i] == remove_pair(h, k as int, j as int)[i] by {
                    let i1 = if i < j - 1 { i } else { i + 1 };
                    let i2 = if i1 < k { i1 } else { i1 + 1 };
                    assert(r.positions()[i] == pos.remove(k as int)[i1]);
                    assert(pos.remove(k as int)[i1] == pos[i2]);
                    assert(remove_pair(h, k as int, j as int)[i] == h.remove(k as int)[i1]);
                    assert(h.remove(k as int)[i1] == h[i2]);
                }
            }
        }
        r
    }

    /// One step of the search: whether the history is explained right away,
    /// and else the histories, with their states, that are left after each
    /// invocation before the first response that the model answers as expected.
    pub fn expand(&self) -> (r: Expansion<'a, A, S, M>)
        requires
            self.inv(),
            search_safe::<A, S, M>(self.history(), self.state(), 0),
            model_is_function::<A, S, M>(),
            default_is_function::<A>(),
            A::Response::obeys_eq_spec(),
        ensures
            match r {
                Expansion::Linearized => finishes::<A, S, M>(self.history(), self.state(), 0),
                Expansion::Branches(cs) => {
                    &&& !finishes::<A, S, M>(self.history(), self.state(), 0)
                    &&& cs@.len() == branches::<A, S, M>(self.history(), self.state(), 0).len()
                    &&& forall|i: int| 0 <= i < cs@.len() ==> {
                        &&& (#[trigger] cs@[i]).inv()
                        &&& cs@[i].recorded() == self.recorded()
                        &&& (cs@[i].history(), cs@[i].state()) == branches::<A, S, M>(self.history(), self.state(), 0)[i]
                    }
                },
            },
    {
        let ghost h = self.history();
        let ghost s = self.state();
        let n: usize = live_len(&self.history);
        let mut children: Vec<ImmutableChecker<'a, A, S, M>> = Vec::new();
        let mut k: usize = 0;
        while k < n
            invariant
                self.inv(),
                model_is_function::<A, S, M>(),
                default_is_function::<A>(),
                A::Response::obeys_eq_spec(),
                h == self.history(),
                s == self.state(),
                n == h.len(),
                k <= n,
                search_safe::<A, S, M>(h, s, k as int),
                forall|t: int| 0 <= t < k ==> (#[trigger] h[t]).data is Invoke,
                finishes::<A, S, M>(h, s, 0) == finishes::<A, S, M>(h, s, k as int),
                branches::<A, S, M>(h, s, 0).len() == children@.len() + branches::<A, S, M>(h, s, k as int).len(),
                forall|i: int| 0 <= i < children@.len() ==> {
                    &&& (#[trigger] children@[i]).inv()
                    &&& children@[i].recorded() == self.recorded()
                    &&& (children@[i].history(), children@[i].state()) == branches::<A, S, M>(h, s, 0)[i]
                },
                forall|i: int| 0 <= i < branches::<A, S, M>(h, s, k as int).len()
                    ==> branches::<A, S, M>(h, s, 0)[children@.len() + i] == #[trigger] branches::<A, S, M>(h, s, k as int)[i],
            decreases n - k,
        {
            let p: usize = live_at(&self.history, k);
            let entry = self.entries[p];
            assert(h[k as int] == entry);
            match entry.data {
                EntryData::Response(_) => {
                    proof {
                        lemma_step_response::<A, S, M>(h, s, k as int);
                    }
                    return Expansion::Branches(children);
                },
                EntryData::Invoke(q) => {
                    let j: usize = self.find_next(k, n);
                    proof {
                        lemma_step::<A, S, M>(h, s, k as int);
                    }
                    let expected = self.expected(k, j);
                    let o = M::step(&self.state, q);
                    proof {
                        lemma_model_step::<A, S, M>(s, q, o);
                    }
                    let same = o.0 == expected;
                    assert(same == answers::<A, S, M>(h, s, k as int, j as int));
                    if same {
                        if n <= 2 {
                            return Expansion::Linearized;
                        }
                        let child = self.without_pair(k, j, o.1);
                        children.push(child);
                        proof {
                            let b0 = branches::<A, S, M>(h, s, 0);
                            let bk = branches::<A, S, M>(h, s, k as int);
                            let bk1 = branches::<A, S, M>(h, s, k as int + 1);
                            assert(bk == seq![(remove_pair(h, k as int, j as int), model_step::<A, S, M>(s, request_of(h[k as int])).1)] + bk1);
                            assert(bk[0] == (child.history(), child.state()));
                            assert forall|i: int| 0 <= i < bk1.len() implies b0[children@.len() + i] == #[trigger] bk1[i] by {
                                assert(bk[i + 1] == bk1[i]);
                                assert(b0[children@.len() - 1 + (i + 1)] == bk[i + 1]);
                            }
                            assert(b0[children@.len() - 1 + 0] == bk[0]);
                        }
                    } else {
                        proof {
                            let bk = branches::<A, S, M>(h, s, k as int);
                            let bk1 = branches::<A, S, M>(h, s, k as int + 1);
                            assert(bk == bk1);
                        }
                    }
                },
            }
            k += 1;
        }
        proof {
            lemma_step_response::<A, S, M>(h, s, k as int);
        }
        Expansion::Branches(children)
    }

    /// A tally for the branches that `expand` gave for this history, in the
    /// same order: the history is explained exactly when one of them is.
    pub fn tally(&self, children: &Vec<Self>) -> (t: Tally)
        requires
            !finishes::<A, S, M>(self.history(), self.state(), 0),
            children@.len() == branches::<A, S, M>(self.history(), self.state(), 0).len(),
            forall|i: int| 0 <= i < children@.len()
                ==> (#[trigger] children@[i].history(), children@[i].state())
                    == branches::<A, S, M>(self.history(), self.state(), 0)[i],
        ensures
            t.inv(),
            t.target() == explained::<A, S, M>(self.history(), self.state()),
            t.wanted().len() == children@.len(),
            forall|i: int| 0 <= i < children@.len()
                ==> #[trigger] t.wanted()[i] == explained::<A, S, M>(children@[i].history(), children@[i].state()),
            forall|i: int| !t.is_answered(i),
            !t.is_found(),
    {
        let ghost h = self.history();
        let ghost s = self.state();
        let ghost b = branches::<A, S, M>(h, s, 0);
        proof {
            lemma_expansion::<A, S, M>(h, s, 0);
        }
        let mut answered: Vec<bool> = Vec::new();
        let mut i: usize = 0;
        while i < children.len()
            invariant
                i <= children@.len(),
                answered@.len() == i,
                forall|t: int| 0 <= t < i ==> !answered@[t],
            decreases children@.len() - i,
        {
            answered.push(false);
            i += 1;
        }
        let ghost wanted = Seq::new(children@.len(), |i: int| explained::<A, S, M>(b[i].0, b[i].1));
        let t = Tally { answered, found: false, wanted: Ghost(wanted), target: Ghost(explained::<A, S, M>(h, s)) };
        proof {
            assert forall|i: int| 0 <= i < children@.len()
                implies #[trigger] t.wanted()[i] == explained::<A, S, M>(children@[i].history(), children@[i].state()) by {
                assert((children@[i].history(), children@[i].state()) == b[i]);
            }
            if explained::<A, S, M>(h, s) {
                let i = choose|i: int| 0 <= i < b.len() && explained::<A, S, M>(#[trigger] b[i].0, b[i].1);
                assert(wanted[i]);
            }
            if exists|i: int| 0 <= i < wanted.len() && #[trigger] wanted[i] {
                let i = choose|i: int| 0 <= i < wanted.len() && #[trigger] wanted[i];
                assert(explained::<A, S, M>(b[i].0, b[i].1));
            }
        }
        t
    }

    /// Whether the history left is explained: the search, run to the end.
    pub fn check(&self) -> (r: bool)
        requires
            self.inv(),
            search_safe::<A, S, M>(self.history(), self.state(), 0),
            model_is_function::<A, S, M>(),
            default_is_function::<A>(),
            A::Response::obeys_eq_spec(),
        ensures
            r == explained::<A, S, M>(self.history(), self.state()),
            complete(self.history()) && self.history().len() > 0
                ==> (r == linearizable::<A, S, M>(self.history(), self.state())),
        decreases self.history().len(),
    {
        let ghost h = self.history();
        let ghost s = self.state();
        proof {
            if complete(h) && h.len() > 0 {
                lemma_check_decides_linearizability::<A, S, M>(h, s);
            }
            lemma_expansion::<A, S, M>(h, s, 0);
            lemma_branches_shape::<A, S, M>(h, s, 0);
        }
        match self.expand() {
            Expansion::Linearized => true,
            Expansion::Branches(children) => {
                let ghost b = branches::<A, S, M>(h, s, 0);
                let mut i: usize = 0;
                while i < children.len()
                    invariant
                        i <= children@.len(),
                        children@.len() == b.len(),
                        h == self.history(),
                        s == self.state(),
                        b == branches::<A, S, M>(h, s, 0),
                        complete(h) && h.len() > 0 ==> (explained::<A, S, M>(h, s) == linearizable::<A, S, M>(h, s)),
                        explained::<A, S, M>(h, s) == (finishes::<A, S, M>(h, s, 0) || exists|t: int|
                            0 <= t < b.len() && explained::<A, S, M>(#[trigger] b[t].0, b[t].1)),
                        !finishes::<A, S, M>(h, s, 0),
                        model_is_function::<A, S, M>(),
                        default_is_function::<A>(),
                        A::Response::obeys_eq_spec(),
                        forall|t: int| 0 <= t < children@.len() ==> {
                            &&& (#[trigger] children@[t]).inv()
                            &&& (children@[t].history(), children@[t].state()) == b[t]
                        },
                        forall|t: int| 0 <= t < b.len() ==> {
                            &&& (#[trigger] b[t]).0.len() == h.len() - 2
                            &&& search_safe::<A, S, M>(b[t].0, b[t].1, 0)
                        },
                        forall|t: int| 0 <= t < i ==> !explained::<A, S, M>(#[trigger] b[t].0, b[t].1),
                    decreases children@.len() - i,
                {
                    if children[i].check() {
                        return true;
                    }
                    i += 1;
                }
                false
            },
        }
    }
}

} // verus!
