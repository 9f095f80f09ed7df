use vstd::prelude::*;
use crate::action::{Action, Runner};

verus! {

/// What one event of a history records: an invocation with its request,
/// or a response.
#[derive(Copy, Clone)]
pub enum EntryData<A: Action> {
    Invoke(A::Request),
    Response(A::Response),
}

/// One event of a history: the operation it belongs to, and what happened.
#[derive(Copy, Clone)]
pub struct Entry<A: Action> {
    pub id: usize,
    pub data: EntryData<A>,
}

impl<A: Action> Entry<A> {
    /// The invocation of operation `id` with `request`.
    pub fn invocation(id: usize, request: A::Request) -> (e: Entry<A>)
        ensures
            e == (Entry::<A> { id, data: EntryData::Invoke(request) }),
    {
        Entry { id, data: EntryData::Invoke(request) }
    }

    /// The response `response` of operation `id`.
    pub fn response(id: usize, response: A::Response) -> (e: Entry<A>)
        ensures
            e == (Entry::<A> { id, data: EntryData::Response(response) }),
    {
        Entry { id, data: EntryData::Response(response) }
    }
}

/// The request of an invocation.
pub open spec fn request_of<A: Action>(e: Entry<A>) -> A::Request {
    match e.data {
        EntryData::Invoke(q) => q,
        EntryData::Response(_) => arbitrary(),
    }
}

/// The value of a response.
pub open spec fn response_of<A: Action>(e: Entry<A>) -> A::Response {
    match e.data {
        EntryData::Invoke(_) => arbitrary(),
        EntryData::Response(r) => r,
    }
}

/// A complete history: each operation has one invocation and, after it, one response.
#[verifier::opaque]
pub open spec fn complete<A: Action>(h: Seq<Entry<A>>) -> bool {
    &&& forall|i: int, j: int|
        0 <= i < j < h.len() && #[trigger] h[i].id == #[trigger] h[j].id
            ==> h[i].data is Invoke && h[j].data is Response
    &&& forall|i: int|
        0 <= i < h.len() && (#[trigger] h[i]).data is Invoke
            ==> exists|j: int| i < j < h.len() && h[j].id == h[i].id
    &&& forall|j: int|
        0 <= j < h.len() && (#[trigger] h[j]).data is Response
            ==> exists|i: int| 0 <= i < j && h[i].id == h[j].id
}

/// Operation `id` has an invocation in `h`.
pub open spec fn invoked<A: Action>(h: Seq<Entry<A>>, id: int) -> bool {
    exists|i: int| 0 <= i < h.len() && h[i].id == id && h[i].data is Invoke
}

/// The position of the response of operation `id`.
pub open spec fn res_pos<A: Action>(h: Seq<Entry<A>>, id: usize) -> int {
    choose|j: int| 0 <= j < h.len() && h[j].id == id && h[j].data is Response
}

/// In a complete history, the response of the operation invoked at `k` is the
/// only other event of that operation, and it comes after `k`.
pub proof fn lemma_response_of_invocation<A: Action>(h: Seq<Entry<A>>, k: int)
    requires
        complete(h),
        0 <= k < h.len(),
        h[k].data is Invoke,
    ensures
        k < res_pos(h, h[k].id) < h.len(),
        h[res_pos(h, h[k].id)].id == h[k].id,
        h[res_pos(h, h[k].id)].data is Response,
        forall|t: int| 0 <= t < h.len() && t != k && h[t].id == h[k].id ==> t == res_pos(h, h[k].id),
{
    reveal(complete);
    let j0 = choose|j: int| k < j < h.len() && h[j].id == h[k].id;
    assert(h[k].id == h[j0].id);
    assert(h[j0].data is Response);
    let j = res_pos(h, h[k].id);
    assert(h[j].id == h[k].id && h[j].data is Response);
    if j < k {
        assert(h[j].id == h[k].id);
        assert(h[k].data is Response);
    }
    assert forall|t: int| 0 <= t < h.len() && t != k && h[t].id == h[k].id implies t == j by {
        if t < k {
            assert(h[t].id == h[k].id);
        } else if t != j {
            if t < j {
                assert(h[t].id == h[j].id);
                assert(h[k].id == h[t].id);
            } else {
                assert(h[j].id == h[t].id);
            }
        }
    }
}

/// How many operations of `open` have responded.
spec fn responded(open: Seq<bool>) -> nat
    decreases open.len(),
{
    if open.len() == 0 {
        0
    } else {
        responded(open.drop_last()) + if open.last() {
            0nat
        } else {
            1nat
        }
    }
}

proof fn lemma_responded_push(open: Seq<bool>, b: bool)
    ensures
        responded(open.push(b)) == responded(open) + if b {
            0nat
        } else {
            1nat
        },
{
    assert(open.push(b).drop_last() =~= open);
}

proof fn lemma_responded_close(open: Seq<bool>, i: int)
    requires
        0 <= i < open.len(),
        open[i],
    ensures
        responded(open.update(i, false)) == responded(open) + 1,
    decreases open.len(),
{
    let u = open.update(i, false);
    if i < open.len() - 1 {
        assert(u.drop_last() =~= open.drop_last().update(i, false));
        lemma_responded_close(open.drop_last(), i);
    } else {
        assert(u.drop_last() =~= open.drop_last());
    }
}

proof fn lemma_responded_all(open: Seq<bool>)
    requires
        forall|i: int| 0 <= i < open.len() ==> !open[i],
    ensures
        responded(open) == open.len(),
    decreases open.len(),
{
    if open.len() > 0 {
        lemma_responded_all(open.drop_last());
    }
}

/// A log of the events of a run, kept as it is recorded: operations get the
/// ids 0, 1, 2, ... in the order in which they are invoked.
pub struct History<A: Action> {
    entries: Vec<Entry<A>>,
    open: Vec<bool>,
}

impl<A: Action> View for History<A> {
    type V = Seq<Entry<A>>;

    closed spec fn view(&self) -> Seq<Entry<A>> {
        self.entries@
    }
}

impl<A: Action> History<A> {
    /// How many operations have been invoked.
    pub closed spec fn issued(&self) -> nat {
        self.open@.len()
    }

    /// Operation `id` has been invoked and has not responded yet.
    pub closed spec fn is_pending(&self, id: int) -> bool {
        0 <= id < self.open@.len() && self.open@[id]
    }

    /// Each event's operation has been invoked; an operation's events are its
    /// invocation and, later, at most one response; every invoked operation
    /// has its invocation recorded; and an operation is pending exactly while
    /// its response is missing.
    pub closed spec fn inv(&self) -> bool {
        let h = self.entries@;
        let n = self.open@.len();
        &&& h.len() == n + responded(self.open@)
        &&& forall|i: int| 0 <= i < h.len() ==> ((#[trigger] h[i]).id as int) < n
        &&& forall|i: int, j: int|
            0 <= i < j < h.len() && #[trigger] h[i].id == #[trigger] h[j].id
                ==> h[i].data is Invoke && h[j].data is Response
        &&& forall|id: int| 0 <= id < n ==> #[trigger] invoked(h, id)
        &&& forall|i: int|
            0 <= i < h.len() && (#[trigger] h[i]).data is Invoke ==> (self.open@[h[i].id as int]
                <==> !(exists|j: int| i < j < h.len() && h[j].id == h[i].id))
    }

    pub fn new() -> (r: History<A>)
        ensures
            r.inv(),
            r@ == Seq::<Entry<A>>::empty(),
            r.issued() == 0,
            forall|id: int| !r.is_pending(id),
    {
        History { entries: Vec::new(), open: Vec::new() }
    }

    /// Records the invocation of a new operation, which gets the next id.
    pub fn begin(&mut self, request: A::Request) -> (id: usize)
        requires
            old(self).inv(),
            old(self).issued() < usize::MAX,
        ensures
            final(self).inv(),
            id == old(self).issued(),
            final(self).issued() == old(self).issued() + 1,
            final(self)@ == old(self)@.push(Entry::<A> { id, data: EntryData::Invoke(request) }),
            final(self).is_pending(id as int),
            forall|o: int| o != id ==> final(self).is_pending(o) == old(self).is_pending(o),
    {
        let ghost h0 = self.entries@;
        let id: usize = self.open.len();
        let ghost open0 = self.open@;
        self.entries.push(Entry::invocation(id, request));
        self.open.push(true);
        proof {
            lemma_responded_push(open0, true);
            let h = self.entries@;
            assert(h[h.len() - 1].id == id);
            assert forall|i: int| 0 <= i < h.len() implies ((#[trigger] h[i]).id as int) < self.open@.len() by {
                if i < h0.len() {
                    assert(h0[i] == h[i]);
                }
            }
            assert forall|i: int, j: int|
                0 <= i < j < h.len() && #[trigger] h[i].id == #[trigger] h[j].id
                implies h[i].data is Invoke && h[j].data is Response by {
                assert(h0[i] == h[i]);
                if j < h0.len() {
                    assert(h0[j] == h[j]);
                } else {
                    assert((h0[i].id as int) < id);
                }
            }
            assert forall|o: int| 0 <= o < self.open@.len() implies #[trigger] invoked(h, o) by {
                if o < id {
                    assert(invoked(h0, o));
                    let i = choose|i: int| 0 <= i < h0.len() && h0[i].id == o && h0[i].data is Invoke;
                    assert(h[i] == h0[i]);
                } else {
                    assert(h[h0.len() as int].id == o);
                }
            }
            assert forall|i: int| 0 <= i < h.len() && (#[trigger] h[i]).data is Invoke implies (self.open@[h[i].id as int]
                <==> !(exists|j: int| i < j < h.len() && h[j].id == h[i].id)) by {
                if i < h0.len() {
                    assert(h[i] == h0[i]);
                    assert((h0[i].id as int) < id);
                    if exists|j: int| i < j < h.len() && h[j].id == h[i].id {
                        let j = choose|j: int| i < j < h.len() && h[j].id == h[i].id;
                        assert(j < h0.len());
                        assert(h0[j] == h[j]);
                    }
                    if exists|j: int| i < j < h0.len() && h0[j].id == h0[i].id {
                        let j = choose|j: int| i < j < h0.len() && h0[j].id == h0[i].id;
                        assert(h0[j] == h[j]);
                    }
                }
            }
        }
        id
    }

    /// Records the response of a pending operation.
    pub fn end(&mut self, id: usize, response: A::Response)
        requires
            old(self).inv(),
            old(self).is_pending(id as int),
        ensures
            final(self).inv(),
            final(self).issued() == old(self).issued(),
            final(self)@ == old(self)@.push(Entry::<A> { id, data: EntryData::Response(response) }),
            !final(self).is_pending(id as int),
            forall|o: int| o != id ==> final(self).is_pending(o) == old(self).is_pending(o),
    {
        let ghost h0 = self.entries@;
        proof {
            assert(invoked(h0, id as int));
        }
        let ghost k = choose|i: int| 0 <= i < h0.len() && h0[i].id == id && h0[i].data is Invoke;
        proof {
            // every event of `id` so far is its invocation at `k`
            assert forall|p: int| 0 <= p < h0.len() && h0[p].id == id implies p == k by {
                if p < k {
                    assert(h0[p].id == h0[k].id);
                } else if p > k {
                    assert(h0[k].id == h0[p].id);
                    assert(h0[p].id == h0[k].id);
                }
            }
        }
        let ghost open0 = self.open@;
        self.entries.push(Entry::response(id, response));
        self.open.set(id, false);
        proof {
            lemma_responded_close(open0, id as int);
            let h = self.entries@;
            assert(h[h0.len() as int].id == id);
            assert forall|i: int| 0 <= i < h.len() implies ((#[trigger] h[i]).id as int) < self.open@.len() by {
                if i < h0.len() {
                    assert(h0[i] == h[i]);
                }
            }
            assert forall|i: int, j: int|
                0 <= i < j < h.len() && #[trigger] h[i].id == #[trigger] h[j].id
                implies h[i].data is Invoke && h[j].data is Response by {
                assert(h0[i] == h[i]);
                if j < h0.len() {
                    assert(h0[j] == h[j]);
                } else {
                    assert(h0[i].id == id);
                    assert(i == k);
                }
            }
            assert forall|o: int| 0 <= o < self.open@.len() implies #[trigger] invoked(h, o) by {
                assert(invoked(h0, o));
                let i = choose|i: int| 0 <= i < h0.len() && h0[i].id == o && h0[i].data is Invoke;
                assert(h[i] == h0[i]);
            }
            assert forall|i: int| 0 <= i < h.len() && (#[trigger] h[i]).data is Invoke implies (self.open@[h[i].id as int]
                <==> !(exists|j: int| i < j < h.len() && h[j].id == h[i].id)) by {
                assert(i < h0.len());
                assert(h[i] == h0[i]);
                if h0[i].id == id {
                    assert(i == k);
                    assert(h[h0.len() as int].id == h[i].id);
                } else {
                    if exists|j: int| i < j < h.len() && h[j].id == h[i].id {
                        let j = choose|j: int| i < j < h.len() && h[j].id == h[i].id;
                        assert(j < h0.len());
                        assert(h0[j] == h[j]);
                    }
                    if exists|j: int| i < j < h0.len() && h0[j].id == h0[i].id {
                        let j = choose|j: int| i < j < h0.len() && h0[j].id == h0[i].id;
                        assert(h0[j] == h[j]);
                    }
                }
            }
        }
    }

    /// The number of operations invoked so far.
    pub fn issued_count(&self) -> (n: usize)
        ensures
            n == self.issued(),
    {
        self.open.len()
    }

    /// Whether operation `id` has been invoked and has not responded yet.
    pub fn pending(&self, id: usize) -> (b: bool)
        ensures
            b == self.is_pending(id as int),
    {
        id < self.open.len() && self.open[id]
    }

    /// Whether every invoked operation has responded.
    pub fn is_quiescent(&self) -> (b: bool)
        ensures
            b == (forall|id: int| !self.is_pending(id)),
    {
        let mut i: usize = 0;
        while i < self.open.len()
            invariant
                i <= self.open@.len(),
                forall|id: int| 0 <= id < i ==> !self.is_pending(id),
            decreases self.open@.len() - i,
        {
            if self.open[i] {
                assert(self.is_pending(i as int));
                return false;
            }
            i += 1;
        }
        true
    }

    /// The recorded events, in order.
    pub fn entries(&self) -> (r: &[Entry<A>])
        ensures
            r@ == self@,
    {
        self.entries.as_slice()
    }

    /// The recorded events, in order.
    pub fn into_entries(self) -> (r: Vec<Entry<A>>)
        ensures
            r@ == self@,
    {
        self.entries
    }

    /// A log with no pending operation is a complete history of exactly the
    /// operations 0, 1, ..., `issued() - 1`: two events each, an invocation and
    /// a later response.
    pub proof fn lemma_quiescent_is_complete(&self)
        requires
            self.inv(),
            forall|id: int| !self.is_pending(id),
        ensures
            complete(self@),
            self@.len() == 2 * self.issued(),
            forall|i: int| 0 <= i < self@.len() ==> ((#[trigger] self@[i]).id as int) < self.issued(),
            forall|id: int| 0 <= id < self.issued() ==> #[trigger] invoked(self@, id),
    {
        reveal(complete);
        assert forall|i: int| 0 <= i < self.open@.len() implies !self.open@[i] by {
            assert(!self.is_pending(i));
        }
        lemma_responded_all(self.open@);
        let h = self.entries@;
        assert forall|i: int| 0 <= i < h.len() && (#[trigger] h[i]).data is Invoke
            implies exists|j: int| i < j < h.len() && h[j].id == h[i].id by {
            assert(!self.is_pending(h[i].id as int));
        }
        assert forall|j: int| 0 <= j < h.len() && (#[trigger] h[j]).data is Response
            implies exists|i: int| 0 <= i < j && h[i].id == h[j].id by {
            assert(invoked(h, h[j].id as int));
            let i = choose|i: int| 0 <= i < h.len() && h[i].id == h[j].id && h[i].data is Invoke;
            if i > j {
                assert(h[j].id == h[i].id);
            }
        }
    }

    /// Runs `requests` one after the other on `runner`, recording each
    /// invocation and its response.
    pub fn run_requests<R: Runner<A>>(&mut self, runner: &R, requests: &[A::Request])
        requires
            old(self).inv(),
            old(self).issued() + requests@.len() <= usize::MAX,
        ensures
            final(self).inv(),
            final(self).issued() == old(self).issued() + requests@.len(),
            final(self)@.len() == old(self)@.len() + 2 * requests@.len(),
            final(self)@.subrange(0, old(self)@.len() as int) == old(self)@,
            forall|t: int| 0 <= t < requests@.len() ==> {
                let inv_event = #[trigger] final(self)@[old(self)@.len() + 2 * t];
                let res_event = final(self)@[old(self)@.len() + 2 * t + 1];
                &&& inv_event == Entry::<A> { id: (old(self).issued() + t) as usize, data: EntryData::Invoke(requests@[t]) }
                &&& res_event.id == old(self).issued() + t
                &&& res_event.data is Response
                &&& call_ensures(R::invoke, (runner, requests@[t]), response_of(res_event))
            },
            forall|o: int| final(self).is_pending(o) == old(self).is_pending(o),
    {
        let ghost h0 = self@;
        let ghost n0 = self.issued();
        let mut t: usize = 0;
        while t < requests.len()
            invariant
                t <= requests@.len(),
                self.inv(),
                n0 + requests@.len() <= usize::MAX,
                self.issued() == n0 + t,
                self@.len() == h0.len() + 2 * t,
                self@.subrange(0, h0.len() as int) == h0,
                forall|u: int| 0 <= u < t ==> {
                    let inv_event = #[trigger] self@[h0.len() + 2 * u];
                    let res_event = self@[h0.len() + 2 * u + 1];
                    &&& inv_event == Entry::<A> { id: (n0 + u) as usize, data: EntryData::Invoke(requests@[u]) }
                    &&& res_event.id == n0 + u
                    &&& res_event.data is Response
                    &&& call_ensures(R::invoke, (runner, requests@[u]), response_of(res_event))
                },
                forall|o: int| self.is_pending(o) == old(self).is_pending(o),
            decreases requests@.len() - t,
        {
            let ghost before = self@;
            let request = requests[t];
            let id: usize = self.begin(request);
            let response = runner.invoke(request);
            self.end(id, response);
            proof {
                assert(self@ == before.push(Entry::<A> { id, data: EntryData::Invoke(request) }).push(
                    Entry::<A> { id, data: EntryData::Response(response) }));
                assert forall|u: int| 0 <= u < t + 1 implies {
                    let inv_event = #[trigger] self@[h0.len() + 2 * u];
                    let res_event = self@[h0.len() + 2 * u + 1];
                    &&& inv_event == Entry::<A> { id: (n0 + u) as usize, data: EntryData::Invoke(requests@[u]) }
                    &&& res_event.id == n0 + u
                    &&& res_event.data is Response
                    &&& call_ensures(R::invoke, (runner, requests@[u]), response_of(res_event))
                } by {
                    if u < t {
                        assert(self@[h0.len() + 2 * u] == before[h0.len() + 2 * u]);
                        assert(self@[h0.len() + 2 * u + 1] == before[h0.len() + 2 * u + 1]);
                    }
                }
                assert(self@.subrange(0, h0.len() as int) =~= h0) by {
                    assert forall|i: int| 0 <= i < h0.len() implies self@[i] == h0[i] by {
                        assert(before.subrange(0, h0.len() as int)[i] == h0[i]);
                    }
                }
            }
            t += 1;
        }
    }
}

} // verus!
