use crossbeam_queue::ArrayQueue;
use std::collections::VecDeque;
use std::sync::RwLock;
use veritas::{Action, Entry, EntryData, Expansion, History, ImmutableChecker, Model, Runner};

struct QueueRunner {
    queue: ArrayQueue<u32>,
}

#[derive(Copy, Clone)]
struct QueueAction {}

#[derive(Copy, Clone, Debug, PartialEq)]
enum QueueRequest {
    PushAction(u32),
    PopAction,
}

impl Action for QueueAction {
    type Request = QueueRequest;
    type Response = u32;
}

impl Runner<QueueAction> for QueueRunner {
    fn init() -> Self {
        Self { queue: ArrayQueue::new(1024) }
    }
    fn invoke(&self, action: QueueRequest) -> u32 {
        match action {
            QueueRequest::PushAction(val) => {
                self.queue.push(val).unwrap();
                val
            }
            QueueRequest::PopAction => self.queue.pop().unwrap_or(0),
        }
    }
}

struct QueueModel {
    queue: RwLock<VecDeque<u32>>,
}

impl Runner<QueueAction> for QueueModel {
    fn init() -> Self {
        Self { queue: RwLock::new(VecDeque::new()) }
    }
    fn invoke(&self, action: QueueRequest) -> u32 {
        match action {
            QueueRequest::PushAction(val) => {
                self.queue.write().unwrap().push_back(val);
                val
            }
            QueueRequest::PopAction => self.queue.write().unwrap().pop_front().unwrap_or(0),
        }
    }
}

impl Model<QueueAction, VecDeque<u32>> for QueueModel {
    fn get_state(&self) -> VecDeque<u32> {
        self.queue.read().unwrap().clone()
    }
    fn from_state(state: &VecDeque<u32>) -> Self {
        Self { queue: RwLock::new(state.clone()) }
    }
}

type QueueChecker<'a> = ImmutableChecker<'a, QueueAction, VecDeque<u32>, QueueModel>;

fn inv(id: usize, q: QueueRequest) -> Entry<QueueAction> {
    Entry::invocation(id, q)
}

fn res(id: usize, r: u32) -> Entry<QueueAction> {
    Entry::response(id, r)
}

#[test]
fn crossbeam_queue_run_in_one_thread() {
    let runner = QueueRunner::init();
    let mut history: History<QueueAction> = History::new();
    let pushes: Vec<QueueRequest> = (0..1000).map(QueueRequest::PushAction).collect();
    let pops = vec![QueueRequest::PopAction; 500];
    history.run_requests(&runner, &pushes);
    history.run_requests(&runner, &pops);
    assert!(history.is_quiescent());
    assert_eq!(history.issued_count(), 1500);
    let entries = history.into_entries();
    assert_eq!(entries.len(), 3000);
    let checker: QueueChecker = ImmutableChecker::from_entries(&entries, VecDeque::new());
    assert!(checker.check());
}

#[test]
fn overlapping_pushes_may_take_effect_in_either_order() {
    // push(1) and push(2) overlap; then pop gives 2, then pop gives 1
    let entries = vec![
        inv(0, QueueRequest::PushAction(1)),
        inv(1, QueueRequest::PushAction(2)),
        res(0, 1),
        res(1, 2),
        inv(2, QueueRequest::PopAction),
        res(2, 2),
        inv(3, QueueRequest::PopAction),
        res(3, 1),
    ];
    let checker: QueueChecker = ImmutableChecker::from_entries(&entries, VecDeque::new());
    assert!(checker.check());
}

#[test]
fn real_time_order_is_respected() {
    // push(1) responds before push(2) is invoked, so a first pop cannot give 2
    let entries = vec![
        inv(0, QueueRequest::PushAction(1)),
        res(0, 1),
        inv(1, QueueRequest::PushAction(2)),
        res(1, 2),
        inv(2, QueueRequest::PopAction),
        res(2, 2),
        inv(3, QueueRequest::PopAction),
        res(3, 1),
    ];
    let checker: QueueChecker = ImmutableChecker::from_entries(&entries, VecDeque::new());
    assert!(!checker.check());
}

#[test]
fn pop_overlapping_a_push_may_see_it() {
    // pop overlaps push(5) and returns 5: the push takes effect first
    let entries = vec![
        inv(0, QueueRequest::PopAction),
        inv(1, QueueRequest::PushAction(5)),
        res(1, 5),
        res(0, 5),
    ];
    let checker: QueueChecker = ImmutableChecker::from_entries(&entries, VecDeque::new());
    assert!(checker.check());
    // the same pop returning 0 also fits: it takes effect before the push
    let entries = vec![
        inv(0, QueueRequest::PopAction),
        inv(1, QueueRequest::PushAction(5)),
        res(1, 5),
        res(0, 0),
    ];
    let checker: QueueChecker = ImmutableChecker::from_entries(&entries, VecDeque::new());
    assert!(checker.check());
    // but a value never pushed does not
    let entries = vec![
        inv(0, QueueRequest::PopAction),
        inv(1, QueueRequest::PushAction(5)),
        res(1, 5),
        res(0, 9),
    ];
    let checker: QueueChecker = ImmutableChecker::from_entries(&entries, VecDeque::new());
    assert!(!checker.check());
}

#[test]
fn empty_history_is_not_explained() {
    let entries: Vec<Entry<QueueAction>> = Vec::new();
    let checker: QueueChecker = ImmutableChecker::from_entries(&entries, VecDeque::new());
    assert!(!checker.check());
}

#[test]
fn expand_branches_on_each_first_invocation() {
    let entries = vec![
        inv(0, QueueRequest::PushAction(1)),
        inv(1, QueueRequest::PushAction(2)),
        res(0, 1),
        res(1, 2),
        inv(2, QueueRequest::PopAction),
        res(2, 2),
    ];
    let checker: QueueChecker = ImmutableChecker::from_entries(&entries, VecDeque::new());
    assert_eq!(checker.len(), 6);
    match checker.expand() {
        Expansion::Linearized => panic!("more than one operation is left"),
        Expansion::Branches(children) => {
            assert_eq!(children.len(), 2);
            let first = children[0].remaining();
            assert_eq!(first.len(), 4);
            assert_eq!(first[0].id, 1);
            assert_eq!(first[1].id, 1);
            assert_eq!(first[2].id, 2);
            assert_eq!(first[3].id, 2);
            let second = children[1].remaining();
            assert_eq!(second.len(), 4);
            assert_eq!(second[0].id, 0);
            assert_eq!(second[1].id, 0);
            assert_eq!(second[2].id, 2);
            // only the branch where push(2) went first explains pop giving 2
            assert!(!children[0].check());
            assert!(children[1].check());
        }
    }
}

#[test]
fn expand_finishes_on_the_last_operation() {
    let entries = vec![inv(0, QueueRequest::PushAction(3)), res(0, 3)];
    let checker: QueueChecker = ImmutableChecker::from_entries(&entries, VecDeque::new());
    assert!(matches!(checker.expand(), Expansion::Linearized));
    let wrong = vec![inv(0, QueueRequest::PopAction), res(0, 3)];
    let checker: QueueChecker = ImmutableChecker::from_entries(&wrong, VecDeque::new());
    match checker.expand() {
        Expansion::Linearized => panic!("pop on an empty queue answers 0"),
        Expansion::Branches(children) => assert_eq!(children.len(), 0),
    }
}

#[test]
fn a_response_first_stops_the_search() {
    // a history that starts with a response has no operation to start with
    let entries = vec![res(0, 1), inv(0, QueueRequest::PushAction(1))];
    let checker: QueueChecker = ImmutableChecker::from_entries(&entries, VecDeque::new());
    assert_eq!(checker.remaining().len(), 2);
}

#[test]
fn new_checker_over_chosen_positions() {
    let entries = vec![
        inv(0, QueueRequest::PushAction(1)),
        res(0, 1),
        inv(1, QueueRequest::PopAction),
        res(1, 1),
    ];
    let positions: im::Vector<usize> = im::Vector::from(vec![2, 3]);
    let mut state = VecDeque::new();
    state.push_back(1);
    let checker: QueueChecker = ImmutableChecker::new(&entries, positions, state);
    let left = checker.remaining();
    assert_eq!(left.len(), 2);
    assert!(matches!(left[0].data, EntryData::Invoke(QueueRequest::PopAction)));
    assert!(checker.check());
    let cloned = checker.clone();
    assert_eq!(cloned.len(), 2);
    assert!(cloned.check());
}

#[test]
fn history_records_ids_in_order() {
    let mut history: History<QueueAction> = History::new();
    assert!(history.is_quiescent());
    let a = history.begin(QueueRequest::PushAction(4));
    let b = history.begin(QueueRequest::PopAction);
    assert_eq!(a, 0);
    assert_eq!(b, 1);
    assert!(history.pending(a));
    assert!(history.pending(b));
    assert!(!history.pending(2));
    assert!(!history.is_quiescent());
    history.end(b, 0);
    assert!(!history.pending(b));
    assert!(!history.is_quiescent());
    history.end(a, 4);
    assert!(history.is_quiescent());
    let entries = history.entries();
    assert_eq!(entries.len(), 4);
    assert_eq!(entries[0].id, 0);
    assert!(matches!(entries[0].data, EntryData::Invoke(QueueRequest::PushAction(4))));
    assert_eq!(entries[2].id, 1);
    assert!(matches!(entries[2].data, EntryData::Response(0)));
    let entries = history.into_entries();
    // pop overlapping push(4) and answering 0 took effect first
    let checker: QueueChecker = ImmutableChecker::from_entries(&entries, VecDeque::new());
    assert!(checker.check());
}

#[test]
fn try_new_refuses_positions_outside_the_history() {
    let entries = vec![inv(0, QueueRequest::PushAction(1)), res(0, 1)];
    let inside: Option<QueueChecker> = ImmutableChecker::try_new(&entries, im::Vector::from(vec![0, 1]), VecDeque::new());
    assert!(inside.is_some());
    assert!(inside.unwrap().check());
    let outside: Option<QueueChecker> = ImmutableChecker::try_new(&entries, im::Vector::from(vec![0, 2]), VecDeque::new());
    assert!(outside.is_none());
}

#[test]
fn pending_pop_expects_the_default_response() {
    // the pop never responded: it is taken to answer the default, 0
    let entries = vec![inv(0, QueueRequest::PushAction(0)), res(0, 0), inv(1, QueueRequest::PopAction)];
    let checker: QueueChecker = ImmutableChecker::from_entries(&entries, VecDeque::new());
    assert!(checker.check());
    let entries = vec![inv(0, QueueRequest::PushAction(1)), res(0, 1), inv(1, QueueRequest::PopAction)];
    let checker: QueueChecker = ImmutableChecker::from_entries(&entries, VecDeque::new());
    assert!(!checker.check());
}

#[test]
fn pending_invocation_takes_the_event_before_it_along() {
    // after the pending pop at position 1 goes, so does the event before it,
    // and the response of push(7) is left alone at the front
    let entries = vec![
        inv(1, QueueRequest::PushAction(7)),
        inv(0, QueueRequest::PopAction),
        res(1, 7),
    ];
    let checker: QueueChecker = ImmutableChecker::from_entries(&entries, VecDeque::new());
    match checker.expand() {
        Expansion::Linearized => panic!("three events are left"),
        Expansion::Branches(children) => {
            assert_eq!(children.len(), 2);
            let first = children[0].remaining();
            assert_eq!(first.len(), 1);
            assert_eq!(first[0].id, 0);
            let second = children[1].remaining();
            assert_eq!(second.len(), 1);
            assert!(matches!(second[0].data, EntryData::Response(7)));
        }
    }
    assert!(!checker.check());
}

#[test]
fn relaxing_real_time_order_keeps_a_yes() {
    // push(1) responds before push(2) is invoked: pops in order 1, 2 fit
    let strict = vec![
        inv(0, QueueRequest::PushAction(1)),
        res(0, 1),
        inv(1, QueueRequest::PushAction(2)),
        res(1, 2),
        inv(2, QueueRequest::PopAction),
        res(2, 1),
    ];
    let relaxed = vec![
        inv(0, QueueRequest::PushAction(1)),
        inv(1, QueueRequest::PushAction(2)),
        res(0, 1),
        res(1, 2),
        inv(2, QueueRequest::PopAction),
        res(2, 1),
    ];
    let a: QueueChecker = ImmutableChecker::from_entries(&strict, VecDeque::new());
    let b: QueueChecker = ImmutableChecker::from_entries(&relaxed, VecDeque::new());
    assert!(a.check());
    assert!(b.check());
    // and the relaxed history also fits the other order, which the strict one does not
    let strict_other = vec![strict[0], strict[1], strict[2], strict[3], strict[4], res(2, 2)];
    let relaxed_other = vec![relaxed[0], relaxed[1], relaxed[2], relaxed[3], relaxed[4], res(2, 2)];
    let a: QueueChecker = ImmutableChecker::from_entries(&strict_other, VecDeque::new());
    let b: QueueChecker = ImmutableChecker::from_entries(&relaxed_other, VecDeque::new());
    assert!(!a.check());
    assert!(b.check());
}

#[test]
fn swapping_adjacent_invocations_or_responses_changes_nothing() {
    let base = vec![
        inv(0, QueueRequest::PushAction(1)),
        inv(1, QueueRequest::PushAction(2)),
        res(0, 1),
        res(1, 2),
        inv(2, QueueRequest::PopAction),
        res(2, 9),
    ];
    let invocations_swapped = vec![base[1], base[0], base[2], base[3], base[4], base[5]];
    let responses_swapped = vec![base[0], base[1], base[3], base[2], base[4], base[5]];
    for h in [&base, &invocations_swapped, &responses_swapped] {
        let c: QueueChecker = ImmutableChecker::from_entries(h, VecDeque::new());
        assert!(!c.check());
    }
    let good = vec![base[0], base[1], base[2], base[3], base[4], res(2, 2)];
    let good_swapped = vec![good[1], good[0], good[3], good[2], good[4], good[5]];
    for h in [&good, &good_swapped] {
        let c: QueueChecker = ImmutableChecker::from_entries(h, VecDeque::new());
        assert!(c.check());
    }
}

#[test]
fn renaming_ids_changes_nothing() {
    let base = vec![
        inv(0, QueueRequest::PopAction),
        inv(1, QueueRequest::PushAction(5)),
        res(1, 5),
        res(0, 5),
    ];
    let renamed: Vec<Entry<QueueAction>> = base.iter().map(|e| Entry { id: 100 - e.id, data: e.data }).collect();
    let a: QueueChecker = ImmutableChecker::from_entries(&base, VecDeque::new());
    let b: QueueChecker = ImmutableChecker::from_entries(&renamed, VecDeque::new());
    assert!(a.check());
    assert!(b.check());
}

#[test]
fn tally_settles_on_the_first_yes_or_on_all_noes() {
    let entries = vec![
        inv(0, QueueRequest::PushAction(1)),
        inv(1, QueueRequest::PushAction(2)),
        res(0, 1),
        res(1, 2),
        inv(2, QueueRequest::PopAction),
        res(2, 2),
    ];
    let checker: QueueChecker = ImmutableChecker::from_entries(&entries, VecDeque::new());
    match checker.expand() {
        Expansion::Linearized => panic!("more than one operation is left"),
        Expansion::Branches(children) => {
            let answers: Vec<bool> = children.iter().map(|c| c.check()).collect();
            assert_eq!(answers, vec![false, true]);
            let mut tally = checker.tally(&children);
            assert_eq!(tally.len(), 2);
            assert_eq!(tally.settled(), None);
            assert_eq!(tally.record(0, false), None);
            assert!(tally.answered(0));
            assert!(!tally.answered(1));
            assert_eq!(tally.record(1, true), Some(true));
            // answers in the other order settle at once
            let mut tally = checker.tally(&children);
            assert_eq!(tally.record(1, true), Some(true));
        }
    }
    let wrong = vec![
        inv(0, QueueRequest::PushAction(1)),
        inv(1, QueueRequest::PushAction(2)),
        res(0, 1),
        res(1, 2),
        inv(2, QueueRequest::PopAction),
        res(2, 7),
    ];
    let checker: QueueChecker = ImmutableChecker::from_entries(&wrong, VecDeque::new());
    match checker.expand() {
        Expansion::Linearized => panic!("more than one operation is left"),
        Expansion::Branches(children) => {
            let mut tally = checker.tally(&children);
            assert_eq!(tally.record(1, false), None);
            assert_eq!(tally.record(0, false), Some(false));
        }
    }
}

#[test]
fn fresh_and_quiescent_histories() {
    let mut history: History<QueueAction> = History::new();
    assert!(history.is_quiescent());
    assert!(!history.pending(0));
    let runner = QueueRunner::init();
    history.run_requests(&runner, &[QueueRequest::PushAction(3), QueueRequest::PopAction]);
    assert!(history.is_quiescent());
    let entries = history.entries();
    assert_eq!(entries.len(), 2 * history.issued_count());
    let mut ids: Vec<usize> = entries.iter().map(|e| e.id).collect();
    ids.sort();
    assert_eq!(ids, vec![0, 0, 1, 1]);
}
