use std::sync::RwLock;
use veritas::{Action, History, ImmutableChecker, Model, Runner};

struct Stack {
    data: RwLock<Vec<u32>>,
}

#[derive(Copy, Clone)]
struct StackAction {}

#[derive(Copy, Clone)]
enum StackRequest {
    PushAction(PushAction),
    PopAction,
}

#[derive(Copy, Clone)]
struct PushAction {
    data: u32,
}

impl Action for StackAction {
    type Request = StackRequest;
    type Response = u32;
}

impl Stack {
    fn new(v: Vec<u32>) -> Self {
        Self { data: RwLock::new(v) }
    }
    fn push(&self, data: u32) -> u32 {
        self.data.write().unwrap().push(data);
        data
    }
    fn pop(&self) -> u32 {
        self.data.write().unwrap().pop().unwrap()
    }
}

impl Runner<StackAction> for Stack {
    fn init() -> Self {
        Stack::new(Vec::new())
    }
    fn invoke(&self, action: StackRequest) -> u32 {
        match action {
            StackRequest::PushAction(push_action) => self.push(push_action.data),
            StackRequest::PopAction => self.pop(),
        }
    }
}

impl Model<StackAction, Vec<u32>> for Stack {
    fn get_state(&self) -> Vec<u32> {
        self.data.read().unwrap().clone()
    }
    fn from_state(state: &Vec<u32>) -> Self {
        Stack::new(state.clone())
    }
}

/// A stack whose pop always answers 100.
struct WrongStack {
    data: RwLock<Vec<u32>>,
}

impl Runner<StackAction> for WrongStack {
    fn init() -> Self {
        WrongStack { data: RwLock::new(Vec::new()) }
    }
    fn invoke(&self, action: StackRequest) -> u32 {
        match action {
            StackRequest::PushAction(push_action) => {
                self.data.write().unwrap().push(push_action.data);
                push_action.data
            }
            StackRequest::PopAction => 100,
        }
    }
}

fn record<R: Runner<StackAction>>(runner: &R, requests: &[StackRequest]) -> Vec<veritas::Entry<StackAction>> {
    let mut history: History<StackAction> = History::new();
    history.run_requests(runner, requests);
    assert!(history.is_quiescent());
    history.into_entries()
}

#[test]
fn lib_single_thread_stack_test() {
    let mut requests = Vec::new();
    for i in 0..1000 {
        requests.push(StackRequest::PushAction(PushAction { data: i }));
    }
    let entries = record(&Stack::init(), &requests);
    let checker: ImmutableChecker<StackAction, Vec<u32>, Stack> = ImmutableChecker::from_entries(&entries, vec![]);
    assert!(checker.check());
}

#[test]
fn test_for_wrong_data_structure_single_thread_stack_test() {
    let mut requests = Vec::new();
    for i in 0..100 {
        requests.push(StackRequest::PushAction(PushAction { data: i }));
        requests.push(StackRequest::PopAction);
    }
    let entries = record(&WrongStack::init(), &requests);
    let checker: ImmutableChecker<StackAction, Vec<u32>, Stack> = ImmutableChecker::from_entries(&entries, vec![]);
    assert_eq!(checker.check(), false);
}

#[test]
fn correct_stack_push_pop_is_linearizable() {
    let mut requests = Vec::new();
    for i in 0..100 {
        requests.push(StackRequest::PushAction(PushAction { data: i }));
        requests.push(StackRequest::PopAction);
    }
    let entries = record(&Stack::init(), &requests);
    let checker: ImmutableChecker<StackAction, Vec<u32>, Stack> = ImmutableChecker::from_entries(&entries, vec![]);
    assert!(checker.check());
}

#[test]
fn initial_state_is_used() {
    // a pop on a stack that already holds 7 answers 7
    let entries = record(&Stack::new(vec![7]), &[StackRequest::PopAction]);
    let from_seven: ImmutableChecker<StackAction, Vec<u32>, Stack> = ImmutableChecker::from_entries(&entries, vec![7]);
    assert!(from_seven.check());
    let from_eight: ImmutableChecker<StackAction, Vec<u32>, Stack> = ImmutableChecker::from_entries(&entries, vec![8]);
    assert!(!from_eight.check());
}

#[test]
fn model_step_runs_the_model() {
    let (r, s) = <Stack as Model<StackAction, Vec<u32>>>::step(&vec![1, 2], StackRequest::PopAction);
    assert_eq!(r, 2);
    assert_eq!(s, vec![1]);
    let (r, s) = <Stack as Model<StackAction, Vec<u32>>>::step(&vec![1], StackRequest::PushAction(PushAction { data: 5 }));
    assert_eq!(r, 5);
    assert_eq!(s, vec![1, 5]);
}
