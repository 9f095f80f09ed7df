use vstd::prelude::*;

verus! {

/// The requests that a tested object accepts and the responses that it gives.
pub trait Action: Copy + Clone + Sized + 'static {
    type Request: Copy + Clone + Send + Sync;
    type Response: Copy + Clone + Send + Sync + PartialEq + Default;
}

/// An implementation under test: it is shared between the threads that drive it.
pub trait Runner<A: Action>: Sized + Send + Sync + 'static {
    fn init() -> Self;

    fn invoke(&self, action: A::Request) -> A::Response;
}

/// A sequential model of the tested object, built from a state and read back into one.
pub trait Model<A: Action, S: Sync + Send + Clone + 'static>: Sized + Send + Sync + Runner<A> + 'static {
    fn get_state(&self) -> S;

    fn from_state(state: &S) -> Self;

    /// One sequential step of the model: the response to `request` in `state`,
    /// and the state that follows. By default: a model built from `state`
    /// answers `request`, and is then read back into a state.
    ///
    /// The search asks that this step be a function of its arguments
    /// (`model_is_function`). Nothing in the default body says that of the
    /// three methods it calls, so verified code meets that requirement only
    /// with a model that overrides `step` with an `ensures` that fixes its
    /// result; a model left with the default body meets it only in fact.
    fn step(state: &S, request: A::Request) -> (out: (A::Response, S))
        default_ensures
            exists|model: Self|
                #[trigger] call_ensures(Self::from_state, (state,), model)
                    && call_ensures(<Self as Runner<A>>::invoke, (&model, request), out.0)
                    && call_ensures(Self::get_state, (&model,), out.1),
    {
        let model = Self::from_state(state);
        let response = model.invoke(request);
        (response, model.get_state())
    }
}

/// The model's step is a function of the state and the request.
pub open spec fn model_is_function<A: Action, S: Sync + Send + Clone + 'static, M: Model<A, S>>() -> bool {
    forall|s: S, q: A::Request, o1: (A::Response, S), o2: (A::Response, S)|
        #[trigger] call_ensures(M::step, (&s, q), o1) && #[trigger] call_ensures(M::step, (&s, q), o2)
            ==> o1 == o2
}

/// What the model's step gives on `state` and `request`.
pub open spec fn model_step<A: Action, S: Sync + Send + Clone + 'static, M: Model<A, S>>(
    state: S,
    request: A::Request,
) -> (A::Response, S) {
    choose|o: (A::Response, S)| call_ensures(M::step, (&state, request), o)
}

/// `Default::default` of the response type is a constant.
pub open spec fn default_is_function<A: Action>() -> bool {
    forall|d1: A::Response, d2: A::Response|
        #[trigger] call_ensures(A::Response::default, (), d1) && #[trigger] call_ensures(A::Response::default, (), d2)
            ==> d1 == d2
}

/// What `Default::default` gives for the response type.
pub open spec fn default_response<A: Action>() -> A::Response {
    choose|d: A::Response| call_ensures(A::Response::default, (), d)
}

/// After a call of the model's step, `model_step` names its result.
pub proof fn lemma_model_step<A: Action, S: Sync + Send + Clone + 'static, M: Model<A, S>>(
    state: S,
    request: A::Request,
    out: (A::Response, S),
)
    requires
        model_is_function::<A, S, M>(),
        call_ensures(M::step, (&state, request), out),
    ensures
        model_step::<A, S, M>(state, request) == out,
{
}

} // verus!
