use reactor::React;
use reactor::Reactor;
use reactor::base::Action;
use reactor::sample::A;
use reactor::sample::A1;
use reactor::sample::A2;
use reactor::sample::B;
use reactor::sample::B1;
use reactor::sample::Root;
use reactor::sample::SampleEvent;
use reactor::sample::TOK_A;
use reactor::sample::TOK_A1;
use reactor::sample::TOK_A2;
use reactor::sample::TOK_B;
use reactor::sample::TOK_B1;
use reactor::sample::TOK_ROOT;

fn fresh() -> Reactor<Root> {
    <Reactor<Root> as React<SampleEvent>>::new()
}

#[test]
fn initial_entry_runs_once_per_node_outermost_first() {
    let r = fresh();
    assert_eq!(r.state, Root::A(A::A1(A1 {})));
    assert_eq!(
        r.trace,
        vec![
            Action::Enter(TOK_ROOT),
            Action::Enter(TOK_A),
            Action::Enter(TOK_A1),
        ]
    );
}

#[test]
fn transition_across_subtrees_spares_the_shared_root() {
    let mut r = fresh();
    let before: usize = r.trace.len();
    r.react(SampleEvent::X);
    assert_eq!(r.state, Root::B(B::B1(B1 {})));
    assert_eq!(
        r.trace[before..],
        [
            Action::Handle(TOK_A1),
            Action::Exit(TOK_A1),
            Action::Exit(TOK_A),
            Action::Enter(TOK_B),
            Action::Enter(TOK_B1),
        ]
    );
}

#[test]
fn declined_event_bubbles_to_parent_and_stops_there() {
    let mut r = fresh();
    let before: usize = r.trace.len();
    r.react(SampleEvent::Y);
    assert_eq!(r.state, Root::A(A::A1(A1 {})));
    assert_eq!(
        r.trace[before..],
        [Action::Handle(TOK_A1), Action::Handle(TOK_A)]
    );
}

#[test]
fn self_transition_enters_and_exits_nothing() {
    let mut r = fresh();
    let before: usize = r.trace.len();
    r.react(SampleEvent::Z);
    assert_eq!(r.state, Root::A(A::A1(A1 {})));
    assert_eq!(r.trace[before..], [Action::Handle(TOK_A1)]);
}

#[test]
fn event_declined_by_all_is_a_noop() {
    let mut r = fresh();
    let state_before = r.state;
    let before: usize = r.trace.len();
    r.react(SampleEvent::W);
    assert_eq!(r.state, state_before);
    assert_eq!(
        r.trace[before..],
        [
            Action::Handle(TOK_A1),
            Action::Handle(TOK_A),
            Action::Handle(TOK_ROOT),
        ]
    );
}

#[test]
fn transition_back_picks_the_named_leaf() {
    let mut r = fresh();
    r.react(SampleEvent::X);
    let before: usize = r.trace.len();
    r.react(SampleEvent::Y);
    assert_eq!(r.state, Root::A(A::A2(A2 {})));
    assert_eq!(
        r.trace[before..],
        [
            Action::Handle(TOK_B1),
            Action::Exit(TOK_B1),
            Action::Exit(TOK_B),
            Action::Enter(TOK_A),
            Action::Enter(TOK_A2),
        ]
    );
}

#[test]
fn full_session_accumulates_the_trace_in_order() {
    let mut r = fresh();
    r.react(SampleEvent::W);
    r.react(SampleEvent::X);
    r.react(SampleEvent::Y);
    assert_eq!(r.state, Root::A(A::A2(A2 {})));
    assert_eq!(
        r.trace,
        vec![
            Action::Enter(TOK_ROOT),
            Action::Enter(TOK_A),
            Action::Enter(TOK_A1),
            Action::Handle(TOK_A1),
            Action::Handle(TOK_A),
            Action::Handle(TOK_ROOT),
            Action::Handle(TOK_A1),
            Action::Exit(TOK_A1),
            Action::Exit(TOK_A),
            Action::Enter(TOK_B),
            Action::Enter(TOK_B1),
            Action::Handle(TOK_B1),
            Action::Exit(TOK_B1),
            Action::Exit(TOK_B),
            Action::Enter(TOK_A),
            Action::Enter(TOK_A2),
        ]
    );
}

#[test]
fn handled_event_leaves_the_state_in_place_repeatedly() {
    let mut r = fresh();
    r.react(SampleEvent::Y);
    r.react(SampleEvent::Y);
    assert_eq!(r.state, Root::A(A::A1(A1 {})));
    let handles: Vec<Action> = r
        .trace
        .iter()
        .filter(|a| matches!(a, Action::Handle(_)))
        .cloned()
        .collect();
    assert_eq!(
        handles,
        vec![
            Action::Handle(TOK_A1),
            Action::Handle(TOK_A),
            Action::Handle(TOK_A1),
            Action::Handle(TOK_A),
        ]
    );
}
