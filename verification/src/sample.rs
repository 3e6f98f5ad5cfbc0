//! A small concrete state tree exercising the engine.
//!
//! The tree is `Root -> { A, B }` with leaves `A1`, `A2` under `A` and `B1`
//! under `B`; the initial state is the first-declared child at every level,
//! so a fresh reactor sits at `A.A1`. The event logic is chosen to exercise
//! every dispatch outcome:
//!
//! - `X` at `A1`: a transition to `B.B1`, crossing subtrees below the root.
//! - `Y` at `A1`: declined; the parent `A` handles it. At `B1`: a
//!   transition back to `A.A2`.
//! - `Z` at `A1`: a transition to `A.A1` itself, structurally identical to
//!   the current state.
//! - `W`: declined by every node on every path.

use vstd::prelude::*;

use crate::base::Action;
use crate::base::bubble_of;
use crate::base::Actor;
use crate::base::EventResult;
use crate::base::State;
use crate::base::enter_seq;
use crate::base::exit_seq;
use crate::base::handle_seq_of;
use crate::base::lemma_dispatch_leaf;
use crate::base::lemma_dispatch_lift;
use crate::base::lemma_level_clip;
use crate::base::lemma_enter_seq_leaf;
use crate::base::lemma_enter_seq_step;
use crate::base::lemma_exit_seq_leaf;
use crate::base::lemma_exit_seq_step;

verus! {

/// Identity token of `Root`.
pub const TOK_ROOT: u64 = 1;

/// Identity token of `A`.
pub const TOK_A: u64 = 2;

/// Identity token of `A1`.
pub const TOK_A1: u64 = 3;

/// Identity token of `A2`.
pub const TOK_A2: u64 = 4;

/// Identity token of `B`.
pub const TOK_B: u64 = 5;

/// Identity token of `B1`.
pub const TOK_B1: u64 = 6;

/// The events the sample tree reacts to.
#[derive(Clone, Copy, Debug, PartialEq, Eq, Structural)]
pub enum SampleEvent {
    X,
    Y,
    Z,
    W,
}

/// Leaf state under `A`; the initial leaf of the tree.
#[derive(Clone, Copy, Debug, PartialEq, Eq, Structural)]
pub struct A1 {}

/// Leaf state under `A`.
#[derive(Clone, Copy, Debug, PartialEq, Eq, Structural)]
pub struct A2 {}

/// Leaf state under `B`.
#[derive(Clone, Copy, Debug, PartialEq, Eq, Structural)]
pub struct B1 {}

/// Composite state with leaves `A1` and `A2`; `A1` is initial.
#[derive(Clone, Copy, Debug, PartialEq, Eq, Structural)]
pub enum A {
    A1(A1),
    A2(A2),
}

/// Composite state with the single leaf `B1`.
#[derive(Clone, Copy, Debug, PartialEq, Eq, Structural)]
pub enum B {
    B1(B1),
}

/// The root of the sample tree; `A` is initial.
#[derive(Clone, Copy, Debug, PartialEq, Eq, Structural)]
pub enum Root {
    A(A),
    B(B),
}

impl Actor<SampleEvent> for A1 {
    type State = Root;

    open spec fn tok(&self) -> u64 {
        TOK_A1
    }

    open spec fn decide(&self, event: SampleEvent) -> EventResult<Root> {
        match event {
            SampleEvent::X => EventResult::Transition(Root::B(B::B1(B1 {}))),
            SampleEvent::Z => EventResult::Transition(Root::A(A::A1(A1 {}))),
            _ => EventResult::NotHandled,
        }
    }

    fn handle(&self, event: SampleEvent) -> (r: EventResult<Root>)
        ensures
            r == self.decide(event),
    {
        match event {
            SampleEvent::X => EventResult::Transition(Root::B(B::B1(B1 {}))),
            SampleEvent::Z => EventResult::Transition(Root::A(A::A1(A1 {}))),
            _ => EventResult::NotHandled,
        }
    }
}

impl Actor<SampleEvent> for A2 {
    type State = Root;

    open spec fn tok(&self) -> u64 {
        TOK_A2
    }

    open spec fn decide(&self, event: SampleEvent) -> EventResult<Root> {
        EventResult::NotHandled
    }

    fn handle(&self, event: SampleEvent) -> (r: EventResult<Root>)
        ensures
            r == self.decide(event),
    {
        EventResult::NotHandled
    }
}

impl Actor<SampleEvent> for B1 {
    type State = Root;

    open spec fn tok(&self) -> u64 {
        TOK_B1
    }

    open spec fn decide(&self, event: SampleEvent) -> EventResult<Root> {
        match event {
            SampleEvent::Y => EventResult::Transition(Root::A(A::A2(A2 {}))),
            _ => EventResult::NotHandled,
        }
    }

    fn handle(&self, event: SampleEvent) -> (r: EventResult<Root>)
        ensures
            r == self.decide(event),
    {
        match event {
            SampleEvent::Y => EventResult::Transition(Root::A(A::A2(A2 {}))),
            _ => EventResult::NotHandled,
        }
    }
}

impl Actor<SampleEvent> for A {
    type State = Root;

    open spec fn tok(&self) -> u64 {
        TOK_A
    }

    open spec fn decide(&self, event: SampleEvent) -> EventResult<Root> {
        match event {
            SampleEvent::Y => EventResult::Handled,
            _ => EventResult::NotHandled,
        }
    }

    fn handle(&self, event: SampleEvent) -> (r: EventResult<Root>)
        ensures
            r == self.decide(event),
    {
        match event {
            SampleEvent::Y => EventResult::Handled,
            _ => EventResult::NotHandled,
        }
    }
}

impl Actor<SampleEvent> for B {
    type State = Root;

    open spec fn tok(&self) -> u64 {
        TOK_B
    }

    open spec fn decide(&self, event: SampleEvent) -> EventResult<Root> {
        EventResult::NotHandled
    }

    fn handle(&self, event: SampleEvent) -> (r: EventResult<Root>)
        ensures
            r == self.decide(event),
    {
        EventResult::NotHandled
    }
}

impl Actor<SampleEvent> for Root {
    type State = Root;

    open spec fn tok(&self) -> u64 {
        TOK_ROOT
    }

    open spec fn decide(&self, event: SampleEvent) -> EventResult<Root> {
        EventResult::NotHandled
    }

    fn handle(&self, event: SampleEvent) -> (r: EventResult<Root>)
        ensures
            r == self.decide(event),
    {
        EventResult::NotHandled
    }
}

impl State<SampleEvent> for A1 {
    open spec fn ipath(&self) -> Seq<u64> {
        seq![TOK_A1]
    }

    open spec fn decisions(&self, event: SampleEvent) -> Seq<EventResult<Root>> {
        seq![self.decide(event)]
    }

    open spec fn depth_bound() -> nat {
        1
    }

    open spec fn initial() -> Self {
        A1 {}
    }

    proof fn wf_path(&self) {
    }

    proof fn wf_decisions(&self, event: SampleEvent) {
    }

    fn max_levels() -> (n: usize)
        ensures
            n == Self::depth_bound(),
            n <= 0x7fff_ffff,
    {
        1
    }

    fn initial_state() -> (s: Self)
        ensures
            s == Self::initial(),
    {
        A1 {}
    }

    fn get_levels(&self, levels: &mut Vec<u64>, ptr: usize)
        ensures
            final(levels)@.len() == old(levels)@.len(),
            forall|i: int|
                ptr <= i < ptr + self.ipath().len() ==> final(levels)@[i] == self.ipath()[i - ptr],
            forall|i: int|
                0 <= i < old(levels)@.len() && !(ptr <= i < ptr + self.ipath().len())
                    ==> final(levels)@[i] == old(levels)@[i],
    {
        levels[ptr] = TOK_A1;
    }

    fn super_enter(&self, level: i32, tr: &mut Vec<Action>)
        ensures
            final(tr)@ == old(tr)@ + enter_seq(self.ipath(), level as int),
    {
        let ghost t0 = tr@;
        if level <= 0 {
            tr.push(Action::Enter(TOK_A1));
            self.enter();
        }
        proof {
            lemma_enter_seq_leaf(TOK_A1, level as int);
            assert(tr@ =~= t0 + enter_seq(self.ipath(), level as int));
        }
    }

    fn super_handle(&self, event: SampleEvent, tr: &mut Vec<Action>) -> (r: EventResult<Root>)
        ensures
            r == bubble_of(self.decisions(event)),
            final(tr)@ == old(tr)@ + handle_seq_of(self.ipath(), self.decisions(event)),
    {
        let ghost t0 = tr@;
        tr.push(Action::Handle(TOK_A1));
        let r = self.handle(event);
        proof {
            lemma_dispatch_leaf(TOK_A1, self.decide(event));
            assert(tr@ =~= t0 + handle_seq_of(self.ipath(), self.decisions(event)));
        }
        r
    }

    fn super_exit(&self, level: i32, tr: &mut Vec<Action>)
        ensures
            final(tr)@ == old(tr)@ + exit_seq(self.ipath(), level as int),
    {
        let ghost t0 = tr@;
        if level <= 0 {
            tr.push(Action::Exit(TOK_A1));
            self.exit();
        }
        proof {
            lemma_exit_seq_leaf(TOK_A1, level as int);
            assert(tr@ =~= t0 + exit_seq(self.ipath(), level as int));
        }
    }
}

impl State<SampleEvent> for A2 {
    open spec fn ipath(&self) -> Seq<u64> {
        seq![TOK_A2]
    }

    open spec fn decisions(&self, event: SampleEvent) -> Seq<EventResult<Root>> {
        seq![self.decide(event)]
    }

    open spec fn depth_bound() -> nat {
        1
    }

    open spec fn initial() -> Self {
        A2 {}
    }

    proof fn wf_path(&self) {
    }

    proof fn wf_decisions(&self, event: SampleEvent) {
    }

    fn max_levels() -> (n: usize)
        ensures
            n == Self::depth_bound(),
            n <= 0x7fff_ffff,
    {
        1
    }

    fn initial_state() -> (s: Self)
        ensures
            s == Self::initial(),
    {
        A2 {}
    }

    fn get_levels(&self, levels: &mut Vec<u64>, ptr: usize)
        ensures
            final(levels)@.len() == old(levels)@.len(),
            forall|i: int|
                ptr <= i < ptr + self.ipath().len() ==> final(levels)@[i] == self.ipath()[i - ptr],
            forall|i: int|
                0 <= i < old(levels)@.len() && !(ptr <= i < ptr + self.ipath().len())
                    ==> final(levels)@[i] == old(levels)@[i],
    {
        levels[ptr] = TOK_A2;
    }

    fn super_enter(&self, level: i32, tr: &mut Vec<Action>)
        ensures
            final(tr)@ == old(tr)@ + enter_seq(self.ipath(), level as int),
    {
        let ghost t0 = tr@;
        if level <= 0 {
            tr.push(Action::Enter(TOK_A2));
            self.enter();
        }
        proof {
            lemma_enter_seq_leaf(TOK_A2, level as int);
            assert(tr@ =~= t0 + enter_seq(self.ipath(), level as int));
        }
    }

    fn super_handle(&self, event: SampleEvent, tr: &mut Vec<Action>) -> (r: EventResult<Root>)
        ensures
            r == bubble_of(self.decisions(event)),
            final(tr)@ == old(tr)@ + handle_seq_of(self.ipath(), self.decisions(event)),
    {
        let ghost t0 = tr@;
        tr.push(Action::Handle(TOK_A2));
        let r = self.handle(event);
        proof {
            lemma_dispatch_leaf(TOK_A2, self.decide(event));
            assert(tr@ =~= t0 + handle_seq_of(self.ipath(), self.decisions(event)));
        }
        r
    }

    fn super_exit(&self, level: i32, tr: &mut Vec<Action>)
        ensures
            final(tr)@ == old(tr)@ + exit_seq(self.ipath(), level as int),
    {
        let ghost t0 = tr@;
        if level <= 0 {
            tr.push(Action::Exit(TOK_A2));
            self.exit();
        }
        proof {
            lemma_exit_seq_leaf(TOK_A2, level as int);
            assert(tr@ =~= t0 + exit_seq(self.ipath(), level as int));
        }
    }
}

impl State<SampleEvent> for B1 {
    open spec fn ipath(&self) -> Seq<u64> {
        seq![TOK_B1]
    }

    open spec fn decisions(&self, event: SampleEvent) -> Seq<EventResult<Root>> {
        seq![self.decide(event)]
    }

    open spec fn depth_bound() -> nat {
        1
    }

    open spec fn initial() -> Self {
        B1 {}
    }

    proof fn wf_path(&self) {
    }

    proof fn wf_decisions(&self, event: SampleEvent) {
    }

    fn max_levels() -> (n: usize)
        ensures
            n == Self::depth_bound(),
            n <= 0x7fff_ffff,
    {
        1
    }

    fn initial_state() -> (s: Self)
        ensures
            s == Self::initial(),
    {
        B1 {}
    }

    fn get_levels(&self, levels: &mut Vec<u64>, ptr: usize)
        ensures
            final(levels)@.len() == old(levels)@.len(),
            forall|i: int|
                ptr <= i < ptr + self.ipath().len() ==> final(levels)@[i] == self.ipath()[i - ptr],
            forall|i: int|
                0 <= i < old(levels)@.len() && !(ptr <= i < ptr + self.ipath().len())
                    ==> final(levels)@[i] == old(levels)@[i],
    {
        levels[ptr] = TOK_B1;
    }

    fn super_enter(&self, level: i32, tr: &mut Vec<Action>)
        ensures
            final(tr)@ == old(tr)@ + enter_seq(self.ipath(), level as int),
    {
        let ghost t0 = tr@;
        if level <= 0 {
            tr.push(Action::Enter(TOK_B1));
            self.enter();
        }
        proof {
            lemma_enter_seq_leaf(TOK_B1, level as int);
            assert(tr@ =~= t0 + enter_seq(self.ipath(), level as int));
        }
    }

    fn super_handle(&self, event: SampleEvent, tr: &mut Vec<Action>) -> (r: EventResult<Root>)
        ensures
            r == bubble_of(self.decisions(event)),
            final(tr)@ == old(tr)@ + handle_seq_of(self.ipath(), self.decisions(event)),
    {
        let ghost t0 = tr@;
        tr.push(Action::Handle(TOK_B1));
        let r = self.handle(event);
        proof {
            lemma_dispatch_leaf(TOK_B1, self.decide(event));
            assert(tr@ =~= t0 + handle_seq_of(self.ipath(), self.decisions(event)));
        }
        r
    }

    fn super_exit(&self, level: i32, tr: &mut Vec<Action>)
        ensures
            final(tr)@ == old(tr)@ + exit_seq(self.ipath(), level as int),
    {
        let ghost t0 = tr@;
        if level <= 0 {
            tr.push(Action::Exit(TOK_B1));
            self.exit();
        }
        proof {
            lemma_exit_seq_leaf(TOK_B1, level as int);
            assert(tr@ =~= t0 + exit_seq(self.ipath(), level as int));
        }
    }
}

impl State<SampleEvent> for A {
    open spec fn ipath(&self) -> Seq<u64> {
        match self {
            A::A1(b) => seq![TOK_A] + b.ipath(),
            A::A2(b) => seq![TOK_A] + b.ipath(),
        }
    }

    open spec fn decisions(&self, event: SampleEvent) -> Seq<EventResult<Root>> {
        match self {
            A::A1(b) => seq![self.decide(event)] + b.decisions(event),
            A::A2(b) => seq![self.decide(event)] + b.decisions(event),
        }
    }

    open spec fn depth_bound() -> nat {
        2
    }

    open spec fn initial() -> Self {
        A::A1(A1 {})
    }

    proof fn wf_path(&self) {
        match self {
            A::A1(b) => b.wf_path(),
            A::A2(b) => b.wf_path(),
        }
    }

    proof fn wf_decisions(&self, event: SampleEvent) {
        match self {
            A::A1(b) => b.wf_decisions(event),
            A::A2(b) => b.wf_decisions(event),
        }
    }

    fn max_levels() -> (n: usize)
        ensures
            n == Self::depth_bound(),
            n <= 0x7fff_ffff,
    {
        2
    }

    fn initial_state() -> (s: Self)
        ensures
            s == Self::initial(),
    {
        A::A1(A1 {})
    }

    fn get_levels(&self, levels: &mut Vec<u64>, ptr: usize)
        ensures
            final(levels)@.len() == old(levels)@.len(),
            forall|i: int|
                ptr <= i < ptr + self.ipath().len() ==> final(levels)@[i] == self.ipath()[i - ptr],
            forall|i: int|
                0 <= i < old(levels)@.len() && !(ptr <= i < ptr + self.ipath().len())
                    ==> final(levels)@[i] == old(levels)@[i],
    {
        match self {
            A::A1(b) => {
                levels[ptr] = TOK_A;
                let n: usize = levels.len();
                proof {
                    assert(self.ipath().len() == 1 + b.ipath().len());
                    assert(ptr + 1 <= n);
                }
                b.get_levels(levels, ptr + 1);
            },
            A::A2(b) => {
                levels[ptr] = TOK_A;
                let n: usize = levels.len();
                proof {
                    assert(self.ipath().len() == 1 + b.ipath().len());
                    assert(ptr + 1 <= n);
                }
                b.get_levels(levels, ptr + 1);
            },
        }
    }

    fn super_enter(&self, level: i32, tr: &mut Vec<Action>)
        ensures
            final(tr)@ == old(tr)@ + enter_seq(self.ipath(), level as int),
    {
        let ghost t0 = tr@;
        let next: i32 = if level <= 1 {
            0
        } else {
            level - 1
        };
        if level <= 0 {
            tr.push(Action::Enter(TOK_A));
            self.enter();
        }
        match self {
            A::A1(b) => {
                b.super_enter(next, tr);
                proof {
                    lemma_enter_seq_step(TOK_A, b.ipath(), level as int);
                    lemma_level_clip(b.ipath(), level as int - 1, next as int);
                    assert(tr@ =~= t0 + enter_seq(self.ipath(), level as int));
                }
            },
            A::A2(b) => {
                b.super_enter(next, tr);
                proof {
                    lemma_enter_seq_step(TOK_A, b.ipath(), level as int);
                    lemma_level_clip(b.ipath(), level as int - 1, next as int);
                    assert(tr@ =~= t0 + enter_seq(self.ipath(), level as int));
                }
            },
        }
    }

    fn super_handle(&self, event: SampleEvent, tr: &mut Vec<Action>) -> (r: EventResult<Root>)
        ensures
            r == bubble_of(self.decisions(event)),
            final(tr)@ == old(tr)@ + handle_seq_of(self.ipath(), self.decisions(event)),
    {
        let ghost t0 = tr@;
        match self {
            A::A1(b) => {
                let rc = b.super_handle(event, tr);
                proof {
                    b.wf_path();
                    b.wf_decisions(event);
                    lemma_dispatch_lift(TOK_A, b.ipath(), self.decide(event), b.decisions(event));
                }
                match rc {
                    EventResult::NotHandled => {
                        tr.push(Action::Handle(TOK_A));
                        let r = self.handle(event);
                        proof {
                            assert(tr@ =~= t0 + handle_seq_of(
                                self.ipath(),
                                self.decisions(event),
                            ));
                        }
                        r
                    },
                    rc => rc,
                }
            },
            A::A2(b) => {
                let rc = b.super_handle(event, tr);
                proof {
                    b.wf_path();
                    b.wf_decisions(event);
                    lemma_dispatch_lift(TOK_A, b.ipath(), self.decide(event), b.decisions(event));
                }
                match rc {
                    EventResult::NotHandled => {
                        tr.push(Action::Handle(TOK_A));
                        let r = self.handle(event);
                        proof {
                            assert(tr@ =~= t0 + handle_seq_of(
                                self.ipath(),
                                self.decisions(event),
                            ));
                        }
                        r
                    },
                    rc => rc,
                }
            },
        }
    }

    fn super_exit(&self, level: i32, tr: &mut Vec<Action>)
        ensures
            final(tr)@ == old(tr)@ + exit_seq(self.ipath(), level as int),
    {
        let ghost t0 = tr@;
        let next: i32 = if level <= 1 {
            0
        } else {
            level - 1
        };
        match self {
            A::A1(b) => {
                b.super_exit(next, tr);
                if level <= 0 {
                    tr.push(Action::Exit(TOK_A));
                    self.exit();
                }
                proof {
                    lemma_exit_seq_step(TOK_A, b.ipath(), level as int);
                    lemma_level_clip(b.ipath(), level as int - 1, next as int);
                    assert(tr@ =~= t0 + exit_seq(self.ipath(), level as int));
                }
            },
            A::A2(b) => {
                b.super_exit(next, tr);
                if level <= 0 {
                    tr.push(Action::Exit(TOK_A));
                    self.exit();
                }
                proof {
                    lemma_exit_seq_step(TOK_A, b.ipath(), level as int);
                    lemma_level_clip(b.ipath(), level as int - 1, next as int);
                    assert(tr@ =~= t0 + exit_seq(self.ipath(), level as int));
                }
            },
        }
    }
}

impl State<SampleEvent> for B {
    open spec fn ipath(&self) -> Seq<u64> {
        match self {
            B::B1(b) => seq![TOK_B] + b.ipath(),
        }
    }

    open spec fn decisions(&self, event: SampleEvent) -> Seq<EventResult<Root>> {
        match self {
            B::B1(b) => seq![self.decide(event)] + b.decisions(event),
        }
    }

    open spec fn depth_bound() -> nat {
        2
    }

    open spec fn initial() -> Self {
        B::B1(B1 {})
    }

    proof fn wf_path(&self) {
        match self {
            B::B1(b) => b.wf_path(),
        }
    }

    proof fn wf_decisions(&self, event: SampleEvent) {
        match self {
            B::B1(b) => b.wf_decisions(event),
        }
    }

    fn max_levels() -> (n: usize)
        ensures
            n == Self::depth_bound(),
            n <= 0x7fff_ffff,
    {
        2
    }

    fn initial_state() -> (s: Self)
        ensures
            s == Self::initial(),
    {
        B::B1(B1 {})
    }

    fn get_levels(&self, levels: &mut Vec<u64>, ptr: usize)
        ensures
            final(levels)@.len() == old(levels)@.len(),
            forall|i: int|
                ptr <= i < ptr + self.ipath().len() ==> final(levels)@[i] == self.ipath()[i - ptr],
            forall|i: int|
                0 <= i < old(levels)@.len() && !(ptr <= i < ptr + self.ipath().len())
                    ==> final(levels)@[i] == old(levels)@[i],
    {
        match self {
            B::B1(b) => {
                levels[ptr] = TOK_B;
                let n: usize = levels.len();
                proof {
                    assert(self.ipath().len() == 1 + b.ipath().len());
                    assert(ptr + 1 <= n);
                }
                b.get_levels(levels, ptr + 1);
            },
        }
    }

    fn super_enter(&self, level: i32, tr: &mut Vec<Action>)
        ensures
            final(tr)@ == old(tr)@ + enter_seq(self.ipath(), level as int),
    {
        let ghost t0 = tr@;
        let next: i32 = if level <= 1 {
            0
        } else {
            level - 1
        };
        if level <= 0 {
            tr.push(Action::Enter(TOK_B));
            self.enter();
        }
        match self {
            B::B1(b) => {
                b.super_enter(next, tr);
                proof {
                    lemma_enter_seq_step(TOK_B, b.ipath(), level as int);
                    lemma_level_clip(b.ipath(), level as int - 1, next as int);
                    assert(tr@ =~= t0 + enter_seq(self.ipath(), level as int));
                }
            },
        }
    }

    fn super_handle(&self, event: SampleEvent, tr: &mut Vec<Action>) -> (r: EventResult<Root>)
        ensures
            r == bubble_of(self.decisions(event)),
            final(tr)@ == old(tr)@ + handle_seq_of(self.ipath(), self.decisions(event)),
    {
        let ghost t0 = tr@;
        match self {
            B::B1(b) => {
                let rc = b.super_handle(event, tr);
                proof {
                    b.wf_path();
                    b.wf_decisions(event);
                    lemma_dispatch_lift(TOK_B, b.ipath(), self.decide(event), b.decisions(event));
                }
                match rc {
                    EventResult::NotHandled => {
                        tr.push(Action::Handle(TOK_B));
                        let r = self.handle(event);
                        proof {
                            assert(tr@ =~= t0 + handle_seq_of(
                                self.ipath(),
                                self.decisions(event),
                            ));
                        }
                        r
                    },
                    rc => rc,
                }
            },
        }
    }

    fn super_exit(&self, level: i32, tr: &mut Vec<Action>)
        ensures
            final(tr)@ == old(tr)@ + exit_seq(self.ipath(), level as int),
    {
        let ghost t0 = tr@;
        let next: i32 = if level <= 1 {
            0
        } else {
            level - 1
        };
        match self {
            B::B1(b) => {
                b.super_exit(next, tr);
                if level <= 0 {
                    tr.push(Action::Exit(TOK_B));
                    self.exit();
                }
                proof {
                    lemma_exit_seq_step(TOK_B, b.ipath(), level as int);
                    lemma_level_clip(b.ipath(), level as int - 1, next as int);
                    assert(tr@ =~= t0 + exit_seq(self.ipath(), level as int));
                }
            },
        }
    }
}

impl State<SampleEvent> for Root {
    open spec fn ipath(&self) -> Seq<u64> {
        match self {
            Root::A(b) => seq![TOK_ROOT] + b.ipath(),
            Root::B(b) => seq![TOK_ROOT] + b.ipath(),
        }
    }

    open spec fn decisions(&self, event: SampleEvent) -> Seq<EventResult<Root>> {
        match self {
            Root::A(b) => seq![self.decide(event)] + b.decisions(event),
            Root::B(b) => seq![self.decide(event)] + b.decisions(event),
        }
    }

    open spec fn depth_bound() -> nat {
        3
    }

    open spec fn initial() -> Self {
        Root::A(A::A1(A1 {}))
    }

    proof fn wf_path(&self) {
        match self {
            Root::A(b) => b.wf_path(),
            Root::B(b) => b.wf_path(),
        }
    }

    proof fn wf_decisions(&self, event: SampleEvent) {
        match self {
            Root::A(b) => b.wf_decisions(event),
            Root::B(b) => b.wf_decisions(event),
        }
    }

    fn max_levels() -> (n: usize)
        ensures
            n == Self::depth_bound(),
            n <= 0x7fff_ffff,
    {
        3
    }

    fn initial_state() -> (s: Self)
        ensures
            s == Self::initial(),
    {
        Root::A(A::A1(A1 {}))
    }

    fn get_levels(&self, levels: &mut Vec<u64>, ptr: usize)
        ensures
            final(levels)@.len() == old(levels)@.len(),
            forall|i: int|
                ptr <= i < ptr + self.ipath().len() ==> final(levels)@[i] == self.ipath()[i - ptr],
            forall|i: int|
                0 <= i < old(levels)@.len() && !(ptr <= i < ptr + self.ipath().len())
                    ==> final(levels)@[i] == old(levels)@[i],
    {
        match self {
            Root::A(b) => {
                levels[ptr] = TOK_ROOT;
                let n: usize = levels.len();
                proof {
                    assert(self.ipath().len() == 1 + b.ipath().len());
                    assert(ptr + 1 <= n);
                }
                b.get_levels(levels, ptr + 1);
            },
            Root::B(b) => {
                levels[ptr] = TOK_ROOT;
                let n: usize = levels.len();
                proof {
                    assert(self.ipath().len() == 1 + b.ipath().len());
                    assert(ptr + 1 <= n);
                }
                b.get_levels(levels, ptr + 1);
            },
        }
    }

    fn super_enter(&self, level: i32, tr: &mut Vec<Action>)
        ensures
            final(tr)@ == old(tr)@ + enter_seq(self.ipath(), level as int),
    {
        let ghost t0 = tr@;
        let next: i32 = if level <= 1 {
            0
        } else {
            level - 1
        };
        if level <= 0 {
            tr.push(Action::Enter(TOK_ROOT));
            self.enter();
        }
        match self {
            Root::A(b) => {
                b.super_enter(next, tr);
                proof {
                    lemma_enter_seq_step(TOK_ROOT, b.ipath(), level as int);
                    lemma_level_clip(b.ipath(), level as int - 1, next as int);
                    assert(tr@ =~= t0 + enter_seq(self.ipath(), level as int));
                }
            },
            Root::B(b) => {
                b.super_enter(next, tr);
                proof {
                    lemma_enter_seq_step(TOK_ROOT, b.ipath(), level as int);
                    lemma_level_clip(b.ipath(), level as int - 1, next as int);
                    assert(tr@ =~= t0 + enter_seq(self.ipath(), level as int));
                }
            },
        }
    }

    fn super_handle(&self, event: SampleEvent, tr: &mut Vec<Action>) -> (r: EventResult<Root>)
        ensures
            r == bubble_of(self.decisions(event)),
            final(tr)@ == old(tr)@ + handle_seq_of(self.ipath(), self.decisions(event)),
    {
        let ghost t0 = tr@;
        match self {
            Root::A(b) => {
                let rc = b.super_handle(event, tr);
                proof {
                    b.wf_path();
                    b.wf_decisions(event);
                    lemma_dispatch_lift(
                        TOK_ROOT,
                        b.ipath(),
                        self.decide(event),
                        b.decisions(event),
                    );
                }
                match rc {
                    EventResult::NotHandled => {
                        tr.push(Action::Handle(TOK_ROOT));
                        let r = self.handle(event);
                        proof {
                            assert(tr@ =~= t0 + handle_seq_of(
                                self.ipath(),
                                self.decisions(event),
                            ));
                        }
                        r
                    },
                    rc => rc,
                }
            },
            Root::B(b) => {
                let rc = b.super_handle(event, tr);
                proof {
                    b.wf_path();
                    b.wf_decisions(event);
                    lemma_dispatch_lift(
                        TOK_ROOT,
                        b.ipath(),
                        self.decide(event),
                        b.decisions(event),
                    );
                }
                match rc {
                    EventResult::NotHandled => {
                        tr.push(Action::Handle(TOK_ROOT));
                        let r = self.handle(event);
                        proof {
                            assert(tr@ =~= t0 + handle_seq_of(
                                self.ipath(),
                                self.decisions(event),
                            ));
                        }
                        r
                    },
                    rc => rc,
                }
            },
        }
    }

    fn super_exit(&self, level: i32, tr: &mut Vec<Action>)
        ensures
            final(tr)@ == old(tr)@ + exit_seq(self.ipath(), level as int),
    {
        let ghost t0 = tr@;
        let next: i32 = if level <= 1 {
            0
        } else {
            level - 1
        };
        match self {
            Root::A(b) => {
                b.super_exit(next, tr);
                if level <= 0 {
                    tr.push(Action::Exit(TOK_ROOT));
                    self.exit();
                }
                proof {
                    lemma_exit_seq_step(TOK_ROOT, b.ipath(), level as int);
                    lemma_level_clip(b.ipath(), level as int - 1, next as int);
                    assert(tr@ =~= t0 + exit_seq(self.ipath(), level as int));
                }
            },
            Root::B(b) => {
                b.super_exit(next, tr);
                if level <= 0 {
                    tr.push(Action::Exit(TOK_ROOT));
                    self.exit();
                }
                proof {
                    lemma_exit_seq_step(TOK_ROOT, b.ipath(), level as int);
                    lemma_level_clip(b.ipath(), level as int - 1, next as int);
                    assert(tr@ =~= t0 + exit_seq(self.ipath(), level as int));
                }
            },
        }
    }
}

} // verus!
