//! The reactor: owner of the current active path and the sole entry point
//! for delivering events and performing transitions.
//!
//! A transition first writes the old and the new identity-path vectors,
//! padded with [`SENTINEL`] to the tree's depth bound, then finds the first
//! slot where they differ — the divergence depth — and exits the old path
//! up to it, replaces the stored state wholesale, and enters the new path
//! down from it. Nodes above the divergence depth are never touched, which
//! makes every transition minimally disruptive.

use vstd::prelude::*;

use crate::base::Action;
use crate::base::Actor;
use crate::base::EventResult;
use crate::base::SENTINEL;
use crate::base::State;
use crate::base::bubble_of;
use crate::base::enter_seq;
use crate::base::exit_seq;
use crate::base::handle_seq_of;

verus! {

/// `path` padded with `SENTINEL` to exactly `n` slots.
pub open spec fn padded(path: Seq<u64>, n: nat) -> Seq<u64> {
    Seq::new(n, |i: int| if i < path.len() { path[i] } else { SENTINEL })
}

/// The first index at or after `i` where `a` and `b` differ, or their
/// common length when no later slot differs.
pub open spec fn divergence_from(a: Seq<u64>, b: Seq<u64>, i: int) -> int
    recommends
        a.len() == b.len(),
        0 <= i <= a.len(),
    decreases a.len() - i,
{
    if i < 0 || i >= a.len() {
        a.len() as int
    } else if a[i] != b[i] {
        i
    } else {
        divergence_from(a, b, i + 1)
    }
}

/// The divergence depth of two equal-length level vectors: the first slot
/// where they name different tokens, or their length when they are equal.
pub open spec fn divergence(a: Seq<u64>, b: Seq<u64>) -> int {
    divergence_from(a, b, 0)
}

/// Pins `divergence_from` down from a witness: slots equal from `i` up to
/// `d`, and `d` either differing or the end.
pub proof fn lemma_divergence_from_is(a: Seq<u64>, b: Seq<u64>, i: int, d: int)
    requires
        a.len() == b.len(),
        0 <= i <= d <= a.len(),
        forall|j: int| i <= j < d ==> a[j] == b[j],
        d < a.len() ==> a[d] != b[d],
    ensures
        divergence_from(a, b, i) == d,
    decreases d - i,
{
    if i < d {
        lemma_divergence_from_is(a, b, i + 1, d);
    }
}

/// What the divergence depth means: every slot before it agrees, and the
/// slot at it (when any) differs.
pub proof fn lemma_divergence_props(a: Seq<u64>, b: Seq<u64>, i: int)
    requires
        a.len() == b.len(),
        0 <= i <= a.len(),
    ensures
        i <= divergence_from(a, b, i) <= a.len(),
        forall|j: int| i <= j < divergence_from(a, b, i) ==> a[j] == #[trigger] b[j],
        divergence_from(a, b, i) < a.len() ==> a[divergence_from(a, b, i)] != b[divergence_from(
            a,
            b,
            i,
        )],
    decreases a.len() - i,
{
    if i < a.len() && a[i] == b[i] {
        lemma_divergence_props(a, b, i + 1);
    }
}

/// A vector of `n` sentinel slots, ready to be filled by `get_levels`.
fn sentinel_levels(n: usize) -> (v: Vec<u64>)
    ensures
        v@ == Seq::new(n as nat, |i: int| SENTINEL),
{
    let mut v: Vec<u64> = Vec::new();
    let mut k: usize = 0;
    while k < n
        invariant
            k <= n,
            v@ == Seq::new(k as nat, |i: int| SENTINEL),
        decreases n - k,
    {
        v.push(SENTINEL);
        proof {
            assert(v@ =~= Seq::new((k + 1) as nat, |i: int| SENTINEL));
        }
        k = k + 1;
    }
    v
}

/// The slot where two equal-length level vectors first differ.
fn first_divergence(a: &Vec<u64>, b: &Vec<u64>) -> (d: usize)
    requires
        a@.len() == b@.len(),
    ensures
        d == divergence(a@, b@),
{
    let n: usize = a.len();
    let mut i: usize = 0;
    while i < n
        invariant
            i <= n,
            n == a@.len(),
            n == b@.len(),
            forall|j: int| 0 <= j < i ==> a@[j] == #[trigger] b@[j],
        ensures
            i <= n,
            forall|j: int| 0 <= j < i ==> a@[j] == #[trigger] b@[j],
            i < n ==> a@[i as int] != b@[i as int],
        decreases n - i,
    {
        if a[i] != b[i] {
            break;
        }
        i = i + 1;
    }
    proof {
        lemma_divergence_from_is(a@, b@, 0, i as int);
    }
    i
}

/// The uniform interface of the engine: construction at the initial state
/// and one-at-a-time event delivery.
pub trait React<E: Copy>: Sized {
    /// Creates a new reactor holding the initial state, entering the whole
    /// initial path, outermost first, before any event is processed.
    fn new() -> Self;

    /// Delivers one event: the active path handles it, and a `Transition`
    /// decision moves the reactor to the new active path. `Handled` and
    /// `NotHandled` outcomes change nothing. Delivery takes the reactor by
    /// exclusive borrow, so an event is fully processed, including any
    /// resulting transition, before the next one can be delivered; a
    /// reentrant delivery cannot be expressed.
    fn react(&mut self, event: E);
}

/// The engine: owns the current active path (a value of the root node type
/// `S`) and the trace of every hook invocation it has run, oldest first.
pub struct Reactor<S> {
    /// The current active path, replaced wholesale on each transition.
    pub state: S,
    /// The recorded hook invocations, the engine's observer.
    pub trace: Vec<Action>,
}

impl<E: Copy, S: State<E> + Actor<E, State = S>> React<E> for Reactor<S> {
    fn new() -> (r: Self)
        ensures
            r.state == S::initial(),
            r.trace@ == enter_seq(S::initial().ipath(), 0),
    {
        let state = S::initial_state();
        let mut trace: Vec<Action> = Vec::new();
        state.super_enter(0, &mut trace);
        Reactor { state, trace }
    }

    fn react(&mut self, event: E)
        ensures
            ({
                let s0 = old(self).state;
                let decs = s0.decisions(event);
                match bubble_of(decs) {
                    EventResult::Transition(ns) => {
                        let d = divergence(
                            padded(s0.ipath(), S::depth_bound()),
                            padded(ns.ipath(), S::depth_bound()),
                        );
                        &&& final(self).state == ns
                        &&& final(self).trace@ == old(self).trace@ + handle_seq_of(
                            s0.ipath(),
                            decs,
                        ) + exit_seq(s0.ipath(), d) + enter_seq(ns.ipath(), d)
                    },
                    _ => {
                        &&& final(self).state == s0
                        &&& final(self).trace@ == old(self).trace@ + handle_seq_of(
                            s0.ipath(),
                            decs,
                        )
                    },
                }
            }),
    {
        let r = self.state.super_handle(event, &mut self.trace);
        match r {
            EventResult::Transition(new_state) => {
                proof {
                    self.state.wf_path();
                    new_state.wf_path();
                }
                let n: usize = S::max_levels();
                let mut levels_old = sentinel_levels(n);
                let mut levels_new = sentinel_levels(n);
                self.state.get_levels(&mut levels_old, 0);
                new_state.get_levels(&mut levels_new, 0);
                proof {
                    assert(levels_old@ =~= padded(self.state.ipath(), S::depth_bound()));
                    assert(levels_new@ =~= padded(new_state.ipath(), S::depth_bound()));
                }
                let i: usize = first_divergence(&levels_old, &levels_new);
                proof {
                    lemma_divergence_props(levels_old@, levels_new@, 0);
                }
                self.state.super_exit(i as i32, &mut self.trace);
                self.state = new_state;
                self.state.super_enter(i as i32, &mut self.trace);
            },
            _ => {},
        }
    }
}

} // verus!
