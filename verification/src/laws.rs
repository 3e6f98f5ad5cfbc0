//! The engine's ordering guarantees, stated once and for all trees.
//!
//! Each law is phrased over the spec-level vocabulary that the engine's
//! contracts use: identity paths (`Seq<u64>`), per-depth decision vectors
//! (`Seq<EventResult<T>>`), and the trace combinators `enter_seq`,
//! `exit_seq` and `handle_seq_of`. Instantiated with a reactor's own state,
//! they pin down what `React::new` and `React::react` leave in the trace.

use vstd::prelude::*;

use crate::base::Action;
use crate::base::EventResult;
use crate::base::SENTINEL;
use crate::base::bubble_of;
use crate::base::enter_seq;
use crate::base::exit_seq;
use crate::base::handle_seq_of;
use crate::base::lemma_enter_seq_all;
use crate::base::lemma_enter_seq_none;
use crate::base::lemma_exit_seq_none;
use crate::base::lemma_stop_from_range;
use crate::base::stop_of;
use crate::reactor::divergence;
use crate::reactor::lemma_divergence_from_is;
use crate::reactor::lemma_divergence_props;
use crate::reactor::padded;

verus! {

/// Initial entry order: constructing a reactor enters every node of the
/// initial path exactly once, strictly outermost to innermost, and nothing
/// else stands in the trace before the first event. `React::new` ensures
/// that the fresh trace equals `enter_seq(path, 0)`, which this law spells
/// out slot by slot.
pub proof fn initial_entry_order(path: Seq<u64>)
    ensures
        enter_seq(path, 0).len() == path.len(),
        forall|i: int|
            0 <= i < path.len() ==> enter_seq(path, 0)[i] == Action::Enter(path[i]),
{
    lemma_enter_seq_all(path, 0);
}

/// Bubbling precedence: when the innermost active leaf's own decision is
/// anything but `NotHandled`, dispatch asks the leaf alone — no ancestor's
/// `handle` is invoked — and the leaf's decision is the outcome.
pub proof fn bubbling_precedence<T>(path: Seq<u64>, decs: Seq<EventResult<T>>)
    requires
        path.len() == decs.len(),
        path.len() >= 1,
        !(decs[decs.len() - 1] is NotHandled),
    ensures
        bubble_of(decs) == decs[decs.len() - 1],
        handle_seq_of(path, decs) == seq![Action::Handle(path[path.len() - 1])],
{
    assert(stop_of(decs) == decs.len() - 1);
    assert(handle_seq_of(path, decs) =~= seq![Action::Handle(path[path.len() - 1])]);
}

/// No-op on decline: the dispatch outcome is `NotHandled` exactly when
/// every node on the active path declines the event, and in that case every
/// node was asked, innermost first. `React::react` then leaves the
/// reactor's state — and with it the identity-path vector — unchanged.
pub proof fn decline_is_noop<T>(path: Seq<u64>, decs: Seq<EventResult<T>>)
    requires
        path.len() == decs.len(),
        path.len() >= 1,
    ensures
        (bubble_of(decs) is NotHandled) <==> (forall|i: int|
            0 <= i < decs.len() ==> #[trigger] decs[i] is NotHandled),
        (bubble_of(decs) is NotHandled) ==> handle_seq_of(path, decs) == Seq::new(
            path.len(),
            |i: int| Action::Handle(path[path.len() - 1 - i]),
        ),
{
    lemma_stop_from_range(decs, decs.len() - 1);
    if bubble_of(decs) is NotHandled {
        assert(stop_of(decs) == 0);
        assert(handle_seq_of(path, decs) =~= Seq::new(
            path.len(),
            |i: int| Action::Handle(path[path.len() - 1 - i]),
        ));
    }
}

/// Idempotent self-transition: when the transition target is structurally
/// identical to the current state, the divergence depth is the full depth
/// bound, so the transition exits and enters nothing at all.
pub proof fn self_transition_noop(a: Seq<u64>, n: nat)
    requires
        a.len() <= n,
    ensures
        divergence(padded(a, n), padded(a, n)) == n,
        exit_seq(a, n as int) == Seq::<Action>::empty(),
        enter_seq(a, n as int) == Seq::<Action>::empty(),
{
    lemma_divergence_from_is(padded(a, n), padded(a, n), 0, n as int);
    lemma_exit_seq_none(a, n as int);
    lemma_enter_seq_none(a, n as int);
}

/// Minimal disruption: where the old path `a` and the new path `b` differ
/// at all, their divergence depth `d` lies within both paths, every node
/// above `d` is shared between them and is neither exited nor entered, and
/// the transition exits exactly the old nodes at depth `d` and deeper,
/// innermost first, then enters exactly the new nodes at depth `d` and
/// deeper, outermost first.
pub proof fn minimal_disruption(a: Seq<u64>, b: Seq<u64>, n: nat)
    requires
        1 <= a.len() <= n,
        1 <= b.len() <= n,
        forall|i: int| 0 <= i < a.len() ==> a[i] != SENTINEL,
        forall|i: int| 0 <= i < b.len() ==> b[i] != SENTINEL,
        a != b,
    ensures
        ({
            let d = divergence(padded(a, n), padded(b, n));
            &&& 0 <= d <= a.len()
            &&& d <= b.len()
            &&& forall|j: int| 0 <= j < d ==> a[j] == b[j]
            &&& exit_seq(a, d).len() == a.len() - d
            &&& forall|i: int|
                0 <= i < a.len() - d ==> exit_seq(a, d)[i] == Action::Exit(a[a.len() - 1 - i])
            &&& enter_seq(b, d).len() == b.len() - d
            &&& forall|i: int|
                0 <= i < b.len() - d ==> enter_seq(b, d)[i] == Action::Enter(b[d + i])
        }),
{
    let pa = padded(a, n);
    let pb = padded(b, n);
    let d = divergence(pa, pb);
    lemma_divergence_props(pa, pb, 0);
    if d > a.len() {
        if a.len() < b.len() {
            assert(pa[a.len() as int] == SENTINEL);
            assert(pb[a.len() as int] == b[a.len() as int]);
            assert(false);
        } else if b.len() < a.len() {
            assert(pa[b.len() as int] == a[b.len() as int]);
            assert(pb[b.len() as int] == SENTINEL);
            assert(false);
        } else {
            assert forall|j: int| 0 <= j < a.len() implies a[j] == b[j] by {
                assert(pa[j] == pb[j]);
            }
            assert(a =~= b);
            assert(false);
        }
    }
    if d > b.len() {
        assert(pa[b.len() as int] == a[b.len() as int]);
        assert(pb[b.len() as int] == SENTINEL);
        assert(false);
    }
    assert forall|j: int| 0 <= j < d implies a[j] == b[j] by {
        assert(pa[j] == pb[j]);
    }
}

} // verus!
