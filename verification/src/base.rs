//! The dispatch protocol: the contract every node of a state tree satisfies.
//!
//! A node is either a leaf or a composite holding exactly one active child.
//! Each node type implements [`Actor`] (its local hooks) and [`State`] (the
//! recursive trampolines that drive entry, exit and event dispatch along the
//! active path). The engine observes hook invocations through a trace of
//! [`Action`] values, so every ordering guarantee is a statement about that
//! trace.

use vstd::prelude::*;

verus! {

/// Outcome of offering an event to a node.
///
/// `Handled` consumes the event with no state change, `Transition` consumes
/// it and names the complete new active path (a full root-typed value, so a
/// transition may jump anywhere in the tree), and `NotHandled` declines, in
/// which case the event bubbles to the parent node.
pub enum EventResult<O> {
    Handled,
    Transition(O),
    NotHandled,
}

/// One hook invocation recorded by the engine, named by the identity token
/// of the node it ran on.
#[derive(Clone, Copy, Debug, PartialEq, Eq, Structural)]
pub enum Action {
    Enter(u64),
    Exit(u64),
    Handle(u64),
}

/// Identity token reserved for unused trailing slots of a level vector; no
/// node may use it as its own token.
pub const SENTINEL: u64 = 0;

/// Clamps `level` into `[0, path.len()]`: the first depth along `path` that
/// a trampoline called with `level` touches.
pub open spec fn cut(path: Seq<u64>, level: int) -> int {
    if level < 0 {
        0
    } else if level > path.len() {
        path.len() as int
    } else {
        level
    }
}

/// The trace a full entry pass leaves behind: one `Enter` per node of `path`
/// at depth `cut(path, level)` or deeper, outermost first.
pub open spec fn enter_seq(path: Seq<u64>, level: int) -> Seq<Action> {
    Seq::new(
        (path.len() - cut(path, level)) as nat,
        |i: int| Action::Enter(path[cut(path, level) + i]),
    )
}

/// The trace a full exit pass leaves behind: one `Exit` per node of `path`
/// at depth `cut(path, level)` or deeper, innermost first.
pub open spec fn exit_seq(path: Seq<u64>, level: int) -> Seq<Action> {
    Seq::new(
        (path.len() - cut(path, level)) as nat,
        |i: int| Action::Exit(path[path.len() - 1 - i]),
    )
}

/// Entering at a level at or above the root enters the whole path, one
/// `Enter` per node, outermost first.
pub proof fn lemma_enter_seq_all(path: Seq<u64>, level: int)
    requires
        level <= 0,
    ensures
        enter_seq(path, level) == Seq::new(path.len(), |i: int| Action::Enter(path[i])),
{
    assert(enter_seq(path, level) =~= Seq::new(path.len(), |i: int| Action::Enter(path[i])));
}

/// A level at or past the end of the path enters nothing.
pub proof fn lemma_enter_seq_none(path: Seq<u64>, level: int)
    requires
        level >= path.len(),
    ensures
        enter_seq(path, level) == Seq::<Action>::empty(),
{
    assert(enter_seq(path, level) =~= Seq::<Action>::empty());
}

/// A level at or past the end of the path exits nothing.
pub proof fn lemma_exit_seq_none(path: Seq<u64>, level: int)
    requires
        level >= path.len(),
    ensures
        exit_seq(path, level) == Seq::<Action>::empty(),
{
    assert(exit_seq(path, level) =~= Seq::<Action>::empty());
}

/// How a composite's entry pass decomposes: the node itself enters first
/// when the level reaches it, then the pass continues into the active child
/// with the level shifted one deeper.
pub proof fn lemma_enter_seq_step(t: u64, rest: Seq<u64>, level: int)
    ensures
        enter_seq(seq![t] + rest, level) == (if level <= 0 {
            seq![Action::Enter(t)]
        } else {
            Seq::<Action>::empty()
        }) + enter_seq(rest, level - 1),
{
    let path = seq![t] + rest;
    if level <= 0 {
        assert(enter_seq(path, level) =~= seq![Action::Enter(t)] + enter_seq(rest, level - 1));
    } else {
        assert(enter_seq(path, level) =~= Seq::<Action>::empty() + enter_seq(rest, level - 1));
    }
}

/// How a composite's exit pass decomposes: the active child's pass runs
/// first, then the node itself exits when the level reaches it.
pub proof fn lemma_exit_seq_step(t: u64, rest: Seq<u64>, level: int)
    ensures
        exit_seq(seq![t] + rest, level) == exit_seq(rest, level - 1) + (if level <= 0 {
            seq![Action::Exit(t)]
        } else {
            Seq::<Action>::empty()
        }),
{
    let path = seq![t] + rest;
    if level <= 0 {
        assert(exit_seq(path, level) =~= exit_seq(rest, level - 1) + seq![Action::Exit(t)]);
    } else {
        assert(exit_seq(path, level) =~= exit_seq(rest, level - 1) + Seq::<Action>::empty());
    }
}

/// A leaf's entry pass: one `Enter` when the level reaches it, else nothing.
pub proof fn lemma_enter_seq_leaf(t: u64, level: int)
    ensures
        enter_seq(seq![t], level) == (if level <= 0 {
            seq![Action::Enter(t)]
        } else {
            Seq::<Action>::empty()
        }),
{
    if level <= 0 {
        assert(enter_seq(seq![t], level) =~= seq![Action::Enter(t)]);
    } else {
        assert(enter_seq(seq![t], level) =~= Seq::<Action>::empty());
    }
}

/// A leaf's exit pass: one `Exit` when the level reaches it, else nothing.
pub proof fn lemma_exit_seq_leaf(t: u64, level: int)
    ensures
        exit_seq(seq![t], level) == (if level <= 0 {
            seq![Action::Exit(t)]
        } else {
            Seq::<Action>::empty()
        }),
{
    if level <= 0 {
        assert(exit_seq(seq![t], level) =~= seq![Action::Exit(t)]);
    } else {
        assert(exit_seq(seq![t], level) =~= Seq::<Action>::empty());
    }
}

/// The depth at which bubbling stops, scanning the per-depth decisions
/// `decs` from depth `d` toward the root: the deepest depth at or below `d`
/// whose node accepts the event, or `0` when every scanned node declines.
pub open spec fn stop_from<T>(decs: Seq<EventResult<T>>, d: int) -> int
    decreases d,
{
    if d <= 0 {
        0
    } else if !(decs[d] is NotHandled) {
        d
    } else {
        stop_from(decs, d - 1)
    }
}

/// The depth at which bubbling stops for a full dispatch starting at the
/// innermost active leaf, whose decision is the last of `decs`.
pub open spec fn stop_of<T>(decs: Seq<EventResult<T>>) -> int {
    stop_from(decs, decs.len() - 1)
}

/// The decision a full dispatch returns: the local decision of the node
/// where bubbling stops. When every node on the path declines, this is the
/// root's own decision, `NotHandled`.
pub open spec fn bubble_of<T>(decs: Seq<EventResult<T>>) -> EventResult<T> {
    if decs.len() == 0 {
        EventResult::NotHandled
    } else {
        decs[stop_of(decs)]
    }
}

/// The trace a full dispatch leaves behind: one `Handle` per node asked,
/// innermost first, from the leaf down to the node where bubbling stops.
pub open spec fn handle_seq_of<T>(path: Seq<u64>, decs: Seq<EventResult<T>>) -> Seq<Action> {
    Seq::new(
        (path.len() - stop_of(decs)) as nat,
        |i: int| Action::Handle(path[path.len() - 1 - i]),
    )
}

/// The local hooks of one node: entry and exit actions and the node's own
/// event logic. `State` builds the recursive dispatch on top of these.
///
/// `State` names the tree's root type: a transition target is always a full
/// root-typed value describing the complete new active path.
pub trait Actor<E: Copy> {
    type State;

    /// The identity token of this node: the per-level discriminant written
    /// into level vectors. Never `SENTINEL`.
    spec fn tok(&self) -> u64;

    /// What `handle` decides for each event: the specification of this
    /// node's local event logic.
    spec fn decide(&self, event: E) -> EventResult<Self::State>;

    /// Local side effect run when this node becomes active; a no-op unless
    /// the node overrides it.
    fn enter(&self) {
    }

    /// Local side effect run when this node becomes inactive; a no-op
    /// unless the node overrides it.
    fn exit(&self) {
    }

    /// This node's local event logic, consulted only after every descendant
    /// on the active path has declined the event.
    fn handle(&self, event: E) -> (r: EventResult<Self::State>)
        ensures
            r == self.decide(event),
    ;
}

/// The recursive dispatch protocol of one node: trampolines that walk the
/// active path below it. A leaf's trampolines act on the leaf alone; a
/// composite's combine its own hooks with its active child's trampolines.
///
/// All contracts speak of `ipath`, the identity-path vector from this node
/// down to its active leaf, and of the trace of recorded hook invocations.
pub trait State<E: Copy>: Actor<E> + Sized {
    /// The identity tokens along the active path, from this node (index 0)
    /// down to its active leaf.
    spec fn ipath(&self) -> Seq<u64>;

    /// The local decisions of the nodes along the active path, from this
    /// node (index 0) down to its active leaf: what each node's own
    /// `handle` would return for this event.
    spec fn decisions(&self, event: E) -> Seq<EventResult<Self::State>>;

    /// The tree's depth bound: the exact depth of the deepest leaf. Every
    /// active path fits in this many slots.
    spec fn depth_bound() -> nat;

    /// The canonical starting instance: for a composite, the designated
    /// first-declared child, itself recursively initial.
    spec fn initial() -> Self;

    /// Well-formedness of the identity path: non-empty, within the depth
    /// bound, headed by this node's own token, and free of `SENTINEL`.
    proof fn wf_path(&self)
        ensures
            1 <= self.ipath().len(),
            self.ipath().len() <= Self::depth_bound(),
            self.ipath()[0] == self.tok(),
            forall|i: int| 0 <= i < self.ipath().len() ==> self.ipath()[i] != SENTINEL,
    ;

    /// Well-formedness of the decision vector: one local decision per node
    /// of the active path, this node's own first.
    proof fn wf_decisions(&self, event: E)
        ensures
            self.decisions(event).len() == self.ipath().len(),
            self.decisions(event)[0] == self.decide(event),
    ;

    /// The depth bound as a runtime value, used to size level vectors.
    fn max_levels() -> (n: usize)
        ensures
            n == Self::depth_bound(),
            n <= 0x7fff_ffff,
    ;

    /// The canonical starting instance as a runtime value.
    fn initial_state() -> (s: Self)
        ensures
            s == Self::initial(),
    ;

    /// Writes this node's identity path into `levels` starting at `ptr`,
    /// leaving every other slot untouched.
    fn get_levels(&self, levels: &mut Vec<u64>, ptr: usize)
        requires
            ptr + self.ipath().len() <= old(levels)@.len(),
        ensures
            final(levels)@.len() == old(levels)@.len(),
            forall|i: int|
                ptr <= i < ptr + self.ipath().len() ==> final(levels)@[i] == self.ipath()[i - ptr],
            forall|i: int|
                0 <= i < old(levels)@.len() && !(ptr <= i < ptr + self.ipath().len())
                    ==> final(levels)@[i] == old(levels)@[i],
    ;

    /// Entry trampoline: runs `enter` on every node of the active path at
    /// depth `level` or deeper, outermost first, recording each invocation.
    fn super_enter(&self, level: i32, tr: &mut Vec<Action>)
        ensures
            final(tr)@ == old(tr)@ + enter_seq(self.ipath(), level as int),
    ;

    /// Event trampoline: offers the event to the innermost active leaf
    /// first and bubbles it outward; a node's own `handle` runs only after
    /// every node below it has declined, and its decision is never
    /// overridden by an ancestor.
    fn super_handle(&self, event: E, tr: &mut Vec<Action>) -> (r: EventResult<Self::State>)
        ensures
            r == bubble_of(self.decisions(event)),
            final(tr)@ == old(tr)@ + handle_seq_of(self.ipath(), self.decisions(event)),
    ;

    /// Exit trampoline: runs `exit` on every node of the active path at
    /// depth `level` or deeper, innermost first, recording each invocation.
    fn super_exit(&self, level: i32, tr: &mut Vec<Action>)
        ensures
            final(tr)@ == old(tr)@ + exit_seq(self.ipath(), level as int),
    ;
}

/// Where bubbling stops is a depth within the scanned range; a stop above
/// the root accepts the event, and every node below the stop declined.
pub proof fn lemma_stop_from_range<T>(decs: Seq<EventResult<T>>, d: int)
    requires
        0 <= d,
    ensures
        0 <= stop_from(decs, d) <= d,
        stop_from(decs, d) > 0 ==> !(decs[stop_from(decs, d)] is NotHandled),
        forall|k: int| stop_from(decs, d) < k <= d ==> #[trigger] decs[k] is NotHandled,
    decreases d,
{
    if d > 0 && decs[d] is NotHandled {
        lemma_stop_from_range(decs, d - 1);
    }
}

/// How the stop depth of a composite relates to its active child's: depths
/// shift by one, and the composite itself is the fallback of last resort.
pub proof fn lemma_stop_from_lift<T>(c0: EventResult<T>, xdecs: Seq<EventResult<T>>, d: int)
    requires
        0 <= d < xdecs.len(),
    ensures
        stop_from(seq![c0] + xdecs, d + 1) == (if stop_from(xdecs, d) > 0 {
            stop_from(xdecs, d) + 1
        } else if !(xdecs[0] is NotHandled) {
            1
        } else {
            0
        }),
    decreases d,
{
    let cdecs = seq![c0] + xdecs;
    assert(cdecs[d + 1] == xdecs[d]);
    if !(xdecs[d] is NotHandled) {
        assert(stop_from(cdecs, d + 1) == d + 1);
        if d > 0 {
            assert(stop_from(xdecs, d) == d);
        }
    } else if d == 0 {
        assert(stop_from(cdecs, 1) == stop_from(cdecs, 0));
        assert(stop_from(cdecs, 0) == 0);
        assert(stop_from(xdecs, 0) == 0);
    } else {
        lemma_stop_from_lift(c0, xdecs, d - 1);
        assert(stop_from(cdecs, d + 1) == stop_from(cdecs, d));
        assert(stop_from(xdecs, d) == stop_from(xdecs, d - 1));
    }
}

/// How a composite's dispatch decomposes over its active child: when the
/// child's subtree accepts the event the composite adds nothing, and when
/// it declines the composite is asked exactly once more, last.
pub proof fn lemma_dispatch_lift<T>(
    t0: u64,
    xpath: Seq<u64>,
    c0: EventResult<T>,
    xdecs: Seq<EventResult<T>>,
)
    requires
        xpath.len() >= 1,
        xdecs.len() == xpath.len(),
    ensures
        !(bubble_of(xdecs) is NotHandled) ==> {
            &&& stop_of(seq![c0] + xdecs) == stop_of(xdecs) + 1
            &&& bubble_of(seq![c0] + xdecs) == bubble_of(xdecs)
            &&& handle_seq_of(seq![t0] + xpath, seq![c0] + xdecs) == handle_seq_of(xpath, xdecs)
        },
        bubble_of(xdecs) is NotHandled ==> {
            &&& stop_of(seq![c0] + xdecs) == 0
            &&& bubble_of(seq![c0] + xdecs) == c0
            &&& handle_seq_of(seq![t0] + xpath, seq![c0] + xdecs) == handle_seq_of(xpath, xdecs)
                + seq![Action::Handle(t0)]
        },
{
    let lx = xdecs.len() as int;
    lemma_stop_from_lift(c0, xdecs, lx - 1);
    lemma_stop_from_range(xdecs, lx - 1);
    if !(bubble_of(xdecs) is NotHandled) {
        assert(handle_seq_of(seq![t0] + xpath, seq![c0] + xdecs) =~= handle_seq_of(xpath, xdecs));
    } else {
        assert(stop_from(xdecs, lx - 1) == 0);
        assert(handle_seq_of(seq![t0] + xpath, seq![c0] + xdecs) =~= handle_seq_of(xpath, xdecs)
            + seq![Action::Handle(t0)]);
    }
}

/// A leaf's dispatch: the leaf alone is asked, and its local decision is
/// the outcome.
pub proof fn lemma_dispatch_leaf<T>(t0: u64, d0: EventResult<T>)
    ensures
        stop_of(seq![d0]) == 0,
        bubble_of(seq![d0]) == d0,
        handle_seq_of(seq![t0], seq![d0]) == seq![Action::Handle(t0)],
{
    assert(handle_seq_of(seq![t0], seq![d0]) =~= seq![Action::Handle(t0)]);
}

/// Two levels with the same clamp tear the same suffix off the path.
pub proof fn lemma_level_clip(path: Seq<u64>, a: int, b: int)
    requires
        cut(path, a) == cut(path, b),
    ensures
        enter_seq(path, a) == enter_seq(path, b),
        exit_seq(path, a) == exit_seq(path, b),
{
    assert(enter_seq(path, a) =~= enter_seq(path, b));
    assert(exit_seq(path, a) =~= exit_seq(path, b));
}

} // verus!
