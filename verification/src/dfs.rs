//! Depth-first traversal with discovery/finish timestamps and edge
//! classification.
//!
//! The meaning of a traversal is fixed by `dfs_steps`, a specification-level
//! interpreter over an explicit work stack of `(node, cursor)` frames: one
//! step either drops a frame that makes no sense, finishes a node whose
//! successor row is exhausted, or looks at the next successor and classifies
//! the edge to it — `Tree` into an undiscovered node (which is then entered),
//! `Back` to a node still on the stack, `Forward` to a finished node
//! discovered later than the current one, `Cross` to any other finished
//! node.  A monotone logical clock advances by one at each discovery and
//! each finish.  The executable traversal is the classic recursive descent,
//! proved to produce exactly the event sequence of the interpreter.

use crate::errors::GraphError;
use crate::graph::Graph;
use vstd::prelude::*;

verus! {

/// Where a node stands during a depth-first traversal: untouched, on the
/// recursion stack since its discovery time, or finished with both its
/// discovery and finish times on record.
#[derive(Clone, Copy, Debug, PartialEq, Eq, Structural)]
pub enum DFSTraversalState {
    Undiscovered,
    Processing(usize),
    Processed(usize, usize),
}

/// The classification a depth-first traversal gives each observed edge.
#[derive(Clone, Copy, Debug, PartialEq, Eq, Structural)]
pub enum DFSEdgeType {
    Tree,
    Back,
    Cross,
    Forward,
}

/// One callback-point of a depth-first traversal, in the order they fire:
/// a node entered, an edge observed and classified, or a node completed.
#[derive(Clone, Copy, Debug, PartialEq, Eq, Structural)]
pub enum DFSEvent {
    Discover(usize),
    Edge(usize, usize, DFSEdgeType),
    Finish(usize),
}

/// The discovery time a traversal state carries, zero for an untouched node.
pub open spec fn entry_time_of(s: DFSTraversalState) -> usize {
    match s {
        DFSTraversalState::Undiscovered => 0,
        DFSTraversalState::Processing(d) => d,
        DFSTraversalState::Processed(d, _) => d,
    }
}

/// The all-untouched state vector for `n` nodes.
pub open spec fn initial_dfs_state(n: nat) -> Seq<DFSTraversalState> {
    Seq::new(n, |i: int| DFSTraversalState::Undiscovered)
}

/// How many nodes are still untouched.
pub open spec fn undiscovered_count(st: Seq<DFSTraversalState>) -> nat
    decreases st.len(),
{
    if st.len() == 0 {
        0
    } else {
        undiscovered_count(st.drop_last()) + if st.last() is Undiscovered {
            1nat
        } else {
            0nat
        }
    }
}

/// A work-stack frame makes sense when its node is on the recursion stack
/// and its cursor sits within that node's successor row.
pub open spec fn dfs_frame_ok(
    adj: Seq<Seq<usize>>,
    st: Seq<DFSTraversalState>,
    f: (usize, int),
) -> bool {
    &&& (f.0 as int) < adj.len()
    &&& (f.0 as int) < st.len()
    &&& st[f.0 as int] is Processing
    &&& 0 <= f.1 <= adj[f.0 as int].len()
}

/// How much scanning work one frame still holds; at least one step.
pub open spec fn frame_weight(adj: Seq<Seq<usize>>, f: (usize, int)) -> nat {
    if (f.0 as int) < adj.len() && 0 <= f.1 <= adj[f.0 as int].len() {
        (adj[f.0 as int].len() - f.1 + 1) as nat
    } else {
        1
    }
}

/// How much scanning work a whole stack still holds.
pub open spec fn stack_weight(adj: Seq<Seq<usize>>, stack: Seq<(usize, int)>) -> nat
    decreases stack.len(),
{
    if stack.len() == 0 {
        0
    } else {
        stack_weight(adj, stack.drop_last()) + frame_weight(adj, stack.last())
    }
}

/// Replacing an in-range entry by a non-`Undiscovered` one lowers the
/// untouched count by one exactly when the old entry was untouched.
proof fn lemma_count_update(st: Seq<DFSTraversalState>, i: int, v: DFSTraversalState)
    requires
        0 <= i < st.len(),
        !(v is Undiscovered),
    ensures
        undiscovered_count(st.update(i, v)) == undiscovered_count(st) - (if st[i] is Undiscovered {
            1int
        } else {
            0int
        }),
    decreases st.len(),
{
    let st2 = st.update(i, v);
    if i == st.len() - 1 {
        assert(st2.drop_last() =~= st.drop_last());
        assert(st2.last() == v);
    } else {
        lemma_count_update(st.drop_last(), i, v);
        assert(st2.drop_last() =~= st.drop_last().update(i, v));
        assert(st2.last() == st.last());
    }
}

/// Every node of the all-untouched state counts as untouched.
proof fn lemma_initial_count(n: nat)
    ensures
        undiscovered_count(initial_dfs_state(n)) == n,
    decreases n,
{
    if n > 0 {
        lemma_initial_count((n - 1) as nat);
        assert(initial_dfs_state(n).drop_last() =~= initial_dfs_state((n - 1) as nat));
        assert(initial_dfs_state(n).last() is Undiscovered);
    }
}

/// The events, final state and final clock of running the work stack to
/// exhaustion.  The top of the stack is the last element.
pub open spec fn dfs_steps(
    adj: Seq<Seq<usize>>,
    st: Seq<DFSTraversalState>,
    t: nat,
    stack: Seq<(usize, int)>,
) -> (Seq<DFSEvent>, Seq<DFSTraversalState>, nat)
    decreases undiscovered_count(st), stack_weight(adj, stack),
    via dfs_steps_decreases
{
    if stack.len() == 0 {
        (Seq::<DFSEvent>::empty(), st, t)
    } else {
        let u = stack.last().0;
        let k = stack.last().1;
        let rest = stack.drop_last();
        if !dfs_frame_ok(adj, st, stack.last()) {
            dfs_steps(adj, st, t, rest)
        } else if k == adj[u as int].len() {
            let d = entry_time_of(st[u as int]);
            let st2 = st.update(u as int, DFSTraversalState::Processed(d, t as usize));
            let (evs, st3, t3) = dfs_steps(adj, st2, t + 1, rest);
            (seq![DFSEvent::Finish(u)] + evs, st3, t3)
        } else {
            let v = adj[u as int][k];
            if (v as int) >= st.len() {
                dfs_steps(adj, st, t, rest)
            } else {
                match st[v as int] {
                    DFSTraversalState::Undiscovered => {
                        let st2 = st.update(v as int, DFSTraversalState::Processing(t as usize));
                        let (evs, st3, t3) = dfs_steps(
                            adj,
                            st2,
                            t + 1,
                            rest.push((u, k + 1)).push((v, 0int)),
                        );
                        (
                            seq![
                                DFSEvent::Edge(u, v, DFSEdgeType::Tree),
                                DFSEvent::Discover(v),
                            ] + evs,
                            st3,
                            t3,
                        )
                    },
                    DFSTraversalState::Processing(_) => {
                        let (evs, st3, t3) = dfs_steps(adj, st, t, rest.push((u, k + 1)));
                        (seq![DFSEvent::Edge(u, v, DFSEdgeType::Back)] + evs, st3, t3)
                    },
                    DFSTraversalState::Processed(dv, _) => {
                        let ty = if dv > entry_time_of(st[u as int]) {
                            DFSEdgeType::Forward
                        } else {
                            DFSEdgeType::Cross
                        };
                        let (evs, st3, t3) = dfs_steps(adj, st, t, rest.push((u, k + 1)));
                        (seq![DFSEvent::Edge(u, v, ty)] + evs, st3, t3)
                    },
                }
            }
        }
    }
}

#[via_fn]
proof fn dfs_steps_decreases(
    adj: Seq<Seq<usize>>,
    st: Seq<DFSTraversalState>,
    t: nat,
    stack: Seq<(usize, int)>,
) {
    if stack.len() > 0 {
        let u = stack.last().0;
        let k = stack.last().1;
        let rest = stack.drop_last();
        assert(stack_weight(adj, stack) == stack_weight(adj, rest) + frame_weight(
            adj,
            stack.last(),
        ));
        assert(frame_weight(adj, stack.last()) >= 1);
        if dfs_frame_ok(adj, st, stack.last()) {
            if k == adj[u as int].len() {
                lemma_count_update(
                    st,
                    u as int,
                    DFSTraversalState::Processed(entry_time_of(st[u as int]), t as usize),
                );
            } else {
                let v = adj[u as int][k];
                if (v as int) < st.len() {
                    assert(rest.push((u, k + 1)).drop_last() =~= rest);
                    assert(stack_weight(adj, rest.push((u, k + 1))) == stack_weight(adj, rest)
                        + frame_weight(adj, (u, k + 1)));
                    if st[v as int] is Undiscovered {
                        lemma_count_update(
                            st,
                            v as int,
                            DFSTraversalState::Processing(t as usize),
                        );
                    }
                }
            }
        }
    }
}

/// No state vector holds more untouched nodes than entries.
proof fn lemma_count_le_len(st: Seq<DFSTraversalState>)
    ensures
        undiscovered_count(st) <= st.len(),
    decreases st.len(),
{
    if st.len() > 0 {
        lemma_count_le_len(st.drop_last());
    }
}

/// Running a stack never increases the number of untouched nodes.
proof fn lemma_dfs_steps_count_mono(
    adj: Seq<Seq<usize>>,
    st: Seq<DFSTraversalState>,
    t: nat,
    stack: Seq<(usize, int)>,
)
    ensures
        undiscovered_count(dfs_steps(adj, st, t, stack).1) <= undiscovered_count(st),
    decreases undiscovered_count(st), stack_weight(adj, stack),
{
    if stack.len() > 0 {
        let u = stack.last().0;
        let k = stack.last().1;
        let rest = stack.drop_last();
        assert(frame_weight(adj, stack.last()) >= 1);
        if !dfs_frame_ok(adj, st, stack.last()) {
            lemma_dfs_steps_count_mono(adj, st, t, rest);
        } else if k == adj[u as int].len() {
            let st2 = st.update(
                u as int,
                DFSTraversalState::Processed(entry_time_of(st[u as int]), t as usize),
            );
            lemma_count_update(
                st,
                u as int,
                DFSTraversalState::Processed(entry_time_of(st[u as int]), t as usize),
            );
            lemma_dfs_steps_count_mono(adj, st2, t + 1, rest);
        } else {
            let v = adj[u as int][k];
            if (v as int) >= st.len() {
                lemma_dfs_steps_count_mono(adj, st, t, rest);
            } else {
                match st[v as int] {
                    DFSTraversalState::Undiscovered => {
                        let st2 = st.update(v as int, DFSTraversalState::Processing(t as usize));
                        lemma_count_update(
                            st,
                            v as int,
                            DFSTraversalState::Processing(t as usize),
                        );
                        lemma_dfs_steps_count_mono(
                            adj,
                            st2,
                            t + 1,
                            rest.push((u, k + 1)).push((v, 0int)),
                        );
                    },
                    DFSTraversalState::Processing(_) => {
                        assert(rest.push((u, k + 1)).drop_last() =~= rest);
                        lemma_dfs_steps_count_mono(adj, st, t, rest.push((u, k + 1)));
                    },
                    DFSTraversalState::Processed(dv, _) => {
                        assert(rest.push((u, k + 1)).drop_last() =~= rest);
                        lemma_dfs_steps_count_mono(adj, st, t, rest.push((u, k + 1)));
                    },
                }
            }
        }
    }
}

/// The clock advances, and each unit it advances by is paid for either by a
/// node leaving the untouched count or by a frame leaving the stack.
proof fn lemma_dfs_steps_clock(
    adj: Seq<Seq<usize>>,
    st: Seq<DFSTraversalState>,
    t: nat,
    stack: Seq<(usize, int)>,
)
    ensures
        ({
            let r = dfs_steps(adj, st, t, stack);
            &&& r.2 >= t
            &&& r.2 + 2 * undiscovered_count(r.1) <= t + 2 * undiscovered_count(st) + stack.len()
        }),
    decreases undiscovered_count(st), stack_weight(adj, stack),
{
    if stack.len() > 0 {
        let u = stack.last().0;
        let k = stack.last().1;
        let rest = stack.drop_last();
        assert(frame_weight(adj, stack.last()) >= 1);
        if !dfs_frame_ok(adj, st, stack.last()) {
            lemma_dfs_steps_clock(adj, st, t, rest);
        } else if k == adj[u as int].len() {
            let st2 = st.update(
                u as int,
                DFSTraversalState::Processed(entry_time_of(st[u as int]), t as usize),
            );
            lemma_count_update(
                st,
                u as int,
                DFSTraversalState::Processed(entry_time_of(st[u as int]), t as usize),
            );
            lemma_dfs_steps_clock(adj, st2, t + 1, rest);
        } else {
            let v = adj[u as int][k];
            if (v as int) >= st.len() {
                lemma_dfs_steps_clock(adj, st, t, rest);
            } else {
                match st[v as int] {
                    DFSTraversalState::Undiscovered => {
                        let st2 = st.update(v as int, DFSTraversalState::Processing(t as usize));
                        lemma_count_update(
                            st,
                            v as int,
                            DFSTraversalState::Processing(t as usize),
                        );
                        let stack2 = rest.push((u, k + 1)).push((v, 0int));
                        assert(stack2.drop_last() =~= rest.push((u, k + 1)));
                        assert(rest.push((u, k + 1)).drop_last() =~= rest);
                        lemma_dfs_steps_clock(adj, st2, t + 1, stack2);
                    },
                    DFSTraversalState::Processing(_) => {
                        assert(rest.push((u, k + 1)).drop_last() =~= rest);
                        lemma_dfs_steps_clock(adj, st, t, rest.push((u, k + 1)));
                    },
                    DFSTraversalState::Processed(dv, _) => {
                        assert(rest.push((u, k + 1)).drop_last() =~= rest);
                        lemma_dfs_steps_clock(adj, st, t, rest.push((u, k + 1)));
                    },
                }
            }
        }
    }
}

/// A node on the recursion stack whose frame is not in the work stack keeps
/// its state: only stacked frames finish nodes, and only untouched nodes are
/// ever newly discovered.
proof fn lemma_dfs_steps_other_processing(
    adj: Seq<Seq<usize>>,
    st: Seq<DFSTraversalState>,
    t: nat,
    stack: Seq<(usize, int)>,
    i: int,
)
    requires
        0 <= i < st.len(),
        st[i] is Processing,
        forall|j: int| 0 <= j < stack.len() ==> (#[trigger] stack[j]).0 != i,
    ensures
        dfs_steps(adj, st, t, stack).1[i] == st[i],
    decreases undiscovered_count(st), stack_weight(adj, stack),
{
    if stack.len() > 0 {
        let u = stack.last().0;
        let k = stack.last().1;
        let rest = stack.drop_last();
        assert(frame_weight(adj, stack.last()) >= 1);
        assert(stack.last() == stack[stack.len() - 1]);
        assert(forall|j: int| 0 <= j < rest.len() ==> (#[trigger] rest[j]).0 != i);
        if !dfs_frame_ok(adj, st, stack.last()) {
            lemma_dfs_steps_other_processing(adj, st, t, rest, i);
        } else if k == adj[u as int].len() {
            let st2 = st.update(
                u as int,
                DFSTraversalState::Processed(entry_time_of(st[u as int]), t as usize),
            );
            lemma_count_update(
                st,
                u as int,
                DFSTraversalState::Processed(entry_time_of(st[u as int]), t as usize),
            );
            assert(st2[i] == st[i]);
            lemma_dfs_steps_other_processing(adj, st2, t + 1, rest, i);
        } else {
            let v = adj[u as int][k];
            if (v as int) >= st.len() {
                lemma_dfs_steps_other_processing(adj, st, t, rest, i);
            } else {
                match st[v as int] {
                    DFSTraversalState::Undiscovered => {
                        let st2 = st.update(v as int, DFSTraversalState::Processing(t as usize));
                        lemma_count_update(
                            st,
                            v as int,
                            DFSTraversalState::Processing(t as usize),
                        );
                        let stack2 = rest.push((u, k + 1)).push((v, 0int));
                        assert((v as int) != i);
                        assert(st2[i] == st[i]);
                        assert(forall|j: int|
                            0 <= j < stack2.len() ==> (#[trigger] stack2[j]).0 != i);
                        lemma_dfs_steps_other_processing(adj, st2, t + 1, stack2, i);
                    },
                    DFSTraversalState::Processing(_) => {
                        let stack2 = rest.push((u, k + 1));
                        assert(stack2.drop_last() =~= rest);
                        assert(forall|j: int|
                            0 <= j < stack2.len() ==> (#[trigger] stack2[j]).0 != i);
                        lemma_dfs_steps_other_processing(adj, st, t, stack2, i);
                    },
                    DFSTraversalState::Processed(dv, _) => {
                        let stack2 = rest.push((u, k + 1));
                        assert(stack2.drop_last() =~= rest);
                        assert(forall|j: int|
                            0 <= j < stack2.len() ==> (#[trigger] stack2[j]).0 != i);
                        lemma_dfs_steps_other_processing(adj, st, t, stack2, i);
                    },
                }
            }
        }
    }
}

/// Running a stack whose lower part is `bot` and upper part is `top` first
/// runs `top` to exhaustion, then `bot` from the state and clock `top` left.
proof fn lemma_dfs_steps_append(
    adj: Seq<Seq<usize>>,
    st: Seq<DFSTraversalState>,
    t: nat,
    bot: Seq<(usize, int)>,
    top: Seq<(usize, int)>,
)
    ensures
        ({
            let r1 = dfs_steps(adj, st, t, top);
            let r2 = dfs_steps(adj, r1.1, r1.2, bot);
            dfs_steps(adj, st, t, bot + top) == (r1.0 + r2.0, r2.1, r2.2)
        }),
    decreases undiscovered_count(st), stack_weight(adj, top),
{
    let whole = bot + top;
    if top.len() == 0 {
        assert(whole =~= bot);
        let r2 = dfs_steps(adj, st, t, bot);
        assert(Seq::<DFSEvent>::empty() + r2.0 =~= r2.0);
    } else {
        assert(whole.len() > 0);
        assert(whole.last() == top.last());
        assert(whole.drop_last() =~= bot + top.drop_last());
        let u = top.last().0;
        let k = top.last().1;
        let rest = top.drop_last();
        assert(frame_weight(adj, top.last()) >= 1);
        if !dfs_frame_ok(adj, st, top.last()) {
            lemma_dfs_steps_append(adj, st, t, bot, rest);
        } else if k == adj[u as int].len() {
            let st2 = st.update(
                u as int,
                DFSTraversalState::Processed(entry_time_of(st[u as int]), t as usize),
            );
            lemma_count_update(
                st,
                u as int,
                DFSTraversalState::Processed(entry_time_of(st[u as int]), t as usize),
            );
            lemma_dfs_steps_append(adj, st2, t + 1, bot, rest);
            let ra = dfs_steps(adj, st2, t + 1, rest);
            let rb = dfs_steps(adj, ra.1, ra.2, bot);
            assert((seq![DFSEvent::Finish(u)] + ra.0) + rb.0 =~= seq![DFSEvent::Finish(u)] + (
            ra.0 + rb.0));
        } else {
            let v = adj[u as int][k];
            if (v as int) >= st.len() {
                lemma_dfs_steps_append(adj, st, t, bot, rest);
            } else {
                match st[v as int] {
                    DFSTraversalState::Undiscovered => {
                        let st2 = st.update(v as int, DFSTraversalState::Processing(t as usize));
                        lemma_count_update(
                            st,
                            v as int,
                            DFSTraversalState::Processing(t as usize),
                        );
                        let top2 = rest.push((u, k + 1)).push((v, 0int));
                        assert(top2.drop_last() =~= rest.push((u, k + 1)));
                        assert(rest.push((u, k + 1)).drop_last() =~= rest);
                        lemma_dfs_steps_append(adj, st2, t + 1, bot, top2);
                        assert(bot + top2 =~= whole.drop_last().push((u, k + 1)).push((v, 0int)));
                        let ra = dfs_steps(adj, st2, t + 1, top2);
                        let rb = dfs_steps(adj, ra.1, ra.2, bot);
                        let pre = seq![
                            DFSEvent::Edge(u, v, DFSEdgeType::Tree),
                            DFSEvent::Discover(v),
                        ];
                        assert((pre + ra.0) + rb.0 =~= pre + (ra.0 + rb.0));
                    },
                    DFSTraversalState::Processing(_) => {
                        let top2 = rest.push((u, k + 1));
                        assert(top2.drop_last() =~= rest);
                        lemma_dfs_steps_append(adj, st, t, bot, top2);
                        assert(bot + top2 =~= whole.drop_last().push((u, k + 1)));
                        let ra = dfs_steps(adj, st, t, top2);
                        let rb = dfs_steps(adj, ra.1, ra.2, bot);
                        let pre = seq![DFSEvent::Edge(u, v, DFSEdgeType::Back)];
                        assert((pre + ra.0) + rb.0 =~= pre + (ra.0 + rb.0));
                    },
                    DFSTraversalState::Processed(dv, _) => {
                        let top2 = rest.push((u, k + 1));
                        assert(top2.drop_last() =~= rest);
                        lemma_dfs_steps_append(adj, st, t, bot, top2);
                        assert(bot + top2 =~= whole.drop_last().push((u, k + 1)));
                        let ty = if dv > entry_time_of(st[u as int]) {
                            DFSEdgeType::Forward
                        } else {
                            DFSEdgeType::Cross
                        };
                        let ra = dfs_steps(adj, st, t, top2);
                        let rb = dfs_steps(adj, ra.1, ra.2, bot);
                        let pre = seq![DFSEvent::Edge(u, v, ty)];
                        assert((pre + ra.0) + rb.0 =~= pre + (ra.0 + rb.0));
                    },
                }
            }
        }
    }
}

/// Entering `u`: its discovery event, its move onto the recursion stack at
/// the current clock, and then the run of its freshly opened frame.
pub open spec fn dfs_enter(
    adj: Seq<Seq<usize>>,
    st: Seq<DFSTraversalState>,
    t: nat,
    u: usize,
) -> (Seq<DFSEvent>, Seq<DFSTraversalState>, nat) {
    let st1 = st.update(u as int, DFSTraversalState::Processing(t as usize));
    let (evs, st2, t2) = dfs_steps(adj, st1, t + 1, seq![(u, 0int)]);
    (seq![DFSEvent::Discover(u)] + evs, st2, t2)
}

/// The event sequence of a single-root traversal on a fresh state, clock
/// starting at zero.
pub open spec fn dfs_traversal(adj: Seq<Seq<usize>>, root: usize) -> Seq<DFSEvent> {
    dfs_enter(adj, initial_dfs_state(adj.len()), 0, root).0
}

/// The whole-graph sweep from root `r` upward: roots in ascending index
/// order, each still-untouched one entered with the clock reset to zero,
/// already-finished ones passed over in silence.
pub open spec fn dfs_sweep(
    adj: Seq<Seq<usize>>,
    st: Seq<DFSTraversalState>,
    r: int,
) -> (Seq<DFSEvent>, Seq<DFSTraversalState>)
    decreases adj.len() - r,
{
    if r < 0 || r >= adj.len() {
        (Seq::<DFSEvent>::empty(), st)
    } else {
        let (evs, st2) = if r < st.len() && st[r] is Undiscovered {
            let e = dfs_enter(adj, st, 0, (r as usize));
            (e.0, e.1)
        } else {
            (Seq::<DFSEvent>::empty(), st)
        };
        let (evs3, st3) = dfs_sweep(adj, st2, r + 1);
        (evs + evs3, st3)
    }
}

/// The event sequence of the whole-graph sweep on a fresh state.
pub open spec fn dfs_full_traversal(adj: Seq<Seq<usize>>) -> Seq<DFSEvent> {
    dfs_sweep(adj, initial_dfs_state(adj.len()), 0).0
}

/// The discovery and finish times a traversal state carries are ordered and
/// lie below the clock.
pub open spec fn state_times_ok(s: DFSTraversalState, t: nat) -> bool {
    match s {
        DFSTraversalState::Undiscovered => true,
        DFSTraversalState::Processing(d) => (d as nat) < t,
        DFSTraversalState::Processed(d, f) => d < f && (f as nat) < t,
    }
}

/// Two finished nodes' discovery/finish intervals either do not overlap at
/// all, or one lies strictly inside the other.
pub open spec fn intervals_ok(s1: DFSTraversalState, s2: DFSTraversalState) -> bool {
    match (s1, s2) {
        (DFSTraversalState::Processed(d1, f1), DFSTraversalState::Processed(d2, f2)) => (f1 < d2)
            || (f2 < d1) || (d1 < d2 && f2 < f1) || (d2 < d1 && f1 < f2),
        _ => true,
    }
}

/// A finished node's interval never straddles the discovery time of a node
/// still on the recursion stack: it fell either wholly inside that node's
/// open interval or wholly before it.
pub open spec fn open_interval_ok(done: DFSTraversalState, active: DFSTraversalState) -> bool {
    match (done, active) {
        (DFSTraversalState::Processed(d, f), DFSTraversalState::Processing(dp)) => (dp < d) || (f
            < dp),
        _ => true,
    }
}

/// Everything a running traversal keeps true of its state, clock and work
/// stack: times are ordered and below the clock, finished intervals nest,
/// finished intervals respect the open ones, every frame is sensible, frame
/// nodes' discovery times rise from the bottom of the stack to its top, and
/// every node on the recursion stack has a frame.
pub open spec fn dfs_inv(
    adj: Seq<Seq<usize>>,
    st: Seq<DFSTraversalState>,
    t: nat,
    stack: Seq<(usize, int)>,
) -> bool {
    &&& st.len() == adj.len()
    &&& crate::graph::adjacency_wf(adj)
    &&& t + 2 * undiscovered_count(st) + stack.len() <= usize::MAX
    &&& forall|i: int| 0 <= i < st.len() ==> state_times_ok(#[trigger] st[i], t)
    &&& forall|i: int, j: int|
        0 <= i < st.len() && 0 <= j < st.len() && i != j ==> intervals_ok(
            #[trigger] st[i],
            #[trigger] st[j],
        )
    &&& forall|i: int, j: int|
        0 <= i < st.len() && 0 <= j < st.len() ==> open_interval_ok(
            #[trigger] st[i],
            #[trigger] st[j],
        )
    &&& forall|p: int| 0 <= p < stack.len() ==> dfs_frame_ok(adj, st, #[trigger] stack[p])
    &&& forall|p: int, q: int|
        0 <= p < q < stack.len() ==> entry_time_of(st[(#[trigger] stack[p]).0 as int])
            < entry_time_of(st[(#[trigger] stack[q]).0 as int])
    &&& forall|i: int|
        0 <= i < st.len() && (#[trigger] st[i]) is Processing ==> exists|p: int|
            0 <= p < stack.len() && (#[trigger] stack[p]).0 == i
}

/// Running the work stack to exhaustion keeps the interval discipline: at
/// the end the state again satisfies the invariant, now with nothing on the
/// stack — so no node is left on the recursion stack, and all recorded
/// intervals nest.
proof fn lemma_dfs_steps_inv(
    adj: Seq<Seq<usize>>,
    st: Seq<DFSTraversalState>,
    t: nat,
    stack: Seq<(usize, int)>,
)
    requires
        dfs_inv(adj, st, t, stack),
    ensures
        ({
            let r = dfs_steps(adj, st, t, stack);
            dfs_inv(adj, r.1, r.2, Seq::<(usize, int)>::empty())
        }),
    decreases undiscovered_count(st), stack_weight(adj, stack),
{
    if stack.len() > 0 {
        let top = stack.last();
        let u = top.0;
        let k = top.1;
        let rest = stack.drop_last();
        assert(stack[stack.len() - 1] == top);
        assert(dfs_frame_ok(adj, st, top));
        assert(frame_weight(adj, top) >= 1);
        assert(forall|p: int| 0 <= p < rest.len() ==> rest[p] == stack[p]);
        if k == adj[u as int].len() {
            let d = entry_time_of(st[u as int]);
            let st2 = st.update(u as int, DFSTraversalState::Processed(d, t as usize));
            lemma_count_update(st, u as int, DFSTraversalState::Processed(d, t as usize));
            assert forall|p: int| 0 <= p < rest.len() implies (#[trigger] rest[p]).0 != u by {
                if rest[p].0 == u {
                    assert(rest[p] == stack[p]);
                    assert(0 <= p < stack.len() - 1);
                    assert(stack[stack.len() - 1].0 == u);
                    assert(entry_time_of(st[(stack[p]).0 as int]) < entry_time_of(
                        st[(stack[stack.len() - 1]).0 as int],
                    ));
                    assert(false);
                }
            };
            assert forall|i: int, j: int|
                0 <= i < st2.len() && 0 <= j < st2.len() && i != j implies intervals_ok(
                #[trigger] st2[i],
                #[trigger] st2[j],
            ) by {
                assert(t < usize::MAX);
                assert(st2[u as int] == DFSTraversalState::Processed(d, t as usize));
                if i == u as int && j != u as int && st2[j] is Processed {
                    assert(st[j] is Processed);
                    assert(open_interval_ok(st[j], st[u as int]));
                    assert(state_times_ok(st[j], t));
                } else if j == u as int && i != u as int && st2[i] is Processed {
                    assert(st[i] is Processed);
                    assert(open_interval_ok(st[i], st[u as int]));
                    assert(state_times_ok(st[i], t));
                }
            };
            assert forall|i: int, j: int| 0 <= i < st2.len() && 0 <= j < st2.len() implies
                open_interval_ok(#[trigger] st2[i], #[trigger] st2[j]) by {
                if i == u as int && st2[j] is Processing {
                    assert(j != u as int);
                    assert(st[j] is Processing);
                    let p = choose|p: int|
                        0 <= p < stack.len() && (#[trigger] stack[p]).0 == j;
                    assert(stack[stack.len() - 1].0 == u);
                    assert(stack[p].0 != u);
                    assert(p < stack.len() - 1);
                    assert(entry_time_of(st[(stack[p]).0 as int]) < entry_time_of(
                        st[(stack[stack.len() - 1]).0 as int],
                    ));
                    assert(entry_time_of(st[j]) < entry_time_of(st[u as int]));
                }
            };
            assert forall|i: int|
                0 <= i < st2.len() && (#[trigger] st2[i]) is Processing implies exists|p: int|
                0 <= p < rest.len() && (#[trigger] rest[p]).0 == i by {
                assert(st[i] is Processing);
                let p = choose|p: int| 0 <= p < stack.len() && (#[trigger] stack[p]).0 == i;
                if p == stack.len() - 1 {
                    assert(stack[p].0 == u);
                    assert(i == u as int);
                    assert(false);
                }
                assert(rest[p] == stack[p]);
                assert(rest[p].0 == i);
            };
            assert(dfs_inv(adj, st2, t + 1, rest));
            lemma_dfs_steps_inv(adj, st2, t + 1, rest);
        } else {
            let v = adj[u as int][k];
            assert(crate::graph::row_wf(adj[u as int], adj.len()));
            assert((v as int) < st.len());
            match st[v as int] {
                DFSTraversalState::Undiscovered => {
                    let st2 = st.update(v as int, DFSTraversalState::Processing(t as usize));
                    lemma_count_update(st, v as int, DFSTraversalState::Processing(t as usize));
                    let stack2 = rest.push((u, k + 1)).push((v, 0int));
                    assert(stack2.len() == stack.len() + 1);
                    assert(stack2[stack.len() as int] == (v, 0int));
                    assert(stack2[stack.len() - 1] == (u, k + 1));
                    assert(forall|p: int| 0 <= p < rest.len() ==> stack2[p] == stack[p]);
                    assert forall|p: int| 0 <= p < stack2.len() implies dfs_frame_ok(
                        adj,
                        st2,
                        #[trigger] stack2[p],
                    ) by {
                        if p < stack.len() - 1 {
                            assert(dfs_frame_ok(adj, st, stack[p]));
                            assert(stack[p].0 != v);
                        }
                    };
                    assert forall|p: int, q: int| 0 <= p < q < stack2.len() implies entry_time_of(
                        st2[(#[trigger] stack2[p]).0 as int],
                    ) < entry_time_of(st2[(#[trigger] stack2[q]).0 as int]) by {
                        if q < stack.len() {
                            assert(entry_time_of(st[(stack[p]).0 as int]) < entry_time_of(
                                st[(stack[q]).0 as int],
                            ));
                            assert(stack[p].0 != v && stack[q].0 != v);
                        } else {
                            assert(stack2[q].0 == v);
                            assert(entry_time_of(st2[v as int]) == t);
                            if p < stack.len() - 1 {
                                assert(dfs_frame_ok(adj, st, stack[p]));
                                assert(stack[p].0 != v);
                                assert(state_times_ok(st[stack[p].0 as int], t));
                            } else {
                                assert(stack2[p].0 == u);
                                assert(state_times_ok(st[u as int], t));
                            }
                        }
                    };
                    assert forall|i: int|
                        0 <= i < st2.len() && (#[trigger] st2[i]) is Processing implies exists|
                        p: int,
                    |
                        0 <= p < stack2.len() && (#[trigger] stack2[p]).0 == i by {
                        if i == v as int {
                            assert(stack2[stack.len() as int].0 == i);
                        } else {
                            let p = choose|p: int|
                                0 <= p < stack.len() && (#[trigger] stack[p]).0 == i;
                            if p == stack.len() - 1 {
                                assert(stack2[p].0 == u);
                                assert(stack[p].0 == u);
                            } else {
                                assert(stack2[p].0 == i);
                            }
                        }
                    };
                    assert(dfs_inv(adj, st2, t + 1, stack2));
                    lemma_dfs_steps_inv(adj, st2, t + 1, stack2);
                },
                DFSTraversalState::Processing(dv) => {
                    let stack2 = rest.push((u, k + 1));
                    assert(stack2.drop_last() =~= rest);
                    assert(stack2[stack.len() - 1] == (u, k + 1));
                    assert(forall|p: int| 0 <= p < rest.len() ==> stack2[p] == stack[p]);
                    assert forall|i: int|
                        0 <= i < st.len() && (#[trigger] st[i]) is Processing implies exists|
                        p: int,
                    |
                        0 <= p < stack2.len() && (#[trigger] stack2[p]).0 == i by {
                        let p = choose|p: int|
                            0 <= p < stack.len() && (#[trigger] stack[p]).0 == i;
                        if p == stack.len() - 1 {
                            assert(stack2[p].0 == u);
                            assert(stack[p].0 == u);
                        } else {
                            assert(stack2[p].0 == i);
                        }
                    };
                    assert(dfs_inv(adj, st, t, stack2));
                    lemma_dfs_steps_inv(adj, st, t, stack2);
                },
                DFSTraversalState::Processed(dv, fv) => {
                    let stack2 = rest.push((u, k + 1));
                    assert(stack2.drop_last() =~= rest);
                    assert(stack2[stack.len() - 1] == (u, k + 1));
                    assert(forall|p: int| 0 <= p < rest.len() ==> stack2[p] == stack[p]);
                    assert forall|i: int|
                        0 <= i < st.len() && (#[trigger] st[i]) is Processing implies exists|
                        p: int,
                    |
                        0 <= p < stack2.len() && (#[trigger] stack2[p]).0 == i by {
                        let p = choose|p: int|
                            0 <= p < stack.len() && (#[trigger] stack[p]).0 == i;
                        if p == stack.len() - 1 {
                            assert(stack2[p].0 == u);
                            assert(stack[p].0 == u);
                        } else {
                            assert(stack2[p].0 == i);
                        }
                    };
                    assert(dfs_inv(adj, st, t, stack2));
                    lemma_dfs_steps_inv(adj, st, t, stack2);
                },
            }
        }
    }
}

/// The parenthesis theorem for the depth-first traversal: in the state a
/// single-root traversal leaves behind, any two finished nodes' discovery/
/// finish intervals are either disjoint or strictly nested, and no node is
/// left on the recursion stack.
pub proof fn lemma_dfs_parenthesis_nesting(adj: Seq<Seq<usize>>, root: usize)
    requires
        crate::graph::adjacency_wf(adj),
        (root as int) < adj.len(),
        2 * adj.len() <= usize::MAX,
    ensures
        ({
            let st = dfs_enter(adj, initial_dfs_state(adj.len()), 0, root).1;
            &&& forall|i: int, j: int|
                0 <= i < st.len() && 0 <= j < st.len() && i != j ==> intervals_ok(
                    #[trigger] st[i],
                    #[trigger] st[j],
                )
            &&& forall|i: int| 0 <= i < st.len() ==> !((#[trigger] st[i]) is Processing)
        }),
{
    let st0 = initial_dfs_state(adj.len());
    let st1 = st0.update(root as int, DFSTraversalState::Processing(0));
    let stack = seq![(root, 0int)];
    assert(stack[0] == (root, 0int));
    lemma_initial_count(adj.len());
    lemma_count_update(st0, root as int, DFSTraversalState::Processing(0));
    assert forall|i: int|
        0 <= i < st1.len() && (#[trigger] st1[i]) is Processing implies exists|p: int|
        0 <= p < stack.len() && (#[trigger] stack[p]).0 == i by {
        assert(stack[0].0 == root);
    };
    assert(dfs_inv(adj, st1, 1, stack));
    lemma_dfs_steps_inv(adj, st1, 1, stack);
    let r = dfs_steps(adj, st1, 1, stack);
    assert forall|i: int| 0 <= i < r.1.len() implies !((#[trigger] r.1[i]) is Processing) by {
        if r.1[i] is Processing {
            let p = choose|p: int|
                0 <= p < Seq::<(usize, int)>::empty().len() && (#[trigger] Seq::<(
                    usize,
                    int,
                )>::empty()[p]).0 == i;
        }
    };
}

impl<T> Graph<T> {
    /// The recursive descent: discovers `current`, scans its successor row in
    /// insertion order, classifies every edge, recurses into tree edges, and
    /// finishes `current`.  Appends to `events` exactly what `dfs_enter`
    /// says, leaves `state` and the returned clock exactly as it says.
    /// The native call stack grows with the longest simple path walked from
    /// `current`, a known limitation on pathologically deep graphs.
    fn inner_dfs(
        &self,
        state: &mut Vec<DFSTraversalState>,
        time: usize,
        current: usize,
        events: &mut Vec<DFSEvent>,
    ) -> (t_out: usize)
        requires
            self.wf(),
            old(state)@.len() == self.vertex_count(),
            current < self.vertex_count(),
            old(state)@[current as int] is Undiscovered,
            time + 2 * undiscovered_count(old(state)@) <= usize::MAX,
        ensures
            ({
                let r = dfs_enter(self.adj_seq(), old(state)@, time as nat, current);
                &&& final(events)@ == old(events)@ + r.0
                &&& final(state)@ == r.1
                &&& t_out == r.2
            }),
            final(state)@.len() == old(state)@.len(),
        decreases undiscovered_count(old(state)@),
    {
        let ghost adj = self.adj_seq();
        let ghost st0 = state@;
        let ghost evs0 = events@;
        events.push(DFSEvent::Discover(current));
        state[current] = DFSTraversalState::Processing(time);
        let ghost st1 = st0.update(current as int, DFSTraversalState::Processing(time));
        proof {
            lemma_count_update(st0, current as int, DFSTraversalState::Processing(time));
        }
        let mut t: usize = time + 1;
        let row = self.adjacency_of(current);
        let row_len = row.len();
        let ghost target = dfs_steps(adj, st1, t as nat, seq![(current, 0int)]);
        let mut k: usize = 0;
        let ghost mut done: Seq<DFSEvent> = Seq::empty();
        while k < row_len
            invariant
                self.wf(),
                adj == self.adj_seq(),
                row@ == adj[current as int],
                current < self.vertex_count(),
                state@.len() == self.vertex_count(),
                row_len == adj[current as int].len(),
                0 <= k <= row_len,
                state@[current as int] == DFSTraversalState::Processing(time),
                t + 2 * undiscovered_count(state@) + 1 <= usize::MAX,
                undiscovered_count(state@) <= undiscovered_count(st1),
                undiscovered_count(st1) + 1 == undiscovered_count(old(state)@),
                events@ == evs0 + seq![DFSEvent::Discover(current)] + done,
                ({
                    let r = dfs_steps(adj, state@, t as nat, seq![(current, k as int)]);
                    &&& target.0 == done + r.0
                    &&& target.1 == r.1
                    &&& target.2 == r.2
                }),
            decreases row_len - k,
        {
            let ghost stv = state@;
            let ghost frame = (current, k as int);
            proof {
                assert(seq![frame].last() == frame);
                assert(seq![frame].drop_last() =~= Seq::<(usize, int)>::empty());
                assert(dfs_frame_ok(adj, stv, frame));
                assert(crate::graph::row_wf(adj[current as int], adj.len()));
            }
            let v = row[k];
            proof {
                assert(adj[current as int][k as int] == v);
                assert((v as int) < stv.len());
            }
            let sv = state[v];
            match sv {
                DFSTraversalState::Undiscovered => {
                    events.push(DFSEvent::Edge(current, v, DFSEdgeType::Tree));
                    let ghost st_marked = stv.update(
                        v as int,
                        DFSTraversalState::Processing(t),
                    );
                    let ghost child = dfs_steps(adj, st_marked, t as nat + 1, seq![(v, 0int)]);
                    proof {
                        lemma_count_update(stv, v as int, DFSTraversalState::Processing(t));
                        lemma_dfs_steps_clock(adj, st_marked, t as nat + 1, seq![(v, 0int)]);
                    }
                    let t_next = self.inner_dfs(state, t, v, events);
                    proof {
                        assert(v != current);
                        assert(st_marked[current as int] == DFSTraversalState::Processing(time));
                        assert(seq![(v, 0int)][0].0 == v);
                        lemma_dfs_steps_other_processing(
                            adj,
                            st_marked,
                            t as nat + 1,
                            seq![(v, 0int)],
                            current as int,
                        );
                        let stack2 = Seq::<(usize, int)>::empty().push((current, k as int + 1)).push(
                            (v, 0int),
                        );
                        assert(stack2 =~= seq![(current, k as int + 1)] + seq![(v, 0int)]);
                        lemma_dfs_steps_append(
                            adj,
                            st_marked,
                            t as nat + 1,
                            seq![(current, k as int + 1)],
                            seq![(v, 0int)],
                        );
                        let after_child = dfs_steps(
                            adj,
                            child.1,
                            child.2,
                            seq![(current, k as int + 1)],
                        );
                        let pre = seq![
                            DFSEvent::Edge(current, v, DFSEdgeType::Tree),
                            DFSEvent::Discover(v),
                        ];
                        assert(dfs_steps(adj, stv, t as nat, seq![frame]) == (
                            pre + (child.0 + after_child.0),
                            after_child.1,
                            after_child.2,
                        ));
                        let done2 = done + seq![DFSEvent::Edge(current, v, DFSEdgeType::Tree)]
                            + seq![DFSEvent::Discover(v)] + child.0;
                        assert(done2 + after_child.0 =~= done + (pre + (child.0 + after_child.0)));
                        assert(target.0 == done2 + after_child.0);
                        done = done2;
                        assert(events@ =~= evs0 + seq![DFSEvent::Discover(current)] + done);
                        assert(state@ == child.1);
                        lemma_dfs_steps_count_mono(adj, st_marked, t as nat + 1, seq![(v, 0int)]);
                    }
                    t = t_next;
                },
                DFSTraversalState::Processing(_) => {
                    events.push(DFSEvent::Edge(current, v, DFSEdgeType::Back));
                    proof {
                        let stack2 = Seq::<(usize, int)>::empty().push((current, k as int + 1));
                        assert(stack2 =~= seq![(current, k as int + 1)]);
                        let rnext = dfs_steps(adj, stv, t as nat, seq![(current, k as int + 1)]);
                        let pre = seq![DFSEvent::Edge(current, v, DFSEdgeType::Back)];
                        assert(dfs_steps(adj, stv, t as nat, seq![frame]) == (
                            pre + rnext.0,
                            rnext.1,
                            rnext.2,
                        ));
                        assert((done + pre) + rnext.0 =~= done + (pre + rnext.0));
                        done = done + pre;
                        assert(events@ =~= evs0 + seq![DFSEvent::Discover(current)] + done);
                    }
                },
                DFSTraversalState::Processed(dv, _) => {
                    let ty = if dv > time {
                        DFSEdgeType::Forward
                    } else {
                        DFSEdgeType::Cross
                    };
                    events.push(DFSEvent::Edge(current, v, ty));
                    proof {
                        assert(entry_time_of(stv[current as int]) == time);
                        let stack2 = Seq::<(usize, int)>::empty().push((current, k as int + 1));
                        assert(stack2 =~= seq![(current, k as int + 1)]);
                        let rnext = dfs_steps(adj, stv, t as nat, seq![(current, k as int + 1)]);
                        let pre = seq![DFSEvent::Edge(current, v, ty)];
                        assert(dfs_steps(adj, stv, t as nat, seq![frame]) == (
                            pre + rnext.0,
                            rnext.1,
                            rnext.2,
                        ));
                        assert((done + pre) + rnext.0 =~= done + (pre + rnext.0));
                        done = done + pre;
                        assert(events@ =~= evs0 + seq![DFSEvent::Discover(current)] + done);
                    }
                },
            }
            k = k + 1;
        }
        let ghost st_fin = state@;
        events.push(DFSEvent::Finish(current));
        state[current] = DFSTraversalState::Processed(time, t);
        let t_out = t + 1;
        proof {
            let frame = (current, row_len as int);
            assert(seq![frame].last() == frame);
            assert(seq![frame].drop_last() =~= Seq::<(usize, int)>::empty());
            assert(dfs_frame_ok(adj, st_fin, frame));
            assert(entry_time_of(st_fin[current as int]) == time);
            let st2 = st_fin.update(
                current as int,
                DFSTraversalState::Processed(time, t),
            );
            let inner = dfs_steps(adj, st2, t as nat + 1, seq![frame].drop_last());
            assert(inner == (Seq::<DFSEvent>::empty(), st2, t as nat + 1));
            assert(dfs_steps(adj, st_fin, t as nat, seq![frame]).1 == st2);
            assert(dfs_steps(adj, st_fin, t as nat, seq![frame]).2 == t as nat + 1);
            assert(dfs_steps(adj, st_fin, t as nat, seq![frame]).0 == seq![
                DFSEvent::Finish(current),
            ] + Seq::<DFSEvent>::empty());
            assert(seq![DFSEvent::Finish(current)] + Seq::<DFSEvent>::empty()
                =~= seq![DFSEvent::Finish(current)]);
            let r = dfs_enter(adj, st0, time as nat, current);
            assert(target.0 == done + seq![DFSEvent::Finish(current)]);
            assert(r.0 == seq![DFSEvent::Discover(current)] + target.0);
            assert(events@ =~= evs0 + r.0);
            assert(state@ == r.1);
        }
        t_out
    }

    /// The depth-first traversal from `root_index` on an otherwise untouched
    /// graph: the exact event sequence of `dfs_traversal`.  An invalid root
    /// index is refused with `IndexOutOfRange`.  The clock fits `usize`
    /// because each node costs it exactly two ticks.  The descent is truly
    /// recursive, so the native stack bounds the longest simple path from
    /// the root it can walk — a known limitation, not mitigated here.
    pub fn depth_first_iter_from_index(&self, root_index: usize) -> (r: Result<
        Vec<DFSEvent>,
        GraphError,
    >)
        requires
            self.wf(),
            2 * self.vertex_count() <= usize::MAX,
        ensures
            match r {
                Ok(events) => root_index < self.vertex_count() && events@ == dfs_traversal(
                    self.adj_seq(),
                    root_index,
                ),
                Err(e) => root_index >= self.vertex_count() && e == GraphError::IndexOutOfRange,
            },
    {
        let n = self.number_of_vertices();
        if root_index >= n {
            return Err(GraphError::IndexOutOfRange);
        }
        let mut state: Vec<DFSTraversalState> = Vec::new();
        let mut i: usize = 0;
        while i < n
            invariant
                0 <= i <= n,
                state@.len() == i,
                forall|j: int| 0 <= j < i ==> state@[j] is Undiscovered,
            decreases n - i,
        {
            state.push(DFSTraversalState::Undiscovered);
            i = i + 1;
        }
        proof {
            assert(state@ =~= initial_dfs_state(self.vertex_count()));
            lemma_initial_count(self.vertex_count());
            assert(self.adj_seq().len() == self.vertex_count());
        }
        let mut events: Vec<DFSEvent> = Vec::new();
        self.inner_dfs(&mut state, 0, root_index, &mut events);
        proof {
            assert(events@ =~= dfs_traversal(self.adj_seq(), root_index));
        }
        Ok(events)
    }

    /// The whole-graph depth-first sweep: roots in ascending index order,
    /// each still-untouched root entered with the clock reset to zero, all
    /// others passed over.  Returns the exact event sequence of
    /// `dfs_full_traversal`.  Shares the recursive descent and with it the
    /// native-stack depth limitation.
    pub fn depth_first_iter(&self) -> (events: Vec<DFSEvent>)
        requires
            self.wf(),
            2 * self.vertex_count() <= usize::MAX,
        ensures
            events@ == dfs_full_traversal(self.adj_seq()),
    {
        let n = self.number_of_vertices();
        let mut state: Vec<DFSTraversalState> = Vec::new();
        let mut i: usize = 0;
        while i < n
            invariant
                0 <= i <= n,
                state@.len() == i,
                forall|j: int| 0 <= j < i ==> state@[j] is Undiscovered,
            decreases n - i,
        {
            state.push(DFSTraversalState::Undiscovered);
            i = i + 1;
        }
        let ghost adj = self.adj_seq();
        let ghost st_init = state@;
        proof {
            assert(st_init =~= initial_dfs_state(self.vertex_count()));
            assert(adj.len() == self.vertex_count());
        }
        let ghost target = dfs_sweep(adj, st_init, 0);
        let mut events: Vec<DFSEvent> = Vec::new();
        let mut r: usize = 0;
        while r < n
            invariant
                self.wf(),
                adj == self.adj_seq(),
                n == self.vertex_count(),
                2 * self.vertex_count() <= usize::MAX,
                0 <= r <= n,
                state@.len() == n,
                target == dfs_sweep(adj, st_init, 0),
                ({
                    let w = dfs_sweep(adj, state@, r as int);
                    &&& target.0 == events@ + w.0
                    &&& target.1 == w.1
                }),
            decreases n - r,
        {
            let ghost stv = state@;
            let sr = state[r];
            match sr {
                DFSTraversalState::Undiscovered => {
                    proof {
                        lemma_count_le_len(stv);
                    }
                    self.inner_dfs(&mut state, 0, r, &mut events);
                    proof {
                        let e = dfs_enter(adj, stv, 0, r);
                        let w2 = dfs_sweep(adj, e.1, r as int + 1);
                        assert(dfs_sweep(adj, stv, r as int) == (e.0 + w2.0, w2.1));
                        assert(target.0 == events@ + w2.0);
                    }
                },
                DFSTraversalState::Processing(_) => {
                    proof {
                        let w2 = dfs_sweep(adj, stv, r as int + 1);
                        assert(dfs_sweep(adj, stv, r as int) == (
                            Seq::<DFSEvent>::empty() + w2.0,
                            w2.1,
                        ));
                        assert(Seq::<DFSEvent>::empty() + w2.0 =~= w2.0);
                    }
                },
                DFSTraversalState::Processed(_, _) => {
                    proof {
                        let w2 = dfs_sweep(adj, stv, r as int + 1);
                        assert(dfs_sweep(adj, stv, r as int) == (
                            Seq::<DFSEvent>::empty() + w2.0,
                            w2.1,
                        ));
                        assert(Seq::<DFSEvent>::empty() + w2.0 =~= w2.0);
                    }
                },
            }
            r = r + 1;
        }
        proof {
            assert(dfs_sweep(adj, state@, n as int).0 =~= Seq::<DFSEvent>::empty());
            assert(target.0 =~= events@);
            assert(events@ =~= dfs_full_traversal(adj));
        }
        events
    }
}

} // verus!
