//! The life of a debugged child: started, stopped once, inspected, resumed,
//! exited.

use vstd::prelude::*;

verus! {

#[derive(Clone, Copy, Debug, PartialEq, Eq, Structural)]
pub enum ChildState {
    /// Started, not yet stopped.
    Spawning,
    /// Stopped at its first trap.
    Stopped,
    /// Stopped, while the shell runs.
    Inspecting,
    /// Resumed after the shell.
    Running,
    /// Gone.
    Exited,
}

#[derive(Clone, Copy, Debug, PartialEq, Eq, Structural)]
pub enum ChildEvent {
    /// The child stopped on a trap.
    Trapped,
    /// The shell starts on the stopped child.
    Inspect,
    /// The shell returned.
    Resume,
    /// The child exited or was killed.
    Exit,
}

/// The transitions of a child: one stop, one inspection, then it runs to
/// its end. A child that ends before it stops is never inspected, and
/// nothing follows the end.
pub open spec fn transition(s: ChildState, e: ChildEvent) -> Option<ChildState> {
    match (s, e) {
        (ChildState::Spawning, ChildEvent::Trapped) => Some(ChildState::Stopped),
        (ChildState::Spawning, ChildEvent::Exit) => Some(ChildState::Exited),
        (ChildState::Stopped, ChildEvent::Inspect) => Some(ChildState::Inspecting),
        (ChildState::Inspecting, ChildEvent::Resume) => Some(ChildState::Running),
        (ChildState::Running, ChildEvent::Exit) => Some(ChildState::Exited),
        _ => None,
    }
}

/// The state that `e` leads to from `s`, or `None` where `e` cannot happen
/// in `s`.
pub fn next_state(s: ChildState, e: ChildEvent) -> (r: Option<ChildState>)
    ensures
        r == transition(s, e),
{
    match (s, e) {
        (ChildState::Spawning, ChildEvent::Trapped) => Some(ChildState::Stopped),
        (ChildState::Spawning, ChildEvent::Exit) => Some(ChildState::Exited),
        (ChildState::Stopped, ChildEvent::Inspect) => Some(ChildState::Inspecting),
        (ChildState::Inspecting, ChildEvent::Resume) => Some(ChildState::Running),
        (ChildState::Running, ChildEvent::Exit) => Some(ChildState::Exited),
        _ => None,
    }
}

/// The states that the events `es` lead through from `s`, as far as each
/// event can happen.
pub open spec fn run(s: ChildState, es: Seq<ChildEvent>) -> Seq<ChildState>
    decreases es.len(),
{
    if es.len() == 0 {
        seq![]
    } else {
        match transition(s, es[0]) {
            Some(t) => seq![t] + run(t, es.drop_first()),
            None => seq![],
        }
    }
}

pub open spec fn rank(s: ChildState) -> int {
    match s {
        ChildState::Spawning => 0,
        ChildState::Stopped => 1,
        ChildState::Inspecting => 2,
        ChildState::Running => 3,
        ChildState::Exited => 4,
    }
}

proof fn lemma_run_rises(s: ChildState, es: Seq<ChildEvent>)
    ensures
        forall|i: int| 0 <= i < run(s, es).len() ==> rank(s) < rank(#[trigger] run(s, es)[i]),
        forall|i: int, j: int| 0 <= i < j < run(s, es).len() ==> rank(run(s, es)[i]) < rank(run(s, es)[j]),
    decreases es.len(),
{
    if es.len() > 0 {
        match transition(s, es[0]) {
            Some(t) => {
                lemma_run_rises(t, es.drop_first());
                let rest = run(t, es.drop_first());
                assert forall|i: int| 0 <= i < run(s, es).len() implies rank(s) < rank(#[trigger] run(s, es)[i]) by {
                    if i > 0 {
                        assert(run(s, es)[i] == rest[i - 1]);
                    }
                }
                assert forall|i: int, j: int| 0 <= i < j < run(s, es).len() implies rank(run(s, es)[i]) < rank(
                    run(s, es)[j],
                ) by {
                    assert(run(s, es)[j] == rest[j - 1]);
                    if i > 0 {
                        assert(run(s, es)[i] == rest[i - 1]);
                    }
                }
            },
            None => {},
        }
    }
}

/// Whatever happens to a child, it is inspected at most once, and once it
/// has exited nothing more happens to it.
pub proof fn lemma_one_inspection(es: Seq<ChildEvent>)
    ensures
        forall|i: int, j: int|
            0 <= i < j < run(ChildState::Spawning, es).len() ==> run(ChildState::Spawning, es)[i] != run(
                ChildState::Spawning,
                es,
            )[j],
        forall|e: ChildEvent| transition(ChildState::Exited, e) is None,
{
    lemma_run_rises(ChildState::Spawning, es);
}

} // verus!
