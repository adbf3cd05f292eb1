//! The window-visibility state machine: the single owner of show/hide/focus
//! transitions for the launcher window. Events from every trigger source
//! (hotkey, focus loss, launch completion, explicit close) are applied one at
//! a time through `commit`, so transitions are serialized; if the underlying
//! windowing primitive fails, the logical state is left unchanged rather than
//! desynchronized from the screen.

use vstd::prelude::*;

verus! {

#[derive(Clone, Copy, Debug, PartialEq, Eq, Structural)]
pub enum Visibility {
    Hidden,
    Visible,
}

/// An event delivered to the state machine.
#[derive(Clone, Copy, Debug, PartialEq, Eq, Structural)]
pub enum VisEvent {
    HotkeyToggle,
    FocusLost,
    LaunchSuccess,
    ExplicitClose,
}

/// The side effect the windowing layer must perform for a transition.
#[derive(Clone, Copy, Debug, PartialEq, Eq, Structural)]
pub enum VisEffect {
    /// Show the window, acquire focus and clear prior query state.
    ShowAndFocus,
    /// Hide the window and release focus.
    ReleaseFocus,
    /// Nothing to do: the state is already the target state.
    NoOp,
}

/// How a committed event was handled.
#[derive(Clone, Copy, Debug, PartialEq, Eq, Structural)]
pub enum TransitionOutcome {
    /// The transition was performed and the logical state updated.
    Applied,
    /// The event targeted the current state already; nothing changed.
    Ignored,
    /// The windowing primitive reported failure; the logical state is unchanged.
    PrimitiveFailed,
}

/// The transition table: the state an event leads to.
pub open spec fn spec_target(s: Visibility, e: VisEvent) -> Visibility {
    match (s, e) {
        (Visibility::Hidden, VisEvent::HotkeyToggle) => Visibility::Visible,
        (Visibility::Hidden, _) => Visibility::Hidden,
        (Visibility::Visible, _) => Visibility::Hidden,
    }
}

/// The transition table: the side effect an event demands.
pub open spec fn spec_effect(s: Visibility, e: VisEvent) -> VisEffect {
    match (s, e) {
        (Visibility::Hidden, VisEvent::HotkeyToggle) => VisEffect::ShowAndFocus,
        (Visibility::Hidden, _) => VisEffect::NoOp,
        (Visibility::Visible, _) => VisEffect::ReleaseFocus,
    }
}

/// A hotkey toggle always inverts the state, so two toggles processed in
/// order (transitions are serialized) restore the starting state: the later
/// event wins and the machine is never left stuck or doubled.
pub proof fn lemma_double_toggle(s: Visibility)
    ensures
        spec_target(s, VisEvent::HotkeyToggle) != s,
        spec_target(spec_target(s, VisEvent::HotkeyToggle), VisEvent::HotkeyToggle) == s,
{
}

/// Every event is idempotent on `Hidden` except the toggle, and everything
/// sends `Visible` to `Hidden`: the machine cannot get stuck.
pub proof fn lemma_hidden_reachable(s: Visibility, e: VisEvent)
    ensures
        e != VisEvent::HotkeyToggle ==> spec_target(s, e) == Visibility::Hidden,
        spec_target(Visibility::Hidden, e) == Visibility::Hidden || e == VisEvent::HotkeyToggle,
{
}

/// The one owner of the window's logical visibility. Initially `Hidden`.
pub struct VisibilityMachine {
    state: Visibility,
}

impl VisibilityMachine {
    /// The current logical state.
    pub closed spec fn view(&self) -> Visibility {
        self.state
    }

    pub fn new() -> (m: Self)
        ensures
            m@ == Visibility::Hidden,
    {
        VisibilityMachine { state: Visibility::Hidden }
    }

    /// Read the current logical state.
    pub fn current(&self) -> (s: Visibility)
        ensures
            s == self@,
    {
        self.state
    }

    /// What an event would do now: the target state and the side effect the
    /// windowing layer must perform before the event is committed.
    pub fn decide(&self, e: VisEvent) -> (r: (Visibility, VisEffect))
        ensures
            r.0 == spec_target(self@, e),
            r.1 == spec_effect(self@, e),
    {
        let target = match (self.state, e) {
            (Visibility::Hidden, VisEvent::HotkeyToggle) => Visibility::Visible,
            (Visibility::Hidden, _) => Visibility::Hidden,
            (Visibility::Visible, _) => Visibility::Hidden,
        };
        let effect = match (self.state, e) {
            (Visibility::Hidden, VisEvent::HotkeyToggle) => VisEffect::ShowAndFocus,
            (Visibility::Hidden, _) => VisEffect::NoOp,
            (Visibility::Visible, _) => VisEffect::ReleaseFocus,
        };
        (target, effect)
    }

    /// Commit one event. `primitive_ok` reports whether the windowing layer
    /// performed the demanded side effect; on failure the logical state is
    /// left unchanged. An event whose target is the current state is a no-op.
    pub fn commit(&mut self, e: VisEvent, primitive_ok: bool) -> (out: TransitionOutcome)
        ensures
            spec_effect(old(self)@, e) == VisEffect::NoOp ==> final(self)@ == old(self)@ && out
                == TransitionOutcome::Ignored,
            spec_effect(old(self)@, e) != VisEffect::NoOp && primitive_ok ==> final(self)@
                == spec_target(old(self)@, e) && out == TransitionOutcome::Applied,
            spec_effect(old(self)@, e) != VisEffect::NoOp && !primitive_ok ==> final(self)@ == old(
                self,
            )@ && out == TransitionOutcome::PrimitiveFailed,
    {
        let (target, effect) = self.decide(e);
        match effect {
            VisEffect::NoOp => TransitionOutcome::Ignored,
            _ => {
                if primitive_ok {
                    self.state = target;
                    TransitionOutcome::Applied
                } else {
                    TransitionOutcome::PrimitiveFailed
                }
            },
        }
    }
}

} // verus!
