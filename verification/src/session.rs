//! The UI-boundary session: one window's visibility machine together with the
//! single-flight query coordinator. Queries carry a monotonically increasing
//! sequence number assigned at submission; responses arrive in completion
//! order, and only a response newer than every response applied so far may
//! update the visible result list (last-query-wins), so a stale completion is
//! discarded rather than raced.

use vstd::prelude::*;

use crate::launcher::LaunchError;
use crate::launcher::validate_selection;
use crate::search::SearchOption;
use crate::visibility::spec_effect;
use crate::visibility::spec_target;
use crate::visibility::TransitionOutcome;
use crate::visibility::VisEffect;
use crate::visibility::VisEvent;
use crate::visibility::Visibility;
use crate::visibility::VisibilityMachine;

verus! {

/// Per-window session state. Sequence numbers start at 1; `applied() == 0`
/// means no response has been applied yet.
pub struct Session {
    visibility: VisibilityMachine,
    next_seq: u64,
    applied_seq: u64,
    current: Vec<SearchOption>,
}

impl Session {
    /// The window's logical visibility.
    pub closed spec fn vis(&self) -> Visibility {
        self.visibility@
    }

    /// The sequence number the next query will get.
    pub closed spec fn issued(&self) -> u64 {
        self.next_seq
    }

    /// The highest sequence number whose response has been applied.
    pub closed spec fn applied(&self) -> u64 {
        self.applied_seq
    }

    /// The result list the UI currently shows.
    pub closed spec fn results(&self) -> Seq<SearchOption> {
        self.current@
    }

    /// Applied responses always belong to queries that were issued.
    pub open spec fn wf(&self) -> bool {
        self.applied() < self.issued()
    }

    /// A fresh session: window hidden, no query issued, no results shown.
    pub fn new() -> (s: Session)
        ensures
            s.wf(),
            s.vis() == Visibility::Hidden,
            s.issued() == 1,
            s.applied() == 0,
            s.results() == Seq::<SearchOption>::empty(),
    {
        Session {
            visibility: VisibilityMachine::new(),
            next_seq: 1,
            applied_seq: 0,
            current: Vec::new(),
        }
    }

    /// Read the window's logical visibility.
    pub fn visibility_state(&self) -> (s: Visibility)
        ensures
            s == self.vis(),
    {
        self.visibility.current()
    }

    /// The result list the UI currently shows.
    pub fn current_results(&self) -> (r: &Vec<SearchOption>)
        ensures
            r@ == self.results(),
    {
        &self.current
    }

    /// Read the sequence number the next query will get.
    pub fn issued_count(&self) -> (n: u64)
        ensures
            n == self.issued(),
    {
        self.next_seq
    }

    /// Read the highest sequence number whose response has been applied.
    pub fn applied_count(&self) -> (n: u64)
        ensures
            n == self.applied(),
    {
        self.applied_seq
    }

    /// Assign the next query its sequence number, strictly above every number
    /// assigned before.
    pub fn issue_query(&mut self) -> (seq: u64)
        requires
            old(self).wf(),
            old(self).issued() < u64::MAX,
        ensures
            final(self).wf(),
            seq == old(self).issued(),
            final(self).issued() == seq + 1,
            final(self).applied() == old(self).applied(),
            final(self).vis() == old(self).vis(),
            final(self).results() == old(self).results(),
    {
        let seq = self.next_seq;
        self.next_seq = self.next_seq + 1;
        seq
    }

    /// Deliver a completed query's results. They are applied if and only if
    /// the sequence number is higher than every response applied so far
    /// (last-query-wins); a stale completion is discarded and changes nothing.
    pub fn complete_query(&mut self, seq: u64, results: Vec<SearchOption>) -> (applied: bool)
        requires
            old(self).wf(),
            seq < old(self).issued(),
        ensures
            final(self).wf(),
            applied == (seq > old(self).applied()),
            applied ==> final(self).results() == results@ && final(self).applied() == seq,
            !applied ==> final(self).results() == old(self).results() && final(self).applied()
                == old(self).applied(),
            final(self).issued() == old(self).issued(),
            final(self).vis() == old(self).vis(),
    {
        if seq > self.applied_seq {
            self.applied_seq = seq;
            self.current = results;
            true
        } else {
            false
        }
    }

    /// Validate a selection against the current result list: the identifier of
    /// the item to invoke, or `InvalidSelection` exactly when the index is out
    /// of range of the most recent applied results. Never panics.
    pub fn submit(&self, selection: usize) -> (r: Result<u64, LaunchError>)
        ensures
            (selection as int) < self.results().len() ==> r == Ok::<u64, LaunchError>(
                self.results()[selection as int].item_id,
            ),
            (selection as int) >= self.results().len() ==> r == Err::<u64, LaunchError>(
                LaunchError::InvalidSelection,
            ),
    {
        validate_selection(selection, &self.current)
    }

    /// Apply one visibility event (see `VisibilityMachine::commit`). The query
    /// coordinator's state is untouched.
    pub fn handle_event(&mut self, e: VisEvent, primitive_ok: bool) -> (out: TransitionOutcome)
        requires
            old(self).wf(),
        ensures
            final(self).wf(),
            spec_effect(old(self).vis(), e) == VisEffect::NoOp ==> final(self).vis() == old(
                self,
            ).vis() && out == TransitionOutcome::Ignored,
            spec_effect(old(self).vis(), e) != VisEffect::NoOp && primitive_ok ==> final(self).vis()
                == spec_target(old(self).vis(), e) && out == TransitionOutcome::Applied,
            spec_effect(old(self).vis(), e) != VisEffect::NoOp && !primitive_ok ==> final(self).vis()
                == old(self).vis() && out == TransitionOutcome::PrimitiveFailed,
            final(self).issued() == old(self).issued(),
            final(self).applied() == old(self).applied(),
            final(self).results() == old(self).results(),
    {
        self.visibility.commit(e, primitive_ok)
    }

    /// An explicit close request (escape or a close command).
    pub fn close(&mut self, primitive_ok: bool) -> (out: TransitionOutcome)
        requires
            old(self).wf(),
        ensures
            final(self).wf(),
            spec_effect(old(self).vis(), VisEvent::ExplicitClose) == VisEffect::NoOp
                ==> final(self).vis() == old(self).vis() && out == TransitionOutcome::Ignored,
            spec_effect(old(self).vis(), VisEvent::ExplicitClose) != VisEffect::NoOp
                && primitive_ok ==> final(self).vis() == spec_target(
                old(self).vis(),
                VisEvent::ExplicitClose,
            ) && out == TransitionOutcome::Applied,
            spec_effect(old(self).vis(), VisEvent::ExplicitClose) != VisEffect::NoOp
                && !primitive_ok ==> final(self).vis() == old(self).vis() && out
                == TransitionOutcome::PrimitiveFailed,
            final(self).issued() == old(self).issued(),
            final(self).applied() == old(self).applied(),
            final(self).results() == old(self).results(),
    {
        self.handle_event(VisEvent::ExplicitClose, primitive_ok)
    }
}

} // verus!
