//! A batch of additions over one connection: all commands are sent first, then
//! the replies are collected, and every entry gets its result.

use crate::mikrotik_api::{
    add_reply, add_result, add_verdict, closed_error, no_response, other_err, pending_view,
    result_view, skipped, skipped_error, AddOutcome, AddResult, ApiError, ErrorKind, ReplyEvent,
};
use vstd::prelude::*;

verus! {

/// What is to be done next for a batch.
#[derive(Debug, Clone, Copy, PartialEq, Eq, Structural)]
pub enum PipelineAction {
    /// Send the command of the entry at this index.
    Send(usize),
    /// Wait for a reply to the command of the entry at this index.
    Receive(usize),
    /// Every entry has its result.
    Finish,
}

/// What came of the last action.
pub enum PipelineEvent {
    /// The command was sent.
    Sent,
    /// The command could not be sent, for this reason.
    SendFailed(String),
    /// A reply came.
    Reply(ReplyEvent),
    /// No more replies will come.
    Closed,
}

/// The state of a batch: the results so far, whether commands are still being
/// sent, how many were sent, and the entry whose turn it is.
#[verifier::ext_equal]
pub struct PipelineView {
    pub results: Seq<Option<AddResult>>,
    pub sending: bool,
    pub sent: int,
    pub turn: int,
}

impl PipelineView {
    /// A batch of `len` entries of which none was sent.
    pub open spec fn start(len: int) -> PipelineView {
        PipelineView {
            results: Seq::new(len as nat, |i: int| None),
            sending: len > 0,
            sent: 0,
            turn: 0,
        }
    }

    /// The results after the command at the turn could not be sent: its own is
    /// the reason, and those behind it are skipped.
    pub open spec fn broken(self, reason: Seq<char>) -> Seq<Option<AddResult>> {
        Seq::new(
            self.results.len(),
            |i: int|
                if i < self.turn {
                    self.results[i]
                } else if i == self.turn {
                    Some(Err((ErrorKind::Other, reason)))
                } else {
                    Some(Err(skipped_error()))
                },
        )
    }

    /// The state after the entry at the turn got its result.
    pub open spec fn decided(self, result: AddResult) -> PipelineView {
        PipelineView {
            results: self.results.update(self.turn, Some(result)),
            turn: self.turn + 1,
            ..self
        }
    }

    /// The state that follows on `event`. An event that no action asked for
    /// changes nothing.
    pub open spec fn after(self, event: PipelineEvent) -> PipelineView {
        if self.sending {
            match event {
                PipelineEvent::Sent => if self.turn + 1 == self.results.len() {
                    PipelineView { sending: false, sent: self.turn + 1, turn: 0, ..self }
                } else {
                    PipelineView { turn: self.turn + 1, ..self }
                },
                PipelineEvent::SendFailed(reason) => PipelineView {
                    results: self.broken(reason@),
                    sending: false,
                    sent: self.turn,
                    turn: 0,
                },
                _ => self,
            }
        } else if self.turn < self.sent {
            match event {
                PipelineEvent::Reply(reply) => match add_verdict(reply) {
                    Some(verdict) => self.decided(verdict),
                    None => self,
                },
                PipelineEvent::Closed => self.decided(Err(closed_error())),
                _ => self,
            }
        } else {
            self
        }
    }

    /// Whether every entry has its result.
    pub open spec fn finished(self) -> bool {
        !self.sending && self.turn == self.sent
    }

    /// Whether the state can occur: while commands are being sent no entry has a
    /// result; afterwards those whose command was sent and whose turn has not
    /// passed are the ones without.
    pub open spec fn wf(self) -> bool {
        &&& 0 <= self.turn
        &&& 0 <= self.sent <= self.results.len()
        &&& self.sending ==> self.turn < self.results.len() && self.sent == 0
        &&& !self.sending ==> self.turn <= self.sent
        &&& forall|i: int|
            0 <= i < self.results.len() ==> (#[trigger] self.results[i] is None <==> (self.sending
                || self.turn <= i < self.sent))
    }
}

/// A batch of additions, as a machine: the caller does what the action says and
/// hands back what came of it.
pub struct Pipeline {
    results: Vec<Option<Result<AddOutcome, ApiError>>>,
    sending: bool,
    sent: usize,
    turn: usize,
}

/// What is known of the results.
pub open spec fn results_view(results: Seq<Option<Result<AddOutcome, ApiError>>>) -> Seq<
    Option<AddResult>,
> {
    results.map_values(|r: Option<Result<AddOutcome, ApiError>>| pending_view(r))
}

impl View for Pipeline {
    type V = PipelineView;

    closed spec fn view(&self) -> PipelineView {
        PipelineView {
            results: results_view(self.results@),
            sending: self.sending,
            sent: self.sent as int,
            turn: self.turn as int,
        }
    }
}

impl Pipeline {
    /// A batch of `len` entries.
    pub fn new(len: usize) -> (pipeline: Self)
        ensures
            pipeline@ == PipelineView::start(len as int),
            pipeline@.wf(),
    {
        let mut results: Vec<Option<Result<AddOutcome, ApiError>>> = Vec::new();
        let mut i: usize = 0;
        while i < len
            invariant
                i <= len,
                results@.len() == i,
                forall|j: int| 0 <= j < i ==> #[trigger] results@[j] is None,
            decreases len - i,
        {
            results.push(None);
            i += 1;
        }
        let pipeline = Pipeline { results, sending: len > 0, sent: 0, turn: 0 };
        assert(pipeline@ =~= PipelineView::start(len as int));
        pipeline
    }

    /// What is to be done next.
    pub fn action(&self) -> (action: PipelineAction)
        requires
            self@.wf(),
        ensures
            action == (if self@.sending {
                PipelineAction::Send(self@.turn as usize)
            } else if self@.turn < self@.sent {
                PipelineAction::Receive(self@.turn as usize)
            } else {
                PipelineAction::Finish
            }),
            action == PipelineAction::Finish <==> self@.finished(),
    {
        if self.sending {
            PipelineAction::Send(self.turn)
        } else if self.turn < self.sent {
            PipelineAction::Receive(self.turn)
        } else {
            PipelineAction::Finish
        }
    }

    /// Gives the entry at the turn its result.
    fn decide(&mut self, result: Result<AddOutcome, ApiError>)
        requires
            old(self)@.wf(),
            !old(self)@.sending,
            old(self)@.turn < old(self)@.sent,
        ensures
            final(self)@ == old(self)@.decided(result_view(result)),
    {
        self.results.set(self.turn, Some(result));
        self.turn += 1;
        assert(self@.results =~= old(self)@.decided(result_view(result)).results);
    }

    /// Gives the entry at the turn the reason as its result, and those behind it
    /// the result of being skipped.
    fn break_off(&mut self, reason: String)
        requires
            old(self)@.wf(),
            old(self)@.sending,
        ensures
            final(self)@ == (PipelineView {
                results: old(self)@.broken(reason@),
                sending: false,
                sent: old(self)@.turn,
                turn: 0,
            }),
    {
        let ghost before = self@;
        let turn = self.turn;
        let len = self.results.len();
        self.results.set(turn, Some(Err(other_err(reason))));
        let mut i: usize = turn + 1;
        while i < len
            invariant
                turn < i <= len,
                self.results@.len() == len == before.results.len(),
                turn == before.turn,
                forall|j: int|
                    0 <= j < i ==> pending_view(#[trigger] self.results@[j]) == before.broken(
                        reason@,
                    )[j],
            decreases len - i,
        {
            self.results.set(i, Some(Err(skipped())));
            i += 1;
        }
        self.sending = false;
        self.sent = turn;
        self.turn = 0;
        assert(self@.results =~= before.broken(reason@));
    }

    /// Takes what came of the last action.
    pub fn step(&mut self, event: PipelineEvent)
        requires
            old(self)@.wf(),
        ensures
            final(self)@ == old(self)@.after(event),
            final(self)@.wf(),
    {
        if self.sending {
            match event {
                PipelineEvent::Sent => {
                    let len = self.results.len();
                    self.turn += 1;
                    if self.turn == len {
                        self.sending = false;
                        self.sent = len;
                        self.turn = 0;
                    }
                },
                PipelineEvent::SendFailed(reason) => {
                    self.break_off(reason);
                },
                _ => {},
            }
        } else if self.turn < self.sent {
            match event {
                PipelineEvent::Reply(reply) => {
                    if let Some(result) = add_reply(&reply) {
                        self.decide(result);
                    }
                },
                PipelineEvent::Closed => {
                    self.decide(Err(no_response()));
                },
                _ => {},
            }
        }
    }

    /// The results, one for each entry, in the order of the entries.
    pub fn finish(self) -> (results: Vec<Result<AddOutcome, ApiError>>)
        requires
            self@.wf(),
            self@.finished(),
        ensures
            results@.len() == self@.results.len(),
            forall|i: int|
                0 <= i < results@.len() ==> Some(result_view(#[trigger] results@[i]))
                    == self@.results[i],
    {
        let ghost all = self.results@;
        assert forall|i: int| 0 <= i < all.len() implies #[trigger] all[i] is Some by {
            assert(self@.results[i] == pending_view(all[i]));
        }
        let mut results: Vec<Result<AddOutcome, ApiError>> = Vec::new();
        for result in it: self.results
            invariant
                it.seq() == all,
                results@.len() == it.index(),
                forall|i: int| 0 <= i < all.len() ==> #[trigger] all[i] is Some,
                forall|i: int| 0 <= i < results@.len() ==> Some(#[trigger] results@[i]) == all[i],
        {
            if let Some(r) = result {
                results.push(r);
            }
        }
        results
    }
}

/// The state after `count` commands were sent.
pub open spec fn after_sending(state: PipelineView, count: nat) -> PipelineView
    decreases count,
{
    if count == 0 {
        state
    } else {
        after_sending(state, (count - 1) as nat).after(PipelineEvent::Sent)
    }
}

/// The state after the replies to the command at the turn came, up to the one
/// that decides, or all of them and then the end.
pub open spec fn after_replies(state: PipelineView, replies: Seq<ReplyEvent>) -> PipelineView
    decreases replies.len(),
{
    if replies.len() == 0 {
        state.after(PipelineEvent::Closed)
    } else {
        let next = state.after(PipelineEvent::Reply(replies[0]));
        if next.turn != state.turn {
            next
        } else {
            after_replies(next, replies.skip(1))
        }
    }
}

/// The state after the replies to one command after the other came.
pub open spec fn after_all_replies(state: PipelineView, replies: Seq<Seq<ReplyEvent>>) -> PipelineView
    decreases replies.len(),
{
    if replies.len() == 0 {
        state
    } else {
        after_replies(
            after_all_replies(state, replies.drop_last()),
            replies.last(),
        )
    }
}

/// Sending fewer commands than there are entries leaves every result open.
proof fn lemma_after_sending(len: int, count: nat)
    requires
        count < len,
    ensures
        after_sending(PipelineView::start(len), count) == (PipelineView {
            turn: count as int,
            ..PipelineView::start(len)
        }),
    decreases count,
{
    if count > 0 {
        lemma_after_sending(len, (count - 1) as nat);
    }
}

/// The replies to the command at the turn give its entry its result.
proof fn lemma_after_replies(state: PipelineView, replies: Seq<ReplyEvent>)
    requires
        state.wf(),
        !state.sending,
        state.turn < state.sent,
    ensures
        after_replies(state, replies) == state.decided(add_result(replies)),
        after_replies(state, replies).wf(),
    decreases replies.len(),
{
    if replies.len() > 0 && add_verdict(replies[0]) is None {
        lemma_after_replies(state, replies.skip(1));
    }
}

/// The replies to the first commands give their entries their results and leave
/// the other results as they were.
proof fn lemma_after_all_replies(state: PipelineView, replies: Seq<Seq<ReplyEvent>>)
    requires
        state.wf(),
        !state.sending,
        state.turn == 0,
        replies.len() <= state.sent,
    ensures
        ({
            let end = after_all_replies(state, replies);
            &&& end.wf()
            &&& !end.sending
            &&& end.sent == state.sent
            &&& end.turn == replies.len()
            &&& end.results.len() == state.results.len()
            &&& forall|i: int|
                0 <= i < state.results.len() ==> #[trigger] end.results[i] == (if i
                    < replies.len() {
                    Some(add_result(replies[i]))
                } else {
                    state.results[i]
                })
        }),
    decreases replies.len(),
{
    if replies.len() > 0 {
        lemma_after_all_replies(state, replies.drop_last());
        lemma_after_replies(after_all_replies(state, replies.drop_last()), replies.last());
    }
}

/// Whatever happens, there is one result for each entry, in the entry's place, and
/// a result that an entry has is not changed any more.
pub proof fn law_results_stay(state: PipelineView, event: PipelineEvent)
    requires
        state.wf(),
    ensures
        state.after(event).results.len() == state.results.len(),
        forall|i: int|
            0 <= i < state.results.len() && state.results[i] is Some
                ==> #[trigger] state.after(event).results[i] == state.results[i],
        state.after(event).finished() ==> forall|i: int|
            0 <= i < state.results.len() ==> #[trigger] state.after(event).results[i] is Some,
{
}

/// Where every command is sent, each entry's result, in the order of the
/// entries, is what the replies to its own command say.
pub proof fn law_results_follow_replies(replies: Seq<Seq<ReplyEvent>>)
    ensures
        ({
            let sent = after_sending(PipelineView::start(replies.len() as int), replies.len());
            let end = after_all_replies(sent, replies);
            &&& end.finished()
            &&& end.results == Seq::new(replies.len(), |i: int| Some(add_result(replies[i])))
        }),
{
    let len = replies.len();
    if len > 0 {
        lemma_after_sending(len as int, (len - 1) as nat);
    }
    let sent = after_sending(PipelineView::start(len as int), len);
    lemma_after_all_replies(sent, replies);
    assert(after_all_replies(sent, replies).results =~= Seq::new(
        len,
        |i: int| Some(add_result(replies[i])),
    ));
}

/// Where a command cannot be sent, its entry's result is the reason, the entries
/// behind it are skipped, and those before it get what the replies to their own
/// commands say.
pub proof fn law_broken_connection_skips_the_rest(
    len: int,
    reason: String,
    replies: Seq<Seq<ReplyEvent>>,
)
    requires
        replies.len() < len,
    ensures
        ({
            let broken = after_sending(PipelineView::start(len), replies.len()).after(
                PipelineEvent::SendFailed(reason),
            );
            let end = after_all_replies(broken, replies);
            &&& end.finished()
            &&& end.results.len() == len
            &&& forall|i: int|
                0 <= i < len ==> #[trigger] end.results[i] == Some(
                    if i < replies.len() {
                        add_result(replies[i])
                    } else if i == replies.len() {
                        Err((ErrorKind::Other, reason@))
                    } else {
                        Err(skipped_error())
                    },
                )
        }),
{
    lemma_after_sending(len, replies.len());
    let broken = after_sending(PipelineView::start(len), replies.len()).after(
        PipelineEvent::SendFailed(reason),
    );
    lemma_after_all_replies(broken, replies);
}

} // verus!
