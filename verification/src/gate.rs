//! A barrier that one side closes and opens and the other side passes.
//!
//! Closing leaves a token on a channel of capacity one; passing takes that
//! token if there is one, and then waits for a token on the opening channel.
//! The waiting itself is asynchronous and is done by the caller, with the
//! receiver that [`GateUser::open_receiver`] gives.

use async_channel::{Receiver, Sender};
use vstd::prelude::*;

verus! {

#[verifier::external_type_specification]
#[verifier::external_body]
#[verifier::reject_recursive_types(T)]
pub struct ExSender<T>(Sender<T>);

#[verifier::external_type_specification]
#[verifier::external_body]
#[verifier::reject_recursive_types(T)]
pub struct ExReceiver<T>(Receiver<T>);

/// What came of putting a token on a channel.
#[derive(PartialEq, Eq, Structural, Debug, Copy, Clone)]
pub enum SendOutcome {
    /// The token is on the channel.
    Sent,
    /// A token was there already.
    Full,
    /// The receiving side is gone.
    Closed,
}

/// What came of taking a token from a channel.
#[derive(PartialEq, Eq, Structural, Debug, Copy, Clone)]
pub enum RecvOutcome {
    /// A token was taken.
    Received,
    /// There was no token.
    Empty,
    /// There was no token and the sending side is gone.
    Closed,
}

/// The barrier can no longer be used: its user is gone.
#[derive(PartialEq, Eq, Structural, Debug, Copy, Clone)]
pub struct GateClosed;

/// The two ends were made together, as one channel holding at most `cap`
/// tokens. Only [`bounded_token_channel`] establishes this; nothing else is
/// known of it.
pub uninterp spec fn made_together(sender: Sender<()>, receiver: Receiver<()>, cap: usize) -> bool;

/// The outcome is one that putting a token on the channel of `sender`
/// without waiting gave. Only [`try_send_token`] establishes this; which
/// outcome comes depends on the channel's state, which nothing here states.
pub uninterp spec fn sent_on(sender: Sender<()>, outcome: SendOutcome) -> bool;

/// The outcome is one that taking a token from the channel of `receiver`
/// without waiting gave. Only [`try_recv_token`] establishes this; which
/// outcome comes depends on the channel's state, which nothing here states.
pub uninterp spec fn taken_from(receiver: Receiver<()>, outcome: RecvOutcome) -> bool;

/// `async_channel::bounded(cap)`: a new channel that holds at most `cap`
/// tokens, given as its two ends. It panics on a capacity of zero. Claimed:
/// the two ends were made together with that capacity; nothing else.
#[verifier::external_body]
fn bounded_token_channel(cap: usize) -> (r: (Sender<()>, Receiver<()>))
    requires
        cap > 0,
    ensures
        made_together(r.0, r.1, cap),
{
    async_channel::bounded(cap)
}

/// `Sender::try_send(())`: puts a token on the channel without waiting.
/// Claimed: the outcome came from the channel of `sender`. Which outcome
/// comes depends on the channel's state, so nothing more is claimed.
#[verifier::external_body]
fn try_send_token(sender: &Sender<()>) -> (r: SendOutcome)
    ensures
        sent_on(*sender, r),
{
    match sender.try_send(()) {
        Ok(()) => SendOutcome::Sent,
        Err(async_channel::TrySendError::Full(_)) => SendOutcome::Full,
        Err(async_channel::TrySendError::Closed(_)) => SendOutcome::Closed,
    }
}

/// `Receiver::try_recv()`: takes a token from the channel without waiting.
/// Claimed: the outcome came from the channel of `receiver`. Which outcome
/// comes depends on the channel's state, so nothing more is claimed.
#[verifier::external_body]
fn try_recv_token(receiver: &Receiver<()>) -> (r: RecvOutcome)
    ensures
        taken_from(*receiver, r),
{
    match receiver.try_recv() {
        Ok(()) => RecvOutcome::Received,
        Err(async_channel::TryRecvError::Empty) => RecvOutcome::Empty,
        Err(async_channel::TryRecvError::Closed) => RecvOutcome::Closed,
    }
}

/// Whether putting a token succeeded: a token already there counts as
/// success, a gone receiver does not.
pub open spec fn token_result_spec(outcome: SendOutcome) -> Result<(), GateClosed> {
    match outcome {
        SendOutcome::Closed => Err(GateClosed),
        _ => Ok(()),
    }
}

/// Whether putting a token succeeded (see [`token_result_spec`]).
pub fn token_result(outcome: SendOutcome) -> (r: Result<(), GateClosed>)
    ensures
        r == token_result_spec(outcome),
{
    match outcome {
        SendOutcome::Sent => Ok(()),
        SendOutcome::Full => Ok(()),
        SendOutcome::Closed => Err(GateClosed),
    }
}

/// Whether a passer must wait for the barrier to open: exactly when it took a
/// closing token.
pub fn must_wait_after(outcome: RecvOutcome) -> (b: bool)
    ensures
        b == (outcome == RecvOutcome::Received),
{
    match outcome {
        RecvOutcome::Received => true,
        _ => false,
    }
}

/// The side that closes and opens the barrier.
pub struct GateController {
    close_tx: Sender<()>,
    open_tx: Sender<()>,
}

/// The side that passes the barrier.
pub struct GateUser {
    close_rx: Receiver<()>,
    open_rx: Receiver<()>,
}

/// A new gate, open: the closing and the opening channel each hold at most
/// one token and join the controller to the user.
pub fn new() -> (r: (GateController, GateUser))
    ensures
        made_together(r.0.closing_sender(), r.1.closing_channel(), 1),
        made_together(r.0.opening_sender(), r.1.opening_channel(), 1),
{
    let (close_tx, close_rx) = bounded_token_channel(1);
    let (open_tx, open_rx) = bounded_token_channel(1);
    (GateController { close_tx, open_tx }, GateUser { close_rx, open_rx })
}

impl GateController {
    /// The end on which this controller puts the closing token.
    pub closed spec fn closing_sender(&self) -> Sender<()> {
        self.close_tx
    }

    /// The end on which this controller puts the opening token.
    pub closed spec fn opening_sender(&self) -> Sender<()> {
        self.open_tx
    }

    /// Opens the barrier: a passer waiting for it may go on. The token goes
    /// on the opening channel; this fails only when the user side is gone.
    pub fn open(&self) -> (r: Result<(), GateClosed>)
        ensures
            exists|o: SendOutcome| #[trigger] sent_on(self.opening_sender(), o) && r == token_result_spec(o),
    {
        let outcome = try_send_token(&self.open_tx);
        assert(sent_on(self.opening_sender(), outcome));
        token_result(outcome)
    }

    /// Closes the barrier: the next passer waits until it is opened. The
    /// token goes on the closing channel; this fails only when the user side
    /// is gone.
    pub fn close(&self) -> (r: Result<(), GateClosed>)
        ensures
            exists|o: SendOutcome| #[trigger] sent_on(self.closing_sender(), o) && r == token_result_spec(o),
    {
        let outcome = try_send_token(&self.close_tx);
        assert(sent_on(self.closing_sender(), outcome));
        token_result(outcome)
    }
}

impl GateUser {
    /// The channel from which this user takes the closing token.
    pub closed spec fn closing_channel(&self) -> Receiver<()> {
        self.close_rx
    }

    /// The channel on which this user receives the opening token.
    pub closed spec fn opening_channel(&self) -> Receiver<()> {
        self.open_rx
    }

    /// The first half of passing the barrier: takes the closing token, if any,
    /// and says whether the passer must then wait for a token on
    /// [`GateUser::open_receiver`].
    pub fn must_wait(&self) -> (b: bool)
        ensures
            exists|o: RecvOutcome| #[trigger] taken_from(self.closing_channel(), o) && b == (o == RecvOutcome::Received),
    {
        let outcome = try_recv_token(&self.close_rx);
        assert(taken_from(self.closing_channel(), outcome));
        must_wait_after(outcome)
    }

    /// The channel on which the opening token arrives.
    pub fn open_receiver(&self) -> (r: &Receiver<()>)
        ensures
            *r == self.opening_channel(),
    {
        &self.open_rx
    }
}

} // verus!
