//! A channel for one message.
//!
//! A word says whether the channel is empty, holds the message, or is closed. The sender writes
//! the message first and then moves the word from empty to sent; if the channel has been closed
//! in the meantime it takes the message back. Whoever moves the word from sent to closed owns the
//! message. Either end closes the channel when it is dropped.

use vstd::prelude::*;

use crate::word;
use crate::word::Word;
use crate::word::WordAction;
use crate::word::WordEvent;

verus! {

/// No message was sent.
pub const EMPTY: u32 = 0;

/// The message is in the channel.
pub const SENT: u32 = 1;

/// The message was taken, or will never come.
pub const CLOSED: u32 = 2;

/// What an end of a channel wants done.
#[derive(Clone, Copy, Debug, PartialEq, Eq, Structural)]
pub enum OneshotAction {
    /// Move the message from the sender's hand into the channel.
    Write,
    /// An operation on the word.
    Word(WordAction),
    /// Move the message out of the channel.
    Read,
}

/// Where a send stands.
#[derive(Clone, Copy, Debug, PartialEq, Eq, Structural)]
pub enum SendPc {
    /// About to write the message.
    Write,
    /// About to publish the message.
    Publish,
    /// Published; about to wake the receiver.
    Wake,
    /// The channel was closed; about to take the message back.
    TakeBack,
    /// Done; whether the message was published.
    Done(bool),
}

/// One send.
#[derive(Clone, Copy, Debug, PartialEq, Eq, Structural)]
pub struct SendOp {
    pub pc: SendPc,
}

impl SendOp {
    /// What an unfinished send wants done next.
    pub open spec fn action(self) -> OneshotAction {
        match self.pc {
            SendPc::Publish => OneshotAction::Word(
                WordAction::CompareExchange { current: EMPTY, new: SENT },
            ),
            SendPc::Wake => OneshotAction::Word(WordAction::WakeOne),
            SendPc::TakeBack => OneshotAction::Read,
            _ => OneshotAction::Write,
        }
    }

    /// Where a send stands after an answer. An answer of the wrong kind changes nothing.
    pub open spec fn after(self, e: WordEvent) -> SendOp {
        let pc = match (self.pc, e) {
            (SendPc::Write, WordEvent::Done) => SendPc::Publish,
            (SendPc::Publish, WordEvent::Exchanged(_)) => SendPc::Wake,
            (SendPc::Publish, WordEvent::NotExchanged(_)) => SendPc::TakeBack,
            (SendPc::Wake, WordEvent::Done) => SendPc::Done(true),
            (SendPc::TakeBack, WordEvent::Done) => SendPc::Done(false),
            (pc, _) => pc,
        };
        SendOp { pc }
    }

    /// A send that has done nothing yet.
    pub fn start() -> (op: SendOp)
        ensures
            op == (SendOp { pc: SendPc::Write }),
    {
        SendOp { pc: SendPc::Write }
    }

    /// What to do next, or `None` when the send is finished.
    pub fn next_action(&self) -> (a: Option<OneshotAction>)
        ensures
            a == (if self.pc is Done { None } else { Some(self.action()) }),
    {
        match self.pc {
            SendPc::Write => Some(OneshotAction::Write),
            SendPc::Publish => Some(
                OneshotAction::Word(WordAction::CompareExchange { current: EMPTY, new: SENT }),
            ),
            SendPc::Wake => Some(OneshotAction::Word(WordAction::WakeOne)),
            SendPc::TakeBack => Some(OneshotAction::Read),
            SendPc::Done(_) => None,
        }
    }

    /// Takes the answer to what was done.
    pub fn on_event(&mut self, e: WordEvent)
        ensures
            *final(self) == old(self).after(e),
    {
        let pc = match (self.pc, e) {
            (SendPc::Write, WordEvent::Done) => SendPc::Publish,
            (SendPc::Publish, WordEvent::Exchanged(_)) => SendPc::Wake,
            (SendPc::Publish, WordEvent::NotExchanged(_)) => SendPc::TakeBack,
            (SendPc::Wake, WordEvent::Done) => SendPc::Done(true),
            (SendPc::TakeBack, WordEvent::Done) => SendPc::Done(false),
            (pc, _) => pc,
        };
        self.pc = pc;
    }
}

/// Where the end of a sender that never sent stands.
#[derive(Clone, Copy, Debug, PartialEq, Eq, Structural)]
pub enum HangUpPc {
    /// About to close the channel.
    Close,
    /// About to wake the receiver.
    Wake,
    /// Nothing is left to do.
    Done,
}

/// The end of a sender that never sent.
#[derive(Clone, Copy, Debug, PartialEq, Eq, Structural)]
pub struct HangUpOp {
    pub pc: HangUpPc,
}

impl HangUpOp {
    /// What an unfinished end wants done next.
    pub open spec fn action(self) -> OneshotAction {
        match self.pc {
            HangUpPc::Wake => OneshotAction::Word(WordAction::WakeOne),
            _ => OneshotAction::Word(WordAction::Swap(CLOSED)),
        }
    }

    /// Where an end stands after an answer: the receiver is woken only if it could be waiting.
    /// An answer of the wrong kind changes nothing.
    pub open spec fn after(self, e: WordEvent) -> HangUpOp {
        let pc = match (self.pc, e) {
            (HangUpPc::Close, WordEvent::Value(prev)) => if prev == EMPTY {
                HangUpPc::Wake
            } else {
                HangUpPc::Done
            },
            (HangUpPc::Wake, WordEvent::Done) => HangUpPc::Done,
            (pc, _) => pc,
        };
        HangUpOp { pc }
    }

    /// An end that has done nothing yet.
    pub fn start() -> (op: HangUpOp)
        ensures
            op == (HangUpOp { pc: HangUpPc::Close }),
    {
        HangUpOp { pc: HangUpPc::Close }
    }

    /// What to do next, or `None` when the sender has ended.
    pub fn next_action(&self) -> (a: Option<OneshotAction>)
        ensures
            a == (if self.pc is Done { None } else { Some(self.action()) }),
    {
        match self.pc {
            HangUpPc::Close => Some(OneshotAction::Word(WordAction::Swap(CLOSED))),
            HangUpPc::Wake => Some(OneshotAction::Word(WordAction::WakeOne)),
            HangUpPc::Done => None,
        }
    }

    /// Takes the answer to what was done.
    pub fn on_event(&mut self, e: WordEvent)
        ensures
            *final(self) == old(self).after(e),
    {
        let pc = match (self.pc, e) {
            (HangUpPc::Close, WordEvent::Value(prev)) => {
                if prev == EMPTY {
                    HangUpPc::Wake
                } else {
                    HangUpPc::Done
                }
            },
            (HangUpPc::Wake, WordEvent::Done) => HangUpPc::Done,
            (pc, _) => pc,
        };
        self.pc = pc;
    }
}

/// Where a receive stands.
#[derive(Clone, Copy, Debug, PartialEq, Eq, Structural)]
pub enum RecvPc {
    /// About to look whether the message is there.
    Look,
    /// It is there; about to claim it.
    Claim,
    /// Claimed; about to take it out.
    Read,
    /// It is not there; about to look whether it will come.
    LookClosed,
    /// About to sleep while the channel is empty.
    Sleep,
    /// The message was taken out.
    Received,
    /// The message will never come.
    Closed,
}

/// One receive that waits for the message.
#[derive(Clone, Copy, Debug, PartialEq, Eq, Structural)]
pub struct RecvOp {
    pub pc: RecvPc,
}

impl RecvOp {
    /// Whether the receive has come to its end.
    pub open spec fn finished(self) -> bool {
        self.pc is Received || self.pc is Closed
    }

    /// What an unfinished receive wants done next.
    pub open spec fn action(self) -> OneshotAction {
        match self.pc {
            RecvPc::Claim => OneshotAction::Word(
                WordAction::CompareExchange { current: SENT, new: CLOSED },
            ),
            RecvPc::Read => OneshotAction::Read,
            RecvPc::Sleep => OneshotAction::Word(WordAction::Wait(EMPTY)),
            _ => OneshotAction::Word(WordAction::Load),
        }
    }

    /// Where a receive stands after an answer. An answer of the wrong kind changes nothing.
    pub open spec fn after(self, e: WordEvent) -> RecvOp {
        let pc = match (self.pc, e) {
            (RecvPc::Look, WordEvent::Value(s)) => if s == SENT {
                RecvPc::Claim
            } else {
                RecvPc::LookClosed
            },
            (RecvPc::Claim, WordEvent::Exchanged(_)) => RecvPc::Read,
            (RecvPc::Claim, WordEvent::NotExchanged(_)) => RecvPc::LookClosed,
            (RecvPc::Read, WordEvent::Done) => RecvPc::Received,
            (RecvPc::LookClosed, WordEvent::Value(s)) => if s == CLOSED {
                RecvPc::Closed
            } else {
                RecvPc::Sleep
            },
            (RecvPc::Sleep, WordEvent::Done) => RecvPc::Look,
            (pc, _) => pc,
        };
        RecvOp { pc }
    }

    /// A receive that has done nothing yet.
    pub fn start() -> (op: RecvOp)
        ensures
            op == (RecvOp { pc: RecvPc::Look }),
    {
        RecvOp { pc: RecvPc::Look }
    }

    /// What to do next, or `None` when the receive is finished.
    pub fn next_action(&self) -> (a: Option<OneshotAction>)
        ensures
            a == (if self.finished() { None } else { Some(self.action()) }),
    {
        match self.pc {
            RecvPc::Look => Some(OneshotAction::Word(WordAction::Load)),
            RecvPc::Claim => Some(
                OneshotAction::Word(WordAction::CompareExchange { current: SENT, new: CLOSED }),
            ),
            RecvPc::Read => Some(OneshotAction::Read),
            RecvPc::LookClosed => Some(OneshotAction::Word(WordAction::Load)),
            RecvPc::Sleep => Some(OneshotAction::Word(WordAction::Wait(EMPTY))),
            RecvPc::Received => None,
            RecvPc::Closed => None,
        }
    }

    /// Takes the answer to what was done.
    pub fn on_event(&mut self, e: WordEvent)
        ensures
            *final(self) == old(self).after(e),
    {
        let pc = match (self.pc, e) {
            (RecvPc::Look, WordEvent::Value(s)) => {
                if s == SENT {
                    RecvPc::Claim
                } else {
                    RecvPc::LookClosed
                }
            },
            (RecvPc::Claim, WordEvent::Exchanged(_)) => RecvPc::Read,
            (RecvPc::Claim, WordEvent::NotExchanged(_)) => RecvPc::LookClosed,
            (RecvPc::Read, WordEvent::Done) => RecvPc::Received,
            (RecvPc::LookClosed, WordEvent::Value(s)) => {
                if s == CLOSED {
                    RecvPc::Closed
                } else {
                    RecvPc::Sleep
                }
            },
            (RecvPc::Sleep, WordEvent::Done) => RecvPc::Look,
            (pc, _) => pc,
        };
        self.pc = pc;
    }
}

/// Where the end of a receiver stands.
#[derive(Clone, Copy, Debug, PartialEq, Eq, Structural)]
pub enum LeavePc {
    /// About to close the channel if it is empty.
    Close,
    /// It is not; about to claim the message.
    Claim,
    /// Claimed; about to take it out.
    Read,
    /// Nothing is left to do.
    Done,
}

/// The end of a receiver.
#[derive(Clone, Copy, Debug, PartialEq, Eq, Structural)]
pub struct LeaveOp {
    pub pc: LeavePc,
}

impl LeaveOp {
    /// What an unfinished end wants done next.
    pub open spec fn action(self) -> OneshotAction {
        match self.pc {
            LeavePc::Claim => OneshotAction::Word(
                WordAction::CompareExchange { current: SENT, new: CLOSED },
            ),
            LeavePc::Read => OneshotAction::Read,
            _ => OneshotAction::Word(WordAction::CompareExchange { current: EMPTY, new: CLOSED }),
        }
    }

    /// Where an end stands after an answer. An answer of the wrong kind changes nothing.
    pub open spec fn after(self, e: WordEvent) -> LeaveOp {
        let pc = match (self.pc, e) {
            (LeavePc::Close, WordEvent::Exchanged(_)) => LeavePc::Done,
            (LeavePc::Close, WordEvent::NotExchanged(_)) => LeavePc::Claim,
            (LeavePc::Claim, WordEvent::Exchanged(_)) => LeavePc::Read,
            (LeavePc::Claim, WordEvent::NotExchanged(_)) => LeavePc::Done,
            (LeavePc::Read, WordEvent::Done) => LeavePc::Done,
            (pc, _) => pc,
        };
        LeaveOp { pc }
    }

    /// An end that has done nothing yet.
    pub fn start() -> (op: LeaveOp)
        ensures
            op == (LeaveOp { pc: LeavePc::Close }),
    {
        LeaveOp { pc: LeavePc::Close }
    }

    /// What to do next, or `None` when the receiver has ended.
    pub fn next_action(&self) -> (a: Option<OneshotAction>)
        ensures
            a == (if self.pc is Done { None } else { Some(self.action()) }),
    {
        match self.pc {
            LeavePc::Close => Some(
                OneshotAction::Word(WordAction::CompareExchange { current: EMPTY, new: CLOSED }),
            ),
            LeavePc::Claim => Some(
                OneshotAction::Word(WordAction::CompareExchange { current: SENT, new: CLOSED }),
            ),
            LeavePc::Read => Some(OneshotAction::Read),
            LeavePc::Done => None,
        }
    }

    /// Takes the answer to what was done.
    pub fn on_event(&mut self, e: WordEvent)
        ensures
            *final(self) == old(self).after(e),
    {
        let pc = match (self.pc, e) {
            (LeavePc::Close, WordEvent::Exchanged(_)) => LeavePc::Done,
            (LeavePc::Close, WordEvent::NotExchanged(_)) => LeavePc::Claim,
            (LeavePc::Claim, WordEvent::Exchanged(_)) => LeavePc::Read,
            (LeavePc::Claim, WordEvent::NotExchanged(_)) => LeavePc::Done,
            (LeavePc::Read, WordEvent::Done) => LeavePc::Done,
            (pc, _) => pc,
        };
        self.pc = pc;
    }
}

/// What a channel holds.
pub enum OneshotState<T> {
    Empty,
    Sent(T),
    Closed,
}

/// What the two ends of a channel share: the word and the place for the message.
pub struct Inner<T> {
    state: Word,
    slot: Option<T>,
}

impl<T> View for Inner<T> {
    type V = OneshotState<T>;

    closed spec fn view(&self) -> OneshotState<T> {
        if self.state@ == EMPTY {
            OneshotState::Empty
        } else if self.state@ == SENT {
            OneshotState::Sent(self.slot->0)
        } else {
            OneshotState::Closed
        }
    }
}

impl<T> Inner<T> {
    /// That the word is one of the three, and the message is there exactly if it was sent.
    pub closed spec fn wf(self) -> bool {
        &&& self.state@ == EMPTY || self.state@ == SENT || self.state@ == CLOSED
        &&& self.slot is Some <==> self.state@ == SENT
    }

    /// Claims the message and takes it out, if it was sent.
    fn take(&mut self) -> (r: Option<T>)
        requires
            old(self).wf(),
        ensures
            final(self).wf(),
            r == (match old(self)@ {
                OneshotState::Sent(v) => Some(v),
                _ => None,
            }),
            final(self)@ == (match old(self)@ {
                OneshotState::Sent(_) => OneshotState::Closed,
                s => s,
            }),
    {
        let e = self.state.perform(WordAction::CompareExchange { current: SENT, new: CLOSED });
        if let WordEvent::Exchanged(_) = e {
            self.slot.take()
        } else {
            None
        }
    }
}

/// The end of a channel that sends.
pub struct Sender<T> {
    marker: std::marker::PhantomData<T>,
}

/// The end of a channel that receives.
pub struct Receiver<T> {
    marker: std::marker::PhantomData<T>,
}

/// A channel: its two ends and what they share.
pub fn channel<T>() -> (r: (Sender<T>, Receiver<T>, Inner<T>))
    ensures
        r.2.wf(),
        r.2@ is Empty,
{
    (
        Sender { marker: std::marker::PhantomData },
        Receiver { marker: std::marker::PhantomData },
        Inner { state: Word::new(EMPTY), slot: None },
    )
}

impl<T> Sender<T> {
    /// Sends the message. If the channel has been closed the message comes back.
    pub fn send(self, inner: &mut Inner<T>, message: T) -> (r: Result<(), T>)
        requires
            old(inner).wf(),
            !(old(inner)@ is Sent),
        ensures
            final(inner).wf(),
            old(inner)@ is Empty ==> r is Ok && final(inner)@ == OneshotState::Sent(message),
            old(inner)@ is Closed ==> r == Result::<(), T>::Err(message) && final(inner)@ is Closed,
    {
        let mut op = SendOp::start();
        inner.slot = Some(message);
        op.on_event(WordEvent::Done);
        let e = inner.state.perform(WordAction::CompareExchange { current: EMPTY, new: SENT });
        op.on_event(e);
        if let SendPc::TakeBack = op.pc {
            let back = inner.slot.take();
            op.on_event(WordEvent::Done);
            match back {
                Some(m) => Err(m),
                None => Ok(()),
            }
        } else {
            let e = inner.state.perform(WordAction::WakeOne);
            op.on_event(e);
            Ok(())
        }
    }

    /// Ends a sender that never sent: closes the channel.
    pub fn hang_up(self, inner: &mut Inner<T>)
        requires
            old(inner).wf(),
            !(old(inner)@ is Sent),
        ensures
            final(inner).wf(),
            final(inner)@ is Closed,
    {
        let mut op = HangUpOp::start();
        let e = inner.state.perform(WordAction::Swap(CLOSED));
        op.on_event(e);
        if let Some(OneshotAction::Word(a)) = op.next_action() {
            let e = inner.state.perform(a);
            op.on_event(e);
        }
    }
}

impl<T> Receiver<T> {
    /// The message, if it is there.
    pub fn try_recv(&self, inner: &mut Inner<T>) -> (r: Option<T>)
        requires
            old(inner).wf(),
        ensures
            final(inner).wf(),
            r == (match old(inner)@ {
                OneshotState::Sent(v) => Some(v),
                _ => None,
            }),
            final(inner)@ == (match old(inner)@ {
                OneshotState::Sent(_) => OneshotState::Closed,
                s => s,
            }),
    {
        if inner.state.get() == SENT {
            inner.take()
        } else {
            None
        }
    }

    /// Receives the message, and closes the channel. A single thread can only receive a message
    /// that was sent.
    pub fn recv(self, inner: &mut Inner<T>) -> (v: T)
        requires
            old(inner).wf(),
            old(inner)@ is Sent,
        ensures
            final(inner).wf(),
            old(inner)@ == OneshotState::Sent(v),
            final(inner)@ is Closed,
    {
        match self.try_recv(inner) {
            Some(v) => v,
            None => vstd::pervasive::unreached(),
        }
    }

    /// Ends the receiver: the channel is closed, and a message that was sent and not received
    /// is handed out to be dropped.
    pub fn leave(self, inner: &mut Inner<T>) -> (r: Option<T>)
        requires
            old(inner).wf(),
        ensures
            final(inner).wf(),
            final(inner)@ is Closed,
            r == (match old(inner)@ {
                OneshotState::Sent(v) => Some(v),
                _ => None,
            }),
    {
        let mut op = LeaveOp::start();
        let e = inner.state.perform(WordAction::CompareExchange { current: EMPTY, new: CLOSED });
        op.on_event(e);
        if let LeavePc::Claim = op.pc {
            return inner.take();
        }
        None
    }
}

/// What a sender is doing.
pub enum SenderRole {
    Sending(SendOp),
    HangingUp(HangUpOp),
}

/// What a receiver is doing.
pub enum ReceiverRole {
    Receiving { op: RecvOp, asleep: bool },
    Leaving(LeaveOp),
}

/// Where the message is.
pub enum Place {
    /// The sender has it.
    AtSender,
    /// It is in the channel.
    InChannel,
    /// The receiver has taken it out.
    AtReceiver,
}

/// A channel, its two ends, and the place of the one message.
pub struct OneshotSystem {
    pub state: u32,
    pub place: Place,
    pub sender: SenderRole,
    pub receiver: ReceiverRole,
}

impl OneshotSystem {
    /// Whether the receiver has claimed the message.
    pub open spec fn claimed(self) -> bool {
        match self.receiver {
            ReceiverRole::Receiving { op, asleep } => op.pc is Read || op.pc is Received,
            ReceiverRole::Leaving(op) => op.pc is Read,
        }
    }

    /// What holds at any moment.
    pub open spec fn inv(self) -> bool {
        &&& self.state == EMPTY || self.state == SENT || self.state == CLOSED
        &&& match self.sender {
            SenderRole::Sending(op) => match op.pc {
                SendPc::Write => self.place is AtSender && self.state != SENT && !self.claimed(),
                SendPc::Publish => self.place is InChannel && self.state != SENT && !self.claimed(),
                SendPc::TakeBack => self.place is InChannel && self.state == CLOSED
                    && !self.claimed(),
                SendPc::Wake => self.state != EMPTY,
                SendPc::Done(sent) => if sent {
                    self.state != EMPTY
                } else {
                    self.place is AtSender && self.state == CLOSED && !self.claimed()
                },
            },
            SenderRole::HangingUp(op) => {
                &&& self.place is AtSender
                &&& self.state != SENT
                &&& !self.claimed()
                &&& !(op.pc is Close) ==> self.state == CLOSED
            },
        }
        &&& self.state == SENT ==> self.place is InChannel && !self.claimed()
        &&& match self.receiver {
            ReceiverRole::Receiving { op, asleep } => {
                &&& op.pc is Read ==> self.place is InChannel && self.state == CLOSED
                    && self.published()
                &&& op.pc is Received ==> self.place is AtReceiver && self.state == CLOSED
                    && self.published()
                &&& op.pc is Closed ==> self.state == CLOSED && !self.published()
                &&& !op.finished() && !(op.pc is Read) ==> (self.state == CLOSED
                    ==> self.sender is HangingUp)
                &&& op.pc is Claim ==> self.state != EMPTY
                &&& asleep ==> op.pc is Sleep && (self.state == EMPTY || self.wake_pending())
            },
            ReceiverRole::Leaving(op) => {
                &&& op.pc is Read ==> self.place is InChannel && self.state == CLOSED
                    && self.published()
                &&& op.pc is Claim ==> self.state != EMPTY
                &&& op.pc is Done ==> self.state == CLOSED
            },
        }
    }

    /// Whether the message was published.
    pub open spec fn published(self) -> bool {
        self.sender matches SenderRole::Sending(op) && (op.pc is Wake || op.pc
            == SendPc::Done(true))
    }

    /// Whether the sender is about to wake the receiver.
    pub open spec fn wake_pending(self) -> bool {
        match self.sender {
            SenderRole::Sending(op) => op.pc is Wake,
            SenderRole::HangingUp(op) => op.pc is Wake,
        }
    }

    /// The word after an action, the answer to it, and the place of the message afterwards, if
    /// whoever reads is at `reader`.
    pub open spec fn perform(self, a: OneshotAction, reader: Place) -> (u32, WordEvent, Place) {
        match a {
            OneshotAction::Write => (self.state, WordEvent::Done, Place::InChannel),
            OneshotAction::Read => (self.state, WordEvent::Done, reader),
            OneshotAction::Word(w) => (
                word::word_after(self.state, w),
                word::word_event(self.state, w),
                self.place,
            ),
        }
    }

    /// Whether the sender has something to do.
    pub open spec fn sender_enabled(self) -> bool {
        match self.sender {
            SenderRole::Sending(op) => !(op.pc is Done),
            SenderRole::HangingUp(op) => !(op.pc is Done),
        }
    }

    /// The receiver after it has been woken.
    pub open spec fn woken(r: ReceiverRole) -> ReceiverRole {
        match r {
            ReceiverRole::Receiving { op, asleep } => if asleep {
                ReceiverRole::Receiving { op: op.after(WordEvent::Done), asleep: false }
            } else {
                r
            },
            _ => r,
        }
    }

    /// The system after the sender has done what it wants done next.
    pub open spec fn step_sender(self) -> OneshotSystem {
        let a = match self.sender {
            SenderRole::Sending(op) => op.action(),
            SenderRole::HangingUp(op) => op.action(),
        };
        let (state, e, place) = self.perform(a, Place::AtSender);
        OneshotSystem {
            state,
            place,
            sender: match self.sender {
                SenderRole::Sending(op) => SenderRole::Sending(op.after(e)),
                SenderRole::HangingUp(op) => SenderRole::HangingUp(op.after(e)),
            },
            receiver: if a == OneshotAction::Word(WordAction::WakeOne) {
                Self::woken(self.receiver)
            } else {
                self.receiver
            },
        }
    }

    /// Whether the receiver has something to do.
    pub open spec fn receiver_enabled(self) -> bool {
        match self.receiver {
            ReceiverRole::Receiving { op, asleep } => !op.finished() && !asleep,
            ReceiverRole::Leaving(op) => !(op.pc is Done),
        }
    }

    /// The system after the receiver has done what it wants done next. A wait on a word that
    /// holds the expected value puts it to sleep.
    pub open spec fn step_receiver(self) -> OneshotSystem {
        match self.receiver {
            ReceiverRole::Receiving { op, asleep } => if op.pc is Sleep && self.state == EMPTY {
                OneshotSystem { receiver: ReceiverRole::Receiving { op, asleep: true }, ..self }
            } else {
                let (state, e, place) = self.perform(op.action(), Place::AtReceiver);
                OneshotSystem {
                    state,
                    place,
                    receiver: ReceiverRole::Receiving { op: op.after(e), asleep: false },
                    ..self
                }
            },
            ReceiverRole::Leaving(op) => {
                let (state, e, place) = self.perform(op.action(), Place::AtReceiver);
                OneshotSystem { state, place, receiver: ReceiverRole::Leaving(op.after(e)), ..self }
            },
        }
    }
}

/// However the two ends interleave, the invariant stays.
pub proof fn law_oneshot_step(s: OneshotSystem)
    requires
        s.inv(),
    ensures
        s.sender_enabled() ==> s.step_sender().inv(),
        s.receiver_enabled() ==> s.step_receiver().inv(),
        (OneshotSystem { receiver: OneshotSystem::woken(s.receiver), ..s }).inv(),
{
}

/// A fresh channel satisfies the invariant, whatever its two ends set out to do.
pub proof fn law_oneshot_start(s: OneshotSystem)
    requires
        s.state == EMPTY,
        s.place is AtSender,
        s.sender == SenderRole::Sending(SendOp { pc: SendPc::Write }) || s.sender
            == SenderRole::HangingUp(HangUpOp { pc: HangUpPc::Close }),
        s.receiver == (ReceiverRole::Receiving { op: RecvOp { pc: RecvPc::Look }, asleep: false })
            || s.receiver == ReceiverRole::Leaving(LeaveOp { pc: LeavePc::Close }),
    ensures
        s.inv(),
{
}

/// The message is delivered exactly once: a receive that ends with the message means that the
/// send succeeded, a send that failed means that the sender has the message and the receiver
/// never will, and a receive that ends without means that there was no message.
pub proof fn law_oneshot_delivers_once(s: OneshotSystem)
    requires
        s.inv(),
    ensures
        s.receiver matches ReceiverRole::Receiving { op, asleep } ==> {
            &&& op.pc is Received ==> s.place is AtReceiver && s.published()
            &&& op.pc is Closed ==> !s.published()
        },
        s.sender == SenderRole::Sending(SendOp { pc: SendPc::Done(false) }) ==> s.place is AtSender
            && !s.claimed(),
{
}

/// No wake-up is lost: a receiver that sleeps has an empty channel or a sender that is about to
/// wake it.
pub proof fn law_oneshot_no_lost_wakeup(s: OneshotSystem)
    requires
        s.inv(),
    ensures
        s.receiver matches ReceiverRole::Receiving { op, asleep } ==> asleep ==> s.state == EMPTY
            || s.wake_pending(),
{
}

/// A send writes the message before it publishes it. It has sent when the exchange of empty for
/// sent took place, and then wakes the receiver; otherwise it takes the message back.
pub proof fn law_send_writes_before_it_publishes(op: SendOp, found: u32)
    requires
        op.pc is Write,
    ensures
        op.action() == OneshotAction::Write,
        ({
            let written = op.after(WordEvent::Done);
            let sent = written.after(WordEvent::Exchanged(found));
            let refused = written.after(WordEvent::NotExchanged(found));
            &&& written.action() == OneshotAction::Word(
                WordAction::CompareExchange { current: EMPTY, new: SENT },
            )
            &&& sent.action() == OneshotAction::Word(WordAction::WakeOne)
            &&& sent.after(WordEvent::Done).pc == SendPc::Done(true)
            &&& refused.action() == OneshotAction::Read
            &&& refused.after(WordEvent::Done).pc == SendPc::Done(false)
            &&& !(written.pc is Done) && !(sent.pc is Done) && !(refused.pc is Done)
        }),
{
}

/// A sender that ends without sending closes the channel, and wakes the receiver if and only if
/// the channel was empty.
pub proof fn law_hang_up_closes(op: HangUpOp, prev: u32)
    requires
        op.pc is Close,
    ensures
        op.action() == OneshotAction::Word(WordAction::Swap(CLOSED)),
        ({
            let closed = op.after(WordEvent::Value(prev));
            &&& closed.pc is Done <==> prev != EMPTY
            &&& prev == EMPTY ==> closed.action() == OneshotAction::Word(WordAction::WakeOne)
                && closed.after(WordEvent::Done).pc is Done
        }),
{
}

/// A receive takes the message out only after it has exchanged sent for closed. It gives up only
/// where the channel is closed, and sleeps only while it is empty.
pub proof fn law_receive_claims_before_it_reads(op: RecvOp, s: u32, found: u32)
    requires
        op.pc is Look,
    ensures
        op.action() == OneshotAction::Word(WordAction::Load),
        ({
            let there = op.after(WordEvent::Value(SENT));
            let claimed = there.after(WordEvent::Exchanged(found));
            let not_there = there.after(WordEvent::NotExchanged(found));
            let asleep = not_there.after(WordEvent::Value(EMPTY));
            &&& there.action() == OneshotAction::Word(
                WordAction::CompareExchange { current: SENT, new: CLOSED },
            )
            &&& claimed.action() == OneshotAction::Read
            &&& claimed.after(WordEvent::Done).pc is Received
            &&& s != SENT ==> op.after(WordEvent::Value(s)) == not_there
            &&& not_there.action() == OneshotAction::Word(WordAction::Load)
            &&& not_there.after(WordEvent::Value(s)).pc is Closed <==> s == CLOSED
            &&& asleep.action() == OneshotAction::Word(WordAction::Wait(EMPTY))
            &&& s != CLOSED ==> not_there.after(WordEvent::Value(s)) == asleep
            &&& asleep.after(WordEvent::Done) == op
            &&& !there.finished() && !claimed.finished() && !not_there.finished()
            &&& !asleep.finished()
        }),
{
}

/// A receiver that ends closes an empty channel; where a message was sent, it claims that and
/// takes it out, so that it is dropped.
pub proof fn law_leave_closes(op: LeaveOp, found: u32)
    requires
        op.pc is Close,
    ensures
        op.action() == OneshotAction::Word(
            WordAction::CompareExchange { current: EMPTY, new: CLOSED },
        ),
        op.after(WordEvent::Exchanged(found)).pc is Done,
        ({
            let full = op.after(WordEvent::NotExchanged(found));
            let claimed = full.after(WordEvent::Exchanged(found));
            &&& full.action() == OneshotAction::Word(
                WordAction::CompareExchange { current: SENT, new: CLOSED },
            )
            &&& full.after(WordEvent::NotExchanged(found)).pc is Done
            &&& claimed.action() == OneshotAction::Read
            &&& claimed.after(WordEvent::Done).pc is Done
            &&& !(full.pc is Done) && !(claimed.pc is Done)
        }),
{
}

/// The three states of the word differ.
pub proof fn law_channel_states_differ()
    ensures
        EMPTY != SENT,
        SENT != CLOSED,
        CLOSED != EMPTY,
{
}

} // verus!
