//! The mailbox behind each broker queue.
//!
//! A broker topic has one publishing queue and one queue per subscriber.
//! Each queue is a mailbox: a first-in first-out list of messages, a count
//! of the senders that still hold it, and whether it is closed.  A mailbox
//! closes when it is closed explicitly, when its receiver goes away, or when
//! its last sender goes away; a closed mailbox takes no more messages but
//! still hands out those it holds.  Locking and waking waiters belong to the
//! runtime; what each operation does to the mailbox is here.
use crate::error::Error;
use std::collections::VecDeque;
use vstd::prelude::*;

verus! {

/// The state of one queue.
pub struct Mailbox<T> {
    items: VecDeque<T>,
    closed: bool,
    senders: usize,
}

/// Mathematical view of a [`Mailbox`].
pub struct MailboxV<T> {
    pub items: Seq<T>,
    pub closed: bool,
    pub senders: nat,
}

impl<T> View for Mailbox<T> {
    type V = MailboxV<T>;

    closed spec fn view(&self) -> MailboxV<T> {
        MailboxV { items: self.items@, closed: self.closed, senders: self.senders as nat }
    }
}

/// What a receiver finds when it looks into a mailbox.
pub enum Poll<T> {
    /// the oldest message, now taken out
    Ready(T),
    /// the mailbox is closed and empty: the receiver is told the channel is closed
    Closed(Error),
    /// the mailbox is open and empty: the receiver waits to be woken
    Pending,
}

/// The mailbox after `message` is pushed: appended at the back when open,
/// dropped when closed.
pub open spec fn pushed<T>(m: MailboxV<T>, message: T) -> MailboxV<T> {
    if m.closed {
        m
    } else {
        MailboxV { items: m.items.push(message), ..m }
    }
}

/// What a receiver finds, and the mailbox after it looked: the oldest
/// message (even once closed), else "closed" when closed, else "wait".
pub open spec fn polled<T>(m: MailboxV<T>) -> (MailboxV<T>, Poll<T>) {
    if m.items.len() > 0 {
        (MailboxV { items: m.items.drop_first(), ..m }, Poll::Ready(m.items[0]))
    } else if m.closed {
        (m, Poll::Closed(Error::ChannelClosed))
    } else {
        (m, Poll::Pending)
    }
}

impl<T> Mailbox<T> {
    /// A fresh queue: empty, open, held by one sender.
    pub fn new() -> (r: Mailbox<T>)
        ensures
            r@ == (MailboxV { items: Seq::<T>::empty(), closed: false, senders: 1 }),
    {
        Mailbox { items: VecDeque::new(), closed: false, senders: 1 }
    }

    /// Whether the mailbox is closed.
    pub fn is_closed(&self) -> (r: bool)
        ensures
            r == self@.closed,
    {
        self.closed
    }

    /// How many senders hold the mailbox.
    pub fn senders(&self) -> (r: usize)
        ensures
            r == self@.senders,
    {
        self.senders
    }

    /// Closes the mailbox; what it holds stays.
    pub fn close(&mut self)
        ensures
            final(self)@ == (MailboxV { closed: true, ..old(self)@ }),
    {
        self.closed = true;
    }

    /// One more sender holds the mailbox (a sender was cloned).
    pub fn add_sender(&mut self)
        requires
            old(self)@.senders < usize::MAX,
        ensures
            final(self)@ == (MailboxV { senders: old(self)@.senders + 1, ..old(self)@ }),
    {
        self.senders = self.senders + 1;
    }

    /// A sender let go of the mailbox; when it was the last one, the
    /// mailbox closes.
    pub fn drop_sender(&mut self)
        requires
            old(self)@.senders > 0,
        ensures
            final(self)@ == (MailboxV {
                senders: (old(self)@.senders - 1) as nat,
                closed: old(self)@.closed || old(self)@.senders == 1,
                ..old(self)@
            }),
    {
        self.senders = self.senders - 1;
        if self.senders == 0 {
            self.closed = true;
        }
    }

    /// Appends a message at the back; a closed mailbox drops it instead.
    pub fn push(&mut self, message: T)
        ensures
            final(self)@ == pushed(old(self)@, message),
    {
        if !self.closed {
            self.items.push_back(message);
        }
    }

    /// Takes out the oldest message, if there is one, without waiting.
    pub fn pop(&mut self) -> (r: Option<T>)
        ensures
            old(self)@.items.len() == 0 ==> r is None && final(self)@ == old(self)@,
            old(self)@.items.len() > 0 ==> r == Some(old(self)@.items[0]) && final(self)@ == (MailboxV {
                items: old(self)@.items.drop_first(),
                ..old(self)@
            }),
    {
        self.items.pop_front()
    }

    /// Looks into the mailbox for a receiver (see [`polled`]).
    pub fn poll(&mut self) -> (r: Poll<T>)
        ensures
            (final(self)@, r) == polled(old(self)@),
    {
        match self.items.pop_front() {
            Some(item) => Poll::Ready(item),
            None => {
                if self.closed {
                    Poll::Closed(Error::ChannelClosed)
                } else {
                    Poll::Pending
                }
            },
        }
    }
}

/// Messages leave a mailbox in the order they entered: a message pushed
/// into an open, empty mailbox is the next one found; pushed into an open
/// mailbox that holds messages, it waits behind them (looking first and
/// pushing afterwards ends the same way).
pub proof fn law_mailbox_first_in_first_out<T>(m: MailboxV<T>, message: T)
    requires
        !m.closed,
    ensures
        m.items.len() == 0 ==> polled(pushed(m, message)) == (m, Poll::Ready(message)),
        m.items.len() > 0 ==> polled(pushed(m, message)) == (pushed(polled(m).0, message), polled(m).1),
{
    if m.items.len() > 0 {
        assert(m.items.push(message).drop_first() =~= m.items.drop_first().push(message));
    } else {
        assert(m.items.push(message).drop_first() =~= m.items);
    }
}

/// A closed mailbox takes nothing more, and once drained it tells every
/// receiver that the channel is closed.
pub proof fn law_closed_mailbox_drains_then_refuses<T>(m: MailboxV<T>, message: T)
    requires
        m.closed,
    ensures
        pushed(m, message) == m,
        m.items.len() == 0 ==> polled(m) == (m, Poll::<T>::Closed(Error::ChannelClosed)),
{
}

} // verus!
