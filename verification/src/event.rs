//! Events that the simulation sends while ticks may still be run again:
//! each goes out at once as unconfirmed, and as confirmed when the tick runs
//! with final inputs for the first time.

use vstd::prelude::*;
use vstd::std_specs::cmp::PartialEqSpec;
use crate::input::Confirmation;

verus! {

/// The number of the tick that runs.
#[derive(Default, Clone, Copy, Debug, PartialEq, Eq)]
pub struct RbrbFrame(pub u32);

/// An event of a tick that ran with final inputs.
#[derive(Clone, Copy, Debug)]
pub struct Confirmed<T>(pub T);

/// An event of a tick that may be run again with other inputs.
#[derive(Clone, Copy, Debug)]
pub struct Unconfirmed<T>(pub T);

impl<T> std::ops::Deref for Confirmed<T> {
    type Target = T;

    fn deref(&self) -> (r: &T)
        ensures
            *r == self.0,
    {
        &self.0
    }
}

impl<T> std::ops::Deref for Unconfirmed<T> {
    type Target = T;

    fn deref(&self) -> (r: &T)
        ensures
            *r == self.0,
    {
        &self.0
    }
}

impl<T> std::ops::DerefMut for Confirmed<T> {
    fn deref_mut(&mut self) -> (r: &mut T)
        ensures
            *r == old(self).0,
            final(self).0 == *final(r),
    {
        &mut self.0
    }
}

impl<T> std::ops::DerefMut for Unconfirmed<T> {
    fn deref_mut(&mut self) -> (r: &mut T)
        ensures
            *r == old(self).0,
            final(self).0 == *final(r),
    {
        &mut self.0
    }
}

/// Some event of `ledger` equals `event`.
pub open spec fn was_sent<T: PartialEq>(ledger: Seq<T>, event: T) -> bool {
    exists|i: int| 0 <= i < ledger.len() && (#[trigger] ledger[i]).eq_spec(&event)
}

/// Sends events of one type, and keeps what was sent.
pub struct NetworkEventWriter<T> {
    confirmed_writer: Vec<Confirmed<T>>,
    unconfirmed_writer: Vec<Unconfirmed<T>>,
    advance_confirmation: Confirmation,
    frame: RbrbFrame,
    sent_events: Vec<T>,
}

impl<T> Default for NetworkEventWriter<T> {
    fn default() -> (w: Self)
        ensures
            w.confirmed().len() == 0,
            w.unconfirmed().len() == 0,
            w.ledger().len() == 0,
            w.frame() == 0,
            w.confirmation() == Confirmation::Unconfirmed,
    {
        NetworkEventWriter::new()
    }
}

impl<T> NetworkEventWriter<T> {
    /// The confirmed events that were sent and not yet taken, in order.
    pub closed spec fn confirmed(&self) -> Seq<Confirmed<T>> {
        self.confirmed_writer@
    }

    /// The unconfirmed events that were sent and not yet taken, in order.
    pub closed spec fn unconfirmed(&self) -> Seq<Unconfirmed<T>> {
        self.unconfirmed_writer@
    }

    /// How far the inputs of the tick that runs are settled.
    pub closed spec fn confirmation(&self) -> Confirmation {
        self.advance_confirmation
    }

    /// The number of the tick that runs.
    pub closed spec fn frame(&self) -> u32 {
        self.frame.0
    }

    /// The events that went out as unconfirmed in the tick that runs.
    pub closed spec fn ledger(&self) -> Seq<T> {
        self.sent_events@
    }

    /// A writer at tick 0 with inputs that are not settled, which has sent
    /// nothing.
    pub fn new() -> (w: Self)
        ensures
            w.confirmed().len() == 0,
            w.unconfirmed().len() == 0,
            w.ledger().len() == 0,
            w.frame() == 0,
            w.confirmation() == Confirmation::Unconfirmed,
    {
        NetworkEventWriter {
            confirmed_writer: Vec::new(),
            unconfirmed_writer: Vec::new(),
            advance_confirmation: Confirmation::Unconfirmed,
            frame: RbrbFrame(0),
            sent_events: Vec::new(),
        }
    }

    /// Tells the writer which tick runs, and how far its inputs are
    /// settled. Where the tick is another than before, the ledger starts
    /// empty.
    pub fn begin_tick(&mut self, frame: RbrbFrame, confirmation: Confirmation)
        ensures
            final(self).frame() == frame.0,
            final(self).confirmation() == confirmation,
            final(self).confirmed() == old(self).confirmed(),
            final(self).unconfirmed() == old(self).unconfirmed(),
            final(self).ledger() == if frame.0 == old(self).frame() {
                old(self).ledger()
            } else {
                Seq::empty()
            },
    {
        if frame.0 != self.frame.0 {
            self.sent_events = Vec::new();
        }
        self.frame = frame;
        self.advance_confirmation = confirmation;
    }

    /// Takes the confirmed events that were sent.
    pub fn take_confirmed(&mut self) -> (events: Vec<Confirmed<T>>)
        ensures
            events@ == old(self).confirmed(),
            final(self).confirmed().len() == 0,
            final(self).unconfirmed() == old(self).unconfirmed(),
            final(self).ledger() == old(self).ledger(),
            final(self).frame() == old(self).frame(),
            final(self).confirmation() == old(self).confirmation(),
    {
        let mut events: Vec<Confirmed<T>> = Vec::new();
        std::mem::swap(&mut events, &mut self.confirmed_writer);
        events
    }

    /// Takes the unconfirmed events that were sent.
    pub fn take_unconfirmed(&mut self) -> (events: Vec<Unconfirmed<T>>)
        ensures
            events@ == old(self).unconfirmed(),
            final(self).unconfirmed().len() == 0,
            final(self).confirmed() == old(self).confirmed(),
            final(self).ledger() == old(self).ledger(),
            final(self).frame() == old(self).frame(),
            final(self).confirmation() == old(self).confirmation(),
    {
        let mut events: Vec<Unconfirmed<T>> = Vec::new();
        std::mem::swap(&mut events, &mut self.unconfirmed_writer);
        events
    }
}

impl<T: Clone + PartialEq> NetworkEventWriter<T> {
    /// Whether `event` went out as unconfirmed in the tick that runs.
    fn in_ledger(&self, event: &T) -> (r: bool)
        ensures
            T::obeys_eq_spec() ==> r == was_sent(self.ledger(), *event),
    {
        let mut i: usize = 0;
        while i < self.sent_events.len()
            invariant
                i <= self.sent_events@.len(),
                T::obeys_eq_spec() ==> forall|j: int|
                    0 <= j < i ==> !(#[trigger] self.sent_events@[j]).eq_spec(event),
            decreases self.sent_events@.len() - i,
        {
            if self.sent_events[i] == *event {
                return true;
            }
            i = i + 1;
        }
        false
    }

    /// Nothing went out as unconfirmed between `self` and `after`.
    pub open spec fn held_back(&self, after: Self) -> bool {
        &&& after.unconfirmed() == self.unconfirmed()
        &&& after.ledger() == self.ledger()
    }

    /// Between `self` and `after` a copy of `event` went out as unconfirmed
    /// and into the ledger, and nothing else.
    pub open spec fn went_out(&self, after: Self, event: T) -> bool {
        &&& after.unconfirmed().len() == self.unconfirmed().len() + 1
        &&& after.unconfirmed().drop_last() == self.unconfirmed()
        &&& cloned(event, after.unconfirmed().last().0)
        &&& after.ledger().len() == self.ledger().len() + 1
        &&& after.ledger().drop_last() == self.ledger()
        &&& cloned(event, after.ledger().last())
    }

    /// Sends `event`: as unconfirmed, unless an equal event went out in this
    /// tick; and as confirmed, where the tick runs with final inputs for the
    /// first time. Of a type whose `==` follows no rule, the event goes out
    /// as unconfirmed or not.
    pub fn send(&mut self, event: T)
        ensures
            final(self).frame() == old(self).frame(),
            final(self).confirmation() == old(self).confirmation(),
            final(self).confirmed() == if old(self).confirmation() == Confirmation::First {
                old(self).confirmed().push(Confirmed(event))
            } else {
                old(self).confirmed()
            },
            if !T::obeys_eq_spec() {
                old(self).held_back(*final(self)) || old(self).went_out(*final(self), event)
            } else if was_sent(old(self).ledger(), event) {
                old(self).held_back(*final(self))
            } else {
                old(self).went_out(*final(self), event)
            },
    {
        if !self.in_ledger(&event) {
            self.unconfirmed_writer.push(Unconfirmed(event.clone()));
            self.sent_events.push(event.clone());
            proof {
                assert(self.unconfirmed_writer@.drop_last() =~= old(self).unconfirmed());
                assert(self.sent_events@.drop_last() =~= old(self).ledger());
            }
        }
        if matches!(self.advance_confirmation, Confirmation::First) {
            self.confirmed_writer.push(Confirmed(event));
        }
    }
}

} // verus!
