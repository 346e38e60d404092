//! Events of the simulation and the queue that orders them.

use std::collections::VecDeque;

use vstd::prelude::*;
use vstd::std_specs::cmp::PartialEqSpecImpl;

use crate::bgp::{BgpEvent, BgpEventView};
use crate::text::{nat_str, push_u64};
use crate::types::{Prefix, RouterId};

verus! {

/// An event to handle, with its priority.
#[derive(Debug)]
pub enum Event<P> {
    /// A BGP message from the first router to the second.
    Bgp(P, RouterId, RouterId, BgpEvent),
}

/// The abstract value of an event.
pub enum EventView<P> {
    /// A BGP message from the first router to the second.
    Bgp(P, RouterId, RouterId, BgpEventView),
}

impl<P: Copy> View for Event<P> {
    type V = EventView<P>;

    open spec fn view(&self) -> EventView<P> {
        match self {
            Event::Bgp(p, src, dst, e) => EventView::Bgp(*p, *src, *dst, e@),
        }
    }
}

impl<P> Event<P> {
    /// The prefix that the event is about.
    pub fn prefix(&self) -> (r: Option<Prefix>)
        ensures
            r == Some(match self {
                Event::Bgp(_, _, _, e) => match e@ {
                    BgpEventView::Withdraw(p) => p,
                    BgpEventView::Update(route) => route.prefix,
                },
            }),
    {
        match self {
            Event::Bgp(_, _, _, e) => Some(e.prefix()),
        }
    }

    /// The priority of the event.
    pub fn priority(&self) -> (r: &P)
        ensures
            *r == match self {
                Event::Bgp(p, _, _, _) => *p,
            },
    {
        match self {
            Event::Bgp(p, _, _, _) => p,
        }
    }

    /// Whether the event is a BGP message.
    pub fn is_bgp_event(&self) -> (r: bool)
        ensures
            r == (self is Bgp),
    {
        matches!(self, Event::Bgp(..))
    }

    /// The router that processes the event.
    pub fn router(&self) -> (r: RouterId)
        ensures
            r == match self {
                Event::Bgp(_, _, dst, _) => *dst,
            },
    {
        match self {
            Event::Bgp(_, _, dst, _) => *dst,
        }
    }
}

impl<P: Copy> Clone for Event<P> {
    fn clone(&self) -> (r: Self)
        ensures
            r@ == self@,
    {
        match self {
            Event::Bgp(p, src, dst, e) => Event::Bgp(*p, *src, *dst, e.clone()),
        }
    }
}

impl PartialEq for Event<()> {
    fn eq(&self, other: &Self) -> (r: bool) {
        match (self, other) {
            (Event::Bgp(_, s1, d1, e1), Event::Bgp(_, s2, d2, e2)) => s1.0 == s2.0 && d1.0 == d2.0 && *e1 == *e2,
        }
    }
}

impl PartialEqSpecImpl for Event<()> {
    open spec fn obeys_eq_spec() -> bool {
        true
    }

    open spec fn eq_spec(&self, other: &Self) -> bool {
        self@ == other@
    }
}

/// Interface of an event queue.
pub trait EventQueue {
    /// Type of the priority.
    type Priority;

    /// Enqueue an event.
    fn push(&mut self, event: Event<Self::Priority>);

    /// Dequeue the next event.
    fn pop(&mut self) -> Option<Event<Self::Priority>>;

    /// The next event, without dequeuing it.
    fn peek(&self) -> Option<&Event<Self::Priority>>;

    /// The number of enqueued events.
    fn len(&self) -> usize;

    /// Whether no event is enqueued.
    fn is_empty(&self) -> bool;

    /// Remove all events.
    fn clear(&mut self);
}

/// A first-in first-out event queue.
#[derive(Debug)]
pub struct BasicEventQueue(VecDeque<Event<()>>);

impl View for BasicEventQueue {
    type V = Seq<Event<()>>;

    closed spec fn view(&self) -> Seq<Event<()>> {
        self.0@
    }
}

impl BasicEventQueue {
    /// An empty queue.
    pub fn new() -> (q: BasicEventQueue)
        ensures
            q@ == Seq::<Event<()>>::empty(),
    {
        BasicEventQueue(VecDeque::new())
    }
}

impl Default for BasicEventQueue {
    fn default() -> (q: BasicEventQueue)
        ensures
            q@ == Seq::<Event<()>>::empty(),
    {
        BasicEventQueue::new()
    }
}

impl EventQueue for BasicEventQueue {
    type Priority = ();

    fn push(&mut self, event: Event<()>)
        ensures
            final(self)@ == old(self)@.push(event),
    {
        self.0.push_back(event)
    }

    fn pop(&mut self) -> (r: Option<Event<()>>)
        ensures
            old(self)@.len() == 0 ==> r is None && final(self)@ == old(self)@,
            old(self)@.len() > 0 ==> r == Some(old(self)@[0]) && final(self)@ == old(self)@.drop_first(),
    {
        self.0.pop_front()
    }

    fn peek(&self) -> (r: Option<&Event<()>>)
        ensures
            self@.len() == 0 ==> r is None,
            self@.len() > 0 ==> r == Some(&self@[0]),
    {
        if self.0.len() == 0 {
            None
        } else {
            Some(&self.0[0])
        }
    }

    fn len(&self) -> (r: usize)
        ensures
            r == self@.len(),
    {
        self.0.len()
    }

    fn is_empty(&self) -> (r: bool)
        ensures
            r == (self@.len() == 0),
    {
        self.0.len() == 0
    }

    fn clear(&mut self)
        ensures
            final(self)@ == Seq::<Event<()>>::empty(),
    {
        self.0.clear()
    }
}

/// The contents after pushing the events in order, as `push` of the queue states it.
pub open spec fn pushed_all(q: Seq<Event<()>>, es: Seq<Event<()>>) -> Seq<Event<()>>
    decreases es.len(),
{
    if es.len() == 0 {
        q
    } else {
        pushed_all(q, es.drop_last()).push(es.last())
    }
}

/// The results of `n` successive pops and the contents left, as `pop` of the queue states it.
pub open spec fn popped_n(q: Seq<Event<()>>, n: nat) -> (Seq<Option<Event<()>>>, Seq<Event<()>>)
    decreases n,
{
    if n == 0 {
        (Seq::empty(), q)
    } else {
        let (rs, rest) = popped_n(q, (n - 1) as nat);
        if rest.len() == 0 {
            (rs.push(None), rest)
        } else {
            (rs.push(Some(rest[0])), rest.drop_first())
        }
    }
}

proof fn lemma_pushed_all(q: Seq<Event<()>>, es: Seq<Event<()>>)
    ensures
        pushed_all(q, es) == q + es,
    decreases es.len(),
{
    if es.len() > 0 {
        lemma_pushed_all(q, es.drop_last());
        assert(q + es.drop_last().push(es.last()) =~= q + es);
        assert(es.drop_last().push(es.last()) =~= es);
    } else {
        assert(q + es =~= q);
    }
}

proof fn lemma_popped_n(q: Seq<Event<()>>, n: nat)
    ensures
        n <= q.len() ==> popped_n(q, n).0 == q.take(n as int).map_values(|e: Event<()>| Some(e))
            && popped_n(q, n).1 == q.skip(n as int),
        n > q.len() ==> popped_n(q, n).0 == q.map_values(|e: Event<()>| Some(e))
            + Seq::new((n - q.len()) as nat, |i: int| None::<Event<()>>) && popped_n(q, n).1.len() == 0,
    decreases n,
{
    if n > 0 {
        lemma_popped_n(q, (n - 1) as nat);
        if n <= q.len() {
            assert(q.skip(n - 1)[0] == q[n - 1]);
            assert(q.skip(n - 1).drop_first() =~= q.skip(n as int));
            assert(q.take(n - 1).map_values(|e: Event<()>| Some(e)).push(Some(q[n - 1]))
                =~= q.take(n as int).map_values(|e: Event<()>| Some(e)));
        } else if n == q.len() + 1 {
            assert(q.take(q.len() as int) =~= q);
            assert(q.skip(q.len() as int).len() == 0);
            assert(q.map_values(|e: Event<()>| Some(e)).push(None) =~= q.map_values(|e: Event<()>| Some(e))
                + Seq::new(1, |i: int| None::<Event<()>>));
        } else {
            assert((q.map_values(|e: Event<()>| Some(e)) + Seq::new((n - 1 - q.len()) as nat, |i: int| None::<Event<()>>)).push(None)
                =~= q.map_values(|e: Event<()>| Some(e)) + Seq::new((n - q.len()) as nat, |i: int| None::<Event<()>>));
        }
    }
}

/// First in, first out: pushing events into an empty queue, one after another, and then popping
/// one more time than there are events gives back every event in the order in which it was
/// pushed, then nothing, and leaves the queue empty.
pub proof fn law_fifo(es: Seq<Event<()>>)
    ensures
        popped_n(pushed_all(Seq::empty(), es), es.len() + 1)
            == (es.map_values(|e: Event<()>| Some(e)).push(None), Seq::<Event<()>>::empty()),
{
    lemma_pushed_all(Seq::empty(), es);
    assert(Seq::<Event<()>>::empty() + es =~= es);
    lemma_popped_n(es, es.len() + 1);
    assert(es.map_values(|e: Event<()>| Some(e)) + Seq::new(1, |i: int| None::<Event<()>>)
        =~= es.map_values(|e: Event<()>| Some(e)).push(None));
    assert(popped_n(es, es.len() + 1).1 =~= Seq::<Event<()>>::empty());
}

/// Text that shows the priority of an event.
pub trait FmtPriority {
    /// The priority as text.
    fn fmt(&self) -> String;
}

impl FmtPriority for usize {
    fn fmt(&self) -> (r: String)
        ensures
            r@ == "(priority: "@ + nat_str(*self as nat) + ")"@,
    {
        let mut s = String::new();
        s.append("(priority: ");
        push_u64(&mut s, *self as u64);
        s.append(")");
        s
    }
}

impl FmtPriority for () {
    fn fmt(&self) -> (r: String)
        ensures
            r@ == Seq::<char>::empty(),
    {
        String::new()
    }
}

} // verus!
