//! Publish/subscribe as a join: an event reaches every subscriber of its
//! event type.
use vstd::prelude::*;
use crate::graph::{push_unique, views, Key};

verus! {

broadcast use vstd::seq_lib::group_seq_properties;

/// A subscriber's interest in one event type.
#[derive(Clone, Debug, PartialEq, Eq)]
pub struct Subscription {
    pub subscriber_id: String,
    pub event_type: String,
}

/// A published event.
#[derive(Clone, Debug, PartialEq, Eq)]
pub struct Event {
    pub event_id: String,
    pub event_type: String,
    pub payload: String,
}

/// An event to be delivered to a subscriber.
#[derive(Clone, Debug, PartialEq, Eq)]
pub struct Delivery {
    pub subscriber_id: String,
    pub event_id: String,
    pub event_type: String,
    pub payload: String,
}

impl View for Delivery {
    type V = (Seq<char>, Seq<char>, Seq<char>, Seq<char>);

    open spec fn view(&self) -> Self::V {
        (self.subscriber_id@, self.event_id@, self.event_type@, self.payload@)
    }
}

impl Key for Delivery {
    fn same(&self, other: &Self) -> (b: bool) {
        self.subscriber_id == other.subscriber_id && self.event_id == other.event_id
            && self.event_type == other.event_type && self.payload == other.payload
    }

    fn duplicate(&self) -> (c: Self) {
        Delivery {
            subscriber_id: self.subscriber_id.clone(),
            event_id: self.event_id.clone(),
            event_type: self.event_type.clone(),
            payload: self.payload.clone(),
        }
    }
}

/// Subscriptions and pending events.
pub struct EventBus {
    pub subscriptions: Vec<Subscription>,
    pub events: Vec<Event>,
}

/// Subscription `i` matches event `j`.
pub open spec fn routes(subs: Seq<Subscription>, events: Seq<Event>, i: int, j: int) -> bool {
    &&& 0 <= i < subs.len()
    &&& 0 <= j < events.len()
    &&& subs[i].event_type@ == events[j].event_type@
}

/// The delivery that subscription `i` and event `j` make.
pub open spec fn delivery_view(subs: Seq<Subscription>, events: Seq<Event>, i: int, j: int) -> (
    Seq<char>,
    Seq<char>,
    Seq<char>,
    Seq<char>,
) {
    (subs[i].subscriber_id@, events[j].event_id@, events[j].event_type@, events[j].payload@)
}

impl EventBus {
    /// A bus over the given subscriptions and events.
    pub fn new(subscriptions: Vec<Subscription>, events: Vec<Event>) -> (b: Self)
        ensures
            b.subscriptions == subscriptions,
            b.events == events,
    {
        EventBus { subscriptions, events }
    }

    /// Every event paired with every subscriber of its type, each pair once.
    pub fn dispatch(&self) -> (out: Vec<Delivery>)
        ensures
            views(out@).no_duplicates(),
            forall|q: (Seq<char>, Seq<char>, Seq<char>, Seq<char>)|
                #[trigger] views(out@).contains(q) <==> exists|i: int, j: int|
                    routes(self.subscriptions@, self.events@, i, j) && q == delivery_view(
                        self.subscriptions@,
                        self.events@,
                        i,
                        j,
                    ),
    {
        let ghost subs = self.subscriptions@;
        let ghost evs = self.events@;
        let mut out: Vec<Delivery> = Vec::new();
        let mut i: usize = 0;
        while i < self.subscriptions.len()
            invariant
                subs == self.subscriptions@,
                evs == self.events@,
                i <= subs.len(),
                views(out@).no_duplicates(),
                forall|q: (Seq<char>, Seq<char>, Seq<char>, Seq<char>)|
                    #[trigger] views(out@).contains(q) <==> exists|a: int, b: int|
                        a < i && routes(subs, evs, a, b) && q == delivery_view(subs, evs, a, b),
            decreases subs.len() - i,
        {
            let mut j: usize = 0;
            while j < self.events.len()
                invariant
                    subs == self.subscriptions@,
                    evs == self.events@,
                    i < subs.len(),
                    j <= evs.len(),
                    views(out@).no_duplicates(),
                    forall|q: (Seq<char>, Seq<char>, Seq<char>, Seq<char>)|
                        #[trigger] views(out@).contains(q) <==> exists|a: int, b: int|
                            (a < i || (a == i && b < j)) && routes(subs, evs, a, b) && q
                                == delivery_view(subs, evs, a, b),
                decreases evs.len() - j,
            {
                let ghost before = views(out@);
                let s = &self.subscriptions[i];
                let e = &self.events[j];
                if s.event_type == e.event_type {
                    let d = Delivery {
                        subscriber_id: s.subscriber_id.clone(),
                        event_id: e.event_id.clone(),
                        event_type: e.event_type.clone(),
                        payload: e.payload.clone(),
                    };
                    assert(d@ == delivery_view(subs, evs, i as int, j as int));
                    push_unique(&mut out, d);
                }
                proof {
                    assert forall|q: (Seq<char>, Seq<char>, Seq<char>, Seq<char>)|
                        #[trigger] views(out@).contains(q) <==> exists|a: int, b: int|
                            (a < i || (a == i && b < j + 1)) && routes(subs, evs, a, b) && q
                                == delivery_view(subs, evs, a, b) by {
                        if exists|a: int, b: int|
                            (a < i || (a == i && b < j + 1)) && routes(subs, evs, a, b) && q
                                == delivery_view(subs, evs, a, b) {
                            let (a, b) = choose|a: int, b: int|
                                (a < i || (a == i && b < j + 1)) && routes(subs, evs, a, b) && q
                                    == delivery_view(subs, evs, a, b);
                            if !(a == i && b == j) {
                                assert(before.contains(q));
                            }
                        }
                    }
                }
                j = j + 1;
            }
            i = i + 1;
        }
        out
    }
}

} // verus!
