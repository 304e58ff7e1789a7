//! Laws of the acks that are reported over time.

use vstd::prelude::*;

use crate::config::Config;
use crate::laws::delivery::law_sent_packet_awaits_ack;
use crate::laws::history::Event;
use crate::laws::window::law_insert_is_found;
use crate::model::{DeliveryView, EndpointView, SentPacketData};

verus! {

impl<I> EndpointView<I> {
    /// The event sends a packet under the sequence number.
    pub open spec fn sends(self, event: Event<I>, sequence: u16) -> bool {
        match event {
            Event::Send { data } => data.len() <= self.config.max_packet_size && self.sequence
                == sequence,
            _ => false,
        }
    }

    /// Some event of the history sends a packet under the sequence number.
    pub open spec fn ever_sends(self, events: Seq<Event<I>>, sequence: u16) -> bool
        decreases events.len(),
    {
        events.len() > 0 && (self.sends(events[0], sequence) || self.step(events[0]).ever_sends(
            events.drop_first(),
            sequence,
        ))
    }

    /// The event reports the packet with the sequence number acked.
    pub open spec fn reports(self, event: Event<I>, sequence: u16) -> bool {
        event is Receive && self.step(event).new_acks(self).contains(sequence)
    }

    /// How often the packet with the sequence number is reported acked.
    pub open spec fn times_reported(self, events: Seq<Event<I>>, sequence: u16) -> nat
        decreases events.len(),
    {
        if events.len() == 0 {
            0
        } else {
            (if self.reports(events[0], sequence) {
                1nat
            } else {
                0
            }) + self.step(events[0]).times_reported(events.drop_first(), sequence)
        }
    }

    /// The bound on the ack list that every state keeps.
    pub open spec fn acks_bounded(self) -> bool {
        &&& self.acks.len() == self.ack_samples.len()
        &&& self.acks.len() <= self.config.ack_buffer_size
    }

    /// What an event does to the acks of a packet that is not sent by it.
    proof fn lemma_ack_step(self, event: Event<I>, sequence: u16)
        requires
            self.acks_bounded(),
            !self.sends(event, sequence),
        ensures
            self.step(event).acks_bounded(),
            self.reports(event, sequence) ==> self.awaits_ack(sequence) && !self.step(
                event,
            ).awaits_ack(sequence),
            self.step(event).awaits_ack(sequence) ==> self.awaits_ack(sequence),
    {
        match event {
            Event::Receive { data, accepted } => {
                self.law_open_keeps_sending_side(data);
                let (opened, delivery) = self.open(data);
                match delivery {
                    Some(d) if accepted => {
                        let inserted = opened.inserting(d);
                        lemma_news(inserted, d, sequence);
                    },
                    _ => {
                        assert(opened.new_acks(self) =~= Seq::empty());
                    },
                }
            },
            Event::Send { data } => {
                if data.len() <= self.config.max_packet_size {
                    law_sent_packet_awaits_ack(self, data);
                }
            },
            _ => {},
        }
    }

    proof fn lemma_never_reported(self, events: Seq<Event<I>>, sequence: u16)
        requires
            self.acks_bounded(),
            !self.awaits_ack(sequence),
            !self.ever_sends(events, sequence),
        ensures
            self.times_reported(events, sequence) == 0,
        decreases events.len(),
    {
        if events.len() > 0 {
            self.lemma_ack_step(events[0], sequence);
            self.step(events[0]).lemma_never_reported(events.drop_first(), sequence);
        }
    }

    /// An ack is reported once: after a packet has been reported acked it is not reported
    /// again, whatever happens, until the sequence number is used for another packet.
    pub proof fn law_acked_at_most_once(
        self,
        event: Event<I>,
        events: Seq<Event<I>>,
        sequence: u16,
    )
        requires
            self.acks_bounded(),
            self.reports(event, sequence),
            !self.step(event).ever_sends(events, sequence),
        ensures
            self.step(event).times_reported(events, sequence) == 0,
    {
        self.lemma_ack_step(event, sequence);
        self.step(event).lemma_never_reported(events, sequence);
    }

    /// How often a packet is sent under the sequence number.
    pub open spec fn times_sent(self, events: Seq<Event<I>>, sequence: u16) -> nat
        decreases events.len(),
    {
        if events.len() == 0 {
            0
        } else {
            (if self.sends(events[0], sequence) {
                1nat
            } else {
                0
            }) + self.step(events[0]).times_sent(events.drop_first(), sequence)
        }
    }

    /// How many acks an event reports.
    pub open spec fn step_reported(self, event: Event<I>) -> nat {
        if event is Receive {
            self.step(event).new_acks(self).len()
        } else {
            0
        }
    }

    /// How many acks are reported over a history of events.
    pub open spec fn num_reported(self, events: Seq<Event<I>>) -> nat
        decreases events.len(),
    {
        if events.len() == 0 {
            0
        } else {
            self.step_reported(events[0]) + self.step(events[0]).num_reported(events.drop_first())
        }
    }

    /// What an event does to the list of acks and to their count.
    proof fn lemma_count_step(self, event: Event<I>)
        requires
            self.acks_bounded(),
            self.counters.num_packets_acked <= u64::MAX - 32,
        ensures
            self.step(event).acks_bounded(),
            self.step(event).counters.num_packets_acked == self.counters.num_packets_acked
                + self.step_reported(event),
    {
        match event {
            Event::Receive { data, accepted } => {
                self.law_open_keeps_sending_side(data);
                let (opened, delivery) = self.open(data);
                match delivery {
                    Some(d) if accepted => {
                        lemma_count_news(opened.inserting(d), d);
                    },
                    _ => {
                        assert(opened.new_acks(self) =~= Seq::empty());
                    },
                }
            },
            _ => {},
        }
    }

    /// The list of acks never outgrows the ack buffer, and the number of packets acked is the
    /// number of acks ever reported.
    pub proof fn law_every_report_is_counted(self, events: Seq<Event<I>>)
        requires
            self.acks_bounded(),
            self.counters.num_packets_acked + self.num_reported(events) <= u64::MAX - 32,
        ensures
            self.run(events).acks_bounded(),
            self.run(events).counters.num_packets_acked == self.counters.num_packets_acked
                + self.num_reported(events),
        decreases events.len(),
    {
        if events.len() > 0 {
            self.lemma_count_step(events[0]);
            self.step(events[0]).law_every_report_is_counted(events.drop_first());
        }
    }

    /// A packet is tracked for its ack only if it was sent.
    proof fn lemma_tracked_was_sent(self, events: Seq<Event<I>>, sequence: u16)
        requires
            self.acks_bounded(),
            self.run(events).sent_packets.contains(sequence),
        ensures
            self.run(events).acks_bounded(),
            self.sent_packets.contains(sequence) || self.ever_sends(events, sequence),
        decreases events.len(),
    {
        if events.len() > 0 {
            let after = self.step(events[0]);
            self.lemma_bounded_step(events[0], sequence);
            after.lemma_tracked_was_sent(events.drop_first(), sequence);
        }
    }

    proof fn lemma_bounded_step(self, event: Event<I>, sequence: u16)
        requires
            self.acks_bounded(),
        ensures
            self.step(event).acks_bounded(),
            self.step(event).config == self.config,
            self.step(event).sent_packets.contains(sequence) ==> self.sent_packets.contains(
                sequence,
            ) || self.sends(event, sequence),
    {
        match event {
            Event::Receive { data, accepted } => {
                self.law_open_keeps_sending_side(data);
                let (opened, delivery) = self.open(data);
                match delivery {
                    Some(d) if accepted => {
                        let inserted = opened.inserting(d);
                        lemma_news(inserted, d, sequence);
                        inserted.lemma_after_acks_frame(d.ack, d.ack_bits, 32);
                    },
                    _ => {},
                }
            },
            Event::Send { data } => {
                if data.len() <= self.config.max_packet_size {
                    law_insert_is_found(
                        self.sent_packets,
                        self.sequence,
                        SentPacketData {
                            time: self.time,
                            acked: false,
                            packet_bytes: self.network_bytes(data.len()),
                        },
                    );
                }
            },
            _ => {},
        }
    }

    proof fn lemma_bounded_run(self, events: Seq<Event<I>>)
        requires
            self.acks_bounded(),
        ensures
            self.run(events).acks_bounded(),
            self.run(events).config == self.config,
        decreases events.len(),
    {
        if events.len() > 0 {
            self.lemma_bounded_step(events[0], 0);
            self.step(events[0]).lemma_bounded_run(events.drop_first());
        }
    }

    /// No packet is reported acked more often than it was sent, counting a packet that awaits
    /// its ack from the start.
    proof fn lemma_reports_need_sends(self, events: Seq<Event<I>>, sequence: u16)
        requires
            self.acks_bounded(),
        ensures
            self.times_reported(events, sequence) <= self.times_sent(events, sequence) + (
            if self.awaits_ack(sequence) {
                1int
            } else {
                0
            }),
        decreases events.len(),
    {
        if events.len() > 0 {
            self.lemma_bounded_step(events[0], sequence);
            if !self.sends(events[0], sequence) {
                self.lemma_ack_step(events[0], sequence);
            }
            self.step(events[0]).lemma_reports_need_sends(events.drop_first(), sequence);
        }
    }
}

/// Over the whole life of an endpoint, every packet that is reported acked was sent before, and
/// each is reported at most once for every time that its sequence number was used. Resetting an
/// endpoint starts its life anew.
pub proof fn law_only_sent_packets_are_acked<I>(
    config: Config,
    time: I,
    events: Seq<Event<I>>,
    event: Event<I>,
    sequence: u16,
)
    ensures
        ({
            let start = EndpointView::initial(config, time);
            &&& start.run(events).reports(event, sequence) ==> start.ever_sends(events, sequence)
            &&& start.times_reported(events, sequence) <= start.times_sent(events, sequence)
        }),
{
    let start = EndpointView::initial(config, time);
    let state = start.run(events);
    start.lemma_bounded_run(events);
    start.lemma_reports_need_sends(events, sequence);
    if state.reports(event, sequence) {
        state.lemma_ack_step(event, sequence);
        start.lemma_tracked_was_sent(events, sequence);
    }
}

/// Over the whole life of an endpoint, the list of acks never outgrows the ack buffer, and the
/// number of packets acked is the number of acks ever reported.
pub proof fn law_acks_are_counted_from_the_start<I>(
    config: Config,
    time: I,
    events: Seq<Event<I>>,
)
    requires
        EndpointView::initial(config, time).num_reported(events) <= u64::MAX - 32,
    ensures
        ({
            let start = EndpointView::initial(config, time);
            &&& start.run(events).acks.len() <= config.ack_buffer_size
            &&& start.run(events).counters.num_packets_acked == start.num_reported(events)
        }),
{
    EndpointView::initial(config, time).law_every_report_is_counted(events);
    EndpointView::initial(config, time).lemma_bounded_run(events);
}

proof fn lemma_count_news<I>(inserted: EndpointView<I>, d: DeliveryView)
    requires
        inserted.acks_bounded(),
        inserted.counters.num_packets_acked <= u64::MAX - 32,
    ensures
        ({
            let after = inserted.after_acks(d.ack, d.ack_bits, 32);
            &&& after.acks_bounded()
            &&& after.counters.num_packets_acked == inserted.counters.num_packets_acked
                + after.new_acks(inserted).len()
        }),
{
    inserted.law_new_acks_are_the_first_that_fit(d.ack, d.ack_bits, 32);
    inserted.lemma_awaited(d.ack, d.ack_bits, 32);
    inserted.law_news_is_reported(d.ack, d.ack_bits, 32);
    inserted.lemma_after_acks_frame(d.ack, d.ack_bits, 32);
}

proof fn lemma_news<I>(inserted: EndpointView<I>, d: DeliveryView, sequence: u16)
    requires
        inserted.acks_bounded(),
    ensures
        ({
            let after = inserted.after_acks(d.ack, d.ack_bits, 32);
            &&& after.acks_bounded()
            &&& after.new_acks(inserted).contains(sequence) ==> inserted.awaits_ack(sequence)
                && !after.awaits_ack(sequence)
            &&& after.awaits_ack(sequence) ==> inserted.awaits_ack(sequence)
            &&& after.sent_packets.contains(sequence) ==> inserted.sent_packets.contains(sequence)
        }),
{
    inserted.law_news_is_reported(d.ack, d.ack_bits, 32);
    inserted.lemma_after_acks_frame(d.ack, d.ack_bits, 32);
}

} // verus!
