//! The consumer half of the sample relay: a mailbox that folds an ordered
//! stream of sensor messages into three independent "latest value" slots
//! (status text, error text, most recent sample). The producer side hands the
//! pending messages over once per frame, in emission order; older same-kind
//! messages are superseded and never surfaced individually.

use vstd::prelude::*;

verus! {

/// A timestamped angle sample produced by the sensor layer. The angle arrives
/// as the raw 32-bit encoding used by that layer; this core never interprets
/// it, it only carries the most recent reading to the consumer.
pub struct SensorSample {
    /// Raw 32-bit encoding of the hinge angle in degrees.
    pub theta_deg_bits: u32,
    /// Descriptor of the device that produced the reading.
    pub source: String,
    /// Capture time, in microseconds since an epoch chosen by the producer.
    pub t_micros: u64,
}

/// Mathematical value of a [`SensorSample`].
pub ghost struct SampleView {
    pub theta_deg_bits: u32,
    pub source: Seq<char>,
    pub t_micros: u64,
}

impl View for SensorSample {
    type V = SampleView;

    open spec fn view(&self) -> SampleView {
        SampleView {
            theta_deg_bits: self.theta_deg_bits,
            source: self.source@,
            t_micros: self.t_micros,
        }
    }
}

/// One message on the wire between the sensor producer and the frame-driven
/// consumer. Ownership transfers once; each message is consumed exactly once.
pub enum SensorMsg {
    /// A new angle reading.
    Sample(SensorSample),
    /// Connection status text, e.g. after the device was opened.
    Status(String),
    /// Error text from a failed open or a stopped stream.
    Error(String),
}

/// Mathematical value of a [`SensorMsg`].
pub ghost enum MsgView {
    Sample(SampleView),
    Status(Seq<char>),
    Error(Seq<char>),
}

impl View for SensorMsg {
    type V = MsgView;

    open spec fn view(&self) -> MsgView {
        match self {
            SensorMsg::Sample(s) => MsgView::Sample(s@),
            SensorMsg::Status(s) => MsgView::Status(s@),
            SensorMsg::Error(e) => MsgView::Error(e@),
        }
    }
}

/// The three latest-value slots of the relay's consumer side.
pub ghost struct RelayView {
    pub status: Option<Seq<char>>,
    pub error: Option<Seq<char>>,
    pub sample: Option<SampleView>,
}

/// Effect of one message on the slots: the slot of the message's kind takes
/// the payload, the other two are untouched.
pub open spec fn absorb_spec(v: RelayView, m: MsgView) -> RelayView {
    match m {
        MsgView::Status(s) => RelayView { status: Some(s), error: v.error, sample: v.sample },
        MsgView::Error(e) => RelayView { status: v.status, error: Some(e), sample: v.sample },
        MsgView::Sample(s) => RelayView { status: v.status, error: v.error, sample: Some(s) },
    }
}

/// The mathematical values of a batch of messages, in the batch's order.
pub open spec fn views_of(ms: Seq<SensorMsg>) -> Seq<MsgView> {
    ms.map_values(|m: SensorMsg| m@)
}

/// Effect of absorbing a whole batch of messages, in emission order.
pub open spec fn drain_spec(v: RelayView, ms: Seq<MsgView>) -> RelayView
    decreases ms.len(),
{
    if ms.len() == 0 {
        v
    } else {
        absorb_spec(drain_spec(v, ms.drop_last()), ms.last())
    }
}

/// Payload of the last status message in a batch, if the batch has one.
pub open spec fn last_status(ms: Seq<MsgView>) -> Option<Seq<char>>
    decreases ms.len(),
{
    if ms.len() == 0 {
        None
    } else if ms.last() is Status {
        Some(ms.last()->Status_0)
    } else {
        last_status(ms.drop_last())
    }
}

/// Payload of the last error message in a batch, if the batch has one.
pub open spec fn last_error(ms: Seq<MsgView>) -> Option<Seq<char>>
    decreases ms.len(),
{
    if ms.len() == 0 {
        None
    } else if ms.last() is Error {
        Some(ms.last()->Error_0)
    } else {
        last_error(ms.drop_last())
    }
}

/// The last sample in a batch, if the batch has one.
pub open spec fn last_sample(ms: Seq<MsgView>) -> Option<SampleView>
    decreases ms.len(),
{
    if ms.len() == 0 {
        None
    } else if ms.last() is Sample {
        Some(ms.last()->Sample_0)
    } else {
        last_sample(ms.drop_last())
    }
}

/// Latest wins, slot by slot: after a batch is folded in, each slot holds the
/// payload of the batch's last message of its kind, and keeps its previous
/// value when the batch carries no message of that kind. How many same-kind
/// messages came earlier makes no difference, and the three slots never
/// disturb one another.
pub proof fn lemma_drain_latest_wins(v: RelayView, ms: Seq<MsgView>)
    ensures
        drain_spec(v, ms).status == if last_status(ms) is Some {
            last_status(ms)
        } else {
            v.status
        },
        drain_spec(v, ms).error == if last_error(ms) is Some {
            last_error(ms)
        } else {
            v.error
        },
        drain_spec(v, ms).sample == if last_sample(ms) is Some {
            last_sample(ms)
        } else {
            v.sample
        },
    decreases ms.len(),
{
    if ms.len() > 0 {
        lemma_drain_latest_wins(v, ms.drop_last());
    }
}

/// Consumer side of the bridge between the sensor producer and the
/// frame-driven loop. It keeps only the latest value of each kind.
pub struct SampleRelay {
    status: Option<String>,
    error: Option<String>,
    sample: Option<SensorSample>,
}

impl View for SampleRelay {
    type V = RelayView;

    closed spec fn view(&self) -> RelayView {
        RelayView {
            status: match self.status {
                Some(s) => Some(s@),
                None => None,
            },
            error: match self.error {
                Some(e) => Some(e@),
                None => None,
            },
            sample: match self.sample {
                Some(s) => Some(s@),
                None => None,
            },
        }
    }
}

impl SampleRelay {
    /// A relay that has seen no message yet: every slot is empty.
    pub fn new() -> (r: SampleRelay)
        ensures
            r@ == (RelayView { status: None, error: None, sample: None }),
    {
        SampleRelay { status: None, error: None, sample: None }
    }

    /// Fold one message into the slots.
    pub fn absorb(&mut self, msg: SensorMsg)
        ensures
            final(self)@ == absorb_spec(old(self)@, msg@),
    {
        match msg {
            SensorMsg::Status(s) => {
                self.status = Some(s);
            },
            SensorMsg::Error(e) => {
                self.error = Some(e);
            },
            SensorMsg::Sample(s) => {
                self.sample = Some(s);
            },
        }
    }

    /// Fold a whole batch of pending messages, oldest first. A later message
    /// of a kind supersedes an earlier one; an empty batch changes nothing,
    /// so a frame with no pending input is a no-op.
    pub fn drain(&mut self, batch: Vec<SensorMsg>)
        ensures
            final(self)@ == drain_spec(old(self)@, views_of(batch@)),
    {
        let ghost v0 = self@;
        let ghost all = views_of(batch@);
        let ghost mut seen: Seq<MsgView> = Seq::empty();
        let mut rest = batch;
        proof {
            assert(all =~= seen + views_of(rest@));
        }
        while rest.len() > 0
            invariant
                self@ == drain_spec(v0, seen),
                all == seen + views_of(rest@),
            decreases rest.len(),
        {
            let ghost prev_rest = rest@;
            let ghost prev_seen = seen;
            let m = rest.remove(0);
            self.absorb(m);
            proof {
                seen = prev_seen.push(m@);
                assert(seen.drop_last() =~= prev_seen);
                assert(seen + views_of(rest@) =~= prev_seen + views_of(prev_rest));
            }
        }
        proof {
            assert(all =~= seen);
        }
    }

    /// The latest connection status text, if any message carried one yet.
    pub fn latest_status(&self) -> (r: Option<&String>)
        ensures
            r is Some <==> self@.status is Some,
            r is Some ==> r->Some_0@ == self@.status->Some_0,
    {
        self.status.as_ref()
    }

    /// The latest error text, if any message carried one yet.
    pub fn latest_error(&self) -> (r: Option<&String>)
        ensures
            r is Some <==> self@.error is Some,
            r is Some ==> r->Some_0@ == self@.error->Some_0,
    {
        self.error.as_ref()
    }

    /// The most recent sample, if one arrived yet.
    pub fn latest_sample(&self) -> (r: Option<&SensorSample>)
        ensures
            r is Some <==> self@.sample is Some,
            r is Some ==> r->Some_0@ == self@.sample->Some_0,
    {
        self.sample.as_ref()
    }
}

} // verus!
