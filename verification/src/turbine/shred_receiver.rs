//! What becomes of the packets that arrive.

use crate::codec::Codec;
use crate::turbine::protocol::{
    arrival, stands_for_itself, MessageModel, TurbineMessage, MAX_BATCH_RESPONSE_SHREDS,
};
use vstd::prelude::*;

verus! {

/// Maximum number of consecutive UDP receive errors before the receiver gives up.
pub const MAX_CONSECUTIVE_ERRORS: u32 = 100;

/// What to do with a packet.
#[derive(Debug, PartialEq, Eq)]
pub enum PacketAction {
    /// Hand the messages to the retransmit stage, in order.
    Forward(Vec<TurbineMessage>),
    /// Hand the request to the repair responder.
    Repair(TurbineMessage),
    /// A batch response with too many shreds: drop it whole.
    DropOverCap(usize),
    /// Not a message: drop it.
    DropMalformed,
}

/// What to do after a receive error.
#[derive(Clone, Copy, Debug, PartialEq, Eq, Structural)]
pub enum ErrorAction {
    /// Wait a moment, then receive again.
    Backoff,
    /// Stop receiving.
    Stop,
}

pub open spec fn message_models(messages: Seq<TurbineMessage>) -> Seq<MessageModel> {
    Seq::new(messages.len(), |i: int| messages[i].model())
}

/// Headers and single shreds are handed on as they are, the shreds of a batch response
/// each as a message of its own, unless they are too many.
pub open spec fn routed(m: MessageModel, action: PacketAction) -> bool {
    match m {
        MessageModel::ShredBatchHeader(_) | MessageModel::Shred(_) | MessageModel::RepairResponse(
            _,
        ) => action matches PacketAction::Forward(list) && message_models(list@) == seq![m],
        MessageModel::RepairRequest(_) => action matches PacketAction::Repair(q) && q.model() == m,
        MessageModel::BatchRepairResponse(b) => if b.1.len() > MAX_BATCH_RESPONSE_SHREDS {
            action == PacketAction::DropOverCap(b.1.len() as usize)
        } else {
            action matches PacketAction::Forward(list) && message_models(list@) == Seq::new(
                b.1.len(),
                |i: int| MessageModel::Shred(b.1[i]),
            )
        },
    }
}

/// The messages that an action hands on are well formed.
pub open spec fn hands_on_well_formed(action: PacketAction) -> bool {
    match action {
        PacketAction::Forward(list) => forall|i: int|
            0 <= i < list@.len() ==> (#[trigger] list@[i]).well_formed(),
        PacketAction::Repair(q) => q.well_formed(),
        _ => true,
    }
}

/// One packet hands on a bounded number of messages.
pub proof fn fan_out_is_bounded(m: MessageModel, action: PacketAction)
    requires
        routed(m, action),
    ensures
        action matches PacketAction::Forward(list) ==> list@.len() <= MAX_BATCH_RESPONSE_SHREDS,
{
    if action is Forward {
        let list = action->Forward_0;
        assert(message_models(list@).len() == list@.len());
    }
}

/// Decides what becomes of a message.
pub fn route(msg: TurbineMessage) -> (r: PacketAction)
    requires
        msg.well_formed(),
    ensures
        routed(msg.model(), r),
        hands_on_well_formed(r),
{
    match msg {
        TurbineMessage::BatchRepairResponse(batch) => {
            let ghost b = batch.model();
            if batch.shreds.len() > MAX_BATCH_RESPONSE_SHREDS {
                return PacketAction::DropOverCap(batch.shreds.len());
            }
            let ghost shreds = batch.shreds@;
            let mut list: Vec<TurbineMessage> = Vec::new();
            for shred in it: batch.shreds
                invariant
                    it.seq() == shreds,
                    forall|i: int| 0 <= i < shreds.len() ==> (#[trigger] shreds[i]).well_formed(),
                    list@.len() == it.index(),
                    forall|i: int|
                        0 <= i < it.index() ==> (#[trigger] list@[i]).model()
                            == MessageModel::Shred(shreds[i].model()) && list@[i].well_formed(),
            {
                list.push(TurbineMessage::Shred(shred));
            }
            assert(message_models(list@) =~= Seq::new(
                b.1.len(),
                |i: int| MessageModel::Shred(b.1[i]),
            ));
            PacketAction::Forward(list)
        },
        TurbineMessage::RepairRequest(q) => PacketAction::Repair(TurbineMessage::RepairRequest(q)),
        other => {
            let ghost m = other.model();
            let mut list: Vec<TurbineMessage> = Vec::new();
            list.push(other);
            assert(message_models(list@) =~= seq![m]);
            PacketAction::Forward(list)
        },
    }
}

pub struct ShredReceiver {
    consecutive_errors: u32,
}

impl ShredReceiver {
    /// The receive errors since the last packet.
    pub closed spec fn errors(&self) -> nat {
        self.consecutive_errors as nat
    }

    /// A receiver that has not stopped has not seen too many errors.
    pub closed spec fn running(&self) -> bool {
        self.consecutive_errors < MAX_CONSECUTIVE_ERRORS
    }

    pub fn new() -> (r: Self)
        ensures
            r.errors() == 0,
            r.running(),
    {
        ShredReceiver { consecutive_errors: 0 }
    }

    /// A packet arrived.
    pub fn on_packet(&mut self, data: &[u8]) -> (r: PacketAction)
        ensures
            final(self).errors() == 0,
            final(self).running(),
            hands_on_well_formed(r),
            match arrival(data@) {
                Some(m) => routed(m, r),
                None => r is DropMalformed,
            },
            stands_for_itself(data@),
    {
        self.consecutive_errors = 0;
        match TurbineMessage::deserialize_from_bytes(data) {
            Ok(msg) => route(msg),
            Err(_) => PacketAction::DropMalformed,
        }
    }

    /// Receiving failed.
    pub fn on_error(&mut self) -> (r: ErrorAction)
        requires
            old(self).running(),
        ensures
            final(self).errors() == old(self).errors() + 1,
            r == if final(self).errors() >= MAX_CONSECUTIVE_ERRORS {
                ErrorAction::Stop
            } else {
                ErrorAction::Backoff
            },
            final(self).running() <==> r == ErrorAction::Backoff,
            r is Stop <==> old(self).errors() >= 99,
    {
        self.consecutive_errors = self.consecutive_errors + 1;
        if self.consecutive_errors >= MAX_CONSECUTIVE_ERRORS {
            ErrorAction::Stop
        } else {
            ErrorAction::Backoff
        }
    }
}

/// One packet hands on at most 64 messages, and loses none: a header, a shred or a repaired
/// shred goes on as it came, a request goes to whoever answers it, and the shreds of a batch
/// go on one by one in their order, unless they are more than 64, when none does.
pub proof fn packets_are_handed_on_whole(m: MessageModel, action: PacketAction)
    requires
        routed(m, action),
    ensures
        (action matches PacketAction::Forward(list) ==> list@.len() <= 64),
        m is ShredBatchHeader || m is Shred || m is RepairResponse ==> (
        action matches PacketAction::Forward(list) && list@.len() == 1 && list@[0].model() == m),
        m is RepairRequest <==> action is Repair,
        (m matches MessageModel::BatchRepairResponse(b) ==> {
            &&& b.1.len() > 64 <==> action is DropOverCap
            &&& b.1.len() <= 64 ==> (action matches PacketAction::Forward(list) && list@.len()
                == b.1.len() && forall|i: int|
                0 <= i < list@.len() ==> (#[trigger] list@[i]).model() == MessageModel::Shred(
                    b.1[i],
                ))
        }),
{
    if action is Forward {
        let list = action->Forward_0;
        assert(message_models(list@).len() == list@.len());
        assert forall|i: int| 0 <= i < list@.len() implies message_models(list@)[i] == (
        #[trigger] list@[i]).model() by {}
        if m is BatchRepairResponse {
            let b = m->BatchRepairResponse_0;
            let want = Seq::new(b.1.len(), |i: int| MessageModel::Shred(b.1[i]));
            assert forall|i: int| 0 <= i < list@.len() implies (#[trigger] list@[i]).model()
                == MessageModel::Shred(b.1[i]) by {
                assert(message_models(list@)[i] == want[i]);
            }
        } else {
            assert(message_models(list@)[0] == m);
        }
    }
}

} // verus!
