//! Retry scheduling of protocol messages until the protocol makes them obsolete.

use crate::dkg::delivery::{dkg_backoff, dkg_retry, DeliveryAbortGroup, DkgObsolescence};
use crate::dkg::ids::{DkgMessageId, Epoch, NodeId};
use crate::ordered_map::OrderedMap;
use crate::reliable::retry::{
    deliveries_of, extended, rescheduled, serves, EnqueueError, MessageView, PendingRecipient, RetryScheduler, ScheduledSend,
};
use crate::rlp::{
    decode_u64_and_string, encode_u64_and_string, rlp_list, rlp_string_item, rlp_u64_item,
    u64_and_string, RlpError,
};
use vstd::prelude::*;

verus! {

/// A delivery from a validator.
pub struct DeliveryInbound {
    pub sender: NodeId,
    pub payload: Vec<u8>,
}

/// A delivery to put on the wire.
pub struct DeliveryOutbound {
    pub to: NodeId,
    pub payload: Vec<u8>,
}

#[verifier::ext_equal]
pub struct OutboundView {
    pub to: NodeId,
    pub payload: Seq<u8>,
}

impl View for DeliveryOutbound {
    type V = OutboundView;

    open spec fn view(&self) -> OutboundView {
        OutboundView { to: self.to, payload: self.payload@ }
    }
}

/// A payload for an epoch, on the wire.
pub open spec fn wire_bytes(epoch: Epoch, payload: Seq<u8>) -> Seq<u8> {
    rlp_list(rlp_u64_item(epoch.0) + rlp_string_item(payload))
}

/// The scheduled sends as deliveries.
pub open spec fn outbound_views(sends: Seq<ScheduledSend<NodeId>>) -> Seq<OutboundView> {
    sends.map_values(
        |send: ScheduledSend<NodeId>| OutboundView { to: send.to, payload: send.payload@ },
    )
}

/// The views of deliveries.
pub open spec fn deliveries_view(deliveries: Seq<DeliveryOutbound>) -> Seq<OutboundView> {
    deliveries.map_values(|delivery: DeliveryOutbound| delivery@)
}

/// Hands scheduled sends on as deliveries.
pub fn into_outbound(sends: Vec<ScheduledSend<NodeId>>) -> (deliveries: Vec<DeliveryOutbound>)
    ensures
        deliveries_view(deliveries@) == outbound_views(sends@),
{
    let mut sends: Vec<ScheduledSend<NodeId>> = sends;
    let ghost whole = sends@;
    let mut deliveries: Vec<DeliveryOutbound> = Vec::new();
    while sends.len() > 0
        invariant
            sends@.len() <= whole.len(),
            sends@ == whole.skip(whole.len() - sends@.len()),
            deliveries_view(deliveries@) == outbound_views(whole).take(whole.len() - sends@.len()),
        decreases sends@.len(),
    {
        let ghost done = whole.len() - sends@.len();
        let send: ScheduledSend<NodeId> = sends.remove(0);
        proof {
            assert(send == whole[done]);
            assert(sends@ =~= whole.skip(done + 1));
        }
        let ghost earlier = deliveries@;
        deliveries.push(DeliveryOutbound { to: send.to, payload: send.payload });
        proof {
            assert(deliveries_view(deliveries@) =~= deliveries_view(earlier).push(
                OutboundView { to: send.to, payload: send.payload@ },
            ));
            assert(outbound_views(whole).take(done + 1) =~= outbound_views(whole).take(done).push(
                outbound_views(whole)[done],
            ));
        }
    }
    assert(outbound_views(whole).take(whole.len() as int) =~= outbound_views(whole));
    deliveries
}

/// The epoch of a delivery, unless it is malformed.
pub fn delivery_epoch(payload: &Vec<u8>) -> (epoch: Option<Epoch>)
    ensures
        epoch == (match u64_and_string(payload@) {
            Ok((epoch, _)) => Some(Epoch(epoch)),
            Err(_) => None,
        }),
{
    match decode_u64_and_string(payload) {
        Ok((epoch, _)) => Some(Epoch(epoch)),
        Err(_) => None,
    }
}

/// The deliveries of one epoch.
pub struct DeliveryEngine {
    epoch: Epoch,
    inbound_validators: OrderedMap<NodeId, ()>,
    scheduler: RetryScheduler<NodeId, DkgMessageId, DkgObsolescence>,
}

impl DeliveryEngine {
    pub closed spec fn epoch(self) -> Epoch {
        self.epoch
    }

    /// The nodes whose deliveries are taken.
    pub closed spec fn validators(self) -> Set<NodeId> {
        self.inbound_validators@.dom()
    }

    pub closed spec fn scheduler(self) -> RetryScheduler<NodeId, DkgMessageId, DkgObsolescence> {
        self.scheduler
    }

    pub closed spec fn parts_wf(self) -> bool {
        self.inbound_validators.wf()
    }

    pub open spec fn wf(self) -> bool {
        &&& self.parts_wf()
        &&& self.scheduler().wf()
        &&& self.scheduler().config() == dkg_backoff()
    }

    /// The same engine but for what is scheduled.
    pub open spec fn same_but_schedule(self, other: Self) -> bool {
        self.epoch() == other.epoch() && self.validators() == other.validators()
    }

    pub fn new(epoch: Epoch, validators: &Vec<NodeId>) -> (engine: Self)
        ensures
            engine.wf(),
            engine.epoch() == epoch,
            engine.validators() == validators@.to_set(),
            engine.scheduler().pending() == Map::<
                DkgMessageId,
                MessageView<DeliveryAbortGroup>,
            >::empty(),
            engine.scheduler().deliveries() == Map::<(DkgMessageId, NodeId), PendingRecipient>::empty(),
            engine.scheduler().observed() == Set::<DeliveryAbortGroup>::empty(),
    {
        let mut inbound_validators: OrderedMap<NodeId, ()> = OrderedMap::new();
        let mut i: usize = 0;
        assert(inbound_validators@.dom() =~= validators@.take(0).to_set());
        while i < validators.len()
            invariant
                i <= validators@.len(),
                inbound_validators.wf(),
                inbound_validators@.dom() == validators@.take(i as int).to_set(),
            decreases validators@.len() - i,
        {
            inbound_validators.insert(validators[i], ());
            proof {
                let earlier = validators@.take(i as int);
                let upto = validators@.take(i + 1);
                assert(upto =~= earlier.push(validators@[i as int]));
                assert forall|node: NodeId| #[trigger] upto.to_set().contains(node)
                    <==> earlier.to_set().insert(validators@[i as int]).contains(node) by {
                    if earlier.contains(node) {
                        let k = choose|k: int| 0 <= k < earlier.len() && earlier[k] == node;
                        assert(upto[k] == node);
                    }
                    assert(upto[i as int] == validators@[i as int]);
                }
                assert(inbound_validators@.dom() =~= upto.to_set());
            }
            i += 1;
        }
        assert(validators@.take(i as int) =~= validators@);
        DeliveryEngine { epoch, inbound_validators, scheduler: RetryScheduler::new(dkg_retry()) }
    }

    /// When a message is due next.
    pub fn next_timer(&self) -> (timer: Option<u64>)
        requires
            self.wf(),
        ensures
            match timer {
                None => self.scheduler().deliveries().dom() == Set::<(DkgMessageId, NodeId)>::empty(),
                Some(deadline) => {
                    &&& exists|delivery: (DkgMessageId, NodeId)| #[trigger]
                        self.scheduler().deliveries().contains_key(delivery)
                            && self.scheduler().deliveries()[delivery].deadline == deadline
                    &&& forall|delivery: (DkgMessageId, NodeId)| #[trigger]
                        self.scheduler().deliveries().contains_key(delivery) ==> deadline
                            <= self.scheduler().deliveries()[delivery].deadline
                },
            },
    {
        self.scheduler.next_timer()
    }

    /// The payload of a delivery, if it is for this epoch and from a validator.
    pub fn handle_network_message(&self, sender: &NodeId, payload: &Vec<u8>) -> (inbound: Option<
        DeliveryInbound,
    >)
        requires
            self.wf(),
        ensures
            match u64_and_string(payload@) {
                Ok((epoch, inner)) => if epoch == self.epoch().0 && self.validators().contains(*sender) {
                    inbound matches Some(inbound) && inbound.sender == *sender && inbound.payload@ == inner
                } else {
                    inbound is None
                },
                Err(_) => inbound is None,
            },
    {
        match decode_u64_and_string(payload) {
            Ok((epoch, inner)) => {
                if epoch == self.epoch.0 && self.inbound_validators.contains_key(sender) {
                    Some(DeliveryInbound { sender: *sender, payload: inner })
                } else {
                    None
                }
            },
            Err(_) => None,
        }
    }

    /// The deliveries that are due.
    pub fn handle_timer(&mut self, now: u64) -> (deliveries: Vec<DeliveryOutbound>)
        requires
            old(self).wf(),
            now + dkg_backoff().max + dkg_backoff().max_jitter <= u64::MAX,
        ensures
            final(self).wf(),
            final(self).same_but_schedule(*old(self)),
            final(self).scheduler().pending() == old(self).scheduler().pending(),
            final(self).scheduler().observed() == old(self).scheduler().observed(),
            final(self).scheduler().deliveries().dom() == old(self).scheduler().deliveries().dom(),
            rescheduled(
                dkg_backoff(),
                old(self).scheduler().deliveries(),
                final(self).scheduler().deliveries(),
                now,
            ),
            serves_what_is_due(deliveries_view(deliveries@), old(self).scheduler(), now),
    {
        let ghost before = self.scheduler;
        let sends: Vec<ScheduledSend<NodeId>> = self.scheduler.retry_due(now);
        let ghost whole = sends@;
        let deliveries: Vec<DeliveryOutbound> = into_outbound(sends);
        proof {
            let served = choose|served: Seq<(u64, (DkgMessageId, NodeId))>| #[trigger]
                serves(before.deliveries(), before.pending(), now, served, whole);
            assert(serves(before.deliveries(), before.pending(), now, served, whole));
        }
        deliveries
    }

    /// Starts delivering a message to `recipients`.
    pub fn schedule_reliable(
        &mut self,
        message_id: DkgMessageId,
        recipients: Vec<NodeId>,
        payload: &Vec<u8>,
        abort_group: Option<DeliveryAbortGroup>,
        now: u64,
    ) -> (result: Result<Vec<DeliveryOutbound>, EnqueueError>)
        requires
            old(self).wf(),
            now + dkg_backoff().initial + dkg_backoff().max_jitter <= u64::MAX,
        ensures
            final(self).wf(),
            final(self).same_but_schedule(*old(self)),
            final(self).scheduler().observed() == old(self).scheduler().observed(),
            result matches Ok(deliveries) ==> forall|i: int|
                0 <= i < deliveries@.len() ==> u64_and_string(
                    (#[trigger] deliveries@[i]).payload@,
                ) == Ok::<(u64, Seq<u8>), RlpError>((old(self).epoch().0, payload@)),
            ({
                let wire = wire_bytes(old(self).epoch(), payload@);
                let before = old(self).scheduler();
                if before.is_obsolete(abort_group) || recipients@.len() == 0 {
                    &&& result is Ok && result->Ok_0@.len() == 0
                    &&& final(self).scheduler().pending() == before.pending()
                    &&& final(self).scheduler().deliveries() == before.deliveries()
                } else if before.conflicts(message_id, wire, abort_group) {
                    &&& result is Err
                    &&& final(self).scheduler().pending() == before.pending()
                    &&& final(self).scheduler().deliveries() == before.deliveries()
                } else {
                    &&& result matches Ok(deliveries) && is_new_delivery(
                        deliveries_view(deliveries@),
                        before.new_recipients(message_id, recipients@),
                        wire,
                    )
                    &&& final(self).scheduler().pending() == before.pending().insert(
                        message_id,
                        MessageView { payload: wire, scope: abort_group },
                    )
                    &&& extended(
                        dkg_backoff(),
                        before.deliveries(),
                        final(self).scheduler().deliveries(),
                        message_id,
                        before.new_recipients(message_id, recipients@),
                        now,
                    )
                }
            }),
    {
        let wire: Vec<u8> = encode_u64_and_string(self.epoch.0, payload);
        let ghost bytes = wire@;
        match self.scheduler.enqueue(message_id, recipients, wire, abort_group, now) {
            Ok(sends) => {
                let ghost whole = sends@;
                let deliveries: Vec<DeliveryOutbound> = into_outbound(sends);
                proof {
                    let views = deliveries_view(deliveries@);
                    assert(outbound_targets(views) =~= crate::reliable::retry::send_targets(whole));
                    assert forall|i: int| 0 <= i < views.len() && (forall|k: int|
                        0 <= k < whole.len() ==> (#[trigger] whole[k]).payload@ == bytes) implies (
                    #[trigger] views[i]).payload == bytes by {
                        assert(whole[i].payload@ == bytes);
                    }
                    assert forall|i: int| 0 <= i < deliveries@.len() implies (
                    #[trigger] deliveries@[i]).payload@ == bytes by {
                        assert(views[i] == deliveries@[i]@);
                        assert(outbound_views(whole)[i].payload == whole[i].payload@);
                    }
                }
                Ok(deliveries)
            },
            Err(error) => Err(error),
        }
    }

    /// A delivery that is not repeated.
    pub fn schedule_once(&self, to: &NodeId, payload: &Vec<u8>) -> (delivery: DeliveryOutbound)
        ensures
            delivery@ == (OutboundView { to: *to, payload: wire_bytes(self.epoch(), payload@) }),
            delivery.to == *to,
            u64_and_string(delivery.payload@) == Ok::<(u64, Seq<u8>), RlpError>(
                (self.epoch().0, payload@),
            ),
    {
        DeliveryOutbound { to: *to, payload: encode_u64_and_string(self.epoch.0, payload) }
    }

    /// Stops delivering a message.
    pub fn complete(&mut self, message_id: &DkgMessageId)
        requires
            old(self).wf(),
        ensures
            final(self).wf(),
            final(self).same_but_schedule(*old(self)),
            final(self).scheduler().observed() == old(self).scheduler().observed(),
            final(self).scheduler().pending() == old(self).scheduler().pending().remove(*message_id),
            final(self).scheduler().deliveries() == old(self).scheduler().deliveries().remove_keys(
                deliveries_of(set![*message_id]),
            ),
    {
        self.scheduler.complete(message_id);
    }

    /// Stops delivering the messages that evidence for `group` makes pointless,
    /// and refuses them from now on.
    pub fn abort_group(&mut self, group: DeliveryAbortGroup)
        requires
            old(self).wf(),
        ensures
            final(self).wf(),
            final(self).same_but_schedule(*old(self)),
            final(self).scheduler().observed() == old(self).scheduler().observed().insert(group),
            final(self).scheduler().pending() == old(self).scheduler().pending().remove_keys(
                old(self).scheduler().obsoleted_by(group),
            ),
            final(self).scheduler().deliveries() == old(self).scheduler().deliveries().remove_keys(
                deliveries_of(old(self).scheduler().obsoleted_by(group)),
            ),
    {
        self.scheduler.observe(group);
    }
}

/// Whether `deliveries` are the messages that are due at `now`, the earliest first.
pub open spec fn serves_what_is_due(
    deliveries: Seq<OutboundView>,
    scheduler: RetryScheduler<NodeId, DkgMessageId, DkgObsolescence>,
    now: u64,
) -> bool {
    exists|served: Seq<(u64, (DkgMessageId, NodeId))>, sends: Seq<ScheduledSend<NodeId>>| #[trigger]
        serves(scheduler.deliveries(), scheduler.pending(), now, served, sends) && deliveries
            == outbound_views(sends)
}

/// The recipients of deliveries.
pub open spec fn outbound_targets(deliveries: Seq<OutboundView>) -> Seq<NodeId> {
    deliveries.map_values(|delivery: OutboundView| delivery.to)
}

/// Whether `deliveries` bring `wire` to each of `recipients`, in ascending order.
pub open spec fn is_new_delivery(
    deliveries: Seq<OutboundView>,
    recipients: Set<NodeId>,
    wire: Seq<u8>,
) -> bool {
    &&& crate::order::ascending(outbound_targets(deliveries))
    &&& outbound_targets(deliveries).to_set() == recipients
    &&& forall|i: int| 0 <= i < deliveries.len() ==> (#[trigger] deliveries[i]).payload == wire
}

/// A delivery that starts goes once to each recipient, to nobody else, and carries
/// the same bytes everywhere.
pub proof fn law_new_delivery_reaches_each_recipient(
    deliveries: Seq<OutboundView>,
    recipients: Set<NodeId>,
    wire: Seq<u8>,
    node: NodeId,
)
    requires
        is_new_delivery(deliveries, recipients, wire),
    ensures
        recipients.contains(node) <==> exists|i: int|
            0 <= i < deliveries.len() && (#[trigger] deliveries[i]).to == node,
        forall|i: int| 0 <= i < deliveries.len() ==> (#[trigger] deliveries[i]).payload == wire,
        forall|i: int, j: int|
            0 <= i < j < deliveries.len() ==> (#[trigger] deliveries[i]).to != (
            #[trigger] deliveries[j]).to,
{
    let targets = outbound_targets(deliveries);
    assert(targets.to_set().contains(node) <==> recipients.contains(node));
    if recipients.contains(node) {
        let i = choose|i: int| 0 <= i < targets.len() && targets[i] == node;
        assert(deliveries[i].to == node);
    }
    if exists|i: int| 0 <= i < deliveries.len() && (#[trigger] deliveries[i]).to == node {
        let i = choose|i: int| 0 <= i < deliveries.len() && (#[trigger] deliveries[i]).to == node;
        assert(targets[i] == node);
    }
    crate::order::lemma_ascending_distinct(targets);
    assert forall|i: int, j: int| 0 <= i < j < deliveries.len() implies (#[trigger] deliveries[i]).to != (
    #[trigger] deliveries[j]).to by {
        assert(targets[i] != targets[j]);
    }
}

/// Everything that is due leaves, with the contents of its message, and nothing
/// else does.
pub proof fn law_engine_serves_what_is_due(
    deliveries: Seq<OutboundView>,
    scheduler: RetryScheduler<NodeId, DkgMessageId, DkgObsolescence>,
    now: u64,
    id: DkgMessageId,
    node: NodeId,
)
    requires
        serves_what_is_due(deliveries, scheduler, now),
        scheduler.deliveries().contains_key((id, node)),
        scheduler.deliveries()[(id, node)].deadline <= now,
    ensures
        deliveries.contains(OutboundView { to: node, payload: scheduler.pending()[id].payload }),
{
    let (served, sends) = choose|served: Seq<(u64, (DkgMessageId, NodeId))>, sends: Seq<ScheduledSend<NodeId>>| #[trigger]
        serves(scheduler.deliveries(), scheduler.pending(), now, served, sends) && deliveries
            == outbound_views(sends);
    crate::reliable::retry::law_due_deliveries_are_served(
        scheduler.deliveries(),
        scheduler.pending(),
        now,
        served,
        sends,
        (id, node),
    );
    let i = choose|i: int|
        0 <= i < sends.len() && (#[trigger] sends[i]).to == node && sends[i].payload@
            == scheduler.pending()[id].payload;
    assert(deliveries[i] == OutboundView { to: node, payload: scheduler.pending()[id].payload });
}

/// Scheduled sends are handed on one for one, to the same nodes with the same bytes.
pub proof fn law_deliveries_are_shown_one_for_one(deliveries: Seq<DeliveryOutbound>, i: int)
    requires
        0 <= i < deliveries.len(),
    ensures
        deliveries_view(deliveries).len() == deliveries.len(),
        deliveries_view(deliveries)[i].to == deliveries[i].to,
        deliveries_view(deliveries)[i].payload == deliveries[i].payload@,
{
}

} // verus!
