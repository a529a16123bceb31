use vstd::prelude::*;

use crate::codec::{MessageEvent, MessageView};
use crate::utils::Address;

verus! {

/// What one poll of a session yields: a message to write out, or one that
/// arrived and was decoded.
pub enum InboundOutboundMessage {
    Inbound(MessageEvent),
    Outbound(MessageEvent),
}

/// The mathematical value of a polled item.
#[verifier::ext_equal]
pub ghost enum IoView {
    Inbound(MessageView),
    Outbound(MessageView),
}

impl View for InboundOutboundMessage {
    type V = IoView;

    open spec fn view(&self) -> IoView {
        match self {
            InboundOutboundMessage::Inbound(m) => IoView::Inbound(m@),
            InboundOutboundMessage::Outbound(m) => IoView::Outbound(m@),
        }
    }
}

pub open spec fn messages_view(s: Seq<MessageEvent>) -> Seq<MessageView> {
    s.map_values(|m: MessageEvent| m@)
}

/// One live session with a remote node: the connection address observed for
/// it, the queue of messages waiting to go out, the inbound messages already
/// decoded and not yet handled, and whether the transport is still open.
pub struct PeerConnection {
    pub addr: Address,
    pub outbound: Vec<MessageEvent>,
    pub inbound: Vec<MessageEvent>,
    pub open: bool,
}

/// The mathematical value of a session.
#[verifier::ext_equal]
pub ghost struct ConnView {
    pub addr: Address,
    pub outbound: Seq<MessageView>,
    pub inbound: Seq<MessageView>,
    pub open: bool,
}

impl View for PeerConnection {
    type V = ConnView;

    open spec fn view(&self) -> ConnView {
        ConnView {
            addr: self.addr,
            outbound: messages_view(self.outbound@),
            inbound: messages_view(self.inbound@),
            open: self.open,
        }
    }
}

/// One poll step: the outbound queue is drained before any inbound message
/// is surfaced, so replies never starve behind incoming traffic.
pub open spec fn spec_poll(c: ConnView) -> (ConnView, Option<IoView>) {
    if c.outbound.len() > 0 {
        (ConnView { outbound: c.outbound.skip(1), ..c }, Some(IoView::Outbound(c.outbound[0])))
    } else if c.inbound.len() > 0 {
        (ConnView { inbound: c.inbound.skip(1), ..c }, Some(IoView::Inbound(c.inbound[0])))
    } else {
        (c, None)
    }
}

impl PeerConnection {
    /// A fresh session on the given connection address, with empty queues.
    pub fn new(addr: Address) -> (r: PeerConnection)
        ensures
            r@ == (ConnView {
                addr,
                outbound: Seq::<MessageView>::empty(),
                inbound: Seq::<MessageView>::empty(),
                open: true,
            }),
    {
        let r = PeerConnection { addr, outbound: Vec::new(), inbound: Vec::new(), open: true };
        proof {
            assert(messages_view(Seq::<MessageEvent>::empty()) =~= Seq::<MessageView>::empty());
        }
        r
    }

    /// Queues a message to be written out.
    pub fn send_message(&mut self, m: MessageEvent)
        ensures
            final(self)@ == (ConnView { outbound: old(self)@.outbound.push(m@), ..old(self)@ }),
    {
        self.outbound.push(m);
        proof {
            assert(messages_view(self.outbound@) =~= old(self)@.outbound.push(m@));
        }
    }

    /// Hands the session a decoded inbound message.
    pub fn push_inbound(&mut self, m: MessageEvent)
        ensures
            final(self)@ == (ConnView { inbound: old(self)@.inbound.push(m@), ..old(self)@ }),
    {
        self.inbound.push(m);
        proof {
            assert(messages_view(self.inbound@) =~= old(self)@.inbound.push(m@));
        }
    }

    /// Marks the transport closed; later polls still drain what is queued.
    pub fn close(&mut self)
        ensures
            final(self)@ == (ConnView { open: false, ..old(self)@ }),
    {
        self.open = false;
    }

    /// Yields the next item: a queued outbound message if any is waiting,
    /// otherwise the oldest decoded inbound message, otherwise nothing.
    pub fn poll_message(&mut self) -> (r: Option<InboundOutboundMessage>)
        ensures
            final(self)@ == spec_poll(old(self)@).0,
            (match r {
                Some(io) => spec_poll(old(self)@).1 == Some(io@),
                None => spec_poll(old(self)@).1 is None,
            }),
    {
        if self.outbound.len() > 0 {
            let m = self.outbound.remove(0);
            proof {
                assert(messages_view(self.outbound@) =~= old(self)@.outbound.skip(1));
                assert(m@ == old(self)@.outbound[0]);
            }
            Some(InboundOutboundMessage::Outbound(m))
        } else if self.inbound.len() > 0 {
            let m = self.inbound.remove(0);
            proof {
                assert(messages_view(self.inbound@) =~= old(self)@.inbound.skip(1));
                assert(m@ == old(self)@.inbound[0]);
            }
            Some(InboundOutboundMessage::Inbound(m))
        } else {
            None
        }
    }
}

/// With messages `x` then `y` queued outbound and `z` decoded inbound, three
/// polls yield exactly `x`, then `y`, then `z`: outbound drains first.
pub proof fn lemma_poll_order(c: ConnView, x: MessageView, y: MessageView, z: MessageView)
    requires
        c.outbound == seq![x, y],
        c.inbound == seq![z],
    ensures
        spec_poll(c).1 == Some(IoView::Outbound(x)),
        spec_poll(spec_poll(c).0).1 == Some(IoView::Outbound(y)),
        spec_poll(spec_poll(spec_poll(c).0).0).1 == Some(IoView::Inbound(z)),
        spec_poll(spec_poll(spec_poll(c).0).0).0.outbound.len() == 0,
        spec_poll(spec_poll(spec_poll(c).0).0).0.inbound.len() == 0,
{
    let c1 = spec_poll(c).0;
    assert(c.outbound.skip(1) =~= seq![y]);
    let c2 = spec_poll(c1).0;
    assert(c1.outbound.skip(1) =~= Seq::<MessageView>::empty());
    let c3 = spec_poll(c2).0;
    assert(c2.inbound.skip(1) =~= Seq::<MessageView>::empty());
}

} // verus!
