use vstd::prelude::*;

use crate::address::SocketAddress;
use crate::fixed_list::{FixedListView, KnownPeersList, RumourList};

verus! {

/// The identity of a cluster member: the address it listens on.
#[derive(Clone, Copy, Debug, PartialEq, Eq, Hash, Structural)]
pub struct NodeId(pub SocketAddress);

/// A piece of membership news spread by gossip.
#[derive(Clone, Copy, Debug, PartialEq, Eq, Hash, Structural)]
pub enum Rumour {
    NodeHasJoin(NodeId),
    NodeHasLeft(NodeId),
}

/// The member that a rumour is about.
pub open spec fn rumour_subject(r: Rumour) -> NodeId {
    match r {
        Rumour::NodeHasJoin(n) => n,
        Rumour::NodeHasLeft(n) => n,
    }
}

/// The control requests that members exchange.
#[derive(Clone, Debug, PartialEq, Eq)]
pub enum ControlRequest {
    PlainBytes(Vec<u8>),
    UnknownMessage,
    MemberJoin,
    JoinAck(KnownPeersList),
    Ping,
    PingAck,
    PingRequest(NodeId),
}

/// A control request with its byte payload and peer list taken by their
/// views.
pub enum RequestView {
    PlainBytes(Seq<u8>),
    UnknownMessage,
    MemberJoin,
    JoinAck(FixedListView<NodeId>),
    Ping,
    PingAck,
    PingRequest(NodeId),
}

impl View for ControlRequest {
    type V = RequestView;

    open spec fn view(&self) -> RequestView {
        match self {
            ControlRequest::PlainBytes(b) => RequestView::PlainBytes(b@),
            ControlRequest::UnknownMessage => RequestView::UnknownMessage,
            ControlRequest::MemberJoin => RequestView::MemberJoin,
            ControlRequest::JoinAck(l) => RequestView::JoinAck(l@),
            ControlRequest::Ping => RequestView::Ping,
            ControlRequest::PingAck => RequestView::PingAck,
            ControlRequest::PingRequest(n) => RequestView::PingRequest(*n),
        }
    }
}

/// The content of a datagram: a control request with rumours piggybacked.
#[derive(Clone, Debug, PartialEq, Eq)]
pub enum MessageContent {
    ControlPlain(ControlRequest, RumourList),
}

/// A message that arrived from `source`.
#[derive(Clone, Debug, PartialEq, Eq)]
pub struct InboundMessage {
    pub source: SocketAddress,
    pub content: MessageContent,
}

/// An inbound message taken by the views of its parts.
pub struct InboundView {
    pub source: SocketAddress,
    pub request: RequestView,
    pub rumours: FixedListView<crate::codec::Rumour>,
}

impl View for InboundMessage {
    type V = InboundView;

    open spec fn view(&self) -> InboundView {
        match &self.content {
            MessageContent::ControlPlain(req, rumours) => InboundView {
                source: self.source,
                request: req@,
                rumours: rumours@,
            },
        }
    }
}

impl InboundMessage {
    /// A message from `from` carrying `content` and no rumours.
    pub fn bare_control_plain_message(from: SocketAddress, content: ControlRequest) -> (r:
        InboundMessage)
        ensures
            r@ == (InboundView {
                source: from,
                request: content@,
                rumours: crate::fixed_list::list_of(Seq::<Rumour>::empty()),
            }),
    {
        InboundMessage {
            source: from,
            content: MessageContent::ControlPlain(content, RumourList::empty()),
        }
    }

    /// A message from `from` carrying `request` and the rumours `rumours`.
    pub fn new(from: SocketAddress, request: ControlRequest, rumours: Vec<Rumour>) -> (r:
        InboundMessage)
        requires
            rumours@.len() <= crate::fixed_list::FIXED_LIST_CAPACITY,
        ensures
            r@ == (InboundView {
                source: from,
                request: request@,
                rumours: crate::fixed_list::list_of(rumours@),
            }),
    {
        InboundMessage {
            source: from,
            content: MessageContent::ControlPlain(request, RumourList::from_vec(rumours)),
        }
    }

    /// A message from `source` with the given content.
    pub fn from_parts(source: SocketAddress, content: MessageContent) -> (r: InboundMessage)
        ensures
            r.source == source,
            r.content == content,
    {
        InboundMessage { source, content }
    }

    /// Where the message came from.
    pub fn source(&self) -> (r: SocketAddress)
        ensures
            r == self.source,
    {
        self.source
    }

    /// What the message holds.
    pub fn content(&self) -> (r: &MessageContent)
        ensures
            *r == self.content,
    {
        &self.content
    }
}

/// A message to be sent to `destination`.
#[derive(Clone, Debug, PartialEq, Eq)]
pub struct OutboundMessage {
    pub destination: SocketAddress,
    pub content: MessageContent,
}

/// An outbound message taken by the views of its parts.
pub struct OutboundView {
    pub destination: SocketAddress,
    pub request: RequestView,
    pub rumours: FixedListView<Rumour>,
}

impl View for OutboundMessage {
    type V = OutboundView;

    open spec fn view(&self) -> OutboundView {
        match &self.content {
            MessageContent::ControlPlain(req, rumours) => OutboundView {
                destination: self.destination,
                request: req@,
                rumours: rumours@,
            },
        }
    }
}

impl OutboundMessage {
    /// A control message to `destination` with rumours piggybacked.
    pub fn control_message(
        destination: SocketAddress,
        content: ControlRequest,
        piggyback_rumours: RumourList,
    ) -> (r: OutboundMessage)
        ensures
            r@ == (OutboundView {
                destination,
                request: content@,
                rumours: piggyback_rumours@,
            }),
    {
        OutboundMessage {
            destination: destination,
            content: MessageContent::ControlPlain(content, piggyback_rumours),
        }
    }

    /// Where the message goes.
    pub fn destination(&self) -> (r: SocketAddress)
        ensures
            r == self.destination,
    {
        self.destination
    }

    /// What the message holds.
    pub fn content(&self) -> (r: &MessageContent)
        ensures
            *r == self.content,
    {
        &self.content
    }
}

/// The largest datagram payload that an encoded message may take.
pub const MAXIMUM_UDP_PACKET_CONTENT: u64 = 508;

} // verus!
