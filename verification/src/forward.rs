//! DataChannel to UDP forwarding: the decisions of the plain forwarder (one UDP
//! endpoint per stream, bytes passed through as they are) and of the PTZ relay
//! (replies recorded per UDP client, datagrams wrapped in a JSON message).
//! Sockets and channels stay with the caller.

use vstd::prelude::*;
use vstd::utf8::{encode_utf8, decode_utf8, valid_utf8};
use crate::keyed::{KeyedTable, map_of, unique_keys, has_key, lemma_map_of_listing};
use crate::outside::{json_object_of_strings, json_object_text, lossy_utf8, utf8_lossy};
use crate::text::{decimal, owned, concat, push_decimal};

verus! {

/// "host:port", the port in decimal.
pub open spec fn socket_address_text(host: Seq<char>, port: u16) -> Seq<char> {
    host + seq![':'] + decimal(port as nat)
}

/// The address text `host:port` that sockets are bound or sent to.
pub fn socket_address(host: &str, port: u16) -> (r: String)
    ensures
        r@ == socket_address_text(host@, port),
{
    let mut r = concat(host, ":");
    proof {
        reveal_strlit(":");
        assert(":"@ =~= seq![':']);
    }
    push_decimal(&mut r, port as u64);
    proof {
        assert(r@ =~= socket_address_text(host@, port));
    }
    r
}

/// The endpoints of a forwarded stream, as its configuration gives them: where
/// to listen for replies and where to send data-channel messages.
pub struct ChannelEndpoints {
    pub listen_host: String,
    pub listen_port: u16,
    pub target_host: String,
    pub target_port: u16,
}

/// The socket addresses of a forwarded stream.
pub struct ChannelAddresses {
    /// The address to bind the UDP socket to.
    pub bind: String,
    /// The address that data-channel messages are sent to.
    pub target: String,
}

/// The addresses to forward a stream with, from its endpoints; none (nothing is
/// forwarded) when the stream has no usable configuration.
pub fn channel_plan(endpoints: Option<ChannelEndpoints>) -> (r: Option<ChannelAddresses>)
    ensures
        endpoints is None <==> r is None,
        endpoints matches Some(e) ==> (r matches Some(a) && a.bind@ == socket_address_text(
            e.listen_host@,
            e.listen_port,
        ) && a.target@ == socket_address_text(e.target_host@, e.target_port)),
{
    match endpoints {
        None => None,
        Some(e) => {
            let target = socket_address(e.target_host.as_str(), e.target_port);
            let bind = socket_address(e.listen_host.as_str(), e.listen_port);
            Some(ChannelAddresses { bind, target })
        },
    }
}

/// What happened on a forwarded stream.
pub enum ChannelEvent {
    /// A message came from the data channel.
    DataChannelMessage(Vec<u8>),
    /// The data channel dropped this many messages before the next one.
    DataChannelLagged(u64),
    /// The data channel is closed.
    DataChannelClosed,
    /// A datagram came in on the UDP socket.
    UdpDatagram(Vec<u8>),
    /// Receiving on the UDP socket failed.
    UdpError,
}

/// What the forwarder does about an event.
pub enum ChannelAction {
    /// Send these bytes to the target address.
    SendToTarget(Vec<u8>),
    /// Send these bytes into the data channel.
    SendToDataChannel(Vec<u8>),
    /// Nothing; wait for the next event.
    Wait,
    /// Stop forwarding.
    Stop,
}

/// The forwarder's step: data-channel messages go to the target and datagrams
/// into the data channel, both unchanged; a closed data channel ends the
/// forwarding; lag and receive errors are passed over.
pub fn channel_step(event: ChannelEvent) -> (a: ChannelAction)
    ensures
        match event {
            ChannelEvent::DataChannelMessage(d) => a == ChannelAction::SendToTarget(d),
            ChannelEvent::UdpDatagram(d) => a == ChannelAction::SendToDataChannel(d),
            ChannelEvent::DataChannelClosed => a is Stop,
            ChannelEvent::DataChannelLagged(_) => a is Wait,
            ChannelEvent::UdpError => a is Wait,
        },
{
    match event {
        ChannelEvent::DataChannelMessage(d) => ChannelAction::SendToTarget(d),
        ChannelEvent::UdpDatagram(d) => ChannelAction::SendToDataChannel(d),
        ChannelEvent::DataChannelClosed => ChannelAction::Stop,
        ChannelEvent::DataChannelLagged(_) => ChannelAction::Wait,
        ChannelEvent::UdpError => ChannelAction::Wait,
    }
}

/// The socket addresses of a PTZ relay.
pub struct PtzAddresses {
    /// Where control messages go when no UDP client is known.
    pub target: String,
    /// Where the relay listens for UDP replies: every interface, at the listen port.
    pub listen: String,
}

/// The addresses of a PTZ relay from its configuration.
pub fn ptz_addresses(target_host: &str, udp_port: u16, listen_port: u16) -> (r: PtzAddresses)
    ensures
        r.target@ == socket_address_text(target_host@, udp_port),
        r.listen@ == socket_address_text("0.0.0.0"@, listen_port),
{
    let target = socket_address(target_host, udp_port);
    let listen = socket_address("0.0.0.0", listen_port);
    PtzAddresses { target, listen }
}

/// Whether a data-channel message, sent to the known clients with `sent`
/// successes, goes to the configured target as well: exactly when no client got it.
pub fn needs_fallback(sent: usize) -> (r: bool)
    ensures
        r == (sent == 0),
{
    sent == 0
}

/// The members of the JSON message that wraps a datagram for the data channel,
/// in the order the relay writes them.
pub open spec fn udp_message_fields(client_id: Seq<char>, data: Seq<u8>) -> Seq<(Seq<char>, Seq<char>)> {
    seq![
        ("type"@, "udp_to_datachannel"@),
        ("client_id"@, client_id),
        ("data"@, lossy_utf8(data)),
    ]
}

/// The bytes that go into the data channel for a datagram `data` from
/// `client_id`: the UTF-8 of the JSON object with the message type, the client
/// and the datagram read as UTF-8 (invalid sequences replaced).
pub fn udp_message(client_id: &str, data: &[u8]) -> (r: Vec<u8>)
    ensures
        r@ == encode_utf8(json_object_text(udp_message_fields(client_id@, data@))),
        r@ == encode_utf8(
            json_object_text(
                seq![
                    ("type"@, "udp_to_datachannel"@),
                    ("client_id"@, client_id@),
                    ("data"@, lossy_utf8(data@)),
                ],
            ),
        ),
        valid_utf8(data@) ==> r@ == encode_utf8(
            json_object_text(
                seq![
                    ("type"@, "udp_to_datachannel"@),
                    ("client_id"@, client_id@),
                    ("data"@, decode_utf8(data@)),
                ],
            ),
        ),
{
    let text = utf8_lossy(data);
    let mut fields: Vec<(String, String)> = Vec::new();
    fields.push((owned("type"), owned("udp_to_datachannel")));
    fields.push((owned("client_id"), owned(client_id)));
    fields.push((owned("data"), text));
    assert(fields.deep_view() =~= udp_message_fields(client_id@, data@));
    let json = json_object_of_strings(&fields);
    json.as_str().as_bytes_vec()
}

/// The UDP clients of a PTZ relay, each under its "ip:port" id with its address.
pub struct PtzRelay<A> {
    clients: KeyedTable<A>,
}

impl<A> PtzRelay<A> {
    /// The known clients, by id: the map that the list describes.
    pub open spec fn clients(&self) -> Map<Seq<char>, A> {
        map_of(self.client_list())
    }

    /// The known clients with their ids, in the order they were first heard from.
    pub closed spec fn client_list(&self) -> Seq<(Seq<char>, A)> {
        self.clients.items()
    }

    /// The list holds each client once.
    pub open spec fn wf(&self) -> bool {
        unique_keys(self.client_list())
    }

    /// A relay that knows no client yet.
    pub fn new() -> (r: Self)
        ensures
            r.wf(),
            r.clients() == Map::<Seq<char>, A>::empty(),
            r.client_list().len() == 0,
    {
        let r = PtzRelay { clients: KeyedTable::new() };
        proof {
            assert(r.clients() =~= Map::<Seq<char>, A>::empty());
        }
        r
    }

    /// How many clients are known.
    pub fn client_count(&self) -> (n: usize)
        ensures
            n == self.client_list().len(),
            self.wf(),
            n == self.clients().dom().len(),
    {
        let n = self.clients.len();
        proof {
            lemma_map_of_listing(self.client_list());
        }
        n
    }

    /// The address of the `i`-th known client.
    pub fn client_address(&self, i: usize) -> (a: &A)
        requires
            i < self.client_list().len(),
        ensures
            *a == self.client_list()[i as int].1,
    {
        self.clients.value_at(i)
    }

    /// Records that a datagram came from the client at `ip_text` and `port`,
    /// whose socket address is `addr`; gives the client's id, "ip:port". A client
    /// heard from again keeps its place with the newer address.
    pub fn record_client(&mut self, ip_text: &str, port: u16, addr: A) -> (id: String)
        ensures
            old(self).wf(),
            final(self).wf(),
            id@ == socket_address_text(ip_text@, port),
            final(self).clients() == old(self).clients().insert(id@, addr),
            has_key(old(self).client_list(), id@) ==> exists|i: int|
                0 <= i < old(self).client_list().len() && old(self).client_list()[i].0 == id@
                    && final(self).client_list() == old(self).client_list().update(i, (id@, addr)),
            !has_key(old(self).client_list(), id@) ==> final(self).client_list()
                == old(self).client_list().push((id@, addr)),
    {
        let id = socket_address(ip_text, port);
        let key = id.clone();
        self.clients.insert(key, addr);
        id
    }
}

/// The clients a data-channel message is sent to, one by one down the list,
/// are exactly the known clients, each once and with its recorded address.
pub proof fn lemma_every_client_listed<A>(r: PtzRelay<A>)
    requires
        r.wf(),
    ensures
        r.client_list().len() == r.clients().dom().len(),
        forall|k: Seq<char>|
            r.clients().dom().contains(k) <==> exists|i: int|
                0 <= i < r.client_list().len() && (#[trigger] r.client_list()[i]).0 == k,
        forall|i: int|
            0 <= i < r.client_list().len() ==> r.clients()[(#[trigger] r.client_list()[i]).0]
                == r.client_list()[i].1,
        forall|i: int, j: int|
            0 <= i < j < r.client_list().len() ==> r.client_list()[i].0 != r.client_list()[j].0,
{
    lemma_map_of_listing(r.client_list());
    assert forall|k: Seq<char>|
        r.clients().dom().contains(k) <==> exists|i: int|
            0 <= i < r.client_list().len() && (#[trigger] r.client_list()[i]).0 == k by {
        if exists|i: int| 0 <= i < r.client_list().len() && (#[trigger] r.client_list()[i]).0 == k {
            let i = choose|i: int| 0 <= i < r.client_list().len() && (#[trigger] r.client_list()[i]).0 == k;
            assert(r.clients().dom().contains(r.client_list()[i].0));
        }
    }
}

/// The clients known after recording, in turn, each client of `heard` (its id
/// and address) on top of the clients `known`.
pub open spec fn clients_after<A>(known: Map<Seq<char>, A>, heard: Seq<(Seq<char>, A)>) -> Map<
    Seq<char>,
    A,
>
    decreases heard.len(),
{
    if heard.len() == 0 {
        known
    } else {
        clients_after(known, heard.drop_last()).insert(heard.last().0, heard.last().1)
    }
}

/// `heard[i]` is the latest datagram of its sender in `heard`.
pub open spec fn latest_from_sender<A>(heard: Seq<(Seq<char>, A)>, i: int) -> bool {
    forall|j: int| i < j < heard.len() ==> heard[j].0 != heard[i].0
}

proof fn lemma_clients_after_dom<A>(known: Map<Seq<char>, A>, heard: Seq<(Seq<char>, A)>, k: Seq<char>)
    ensures
        clients_after(known, heard).dom().contains(k) == (known.dom().contains(k) || has_key(
            heard,
            k,
        )),
    decreases heard.len(),
{
    if heard.len() > 0 {
        let front = heard.drop_last();
        lemma_clients_after_dom(known, front, k);
        if has_key(heard, k) && k != heard.last().0 {
            let i = choose|i: int| 0 <= i < heard.len() && heard[i].0 == k;
            assert(i != heard.len() - 1);
            assert(front[i].0 == k);
        }
        if has_key(front, k) {
            let i = choose|i: int| 0 <= i < front.len() && front[i].0 == k;
            assert(heard[i].0 == k);
        }
        if k == heard.last().0 {
            assert(heard[heard.len() - 1].0 == k);
        }
    }
}

proof fn lemma_clients_after_value<A>(known: Map<Seq<char>, A>, heard: Seq<(Seq<char>, A)>, i: int)
    requires
        0 <= i < heard.len(),
        latest_from_sender(heard, i),
    ensures
        clients_after(known, heard)[heard[i].0] == heard[i].1,
    decreases heard.len(),
{
    let front = heard.drop_last();
    if i < front.len() {
        assert(heard[heard.len() - 1].0 != heard[i].0);
        assert(front[i] == heard[i]);
        assert forall|j: int| i < j < front.len() implies front[j].0 != front[i].0 by {
            assert(front[j] == heard[j]);
        }
        lemma_clients_after_value(known, front, i);
    }
}

/// Over any series of datagrams the relay forgets no client: the clients known
/// afterwards are those known before and every sender heard from, each sender
/// with the address of its latest datagram.
pub proof fn lemma_clients_accumulate<A>(known: Map<Seq<char>, A>, heard: Seq<(Seq<char>, A)>)
    ensures
        forall|k: Seq<char>|
            #[trigger] clients_after(known, heard).dom().contains(k) == (known.dom().contains(k)
                || has_key(heard, k)),
        forall|i: int|
            0 <= i < heard.len() && latest_from_sender(heard, i) ==> clients_after(known, heard)[(
            #[trigger] heard[i]).0] == heard[i].1,
{
    assert forall|k: Seq<char>|
        #[trigger] clients_after(known, heard).dom().contains(k) == (known.dom().contains(k)
            || has_key(heard, k)) by {
        lemma_clients_after_dom(known, heard, k);
    }
    assert forall|i: int|
        0 <= i < heard.len() && latest_from_sender(heard, i) implies clients_after(known, heard)[(
        #[trigger] heard[i]).0] == heard[i].1 by {
        lemma_clients_after_value(known, heard, i);
    }
}

/// What came from the data channel of a PTZ relay.
pub enum RelayEvent {
    /// A control message.
    Message(Vec<u8>),
    /// This many messages were dropped before the next one.
    Lagged(u64),
    /// The data channel is closed.
    Closed,
}

/// What the relay does about it.
pub enum RelayAction {
    /// Send the message to every known client, and to the target when none got it.
    Broadcast(Vec<u8>),
    /// Nothing; wait for the next message.
    Wait,
    /// Stop relaying data-channel messages.
    Stop,
}

/// The relay's data-channel step: messages are broadcast unchanged, lag is
/// passed over, a closed channel ends the relaying.
pub fn relay_step(event: RelayEvent) -> (a: RelayAction)
    ensures
        match event {
            RelayEvent::Message(d) => a == RelayAction::Broadcast(d),
            RelayEvent::Lagged(_) => a is Wait,
            RelayEvent::Closed => a is Stop,
        },
{
    match event {
        RelayEvent::Message(d) => RelayAction::Broadcast(d),
        RelayEvent::Lagged(_) => RelayAction::Wait,
        RelayEvent::Closed => RelayAction::Stop,
    }
}

} // verus!
