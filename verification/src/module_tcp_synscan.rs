//! The TCP SYN probe: which source port a probe leaves from, and which
//! replies count as answers to our probes.

use vstd::prelude::*;
use etherparse::{IpHeaders, IpNumber, PacketBuilder};
use vstd::arithmetic::div_mod::{
    lemma_add_mod_noop,
    lemma_mod_add_multiples_vanish,
    lemma_mod_bound,
    lemma_small_mod,
    lemma_sub_mod_noop,
};
use crate::config::Config;
use crate::packet::{
    frame_bytes,
    ip_checksum,
    ip_header_checksum,
    lemma_frame_flat,
    lemma_patch_destination,
    lemma_patch_ip_checksum,
    lemma_patch_sequence,
    lemma_patch_source_port,
    lemma_patch_tcp_checksum,
    make_eth_header,
    make_ip_header,
    make_tcp_header,
    put_be2,
    put_be4,
    tcp_checksum,
    tcp_header_checksum,
    write_frame,
    Ethernet2Header,
    Ipv4Header,
    TcpHeader,
    ETHER_TYPE_IPV4,
    IP_IDENTIFICATION,
    MAXTTL,
};
use crate::probe_modules::ProbeGenerator;
use crate::validate::{tag, tag_words};

verus! {

/// The capture filter for replies to SYN probes: a reset, or SYN and ACK.
pub const PCAP_FILTER: &'static str = "tcp && tcp[13] & 4 != 0 || tcp[13] == 18";

/// The protocol number of TCP in an IPv4 header.
pub const IP_PROTOCOL_TCP: u8 = 6;

/// What a reply says in its IPv4 header.
#[derive(Clone, Copy, Debug, PartialEq, Eq, Structural)]
pub struct Ipv4Part {
    pub protocol: u8,
    pub source: u32,
    pub destination: u32,
}

/// What a reply says in its TCP header.
#[derive(Clone, Copy, Debug, PartialEq, Eq, Structural)]
pub struct TcpPart {
    pub source_port: u16,
    pub destination_port: u16,
    pub acknowledgment_number: u32,
    pub rst: bool,
}

/// The IPv4 header that an Ethernet frame holds, as `etherparse` slices it.
pub uninterp spec fn sliced_ipv4(packet: Seq<u8>) -> Option<Ipv4Part>;

/// The TCP header that an Ethernet frame holds, as `etherparse` slices it.
pub uninterp spec fn sliced_tcp(packet: Seq<u8>) -> Option<TcpPart>;

/// Calls `SlicedPacket::from_ethernet` of `etherparse` and reads the IPv4
/// header of the frame, if it could be sliced and holds one. The result
/// depends on the bytes alone.
#[verifier::external_body]
fn slice_ipv4(packet: &[u8]) -> (r: Option<Ipv4Part>)
    ensures
        r == sliced_ipv4(packet@),
{
    let sliced = etherparse::SlicedPacket::from_ethernet(packet).ok()?;
    match &sliced.net {
        Some(etherparse::NetSlice::Ipv4(slice)) => Some(
            Ipv4Part {
                protocol: slice.header().protocol().0,
                source: u32::from_be_bytes(slice.header().source()),
                destination: u32::from_be_bytes(slice.header().destination()),
            },
        ),
        _ => None,
    }
}

/// Calls `SlicedPacket::from_ethernet` of `etherparse` and reads the TCP
/// header of the frame, if it could be sliced and holds one. The result
/// depends on the bytes alone.
#[verifier::external_body]
fn slice_tcp(packet: &[u8]) -> (r: Option<TcpPart>)
    ensures
        r == sliced_tcp(packet@),
{
    let sliced = etherparse::SlicedPacket::from_ethernet(packet).ok()?;
    match &sliced.transport {
        Some(etherparse::TransportSlice::Tcp(slice)) => Some(
            TcpPart {
                source_port: slice.source_port(),
                destination_port: slice.destination_port(),
                acknowledgment_number: slice.acknowledgment_number(),
                rst: slice.rst(),
            },
        ),
        _ => None,
    }
}

/// The number of source ports in the range from `first` to `last`.
pub open spec fn port_count(first: u16, last: u16) -> int {
    last - first + 1
}

/// The source port of probe number `probe` to a destination whose tag has the
/// second word `v1`.
pub open spec fn source_port_for(v1: u32, probe: u32, first: u16, last: u16) -> int {
    first + (v1 + probe) % port_count(first, last)
}

/// Whether a reply to destination port `port` may answer one of `probes`
/// probes: the port is in the range, and its place in the range is one of the
/// `probes` places that start at `v1`, counted round the range.
pub open spec fn dst_port_ok(port: u16, v1: u32, probes: u32, first: u16, last: u16) -> bool {
    let n = port_count(first, last);
    let to_validate = port - first;
    let min = (v1 as int) % n;
    let max = (v1 + probes - 1) % n;
    first <= port <= last && (to_validate - min) % n <= (max - min) % n
}

/// The source port of probe number `probe_num`.
pub fn source_port(v1: u32, probe_num: u32, first: u16, last: u16) -> (port: u16)
    requires
        first <= last,
    ensures
        port == source_port_for(v1, probe_num, first, last),
        first <= port <= last,
{
    let num_ports: u64 = (last - first) as u64 + 1;
    let offset: u64 = (v1 as u64 + probe_num as u64) % num_ports;
    (first as u64 + offset) as u16
}

/// Whether `port` is one of the source ports that our probes to this
/// destination left from.
pub fn check_dst_port(port: u16, validation: &[u32; 2], config: &Config) -> (ok: bool)
    requires
        config.source_port_first <= config.source_port_last,
    ensures
        ok == dst_port_ok(
            port,
            validation[1],
            config.probes,
            config.source_port_first,
            config.source_port_last,
        ),
{
    if port > config.source_port_last || port < config.source_port_first {
        return false;
    }
    let n: u64 = (config.source_port_last - config.source_port_first) as u64 + 1;
    let to_validate: u64 = (port - config.source_port_first) as u64;
    let min: u64 = validation[1] as u64 % n;
    let max: u64 = (validation[1] as u64 + config.probes as u64 + n - 1) % n;
    proof {
        let v1 = validation[1] as int;
        let m = n as int;
        lemma_mod_add_multiples_vanish(v1 + config.probes - 1, m);
        lemma_mod_add_multiples_vanish(to_validate - min, m);
        lemma_mod_add_multiples_vanish(max - min, m);
    }
    (max + n - min) % n >= (to_validate + n - min) % n
}

/// A probe's own source port is accepted in a reply: where no more probes
/// are sent than there are source ports, the port of each probe passes the
/// check.
pub proof fn lemma_sent_port_accepted(v1: u32, probe: u32, probes: u32, first: u16, last: u16)
    requires
        first <= last,
        probe < probes <= port_count(first, last),
    ensures
        first <= source_port_for(v1, probe, first, last) <= last,
        dst_port_ok(source_port_for(v1, probe, first, last) as u16, v1, probes, first, last),
{
    let n = port_count(first, last);
    let to_validate = (v1 + probe) % n;
    let min = (v1 as int) % n;
    let max = (v1 + probes - 1) % n;
    lemma_mod_bound(v1 + probe, n);
    lemma_sub_mod_noop(v1 + probe, v1 as int, n);
    lemma_sub_mod_noop(v1 + probes - 1, v1 as int, n);
    lemma_small_mod(probe as nat, n as nat);
    lemma_small_mod((probes - 1) as nat, n as nat);
    assert((to_validate - min) % n == probe);
    assert((max - min) % n == probes - 1);
}

/// Only a probe's own source port is accepted: where no more probes are sent
/// than there are source ports, a port that passes the check is the source
/// port of one of the probes.
pub proof fn lemma_accepted_port_sent(port: u16, v1: u32, probes: u32, first: u16, last: u16)
    requires
        first <= last,
        1 <= probes <= port_count(first, last),
        dst_port_ok(port, v1, probes, first, last),
    ensures
        exists|probe: u32| probe < probes && port == #[trigger] source_port_for(v1, probe, first, last),
{
    let n = port_count(first, last);
    let to_validate = port - first;
    let min = (v1 as int) % n;
    let max = (v1 + probes - 1) % n;
    let i = (to_validate - min) % n;
    lemma_mod_bound(to_validate - min, n);
    lemma_sub_mod_noop(v1 + probes - 1, v1 as int, n);
    lemma_small_mod((probes - 1) as nat, n as nat);
    assert((max - min) % n == probes - 1);
    assert(0 <= i <= probes - 1);
    lemma_add_mod_noop(v1 as int, to_validate - min, n);
    lemma_add_mod_noop(min, to_validate - min, n);
    lemma_mod_bound(v1 as int, n);
    lemma_small_mod(min as nat, n as nat);
    lemma_small_mod(to_validate as nat, n as nat);
    assert((v1 + i) % n == to_validate) by {
        assert((v1 + i) % n == (((v1 as int) % n) + i % n) % n) by {
            lemma_add_mod_noop(v1 as int, i, n);
        }
        lemma_small_mod(i as nat, n as nat);
        assert((min + (to_validate - min) % n) % n == (min + (to_validate - min)) % n);
    }
    let probe = i as u32;
    assert(port == source_port_for(v1, probe, first, last));
}

/// Whether a reply answers a probe with the tag words `v0` and `v1`: it is
/// TCP, comes from the probed port, goes to one of our source ports, and
/// acknowledges the sequence number after `v0`.
pub open spec fn reply_valid(ip: Ipv4Part, tcp: TcpPart, v0: u32, v1: u32, config: Config) -> bool {
    &&& ip.protocol == IP_PROTOCOL_TCP
    &&& tcp.source_port == config.target_port
    &&& dst_port_ok(
        tcp.destination_port,
        v1,
        config.probes,
        config.source_port_first,
        config.source_port_last,
    )
    &&& tcp.acknowledgment_number == (v0 + 1) % 0x1_0000_0000
}

/// Whether the sliced headers of a reply answer a probe with the tag words
/// `validation`.
pub fn validate_reply(ip: &Ipv4Part, tcp: &TcpPart, validation: &[u32; 2], config: &Config) -> (ok:
    bool)
    requires
        config.source_port_first <= config.source_port_last,
    ensures
        ok == reply_valid(*ip, *tcp, validation[0], validation[1], *config),
{
    if ip.protocol != IP_PROTOCOL_TCP {
        return false;
    }
    if config.target_port != tcp.source_port {
        return false;
    }
    if !check_dst_port(tcp.destination_port, validation, config) {
        return false;
    }
    if tcp.acknowledgment_number != validation[0].wrapping_add(1) {
        return false;
    }
    true
}

/// Whether a captured frame answers a probe with the tag words `validation`.
/// A frame that does not slice into IPv4 and TCP does not.
pub fn synscan_validate_packet(packet: &[u8], validation: &[u32; 2], config: &Config) -> (ok: bool)
    requires
        config.source_port_first <= config.source_port_last,
    ensures
        ok == match (sliced_ipv4(packet@), sliced_tcp(packet@)) {
            (Some(ip), Some(tcp)) => reply_valid(ip, tcp, validation[0], validation[1], *config),
            _ => false,
        },
{
    let ip = match slice_ipv4(packet) {
        Some(ip) => ip,
        None => {
            return false;
        },
    };
    let tcp = match slice_tcp(packet) {
        Some(tcp) => tcp,
        None => {
            return false;
        },
    };
    validate_reply(&ip, &tcp, validation, config)
}

/// Whether a reply reports an open port: it does where the reset flag is
/// clear.
pub fn classify_reply(tcp: &TcpPart) -> (open: bool)
    ensures
        open == !tcp.rst,
{
    !tcp.rst
}

/// Whether a captured frame reports an open port. A frame without a TCP
/// header does not.
pub fn synscan_classify_packet(packet: &[u8]) -> (open: bool)
    ensures
        open == match sliced_tcp(packet@) {
            Some(tcp) => !tcp.rst,
            None => false,
        },
{
    match slice_tcp(packet) {
        Some(tcp) => classify_reply(&tcp),
        None => false,
    }
}

/// The headers of a captured frame, where it holds both IPv4 and TCP.
pub fn slice_reply(packet: &[u8]) -> (r: Option<(Ipv4Part, TcpPart)>)
    ensures
        r == match (sliced_ipv4(packet@), sliced_tcp(packet@)) {
            (Some(ip), Some(tcp)) => Some((ip, tcp)),
            _ => None,
        },
{
    match (slice_ipv4(packet), slice_tcp(packet)) {
        (Some(ip), Some(tcp)) => Some((ip, tcp)),
        _ => None,
    }
}

/// Round trip of the validation: a reply to probe number `probe`, sent from
/// `src` to `dst` under the key `key`, passes the check that the receiver
/// makes with the tag of the reply's own addresses, swapped.
pub proof fn lemma_round_trip(
    key: Seq<u8>,
    src: u32,
    dst: u32,
    probe: u32,
    config: Config,
    ip: Ipv4Part,
    tcp: TcpPart,
)
    requires
        config.source_port_first <= config.source_port_last,
        probe < config.probes <= port_count(config.source_port_first, config.source_port_last),
        ip.protocol == IP_PROTOCOL_TCP,
        ip.source == dst,
        ip.destination == src,
        tcp.source_port == config.target_port,
        tcp.destination_port == source_port_for(
            tag_words(tag(key, src, dst)).1,
            probe,
            config.source_port_first,
            config.source_port_last,
        ),
        tcp.acknowledgment_number == (tag_words(tag(key, src, dst)).0 + 1) % 0x1_0000_0000,
    ensures
        reply_valid(
            ip,
            tcp,
            tag_words(tag(key, ip.destination, ip.source)).0,
            tag_words(tag(key, ip.destination, ip.source)).1,
            config,
        ),
{
    lemma_sent_port_accepted(
        tag_words(tag(key, src, dst)).1,
        probe,
        config.probes,
        config.source_port_first,
        config.source_port_last,
    );
}

/// The length of a SYN probe on the wire.
pub const PACKET_LENGTH: u64 = 54;

/// The headers of the SYN probe number `probe_num` to `destination_ip`, with
/// both checksums still zero.
pub open spec fn syn_headers_raw(
    source_mac: [u8; 6],
    gateway_mac: [u8; 6],
    source_ip: u32,
    source_port_first: u16,
    source_port_last: u16,
    target_port: u16,
    destination_ip: u32,
    validation: [u32; 2],
    probe_num: u32,
) -> (Ethernet2Header, Ipv4Header, TcpHeader) {
    (
        Ethernet2Header { source: source_mac, destination: gateway_mac, ether_type: ETHER_TYPE_IPV4 },
        Ipv4Header {
            dscp: 0,
            total_len: 40,
            identification: IP_IDENTIFICATION,
            dont_fragment: false,
            fragment_offset: 0,
            time_to_live: MAXTTL,
            protocol: IP_PROTOCOL_TCP,
            header_checksum: 0,
            source: source_ip,
            destination: destination_ip,
        },
        TcpHeader {
            source_port: source_port_for(
                validation[1],
                probe_num,
                source_port_first,
                source_port_last,
            ) as u16,
            destination_port: target_port,
            sequence_number: validation[0],
            acknowledgment_number: 0,
            syn: true,
            ece: false,
            cwr: false,
            window_size: u16::MAX,
            checksum: 0,
            urgent_pointer: 0,
        },
    )
}

/// The headers of the SYN probe number `probe_num` to `destination_ip`, with
/// both checksums in place.
pub open spec fn syn_headers(
    source_mac: [u8; 6],
    gateway_mac: [u8; 6],
    source_ip: u32,
    source_port_first: u16,
    source_port_last: u16,
    target_port: u16,
    destination_ip: u32,
    validation: [u32; 2],
    probe_num: u32,
) -> (Ethernet2Header, Ipv4Header, TcpHeader) {
    let raw = syn_headers_raw(
        source_mac,
        gateway_mac,
        source_ip,
        source_port_first,
        source_port_last,
        target_port,
        destination_ip,
        validation,
        probe_num,
    );
    (
        raw.0,
        Ipv4Header { header_checksum: ip_header_checksum(raw.1), ..raw.1 },
        TcpHeader { checksum: tcp_header_checksum(raw.2, source_ip, destination_ip), ..raw.2 },
    )
}

/// The frame of the SYN probe number `probe_num` to `destination_ip`: its
/// three headers on the wire, 54 bytes.
pub open spec fn syn_frame(
    source_mac: [u8; 6],
    gateway_mac: [u8; 6],
    source_ip: u32,
    source_port_first: u16,
    source_port_last: u16,
    target_port: u16,
    destination_ip: u32,
    validation: [u32; 2],
    probe_num: u32,
) -> Seq<u8> {
    let headers = syn_headers(
        source_mac,
        gateway_mac,
        source_ip,
        source_port_first,
        source_port_last,
        target_port,
        destination_ip,
        validation,
        probe_num,
    );
    frame_bytes(headers.0, headers.1, headers.2)
}

/// Whether the headers hold, in every field that the builder is not handed,
/// the value that the builder gives the field itself.
pub open spec fn plain_headers(eth: Ethernet2Header, ip: Ipv4Header, tcp: TcpHeader) -> bool {
    &&& eth.ether_type == ETHER_TYPE_IPV4
    &&& ip.dscp == 0 && ip.fragment_offset == 0 && ip.protocol == IP_PROTOCOL_TCP
    &&& tcp.acknowledgment_number == 0 && !tcp.ece && !tcp.cwr && tcp.urgent_pointer == 0
}

/// The frame of the three headers with no payload, once the total length of
/// 40 and both checksums are filled in.
pub open spec fn completed_frame(eth: Ethernet2Header, ip: Ipv4Header, tcp: TcpHeader) -> Seq<u8> {
    let sized = Ipv4Header { total_len: 40, header_checksum: 0, ..ip };
    let clear = TcpHeader { checksum: 0, ..tcp };
    frame_bytes(
        eth,
        Ipv4Header { header_checksum: ip_header_checksum(sized), ..sized },
        TcpHeader { checksum: tcp_header_checksum(clear, ip.source, ip.destination), ..clear },
    )
}

/// Calls `PacketBuilder::ethernet2(..).ip(..).tcp_header(..).write(..)` of
/// `etherparse` with no payload. The builder writes the Ethernet, IPv4 and
/// TCP headers one after another, sets the EtherType, the total length and
/// both checksums itself, and gives every field that it is not handed here
/// its default. The checksums are the Internet checksums of the IPv4 header
/// and of the TCP header with its pseudo header.
#[verifier::external_body]
fn build_frame(eth: &Ethernet2Header, ip: &Ipv4Header, tcp: &TcpHeader) -> (out: Vec<u8>)
    requires
        plain_headers(*eth, *ip, *tcp),
    ensures
        out@ == completed_frame(*eth, *ip, *tcp),
{
    let (src, dst) = (ip.source.to_be_bytes(), ip.destination.to_be_bytes());
    let protocol = IpNumber(ip.protocol);
    let mut iph = etherparse::Ipv4Header::new(0, ip.time_to_live, protocol, src, dst).unwrap();
    iph.identification = ip.identification;
    iph.dont_fragment = ip.dont_fragment;
    let (sport, dport) = (tcp.source_port, tcp.destination_port);
    let mut tcph = etherparse::TcpHeader::new(sport, dport, tcp.sequence_number, tcp.window_size);
    tcph.syn = tcp.syn;
    let headers = IpHeaders::Ipv4(iph, Default::default());
    let builder = PacketBuilder::ethernet2(eth.source, eth.destination).ip(headers);
    let mut out = Vec::new();
    builder.tcp_header(tcph).write(&mut out, &[]).unwrap();
    out
}

/// A generator that has `etherparse` build every frame anew.
pub struct NaiveProbeGenerator {
    source_mac: [u8; 6],
    gateway_mac: [u8; 6],
    source_ip: u32,
    source_port_first: u16,
    source_port_last: u16,
    target_port: u16,
    buffer: Vec<u8>,
}

impl NaiveProbeGenerator {
    /// A generator that is not set up yet.
    pub fn new() -> (g: Self)
        ensures
            !g.initialized(),
    {
        NaiveProbeGenerator {
            source_mac: [0, 0, 0, 0, 0, 0],
            gateway_mac: [0, 0, 0, 0, 0, 0],
            source_ip: 0,
            source_port_first: 1,
            source_port_last: 0,
            target_port: 0,
            buffer: Vec::new(),
        }
    }
}

impl Default for NaiveProbeGenerator {
    fn default() -> (g: Self)
        ensures
            !g.initialized(),
    {
        NaiveProbeGenerator::new()
    }
}

impl ProbeGenerator for NaiveProbeGenerator {
    closed spec fn initialized(&self) -> bool {
        self.source_port_first <= self.source_port_last
    }

    closed spec fn frame_for(&self, destination_ip: u32, validation: [u32; 2], probe_num: u32) -> Seq<
        u8,
    > {
        syn_frame(
            self.source_mac,
            self.gateway_mac,
            self.source_ip,
            self.source_port_first,
            self.source_port_last,
            self.target_port,
            destination_ip,
            validation,
            probe_num,
        )
    }

    open spec fn frame_with(
        source_mac: [u8; 6],
        gateway_mac: [u8; 6],
        source_ip: u32,
        source_port_first: u16,
        source_port_last: u16,
        target_port: u16,
        destination_ip: u32,
        validation: [u32; 2],
        probe_num: u32,
    ) -> Seq<u8> {
        syn_frame(
            source_mac,
            gateway_mac,
            source_ip,
            source_port_first,
            source_port_last,
            target_port,
            destination_ip,
            validation,
            probe_num,
        )
    }

    fn thread_initialize(
        &mut self,
        source_mac: &[u8; 6],
        gateway_mac: &[u8; 6],
        source_ip: u32,
        source_port_first: u16,
        source_port_last: u16,
        target_port: u16,
    ) {
        self.source_mac = *source_mac;
        self.gateway_mac = *gateway_mac;
        self.source_ip = source_ip;
        self.source_port_first = source_port_first;
        self.source_port_last = source_port_last;
        self.target_port = target_port;
    }

    fn make_packet(&mut self, destination_ip: u32, validation: &[u32; 2], probe_num: u32) -> (packet:
        &[u8]) {
        let src_port = source_port(
            validation[1],
            probe_num,
            self.source_port_first,
            self.source_port_last,
        );
        let eth = make_eth_header(&self.source_mac, &self.gateway_mac);
        let mut ip_header = make_ip_header(IP_PROTOCOL_TCP);
        ip_header.total_len = 40;
        ip_header.source = self.source_ip;
        ip_header.destination = destination_ip;
        let mut tcp_header = make_tcp_header(self.target_port);
        tcp_header.source_port = src_port;
        tcp_header.sequence_number = validation[0];
        self.buffer = build_frame(&eth, &ip_header, &tcp_header);
        self.buffer.as_slice()
    }
}

/// A generator that keeps the frame of the last probe and changes only what
/// differs from probe to probe: the destination, the source port, the
/// sequence number and the two checksums.
pub struct PrecomputedProbeGenerator {
    source_mac: [u8; 6],
    gateway_mac: [u8; 6],
    source_ip: u32,
    source_port_first: u16,
    source_port_last: u16,
    target_port: u16,
    ip: Ipv4Header,
    tcp: TcpHeader,
    buffer: Vec<u8>,
}

impl PrecomputedProbeGenerator {
    /// A generator that is not set up yet.
    pub fn new() -> (g: Self)
        ensures
            !g.initialized(),
    {
        PrecomputedProbeGenerator {
            source_mac: [0, 0, 0, 0, 0, 0],
            gateway_mac: [0, 0, 0, 0, 0, 0],
            source_ip: 0,
            source_port_first: 0,
            source_port_last: 0,
            target_port: 0,
            ip: make_ip_header(IP_PROTOCOL_TCP),
            tcp: make_tcp_header(0),
            buffer: Vec::new(),
        }
    }

    /// The Ethernet header of every frame.
    pub closed spec fn eth(&self) -> Ethernet2Header {
        Ethernet2Header {
            source: self.source_mac,
            destination: self.gateway_mac,
            ether_type: ETHER_TYPE_IPV4,
        }
    }

    /// The headers that the buffer holds agree with the settings in all that
    /// stays the same from probe to probe.
    pub closed spec fn wf(&self) -> bool {
        &&& self.source_port_first <= self.source_port_last
        &&& self.buffer@ == frame_bytes(self.eth(), self.ip, self.tcp)
        &&& self.ip == (Ipv4Header {
            destination: self.ip.destination,
            header_checksum: self.ip.header_checksum,
            ..syn_headers(
                self.source_mac,
                self.gateway_mac,
                self.source_ip,
                self.source_port_first,
                self.source_port_last,
                self.target_port,
                0,
                [0, 0],
                0,
            ).1
        })
        &&& self.tcp == (TcpHeader {
            source_port: self.tcp.source_port,
            sequence_number: self.tcp.sequence_number,
            checksum: self.tcp.checksum,
            ..syn_headers(
                self.source_mac,
                self.gateway_mac,
                self.source_ip,
                self.source_port_first,
                self.source_port_last,
                self.target_port,
                0,
                [0, 0],
                0,
            ).2
        })
    }
}

impl Default for PrecomputedProbeGenerator {
    fn default() -> (g: Self)
        ensures
            !g.initialized(),
    {
        PrecomputedProbeGenerator::new()
    }
}

impl ProbeGenerator for PrecomputedProbeGenerator {
    closed spec fn initialized(&self) -> bool {
        self.wf()
    }

    closed spec fn frame_for(&self, destination_ip: u32, validation: [u32; 2], probe_num: u32) -> Seq<
        u8,
    > {
        syn_frame(
            self.source_mac,
            self.gateway_mac,
            self.source_ip,
            self.source_port_first,
            self.source_port_last,
            self.target_port,
            destination_ip,
            validation,
            probe_num,
        )
    }

    open spec fn frame_with(
        source_mac: [u8; 6],
        gateway_mac: [u8; 6],
        source_ip: u32,
        source_port_first: u16,
        source_port_last: u16,
        target_port: u16,
        destination_ip: u32,
        validation: [u32; 2],
        probe_num: u32,
    ) -> Seq<u8> {
        syn_frame(
            source_mac,
            gateway_mac,
            source_ip,
            source_port_first,
            source_port_last,
            target_port,
            destination_ip,
            validation,
            probe_num,
        )
    }

    fn thread_initialize(
        &mut self,
        source_mac: &[u8; 6],
        gateway_mac: &[u8; 6],
        source_ip: u32,
        source_port_first: u16,
        source_port_last: u16,
        target_port: u16,
    ) {
        self.source_mac = *source_mac;
        self.gateway_mac = *gateway_mac;
        self.source_ip = source_ip;
        self.source_port_first = source_port_first;
        self.source_port_last = source_port_last;
        self.target_port = target_port;
        let eth = make_eth_header(source_mac, gateway_mac);
        let mut ip = make_ip_header(IP_PROTOCOL_TCP);
        ip.source = source_ip;
        ip.total_len = 40;
        let tcp = make_tcp_header(target_port);
        self.buffer = write_frame(&eth, &ip, &tcp);
        self.ip = ip;
        self.tcp = tcp;
    }

    fn make_packet(&mut self, destination_ip: u32, validation: &[u32; 2], probe_num: u32) -> (packet:
        &[u8]) {
        let src_port = source_port(
            validation[1],
            probe_num,
            self.source_port_first,
            self.source_port_last,
        );
        let ghost eth = self.eth();
        proof {
            lemma_frame_flat(eth, self.ip, self.tcp);
            lemma_patch_destination(eth, self.ip, self.tcp, destination_ip);
        }
        put_be4(&mut self.buffer, 30, destination_ip);
        self.ip.destination = destination_ip;
        proof {
            lemma_patch_ip_checksum(eth, self.ip, self.tcp, 0);
        }
        put_be2(&mut self.buffer, 24, 0);
        self.ip.header_checksum = 0;
        proof {
            lemma_patch_source_port(eth, self.ip, self.tcp, src_port);
        }
        put_be2(&mut self.buffer, 34, src_port);
        self.tcp.source_port = src_port;
        proof {
            lemma_patch_sequence(eth, self.ip, self.tcp, validation[0]);
        }
        put_be4(&mut self.buffer, 38, validation[0]);
        self.tcp.sequence_number = validation[0];
        proof {
            lemma_patch_tcp_checksum(eth, self.ip, self.tcp, 0);
        }
        put_be2(&mut self.buffer, 50, 0);
        self.tcp.checksum = 0;
        proof {
            lemma_frame_flat(eth, self.ip, self.tcp);
        }
        let ip_sum = ip_checksum(&self.buffer.as_slice()[14..34]);
        let tcp_sum = tcp_checksum(
            &self.buffer.as_slice()[34..54],
            20,
            self.source_ip,
            destination_ip,
        );
        proof {
            lemma_patch_ip_checksum(eth, self.ip, self.tcp, ip_sum);
        }
        put_be2(&mut self.buffer, 24, ip_sum);
        self.ip.header_checksum = ip_sum;
        proof {
            lemma_patch_tcp_checksum(eth, self.ip, self.tcp, tcp_sum);
        }
        put_be2(&mut self.buffer, 50, tcp_sum);
        self.tcp.checksum = tcp_sum;
        self.buffer.as_slice()
    }
}

} // verus!
