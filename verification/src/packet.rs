//! Headers of a probe and the Internet checksum.

use vstd::prelude::*;
use vstd::arithmetic::div_mod::{lemma_fundamental_div_mod, lemma_mod_multiples_vanish};

verus! {

pub const ETH_HDR_SIZE: usize = 14;

pub const IP_HDR_SIZE: usize = 20;

pub const TCP_HDR_SIZE: usize = 20;

pub const MAX_PACKET_SIZE: usize = 4096;

/// The EtherType of IPv4.
pub const ETHER_TYPE_IPV4: u16 = 0x0800;

/// The largest time to live.
pub const MAXTTL: u8 = 255;

/// The identification that every probe carries.
pub const IP_IDENTIFICATION: u16 = 54321;

/// An Ethernet II header.
#[derive(Clone, Copy, Debug)]
pub struct Ethernet2Header {
    pub source: [u8; 6],
    pub destination: [u8; 6],
    pub ether_type: u16,
}

/// An IPv4 header without options.
#[derive(Clone, Copy, Debug, PartialEq, Eq, Structural)]
pub struct Ipv4Header {
    pub dscp: u8,
    pub total_len: u16,
    pub identification: u16,
    pub dont_fragment: bool,
    pub fragment_offset: u16,
    pub time_to_live: u8,
    pub protocol: u8,
    pub header_checksum: u16,
    pub source: u32,
    pub destination: u32,
}

/// A TCP header without options.
#[derive(Clone, Copy, Debug, PartialEq, Eq, Structural)]
pub struct TcpHeader {
    pub source_port: u16,
    pub destination_port: u16,
    pub sequence_number: u32,
    pub acknowledgment_number: u32,
    pub syn: bool,
    pub ece: bool,
    pub cwr: bool,
    pub window_size: u16,
    pub checksum: u16,
    pub urgent_pointer: u16,
}

/// The Ethernet header of a probe from `source` to `destination`.
pub fn make_eth_header(source: &[u8; 6], destination: &[u8; 6]) -> (header: Ethernet2Header)
    ensures
        header == (Ethernet2Header {
            source: *source,
            destination: *destination,
            ether_type: ETHER_TYPE_IPV4,
        }),
{
    Ethernet2Header { source: *source, destination: *destination, ether_type: ETHER_TYPE_IPV4 }
}

/// The IPv4 header of a probe, with the addresses, the length and the
/// checksum still zero.
pub fn make_ip_header(protocol: u8) -> (header: Ipv4Header)
    ensures
        header == (Ipv4Header {
            dscp: 0,
            total_len: 0,
            identification: IP_IDENTIFICATION,
            dont_fragment: false,
            fragment_offset: 0,
            time_to_live: MAXTTL,
            protocol,
            header_checksum: 0,
            source: 0,
            destination: 0,
        }),
{
    Ipv4Header {
        dscp: 0,
        total_len: 0,
        identification: IP_IDENTIFICATION,
        dont_fragment: false,
        fragment_offset: 0,
        time_to_live: MAXTTL,
        protocol,
        header_checksum: 0,
        source: 0,
        destination: 0,
    }
}

/// The TCP header of a SYN probe to `port`, with the source port, the
/// sequence number and the checksum still zero.
pub fn make_tcp_header(port: u16) -> (header: TcpHeader)
    ensures
        header == (TcpHeader {
            source_port: 0,
            destination_port: port,
            sequence_number: 0,
            acknowledgment_number: 0,
            syn: true,
            ece: false,
            cwr: false,
            window_size: u16::MAX,
            checksum: 0,
            urgent_pointer: 0,
        }),
{
    TcpHeader {
        source_port: 0,
        destination_port: port,
        sequence_number: 0,
        acknowledgment_number: 0,
        syn: true,
        ece: false,
        cwr: false,
        window_size: u16::MAX,
        checksum: 0,
        urgent_pointer: 0,
    }
}

/// The sum of the 16-bit big-endian words in the first `n` bytes of `bytes`,
/// `n` being even.
pub open spec fn word_sum(bytes: Seq<u8>, n: int) -> nat
    decreases n,
{
    if n < 2 {
        0
    } else {
        word_sum(bytes, n - 2) + (bytes[n - 2] as nat) * 256 + (bytes[n - 1] as nat)
    }
}

/// A sum folded into 16 bits with end-around carry: zero stays zero, any
/// other sum becomes its residue modulo 65535 in the range from 1 to 65535.
pub open spec fn folded(sum: nat) -> nat {
    if sum == 0 {
        0
    } else {
        ((sum - 1) % 65535 + 1) as nat
    }
}

/// The Internet checksum of a sum of words: the complement of the folded
/// sum.
pub open spec fn checksum_of(sum: nat) -> u16 {
    (65535 - folded(sum)) as u16
}

/// What the pseudo header adds to the checksum of a TCP segment: the halves
/// of both addresses, the length of the segment, and the protocol number.
pub open spec fn pseudo_header_sum(tcp_len: u16, src_ip: u32, dst_ip: u32) -> nat {
    (src_ip / 65536 + src_ip % 65536 + dst_ip / 65536 + dst_ip % 65536 + tcp_len + 6) as nat
}

/// Adding the upper part of a sum to its lower 16 bits does not change what
/// it folds to, and makes it smaller.
proof fn lemma_fold_step(sum: u128)
    requires
        sum >= 65536,
    ensures
        folded(((sum >> 16) + (sum & 0xFFFF)) as nat) == folded(sum as nat),
        (sum >> 16) + (sum & 0xFFFF) < sum,
        (sum >> 16) + (sum & 0xFFFF) > 0,
{
    let high = sum >> 16;
    let low = sum & 0xFFFF;
    assert(high == sum / 65536 && low == sum % 65536) by (bit_vector)
        requires
            high == sum >> 16,
            low == sum & 0xFFFF,
    ;
    lemma_fundamental_div_mod(sum as int, 65536);
    assert(sum == 65536 * high + low);
    assert(sum - 1 == 65535 * high + (high + low - 1));
    lemma_mod_multiples_vanish(high as int, high + low - 1, 65535);
}

/// Folds a sum of words and complements it.
fn finish_checksum(sum: u128) -> (c: u16)
    ensures
        c == checksum_of(sum as nat),
{
    let mut rest: u128 = sum;
    while rest >> 16 != 0
        invariant
            folded(rest as nat) == folded(sum as nat),
        decreases rest,
    {
        assert(rest >= 65536) by (bit_vector)
            requires
                rest >> 16 != 0,
        ;
        proof {
            lemma_fold_step(rest);
        }
        rest = (rest >> 16) + (rest & 0xFFFF);
    }
    assert(rest <= 65535) by (bit_vector)
        requires
            rest >> 16 == 0,
    ;
    assert(folded(rest as nat) == rest);
    (65535 - rest) as u16
}

/// Sums the 16-bit words of `bytes` on top of `start`.
fn add_words(start: u128, bytes: &[u8]) -> (sum: u128)
    requires
        bytes@.len() % 2 == 0,
        start <= 0xFFFF_FFFF_FFFF,
    ensures
        sum == start + word_sum(bytes@, bytes@.len() as int),
{
    let mut sum: u128 = start;
    let mut i: usize = 0;
    while i < bytes.len()
        invariant
            i <= bytes@.len(),
            i % 2 == 0,
            bytes@.len() % 2 == 0,
            sum == start + word_sum(bytes@, i as int),
            sum <= start + 65535 * (i / 2),
            start <= 0xFFFF_FFFF_FFFF,
        decreases bytes@.len() - i,
    {
        let word: u128 = (bytes[i] as u128) * 256 + (bytes[i + 1] as u128);
        sum = sum + word;
        i = i + 2;
    }
    sum
}

/// The checksum of an IPv4 header whose checksum field is zero or left out:
/// the complement of the folded sum of its 16-bit words.
pub fn ip_checksum(ip_header: &[u8]) -> (c: u16)
    requires
        ip_header@.len() % 2 == 0,
    ensures
        c == checksum_of(word_sum(ip_header@, ip_header@.len() as int)),
{
    let sum = add_words(0, ip_header);
    finish_checksum(sum)
}

/// The checksum of a TCP segment whose checksum field is zero or left out,
/// with the pseudo header of the given addresses and length.
pub fn tcp_checksum(tcp_header: &[u8], tcp_len: u16, src_ip: u32, dst_ip: u32) -> (c: u16)
    requires
        tcp_header@.len() % 2 == 0,
    ensures
        c == checksum_of(
            pseudo_header_sum(tcp_len, src_ip, dst_ip) + word_sum(
                tcp_header@,
                tcp_header@.len() as int,
            ),
        ),
{
    let mut sum: u128 = 0;
    assert(src_ip >> 16 == src_ip / 65536 && src_ip & 0xFFFF == src_ip % 65536) by (bit_vector);
    assert(dst_ip >> 16 == dst_ip / 65536 && dst_ip & 0xFFFF == dst_ip % 65536) by (bit_vector);
    sum = sum + (src_ip >> 16) as u128 + (src_ip & 0xFFFF) as u128;
    sum = sum + (dst_ip >> 16) as u128 + (dst_ip & 0xFFFF) as u128;
    sum = sum + tcp_len as u128;
    sum = sum + 6;
    let total = add_words(sum, tcp_header);
    finish_checksum(total)
}

/// The two bytes of `x`, most significant first.
pub open spec fn be2(x: u16) -> Seq<u8> {
    seq![(x >> 8u16) as u8, (x & 0xff) as u8]
}

/// The four bytes of `x`, most significant first.
pub open spec fn be4(x: u32) -> Seq<u8> {
    seq![(x >> 24u32) as u8, ((x >> 16u32) & 0xff) as u8, ((x >> 8u32) & 0xff) as u8, (x & 0xff) as u8]
}

/// The 14 bytes of an Ethernet II header on the wire.
pub open spec fn eth_header_bytes(h: Ethernet2Header) -> Seq<u8> {
    h.destination@ + h.source@ + be2(h.ether_type)
}

/// The byte of an IPv4 header that holds the flags and the upper bits of the
/// fragment offset.
pub open spec fn ip_flags_byte(h: Ipv4Header) -> u8 {
    (if h.dont_fragment {
        64u8
    } else {
        0u8
    }) | (((h.fragment_offset >> 8u16) & 0x1f) as u8)
}

/// The 20 bytes of an IPv4 header without options on the wire, with the
/// checksum as the header holds it.
pub open spec fn ip_header_bytes(h: Ipv4Header) -> Seq<u8> {
    seq![0x45u8, (h.dscp << 2u8)] + be2(h.total_len) + be2(h.identification) + seq![
        ip_flags_byte(h),
        (h.fragment_offset & 0xff) as u8,
        h.time_to_live,
        h.protocol,
    ] + be2(h.header_checksum) + be4(h.source) + be4(h.destination)
}

/// The byte of a TCP header that holds the flags.
pub open spec fn tcp_flags_byte(h: TcpHeader) -> u8 {
    (if h.syn {
        2u8
    } else {
        0u8
    }) | (if h.ece {
        64u8
    } else {
        0u8
    }) | (if h.cwr {
        128u8
    } else {
        0u8
    })
}

/// The 20 bytes of a TCP header without options on the wire, with the
/// checksum as the header holds it.
pub open spec fn tcp_header_bytes(h: TcpHeader) -> Seq<u8> {
    be2(h.source_port) + be2(h.destination_port) + be4(h.sequence_number) + be4(
        h.acknowledgment_number,
    ) + seq![0x50u8, tcp_flags_byte(h)] + be2(h.window_size) + be2(h.checksum) + be2(
        h.urgent_pointer,
    )
}

/// The 54 bytes of a frame of the three headers and no payload.
pub open spec fn frame_bytes(eth: Ethernet2Header, ip: Ipv4Header, tcp: TcpHeader) -> Seq<u8> {
    eth_header_bytes(eth) + ip_header_bytes(ip) + tcp_header_bytes(tcp)
}

/// The checksum that belongs into an IPv4 header.
pub open spec fn ip_header_checksum(h: Ipv4Header) -> u16 {
    checksum_of(word_sum(ip_header_bytes(Ipv4Header { header_checksum: 0, ..h }), 20))
}

/// The checksum that belongs into a TCP header without payload, between the
/// given addresses.
pub open spec fn tcp_header_checksum(h: TcpHeader, src_ip: u32, dst_ip: u32) -> u16 {
    checksum_of(
        pseudo_header_sum(20, src_ip, dst_ip) + word_sum(
            tcp_header_bytes(TcpHeader { checksum: 0, ..h }),
            20,
        ),
    )
}

/// The bytes of a frame, one by one.
pub open spec fn flat_frame(eth: Ethernet2Header, ip: Ipv4Header, tcp: TcpHeader) -> Seq<u8> {
    seq![
        eth.destination[0],
        eth.destination[1],
        eth.destination[2],
        eth.destination[3],
        eth.destination[4],
        eth.destination[5],
        eth.source[0],
        eth.source[1],
        eth.source[2],
        eth.source[3],
        eth.source[4],
        eth.source[5],
        (eth.ether_type >> 8u16) as u8,
        (eth.ether_type & 0xff) as u8,
        0x45u8,
        ip.dscp << 2u8,
        (ip.total_len >> 8u16) as u8,
        (ip.total_len & 0xff) as u8,
        (ip.identification >> 8u16) as u8,
        (ip.identification & 0xff) as u8,
        ip_flags_byte(ip),
        (ip.fragment_offset & 0xff) as u8,
        ip.time_to_live,
        ip.protocol,
        (ip.header_checksum >> 8u16) as u8,
        (ip.header_checksum & 0xff) as u8,
        (ip.source >> 24u32) as u8,
        ((ip.source >> 16u32) & 0xff) as u8,
        ((ip.source >> 8u32) & 0xff) as u8,
        (ip.source & 0xff) as u8,
        (ip.destination >> 24u32) as u8,
        ((ip.destination >> 16u32) & 0xff) as u8,
        ((ip.destination >> 8u32) & 0xff) as u8,
        (ip.destination & 0xff) as u8,
        (tcp.source_port >> 8u16) as u8,
        (tcp.source_port & 0xff) as u8,
        (tcp.destination_port >> 8u16) as u8,
        (tcp.destination_port & 0xff) as u8,
        (tcp.sequence_number >> 24u32) as u8,
        ((tcp.sequence_number >> 16u32) & 0xff) as u8,
        ((tcp.sequence_number >> 8u32) & 0xff) as u8,
        (tcp.sequence_number & 0xff) as u8,
        (tcp.acknowledgment_number >> 24u32) as u8,
        ((tcp.acknowledgment_number >> 16u32) & 0xff) as u8,
        ((tcp.acknowledgment_number >> 8u32) & 0xff) as u8,
        (tcp.acknowledgment_number & 0xff) as u8,
        0x50u8,
        tcp_flags_byte(tcp),
        (tcp.window_size >> 8u16) as u8,
        (tcp.window_size & 0xff) as u8,
        (tcp.checksum >> 8u16) as u8,
        (tcp.checksum & 0xff) as u8,
        (tcp.urgent_pointer >> 8u16) as u8,
        (tcp.urgent_pointer & 0xff) as u8,
    ]
}

/// The frame of three headers is their bytes in a row.
pub proof fn lemma_frame_flat(eth: Ethernet2Header, ip: Ipv4Header, tcp: TcpHeader)
    ensures
        frame_bytes(eth, ip, tcp) == flat_frame(eth, ip, tcp),
        frame_bytes(eth, ip, tcp).len() == 54,
        frame_bytes(eth, ip, tcp).subrange(14, 34) == ip_header_bytes(ip),
        frame_bytes(eth, ip, tcp).subrange(34, 54) == tcp_header_bytes(tcp),
{
    assert(frame_bytes(eth, ip, tcp) =~= flat_frame(eth, ip, tcp));
    assert(frame_bytes(eth, ip, tcp).subrange(14, 34) =~= ip_header_bytes(ip));
    assert(frame_bytes(eth, ip, tcp).subrange(34, 54) =~= tcp_header_bytes(tcp));
}

/// Writes the frame of the three headers, with no payload and with the
/// checksums as the headers hold them.
pub fn write_frame(eth: &Ethernet2Header, ip: &Ipv4Header, tcp: &TcpHeader) -> (out: Vec<u8>)
    ensures
        out@ == frame_bytes(*eth, *ip, *tcp),
{
    let flags: u8 = (if ip.dont_fragment {
        64u8
    } else {
        0u8
    }) | (((ip.fragment_offset >> 8) & 0x1f) as u8);
    let tcp_flags: u8 = (if tcp.syn {
        2u8
    } else {
        0u8
    }) | (if tcp.ece {
        64u8
    } else {
        0u8
    }) | (if tcp.cwr {
        128u8
    } else {
        0u8
    });
    let out: Vec<u8> = vec![
        eth.destination[0],
        eth.destination[1],
        eth.destination[2],
        eth.destination[3],
        eth.destination[4],
        eth.destination[5],
        eth.source[0],
        eth.source[1],
        eth.source[2],
        eth.source[3],
        eth.source[4],
        eth.source[5],
        (eth.ether_type >> 8) as u8,
        (eth.ether_type & 0xff) as u8,
        0x45u8,
        ip.dscp << 2,
        (ip.total_len >> 8) as u8,
        (ip.total_len & 0xff) as u8,
        (ip.identification >> 8) as u8,
        (ip.identification & 0xff) as u8,
        flags,
        (ip.fragment_offset & 0xff) as u8,
        ip.time_to_live,
        ip.protocol,
        (ip.header_checksum >> 8) as u8,
        (ip.header_checksum & 0xff) as u8,
        (ip.source >> 24) as u8,
        ((ip.source >> 16) & 0xff) as u8,
        ((ip.source >> 8) & 0xff) as u8,
        (ip.source & 0xff) as u8,
        (ip.destination >> 24) as u8,
        ((ip.destination >> 16) & 0xff) as u8,
        ((ip.destination >> 8) & 0xff) as u8,
        (ip.destination & 0xff) as u8,
        (tcp.source_port >> 8) as u8,
        (tcp.source_port & 0xff) as u8,
        (tcp.destination_port >> 8) as u8,
        (tcp.destination_port & 0xff) as u8,
        (tcp.sequence_number >> 24) as u8,
        ((tcp.sequence_number >> 16) & 0xff) as u8,
        ((tcp.sequence_number >> 8) & 0xff) as u8,
        (tcp.sequence_number & 0xff) as u8,
        (tcp.acknowledgment_number >> 24) as u8,
        ((tcp.acknowledgment_number >> 16) & 0xff) as u8,
        ((tcp.acknowledgment_number >> 8) & 0xff) as u8,
        (tcp.acknowledgment_number & 0xff) as u8,
        0x50u8,
        tcp_flags,
        (tcp.window_size >> 8) as u8,
        (tcp.window_size & 0xff) as u8,
        (tcp.checksum >> 8) as u8,
        (tcp.checksum & 0xff) as u8,
        (tcp.urgent_pointer >> 8) as u8,
        (tcp.urgent_pointer & 0xff) as u8,
    ];
    proof {
        lemma_frame_flat(*eth, *ip, *tcp);
    }
    assert(out@ =~= flat_frame(*eth, *ip, *tcp));
    out
}

/// `bytes` with the two bytes of `x` at `at`.
pub open spec fn with_be2(bytes: Seq<u8>, at: int, x: u16) -> Seq<u8> {
    bytes.update(at, (x >> 8u16) as u8).update(at + 1, (x & 0xff) as u8)
}

/// `bytes` with the four bytes of `x` at `at`.
pub open spec fn with_be4(bytes: Seq<u8>, at: int, x: u32) -> Seq<u8> {
    bytes.update(at, (x >> 24u32) as u8).update(at + 1, ((x >> 16u32) & 0xff) as u8).update(
        at + 2,
        ((x >> 8u32) & 0xff) as u8,
    ).update(at + 3, (x & 0xff) as u8)
}

/// Writes the two bytes of `x` into `buffer` at `at`.
pub fn put_be2(buffer: &mut Vec<u8>, at: usize, x: u16)
    requires
        at + 2 <= old(buffer).len(),
    ensures
        final(buffer)@ == with_be2(old(buffer)@, at as int, x),
{
    buffer.set(at, (x >> 8) as u8);
    buffer.set(at + 1, (x & 0xff) as u8);
}

/// Writes the four bytes of `x` into `buffer` at `at`.
pub fn put_be4(buffer: &mut Vec<u8>, at: usize, x: u32)
    requires
        at + 4 <= old(buffer).len(),
    ensures
        final(buffer)@ == with_be4(old(buffer)@, at as int, x),
{
    buffer.set(at, (x >> 24) as u8);
    buffer.set(at + 1, ((x >> 16) & 0xff) as u8);
    buffer.set(at + 2, ((x >> 8) & 0xff) as u8);
    buffer.set(at + 3, (x & 0xff) as u8);
}

/// Writing an address at byte 30 of a frame changes its IPv4 destination.
pub proof fn lemma_patch_destination(eth: Ethernet2Header, ip: Ipv4Header, tcp: TcpHeader, x: u32)
    ensures
        with_be4(frame_bytes(eth, ip, tcp), 30, x) == frame_bytes(
            eth,
            Ipv4Header { destination: x, ..ip },
            tcp,
        ),
{
    lemma_frame_flat(eth, ip, tcp);
    lemma_frame_flat(eth, Ipv4Header { destination: x, ..ip }, tcp);
    assert(with_be4(flat_frame(eth, ip, tcp), 30, x) =~= flat_frame(
        eth,
        Ipv4Header { destination: x, ..ip },
        tcp,
    ));
}

/// Writing a number at byte 24 of a frame changes its IPv4 checksum.
pub proof fn lemma_patch_ip_checksum(eth: Ethernet2Header, ip: Ipv4Header, tcp: TcpHeader, x: u16)
    ensures
        with_be2(frame_bytes(eth, ip, tcp), 24, x) == frame_bytes(
            eth,
            Ipv4Header { header_checksum: x, ..ip },
            tcp,
        ),
{
    lemma_frame_flat(eth, ip, tcp);
    lemma_frame_flat(eth, Ipv4Header { header_checksum: x, ..ip }, tcp);
    assert(with_be2(flat_frame(eth, ip, tcp), 24, x) =~= flat_frame(
        eth,
        Ipv4Header { header_checksum: x, ..ip },
        tcp,
    ));
}

/// Writing a number at byte 34 of a frame changes its TCP source port.
pub proof fn lemma_patch_source_port(eth: Ethernet2Header, ip: Ipv4Header, tcp: TcpHeader, x: u16)
    ensures
        with_be2(frame_bytes(eth, ip, tcp), 34, x) == frame_bytes(
            eth,
            ip,
            TcpHeader { source_port: x, ..tcp },
        ),
{
    lemma_frame_flat(eth, ip, tcp);
    lemma_frame_flat(eth, ip, TcpHeader { source_port: x, ..tcp });
    assert(with_be2(flat_frame(eth, ip, tcp), 34, x) =~= flat_frame(
        eth,
        ip,
        TcpHeader { source_port: x, ..tcp },
    ));
}

/// Writing a number at byte 38 of a frame changes its TCP sequence number.
pub proof fn lemma_patch_sequence(eth: Ethernet2Header, ip: Ipv4Header, tcp: TcpHeader, x: u32)
    ensures
        with_be4(frame_bytes(eth, ip, tcp), 38, x) == frame_bytes(
            eth,
            ip,
            TcpHeader { sequence_number: x, ..tcp },
        ),
{
    lemma_frame_flat(eth, ip, tcp);
    lemma_frame_flat(eth, ip, TcpHeader { sequence_number: x, ..tcp });
    assert(with_be4(flat_frame(eth, ip, tcp), 38, x) =~= flat_frame(
        eth,
        ip,
        TcpHeader { sequence_number: x, ..tcp },
    ));
}

/// Writing a number at byte 50 of a frame changes its TCP checksum.
pub proof fn lemma_patch_tcp_checksum(eth: Ethernet2Header, ip: Ipv4Header, tcp: TcpHeader, x: u16)
    ensures
        with_be2(frame_bytes(eth, ip, tcp), 50, x) == frame_bytes(
            eth,
            ip,
            TcpHeader { checksum: x, ..tcp },
        ),
{
    lemma_frame_flat(eth, ip, tcp);
    lemma_frame_flat(eth, ip, TcpHeader { checksum: x, ..tcp });
    assert(with_be2(flat_frame(eth, ip, tcp), 50, x) =~= flat_frame(
        eth,
        ip,
        TcpHeader { checksum: x, ..tcp },
    ));
}

} // verus!
