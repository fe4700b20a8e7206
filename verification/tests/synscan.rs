use etherparse::{IpHeaders, IpNumber, Ipv4Header, PacketBuilder, SlicedPacket, TcpHeader};
use etherparse::{NetSlice, TransportSlice};
use zmap_rs::config::Config;
use zmap_rs::module_tcp_synscan::{
    check_dst_port, slice_reply, source_port, synscan_classify_packet, synscan_validate_packet,
    validate_reply, Ipv4Part, NaiveProbeGenerator, PrecomputedProbeGenerator, TcpPart,
    PACKET_LENGTH, PCAP_FILTER,
};
use zmap_rs::probe_modules::ProbeGenerator;

const MAC_SRC: [u8; 6] = [0xaa, 0x41, 0x72, 0x51, 0x54, 0x42];
const MAC_GW: [u8; 6] = [0xf6, 0xd4, 0x88, 0x07, 0x37, 0x64];
const OUR_IP: [u8; 4] = [192, 168, 68, 3];
const THEIR_IP: [u8; 4] = [46, 216, 152, 50];

fn config(first: u16, last: u16, probes: u32, target_port: u16) -> Config {
    Config {
        target_port,
        output_file: String::from("recv.log"),
        blacklist_file: None,
        whitelist_file: None,
        max_targets: u32::MAX,
        max_results: u32::MAX,
        max_runtime: 0,
        rate: 0,
        bandwidth: 0,
        cooldown_secs: 8,
        seed: 0,
        sender_threads: 1,
        probes,
        dryrun: true,
        source_port_first: first,
        source_port_last: last,
        source_ip_first: u32::from_be_bytes(OUR_IP),
        source_ip_last: u32::from_be_bytes(OUR_IP),
        interface: String::new(),
        gw_mac: MAC_GW,
        quiet: true,
        naive_probes: false,
    }
}

fn reply_frame(sport: u16, dport: u16, ack: u32, syn: bool, rst: bool) -> Vec<u8> {
    let ip = Ipv4Header::new(0, 64, IpNumber::TCP, THEIR_IP, OUR_IP).unwrap();
    let mut tcp = TcpHeader::new(sport, dport, 777, 1024);
    tcp.ack = true;
    tcp.syn = syn;
    tcp.rst = rst;
    tcp.acknowledgment_number = ack;
    let builder = PacketBuilder::ethernet2(MAC_GW, MAC_SRC)
        .ip(IpHeaders::Ipv4(ip, Default::default()))
        .tcp_header(tcp);
    let mut out = Vec::new();
    builder.write(&mut out, &[]).unwrap();
    out
}

#[test]
fn constants() {
    assert_eq!(PACKET_LENGTH, 54);
    assert_eq!(PCAP_FILTER, "tcp && tcp[13] & 4 != 0 || tcp[13] == 18");
}

#[test]
fn source_port_walks_round_the_range() {
    assert_eq!(source_port(0, 0, 1000, 1004), 1000);
    assert_eq!(source_port(7, 0, 1000, 1004), 1002);
    assert_eq!(source_port(7, 1, 1000, 1004), 1003);
    assert_eq!(source_port(7, 2, 1000, 1004), 1004);
    assert_eq!(source_port(7, 3, 1000, 1004), 1000);
    assert_eq!(source_port(123456789, 0, 32768, 61000), 32768 + 22113);
    assert_eq!(source_port(u32::MAX, u32::MAX, 0, 65535), 65534);
    assert_eq!(source_port(5, 9, 443, 443), 443);
}

#[test]
fn destination_port_check_admits_exactly_the_ports_sent_from() {
    let cfg = config(1000, 1004, 2, 80);
    let got: Vec<bool> = (999..=1005).map(|p| check_dst_port(p, &[0, 7], &cfg)).collect();
    assert_eq!(got, vec![false, false, false, true, true, false, false]);

    // Round the end of the range.
    let cfg = config(1000, 1004, 3, 80);
    let got: Vec<bool> = (1000..=1004).map(|p| check_dst_port(p, &[0, 9], &cfg)).collect();
    assert_eq!(got, vec![true, true, false, false, true]);

    for v1 in [0u32, 1, 4, 5, 77, u32::MAX] {
        for probes in 1..=5u32 {
            let cfg = config(1000, 1004, probes, 80);
            let sent: Vec<u16> =
                (0..probes).map(|i| source_port(v1, i, 1000, 1004)).collect();
            for p in 990..1010u16 {
                assert_eq!(
                    check_dst_port(p, &[0, v1], &cfg),
                    sent.contains(&p),
                    "v1 {} probes {} port {}",
                    v1,
                    probes,
                    p
                );
            }
        }
    }
}

#[test]
fn reply_validation() {
    let cfg = config(32768, 61000, 1, 443);
    let validation = [0xdead_beef, 123456789];
    let port = source_port(validation[1], 0, 32768, 61000);
    let ip = Ipv4Part {
        protocol: 6,
        source: u32::from_be_bytes(THEIR_IP),
        destination: u32::from_be_bytes(OUR_IP),
    };
    let tcp = TcpPart {
        source_port: 443,
        destination_port: port,
        acknowledgment_number: 0xdead_bef0,
        rst: false,
    };
    assert!(validate_reply(&ip, &tcp, &validation, &cfg));
    assert!(!validate_reply(&Ipv4Part { protocol: 17, ..ip }, &tcp, &validation, &cfg));
    assert!(!validate_reply(&ip, &TcpPart { source_port: 80, ..tcp }, &validation, &cfg));
    assert!(!validate_reply(&ip, &TcpPart { destination_port: port + 1, ..tcp }, &validation, &cfg));
    assert!(!validate_reply(
        &ip,
        &TcpPart { acknowledgment_number: 0xdead_beef, ..tcp },
        &validation,
        &cfg
    ));
    // The sequence number after the largest one is zero.
    let wrap = [u32::MAX, 123456789];
    assert!(validate_reply(&ip, &TcpPart { acknowledgment_number: 0, ..tcp }, &wrap, &cfg));
}

#[test]
fn frames_are_sliced_validated_and_classified() {
    let cfg = config(32768, 61000, 1, 443);
    let validation = [41, 123456789];
    let port = source_port(validation[1], 0, 32768, 61000);

    let synack = reply_frame(443, port, 42, true, false);
    let (ip, tcp) = slice_reply(&synack).unwrap();
    assert_eq!(ip.protocol, 6);
    assert_eq!(ip.source, u32::from_be_bytes(THEIR_IP));
    assert_eq!(ip.destination, u32::from_be_bytes(OUR_IP));
    assert_eq!(tcp.source_port, 443);
    assert_eq!(tcp.destination_port, port);
    assert_eq!(tcp.acknowledgment_number, 42);
    assert!(!tcp.rst);
    assert!(synscan_validate_packet(&synack, &validation, &cfg));
    assert!(synscan_classify_packet(&synack));

    let rst = reply_frame(443, port, 42, false, true);
    assert!(synscan_validate_packet(&rst, &validation, &cfg));
    assert!(!synscan_classify_packet(&rst));

    let wrong_ack = reply_frame(443, port, 43, true, false);
    assert!(!synscan_validate_packet(&wrong_ack, &validation, &cfg));
    let wrong_port = reply_frame(80, port, 42, true, false);
    assert!(!synscan_validate_packet(&wrong_port, &validation, &cfg));

    let garbage = [1u8, 2, 3];
    assert!(slice_reply(&garbage).is_none());
    assert!(!synscan_validate_packet(&garbage, &validation, &cfg));
    assert!(!synscan_classify_packet(&garbage));
    assert!(!synscan_validate_packet(&[], &validation, &cfg));
}

fn check_probe(frame: &[u8], dst: [u8; 4], sport: u16, seq: u32) {
    assert_eq!(frame.len(), 54);
    assert_eq!(&frame[0..6], &MAC_GW);
    assert_eq!(&frame[6..12], &MAC_SRC);
    assert_eq!(&frame[12..14], &[0x08, 0x00]);
    let sliced = SlicedPacket::from_ethernet(frame).unwrap();
    let ip = match &sliced.net {
        Some(NetSlice::Ipv4(s)) => s.header().to_header(),
        _ => panic!("no IPv4 header"),
    };
    assert_eq!(ip.source, OUR_IP);
    assert_eq!(ip.destination, dst);
    assert_eq!(ip.total_len, 40);
    assert_eq!(ip.identification, 54321);
    assert_eq!(ip.time_to_live, 255);
    assert_eq!(ip.protocol, IpNumber::TCP);
    assert!(!ip.dont_fragment && !ip.more_fragments);
    assert_eq!(ip.header_checksum, ip.calc_header_checksum());
    let tcp = match &sliced.transport {
        Some(TransportSlice::Tcp(s)) => s.to_header(),
        _ => panic!("no TCP header"),
    };
    assert_eq!(tcp.source_port, sport);
    assert_eq!(tcp.destination_port, 443);
    assert_eq!(tcp.sequence_number, seq);
    assert_eq!(tcp.acknowledgment_number, 0);
    assert!(tcp.syn && !tcp.ack && !tcp.rst && !tcp.fin && !tcp.psh && !tcp.urg);
    assert_eq!(tcp.window_size, 65535);
    assert_eq!(tcp.urgent_pointer, 0);
    assert_eq!(tcp.checksum, tcp.calc_checksum_ipv4(&ip, &[]).unwrap());
}

#[test]
fn precomputed_probe() {
    let mut g = PrecomputedProbeGenerator::new();
    g.thread_initialize(&MAC_SRC, &MAC_GW, u32::from_be_bytes(OUR_IP), 32768, 61000, 443);
    let validation = [2324566490, 123456789];
    let frame = g.make_packet(u32::from_be_bytes(THEIR_IP), &validation, 0).to_vec();
    check_probe(&frame, THEIR_IP, 32768 + 22113, 2324566490);
    let frame = g.make_packet(u32::from_be_bytes([8, 8, 8, 8]), &[7, 0], 3).to_vec();
    check_probe(&frame, [8, 8, 8, 8], 32771, 7);
    let frame = g.make_packet(u32::from_be_bytes(THEIR_IP), &validation, 0).to_vec();
    check_probe(&frame, THEIR_IP, 32768 + 22113, 2324566490);
}

#[test]
fn naive_probe() {
    let mut g = NaiveProbeGenerator::new();
    g.thread_initialize(&MAC_SRC, &MAC_GW, u32::from_be_bytes(OUR_IP), 32768, 61000, 443);
    let validation = [2324566490, 123456789];
    let frame = g.make_packet(u32::from_be_bytes(THEIR_IP), &validation, 0).to_vec();
    check_probe(&frame, THEIR_IP, 32768 + 22113, 2324566490);
}

#[test]
fn both_generators_build_the_same_frames() {
    let mut naive = NaiveProbeGenerator::new();
    let mut fast = PrecomputedProbeGenerator::new();
    naive.thread_initialize(&MAC_SRC, &MAC_GW, u32::from_be_bytes(OUR_IP), 40000, 40009, 80);
    fast.thread_initialize(&MAC_SRC, &MAC_GW, u32::from_be_bytes(OUR_IP), 40000, 40009, 80);
    let mut dst: u32 = 0x0102_0304;
    for i in 0..500u32 {
        dst = dst.wrapping_mul(2654435761).wrapping_add(12345);
        let validation = [dst.rotate_left(7) ^ 0x5a5a_5a5a, dst.rotate_left(13)];
        let a = naive.make_packet(dst, &validation, i % 4).to_vec();
        let b = fast.make_packet(dst, &validation, i % 4).to_vec();
        assert_eq!(a, b, "destination {:#x}", dst);
    }
}

#[test]
fn default_generators_are_set_up_like_new_ones() {
    let mut naive = NaiveProbeGenerator::default();
    let mut fast = PrecomputedProbeGenerator::default();
    naive.thread_initialize(&MAC_SRC, &MAC_GW, u32::from_be_bytes(OUR_IP), 32768, 61000, 443);
    fast.thread_initialize(&MAC_SRC, &MAC_GW, u32::from_be_bytes(OUR_IP), 32768, 61000, 443);
    let validation = [1, 2];
    let a = naive.make_packet(u32::from_be_bytes(THEIR_IP), &validation, 0).to_vec();
    let b = fast.make_packet(u32::from_be_bytes(THEIR_IP), &validation, 0).to_vec();
    check_probe(&a, THEIR_IP, 32770, 1);
    assert_eq!(a, b);
}
