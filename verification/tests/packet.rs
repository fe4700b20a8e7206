use etherparse::{IpHeaders, IpNumber, Ipv4Header, PacketBuilder, TcpHeader};
use zmap_rs::packet::{
    ip_checksum, make_eth_header, make_ip_header, make_tcp_header, tcp_checksum, write_frame,
};

const MAC_SRC: [u8; 6] = [0xaa, 0x41, 0x72, 0x51, 0x54, 0x42];
const MAC_DEST: [u8; 6] = [0xf6, 0xd4, 0x88, 0x07, 0x37, 0x64];
const IP_SRC: [u8; 4] = [192, 168, 68, 3];
const IP_DEST: [u8; 4] = [46, 216, 152, 50];

fn outside_ip_header() -> Ipv4Header {
    let own = make_ip_header(6);
    let mut header = Ipv4Header::new(0, own.time_to_live, IpNumber(own.protocol), IP_SRC, IP_DEST)
        .unwrap();
    header.identification = own.identification;
    header.dont_fragment = own.dont_fragment;
    header
}

fn outside_tcp_header() -> TcpHeader {
    let own = make_tcp_header(443);
    let mut header = TcpHeader::new(47782, own.destination_port, 2324566490, own.window_size);
    header.syn = own.syn;
    header
}

#[test]
fn test_ip_checksum() {
    let builder = PacketBuilder::ethernet2(MAC_SRC, MAC_DEST)
        .ip(IpHeaders::Ipv4(outside_ip_header(), Default::default()))
        .tcp_header(outside_tcp_header());

    let mut result = Vec::<u8>::with_capacity(builder.size(0));
    builder.write(&mut result, &[]).unwrap();

    let ip_header_without_checksum = [&result[14..24], &result[26..34]].concat();
    let expected_checksum = ip_checksum(&ip_header_without_checksum);
    let actual_checksum = u16::from_be_bytes([result[24], result[25]]);

    assert_eq!(actual_checksum, expected_checksum);
}

#[test]
fn test_tcp_checksum() {
    let builder = PacketBuilder::ethernet2(MAC_SRC, MAC_DEST)
        .ip(IpHeaders::Ipv4(outside_ip_header(), Default::default()))
        .tcp_header(outside_tcp_header());

    let mut result = Vec::<u8>::with_capacity(builder.size(0));
    builder.write(&mut result, &[]).unwrap();

    let expected_checksum = u16::from_be_bytes([result[50], result[51]]);
    let tcp_header_without_checksum = &result[34..50];
    let actual_checksum = tcp_checksum(
        tcp_header_without_checksum,
        20,
        u32::from_be_bytes(IP_SRC),
        u32::from_be_bytes(IP_DEST),
    );

    assert_eq!(expected_checksum, actual_checksum);
}

#[test]
fn checksum_of_known_header() {
    // The example header of RFC 1071 style texts: 4500 0073 0000 4000 4011 .... c0a8 0001 c0a8 00c7
    let header = [
        0x45, 0x00, 0x00, 0x73, 0x00, 0x00, 0x40, 0x00, 0x40, 0x11, 0x00, 0x00, 0xc0, 0xa8, 0x00,
        0x01, 0xc0, 0xa8, 0x00, 0xc7,
    ];
    assert_eq!(ip_checksum(&header), 0xb861);
}

#[test]
fn checksum_edge_values() {
    assert_eq!(ip_checksum(&[]), 0xFFFF);
    assert_eq!(ip_checksum(&[0, 0]), 0xFFFF);
    assert_eq!(ip_checksum(&[0xFF, 0xFF]), 0);
    assert_eq!(ip_checksum(&[0xFF, 0xFF, 0x00, 0x01]), 0xFFFE);
    assert_eq!(ip_checksum(&[0xFF, 0xFF, 0xFF, 0xFF]), 0);
    assert_eq!(tcp_checksum(&[], 0, 0, 0), 0xFFF9);
    assert_eq!(tcp_checksum(&[], 20, 0xFFFF_FFFF, 0xFFFF_FFFF), 0xFFE5);
}

#[test]
fn header_makers_fill_the_fixed_fields() {
    let eth = make_eth_header(&MAC_SRC, &MAC_DEST);
    assert_eq!(eth.source, MAC_SRC);
    assert_eq!(eth.destination, MAC_DEST);
    assert_eq!(eth.ether_type, 0x0800);
    let ip = make_ip_header(6);
    assert_eq!(
        (ip.dscp, ip.identification, ip.fragment_offset, ip.time_to_live, ip.protocol),
        (0, 54321, 0, 255, 6)
    );
    assert!(!ip.dont_fragment);
    assert_eq!(ip.header_checksum, 0);
    let tcp = make_tcp_header(443);
    assert_eq!(tcp.destination_port, 443);
    assert!(tcp.syn && !tcp.ece && !tcp.cwr);
    assert_eq!((tcp.window_size, tcp.checksum, tcp.urgent_pointer), (65535, 0, 0));
    assert_eq!((tcp.sequence_number, tcp.acknowledgment_number), (0, 0));
}

#[test]
fn frame_layout() {
    let eth = make_eth_header(&MAC_SRC, &MAC_DEST);
    let mut ip = make_ip_header(6);
    ip.total_len = 40;
    ip.source = u32::from_be_bytes(IP_SRC);
    ip.destination = u32::from_be_bytes(IP_DEST);
    ip.header_checksum = 0x1234;
    let mut tcp = make_tcp_header(443);
    tcp.source_port = 47782;
    tcp.sequence_number = 2324566490;
    tcp.checksum = 0xabcd;
    let frame = write_frame(&eth, &ip, &tcp);
    let expected: Vec<u8> = vec![
        0xf6, 0xd4, 0x88, 0x07, 0x37, 0x64, 0xaa, 0x41, 0x72, 0x51, 0x54, 0x42, 0x08, 0x00, //
        0x45, 0x00, 0x00, 0x28, 0xd4, 0x31, 0x00, 0x00, 0xff, 0x06, 0x12, 0x34, //
        192, 168, 68, 3, 46, 216, 152, 50, //
        0xba, 0xa6, 0x01, 0xbb, 0x8a, 0x8e, 0x11, 0xda, 0, 0, 0, 0, //
        0x50, 0x02, 0xff, 0xff, 0xab, 0xcd, 0x00, 0x00,
    ];
    assert_eq!(frame, expected);
}
