use etherparse::{IpHeaders, IpNumber, Ipv4Header, PacketBuilder, TcpHeader};
use zmap_rs::blacklist::Blacklist;
use zmap_rs::config::Config;
use zmap_rs::cyclic::Cyclic;
use zmap_rs::module_tcp_synscan::{source_port, PrecomputedProbeGenerator};
use zmap_rs::probe_modules::ProbeGenerator;
use zmap_rs::recv::{Receiver, Reply, SeenIps, Stop, Verdict};
use zmap_rs::rijndael::AesCtx;
use zmap_rs::send::{make_probes, NextTarget, Sender, SenderError};
use zmap_rs::state::{phase, Phase, ReceiverState, SenderState};
use zmap_rs::validate::{gen, validation_words};

const OUR_IP: u32 = 0xC0A8_4403;

fn config() -> Config {
    Config {
        target_port: 443,
        output_file: String::from("recv.log"),
        blacklist_file: None,
        whitelist_file: None,
        max_targets: u32::MAX,
        max_results: u32::MAX,
        max_runtime: 0,
        rate: 0,
        bandwidth: 0,
        cooldown_secs: 8,
        seed: 0,
        sender_threads: 1,
        probes: 1,
        dryrun: true,
        source_port_first: 32768,
        source_port_last: 61000,
        source_ip_first: OUR_IP,
        source_ip_last: OUR_IP,
        interface: String::new(),
        gw_mac: [0; 6],
        quiet: true,
        naive_probes: false,
    }
}

fn lines(text: &[&str]) -> Vec<Vec<u8>> {
    text.iter().map(|l| l.as_bytes().to_vec()).collect()
}

fn reply_frame(key: &AesCtx, cfg: &Config, from: u32, rst: bool) -> Vec<u8> {
    let validation = validation_words(&gen(key, OUR_IP, from));
    let dport = source_port(validation[1], 0, cfg.source_port_first, cfg.source_port_last);
    let ip =
        Ipv4Header::new(0, 64, IpNumber::TCP, from.to_be_bytes(), OUR_IP.to_be_bytes()).unwrap();
    let mut tcp = TcpHeader::new(cfg.target_port, dport, 1, 1024);
    tcp.ack = true;
    tcp.syn = !rst;
    tcp.rst = rst;
    tcp.acknowledgment_number = validation[0].wrapping_add(1);
    let builder = PacketBuilder::ethernet2([1; 6], [2; 6])
        .ip(IpHeaders::Ipv4(ip, Default::default()))
        .tcp_header(tcp);
    let mut out = Vec::new();
    builder.write(&mut out, &[]).unwrap();
    out
}

#[test]
fn sender_starts_at_the_first_allowed_address() {
    let cfg = config();
    let s = Sender::new(&cfg, Cyclic::from_exponent(7, 1), Blacklist::new(None, None).unwrap(), 100)
        .unwrap();
    assert_eq!(s.state.first_scanned, 1);
    assert_eq!(s.state.blacklisted, 0);
    assert_eq!(s.state.targets, u32::MAX);
    assert_eq!(s.state.start, 100);
    assert_eq!(s.state.sent, 0);
    assert!(!s.state.complete);

    // With the lower half of the address space forbidden the walk from 1
    // passes 2187, 4782969, 1870418581 and 1796556575 and stops at 3469107271.
    let upper = Blacklist::new(None, Some(lines(&["0.0.0.0/1"]))).unwrap();
    let s = Sender::new(&cfg, Cyclic::from_exponent(7, 1), upper, 0).unwrap();
    assert_eq!(s.state.first_scanned, 3469107271);
    assert_eq!(s.state.blacklisted, 5);
    assert_eq!(s.state.targets, 1u32 << 31);
}

#[test]
fn sender_caps_the_targets() {
    let mut cfg = config();
    cfg.max_targets = 100;
    let s = Sender::new(&cfg, Cyclic::from_exponent(7, 1), Blacklist::new(None, None).unwrap(), 0)
        .unwrap();
    assert_eq!(s.state.targets, 100);
    let few = Blacklist::new(Some(lines(&["0.0.0.0/1"])), None).unwrap();
    cfg.max_targets = u32::MAX;
    let s = Sender::new(&cfg, Cyclic::from_exponent(7, 1), few, 0).unwrap();
    assert_eq!(s.state.targets, 1u32 << 31);
}

#[test]
fn sender_rejects_a_range_of_source_addresses() {
    let mut cfg = config();
    cfg.source_ip_last = OUR_IP + 1;
    let r = Sender::new(&cfg, Cyclic::from_exponent(7, 1), Blacklist::new(None, None).unwrap(), 0);
    assert!(matches!(r, Err(SenderError::SourceRange)));
}

#[test]
fn sender_hands_out_targets_until_the_cap() {
    let mut cfg = config();
    cfg.max_targets = 5;
    let mut s =
        Sender::new(&cfg, Cyclic::from_exponent(7, 1), Blacklist::new(None, None).unwrap(), 0)
            .unwrap();
    let mut got = Vec::new();
    for now in 1..=5u64 {
        match s.next_target(&cfg, now) {
            NextTarget::Probe(ip) => got.push(ip),
            NextTarget::Finished => panic!("finished early"),
        }
        assert!(!s.state.complete);
    }
    assert_eq!(got, vec![2187, 4782969, 1870418581, 1796556575, 3469107271]);
    assert_eq!(s.state.sent, 5);
    assert_eq!(s.next_target(&cfg, 77), NextTarget::Finished);
    assert!(s.state.complete);
    assert_eq!(s.state.finish, 77);
    assert_eq!(s.next_target(&cfg, 99), NextTarget::Finished);
    assert_eq!(s.state.finish, 77);
    assert_eq!(s.state.sent, 5);
}

#[test]
fn sender_skips_and_counts_forbidden_addresses() {
    let cfg = config();
    let upper = Blacklist::new(None, Some(lines(&["0.0.0.0/1"]))).unwrap();
    let mut s = Sender::new(&cfg, Cyclic::from_exponent(7, 1), upper, 0).unwrap();
    let before = s.state.blacklisted;
    // After 3469107271 comes 2025330451, which is forbidden.
    let mut reference = Cyclic::from_exponent(7, 3469107271);
    let mut skipped = 0;
    let expected = loop {
        let ip = reference.next_ip();
        if ip >= 0x8000_0000 {
            break ip;
        }
        skipped += 1;
    };
    assert!(skipped >= 1);
    assert_eq!(s.next_target(&cfg, 1), NextTarget::Probe(expected));
    assert_eq!(s.state.blacklisted, before + skipped);
    assert_eq!(s.state.sent, 1);
}

#[test]
fn sender_stops_when_the_runtime_is_used_up() {
    let mut cfg = config();
    cfg.max_runtime = 5;
    let mut s = Sender::new(
        &cfg,
        Cyclic::from_exponent(7, 1),
        Blacklist::new(None, None).unwrap(),
        1_000,
    )
    .unwrap();
    assert!(matches!(s.next_target(&cfg, 5_999), NextTarget::Probe(_)));
    assert!(matches!(s.next_target(&cfg, 500), NextTarget::Probe(_)));
    assert_eq!(s.next_target(&cfg, 6_000), NextTarget::Finished);
    assert!(s.state.complete);
    assert_eq!(s.state.finish, 6_000);
    assert_eq!(s.state.sent, 2);
}

#[test]
fn sender_can_be_stopped_and_counts_failures() {
    let cfg = config();
    let mut s =
        Sender::new(&cfg, Cyclic::from_exponent(7, 1), Blacklist::new(None, None).unwrap(), 0)
            .unwrap();
    s.record_sendto_failure();
    s.record_sendto_failure();
    assert_eq!(s.state.sendto_failures, 2);
    s.stop(40);
    assert!(s.state.complete);
    assert_eq!(s.state.finish, 40);
    s.stop(50);
    assert_eq!(s.state.finish, 40);
    assert_eq!(s.next_target(&cfg, 60), NextTarget::Finished);
}

#[test]
fn seen_addresses() {
    let mut seen = SeenIps::new();
    for ip in [0u32, 1, 63, 64, 65, 0x8000_0000, u32::MAX] {
        assert!(!seen.check_ip(ip));
    }
    seen.set_ip(64);
    seen.set_ip(u32::MAX);
    seen.set_ip(0);
    assert!(seen.check_ip(64) && seen.check_ip(u32::MAX) && seen.check_ip(0));
    for ip in [1u32, 63, 65, 128, 0x8000_0000, u32::MAX - 1] {
        assert!(!seen.check_ip(ip));
    }
    seen.set_ip(64);
    assert!(seen.check_ip(64));
}

#[test]
fn duplicate_responses_are_counted_once() {
    let cfg = config();
    let key = AesCtx::new(&[3u8; 16]);
    let mut r = Receiver::new();
    r.begin(10);
    let frame = reply_frame(&key, &cfg, 0x0808_0808, false);
    assert_eq!(r.process_packet(&frame, &key, &cfg, false), Verdict::Fresh(0x0808_0808));
    assert_eq!(r.process_packet(&frame, &key, &cfg, false), Verdict::Repeat);
    assert_eq!(r.process_packet(&frame, &key, &cfg, false), Verdict::Repeat);
    let s = r.snapshot();
    assert!(s.ready);
    assert_eq!(s.start, 10);
    assert_eq!((s.success_total, s.success_unique, s.failure_total), (3, 1, 0));
    assert_eq!((s.cooldown_total, s.cooldown_unique), (0, 0));
}

#[test]
fn replies_are_classified_and_foreign_frames_ignored() {
    let cfg = config();
    let key = AesCtx::new(&[3u8; 16]);
    let other_key = AesCtx::new(&[4u8; 16]);
    let mut r = Receiver::new();
    let open = reply_frame(&key, &cfg, 0x0101_0101, false);
    let closed = reply_frame(&key, &cfg, 0x0202_0202, true);
    let foreign = reply_frame(&other_key, &cfg, 0x0303_0303, false);
    assert_eq!(r.process_packet(&closed, &key, &cfg, false), Verdict::Failure);
    assert_eq!(r.process_packet(&foreign, &key, &cfg, false), Verdict::Ignored);
    assert_eq!(r.process_packet(&[0u8; 10], &key, &cfg, false), Verdict::Ignored);
    assert_eq!(r.process_packet(&open, &key, &cfg, true), Verdict::Fresh(0x0101_0101));
    assert_eq!(r.process_packet(&open, &key, &cfg, true), Verdict::Repeat);
    assert_eq!(r.process_packet(&closed, &key, &cfg, true), Verdict::Failure);
    let s = r.snapshot();
    assert_eq!((s.success_total, s.success_unique, s.failure_total), (2, 1, 2));
    assert_eq!((s.cooldown_total, s.cooldown_unique), (2, 1));
}

#[test]
fn max_results_short_circuit() {
    let mut cfg = config();
    cfg.max_results = 1;
    let key = AesCtx::new(&[3u8; 16]);
    let mut sender =
        Sender::new(&cfg, Cyclic::from_exponent(7, 1), Blacklist::new(None, None).unwrap(), 0)
            .unwrap();
    let target = match sender.next_target(&cfg, 1) {
        NextTarget::Probe(ip) => ip,
        NextTarget::Finished => panic!("finished early"),
    };
    let mut r = Receiver::new();
    assert_eq!(r.check_stop(&cfg, &sender.state, 2), Stop::Continue);
    let frame = reply_frame(&key, &cfg, target, false);
    assert_eq!(r.process_packet(&frame, &key, &cfg, sender.state.complete), Verdict::Fresh(target));
    assert_eq!(r.snapshot().success_unique, 1);
    assert_eq!(r.check_stop(&cfg, &sender.state, 3), Stop::MaxResults);
    sender.stop(3);
    r.finish(3);
    assert!(sender.state.complete);
    assert_eq!(sender.next_target(&cfg, 4), NextTarget::Finished);
    assert_eq!(phase(&sender.state, &r.snapshot()), Phase::Done);
    // A frame that still comes is counted like any other.
    let second = reply_frame(&key, &cfg, 0x0909_0909, false);
    assert_eq!(r.process_packet(&second, &key, &cfg, true), Verdict::Fresh(0x0909_0909));
    let s = r.snapshot();
    assert_eq!((s.success_total, s.success_unique), (2, 2));
    assert_eq!((s.cooldown_total, s.cooldown_unique), (1, 1));
}

#[test]
fn no_limit_on_results_counts_every_reply() {
    let mut cfg = config();
    cfg.max_results = 0;
    let key = AesCtx::new(&[3u8; 16]);
    let mut r = Receiver::new();
    let open = reply_frame(&key, &cfg, 0x0101_0101, false);
    let closed = reply_frame(&key, &cfg, 0x0202_0202, true);
    assert_eq!(r.process_packet(&open, &key, &cfg, false), Verdict::Fresh(0x0101_0101));
    assert_eq!(r.process_packet(&open, &key, &cfg, false), Verdict::Repeat);
    assert_eq!(r.process_packet(&closed, &key, &cfg, false), Verdict::Failure);
    let s = r.snapshot();
    assert_eq!((s.success_total, s.success_unique, s.failure_total), (2, 1, 1));
    assert_eq!(r.check_stop(&cfg, &SenderState::default(), 1_000_000), Stop::Continue);
}

#[test]
fn probes_of_one_target_in_order() {
    let mut cfg = config();
    cfg.probes = 3;
    cfg.source_port_first = 40000;
    cfg.source_port_last = 40009;
    let key = AesCtx::new(&[5u8; 16]);
    let target = 0x0808_0404;
    let validation = validation_words(&gen(&key, OUR_IP, target));
    let mut generator = PrecomputedProbeGenerator::new();
    generator.thread_initialize(&[1; 6], &[2; 6], OUR_IP, 40000, 40009, 443);
    let frames = make_probes(&mut generator, &key, &cfg, target);
    assert_eq!(frames.len(), 3);
    for (i, frame) in frames.iter().enumerate() {
        assert_eq!(frame.len(), 54);
        assert_eq!(&frame[30..34], &target.to_be_bytes());
        assert_eq!(&frame[38..42], &validation[0].to_be_bytes());
        let port = source_port(validation[1], i as u32, 40000, 40009);
        assert_eq!(&frame[34..36], &port.to_be_bytes());
        let again = generator.make_packet(target, &validation, i as u32).to_vec();
        assert_eq!(frame, &again);
    }
    cfg.probes = 0;
    assert!(make_probes(&mut generator, &key, &cfg, target).is_empty());
}

#[test]
fn receiver_stops_after_the_cooldown() {
    let cfg = config();
    let r = Receiver::new();
    let mut sender = SenderState::default();
    assert_eq!(r.check_stop(&cfg, &sender, 1_000_000), Stop::Continue);
    sender.complete = true;
    sender.finish = 10_000;
    assert_eq!(r.check_stop(&cfg, &sender, 10_000), Stop::Continue);
    assert_eq!(r.check_stop(&cfg, &sender, 17_999), Stop::Continue);
    assert_eq!(r.check_stop(&cfg, &sender, 18_000), Stop::Cooldown);
    assert_eq!(r.check_stop(&cfg, &sender, 9_000), Stop::Continue);
}

#[test]
fn recorded_replies() {
    let cfg = config();
    let mut r = Receiver::new();
    let a = Reply { source: 5, open: true, in_cooldown: false };
    let b = Reply { source: 6, open: true, in_cooldown: true };
    let c = Reply { source: 7, open: false, in_cooldown: true };
    assert_eq!(r.record(&a), Verdict::Fresh(5));
    assert_eq!(r.record(&b), Verdict::Fresh(6));
    assert_eq!(r.record(&a), Verdict::Repeat);
    assert_eq!(r.record(&c), Verdict::Failure);
    assert_eq!(r.record(&Reply { in_cooldown: true, ..a }), Verdict::Repeat);
    let s = r.snapshot();
    assert_eq!((s.success_total, s.success_unique, s.failure_total), (4, 2, 1));
    assert_eq!((s.cooldown_total, s.cooldown_unique), (2, 1));
    r.update_pcap_stats(10, 2, 1);
    let s = r.snapshot();
    assert_eq!((s.pcap_recv, s.pcap_drop, s.pcap_ifdrop), (10, 2, 1));
}

#[test]
fn phases() {
    let mut sender = SenderState::default();
    let mut receiver = ReceiverState::default();
    assert_eq!(phase(&sender, &receiver), Phase::Running);
    sender.complete = true;
    assert_eq!(phase(&sender, &receiver), Phase::Cooldown);
    receiver.complete = true;
    assert_eq!(phase(&sender, &receiver), Phase::Done);
}

#[test]
fn counters_never_go_down() {
    let mut cfg = config();
    cfg.max_targets = 50;
    let upper = Blacklist::new(None, Some(lines(&["0.0.0.0/2"]))).unwrap();
    let mut s = Sender::new(&cfg, Cyclic::from_exponent(7, 1), upper, 0).unwrap();
    let mut last = s.state;
    for now in 0..60u64 {
        s.next_target(&cfg, now);
        assert!(s.state.sent >= last.sent);
        assert!(s.state.blacklisted >= last.blacklisted);
        assert!(s.state.sendto_failures >= last.sendto_failures);
        assert!(s.state.complete || !last.complete);
        last = s.state;
    }
    assert_eq!(s.state.sent, 50);
    assert!(s.state.complete);
}
