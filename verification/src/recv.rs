//! The receiver's decisions: which replies count, which responders are new,
//! and when the scan is over.

use vstd::prelude::*;
use crate::config::Config;
use crate::module_tcp_synscan::{
    classify_reply,
    reply_valid,
    slice_reply,
    sliced_ipv4,
    sliced_tcp,
    validate_reply,
};
use crate::rijndael::AesCtx;
use crate::state::{receiver_grew, ReceiverState, SenderState};
use crate::validate::{gen, tag, tag_words, validation_words};

verus! {

/// The number of 64-bit words that hold one bit for each IPv4 address.
pub const SEEN_IPS_SIZE: usize = 0x4000000;

/// Whether the bit of `ip` is set in `words`.
pub open spec fn bit_set(words: Seq<u64>, ip: u32) -> bool {
    (words[(ip >> 6u32) as int] >> ((ip & 0x3Fu32) as u64)) & 1u64 == 1u64
}

/// The set of addresses that have answered: one bit for each IPv4 address.
pub struct SeenIps {
    bits: Vec<u64>,
    members: Ghost<Set<u32>>,
}

impl SeenIps {
    /// The addresses in the set.
    pub closed spec fn view(&self) -> Set<u32> {
        self.members@
    }

    /// The bits say what the set holds.
    pub closed spec fn wf(&self) -> bool {
        &&& self.bits@.len() == SEEN_IPS_SIZE
        &&& self.members@.finite()
        &&& forall|ip: u32| self.members@.contains(ip) <==> #[trigger] bit_set(self.bits@, ip)
    }

    /// The empty set.
    pub fn new() -> (s: Self)
        ensures
            s.wf(),
            s@ == Set::<u32>::empty(),
    {
        let bits: Vec<u64> = vec![0u64; SEEN_IPS_SIZE];
        assert forall|ip: u32| !#[trigger] bit_set(bits@, ip) by {
            let b = (ip & 0x3Fu32) as u64;
            assert((0u64 >> b) & 1u64 == 0u64) by (bit_vector);
            assert(ip >> 6u32 < 0x4000000u32) by (bit_vector);
        }
        SeenIps { bits, members: Ghost(Set::empty()) }
    }

    /// Whether `ip` is in the set.
    pub fn check_ip(&self, ip: u32) -> (seen: bool)
        requires
            self.wf(),
        ensures
            seen == self@.contains(ip),
    {
        assert(ip >> 6u32 < 0x4000000u32) by (bit_vector);
        assert(ip & 0x3Fu32 < 64u32) by (bit_vector);
        let word = self.bits[(ip >> 6) as usize];
        let shift: u64 = (ip & 0x3F) as u64;
        let bit = (word >> shift) & 1;
        assert(bit == 0u64 || bit == 1u64) by (bit_vector)
            requires
                bit == (word >> shift) & 1u64,
        ;
        assert(bit_set(self.bits@, ip) == (bit == 1u64));
        bit != 0
    }

    /// Puts `ip` into the set.
    pub fn set_ip(&mut self, ip: u32)
        requires
            old(self).wf(),
        ensures
            final(self).wf(),
            final(self)@ == old(self)@.insert(ip),
    {
        assert(ip >> 6u32 < 0x4000000u32) by (bit_vector);
        assert(ip & 0x3Fu32 < 64u32) by (bit_vector);
        let index = (ip >> 6) as usize;
        let shift: u64 = (ip & 0x3F) as u64;
        let word = self.bits[index];
        let marked = word | (1u64 << shift);
        self.bits.set(index, marked);
        proof {
            self.members@ = self.members@.insert(ip);
            assert forall|other: u32|
                self.members@.contains(other) <==> #[trigger] bit_set(self.bits@, other) by {
                let other_shift = (other & 0x3Fu32) as u64;
                assert(other >> 6u32 < 0x4000000u32) by (bit_vector);
                assert(other_shift < 64) by (bit_vector)
                    requires
                        other_shift == (other & 0x3Fu32) as u64,
                ;
                if other >> 6u32 == ip >> 6u32 {
                    assert(((word | (1u64 << shift)) >> other_shift) & 1u64 == 1u64 <==> ((word
                        >> other_shift) & 1u64 == 1u64 || other_shift == shift)) by (bit_vector)
                        requires
                            shift < 64,
                            other_shift < 64,
                    ;
                    assert((other >> 6u32 == ip >> 6u32 && (other & 0x3Fu32) == (ip & 0x3Fu32))
                        ==> other == ip) by (bit_vector);
                    assert(bit_set(old(self).bits@, other) == old(self).members@.contains(other));
                } else {
                    assert(bit_set(old(self).bits@, other) == old(self).members@.contains(other));
                }
            }
        }
    }
}

/// What became of a captured frame.
#[derive(Clone, Copy, Debug, PartialEq, Eq, Structural)]
pub enum Verdict {
    /// Not counted: no reply to a probe of ours.
    Ignored,
    /// A reply that reports a closed port.
    Failure,
    /// A reply from a responder that was seen before.
    Repeat,
    /// A reply from a new responder, whose address goes to the output.
    Fresh(u32),
}

/// Whether the receiver goes on.
#[derive(Clone, Copy, Debug, PartialEq, Eq, Structural)]
pub enum Stop {
    /// The receiver goes on.
    Continue,
    /// The scan has all the results it wants: the sender is to stop too.
    MaxResults,
    /// The cooldown after the send phase is over.
    Cooldown,
}

/// A reply to a probe of ours: who answered, whether the port is open, and
/// whether the send phase was over when it came.
pub struct Reply {
    pub source: u32,
    pub open: bool,
    pub in_cooldown: bool,
}

/// `n + 1` as a 32-bit counter that stops at its largest value.
pub open spec fn bumped(n: u32) -> u32 {
    if n == u32::MAX {
        n
    } else {
        (n + 1) as u32
    }
}

/// `n` as a 32-bit counter that stops at its largest value.
pub open spec fn capped(n: nat) -> u32 {
    if n > u32::MAX {
        u32::MAX
    } else {
        n as u32
    }
}

/// The counters after a reply is counted, where `seen` holds the responders
/// so far.
pub open spec fn counted(state: ReceiverState, seen: Set<u32>, reply: Reply) -> ReceiverState {
    if !reply.open {
        ReceiverState { failure_total: bumped(state.failure_total), ..state }
    } else {
        let fresh = !seen.contains(reply.source);
        ReceiverState {
            success_total: bumped(state.success_total),
            success_unique: if fresh {
                bumped(state.success_unique)
            } else {
                state.success_unique
            },
            cooldown_total: if reply.in_cooldown {
                bumped(state.cooldown_total)
            } else {
                state.cooldown_total
            },
            cooldown_unique: if reply.in_cooldown && fresh {
                bumped(state.cooldown_unique)
            } else {
                state.cooldown_unique
            },
            ..state
        }
    }
}

/// The responders after a reply is counted.
pub open spec fn responders(seen: Set<u32>, reply: Reply) -> Set<u32> {
    if reply.open {
        seen.insert(reply.source)
    } else {
        seen
    }
}

/// What a counted reply is reported as.
pub open spec fn verdict_of(seen: Set<u32>, reply: Reply) -> Verdict {
    if !reply.open {
        Verdict::Failure
    } else if seen.contains(reply.source) {
        Verdict::Repeat
    } else {
        Verdict::Fresh(reply.source)
    }
}

/// The reply that a captured frame is, under the key `key`: none where the
/// frame does not slice into IPv4 and TCP, or where it does not answer a
/// probe from its destination to its source.
pub open spec fn reply_in(packet: Seq<u8>, key: Seq<u8>, config: Config, in_cooldown: bool) -> Option<
    Reply,
> {
    match (sliced_ipv4(packet), sliced_tcp(packet)) {
        (Some(ip), Some(tcp)) => {
            let words = tag_words(tag(key, ip.destination, ip.source));
            if reply_valid(ip, tcp, words.0, words.1, config) {
                Some(Reply { source: ip.source, open: !tcp.rst, in_cooldown })
            } else {
                None
            }
        },
        _ => None,
    }
}

/// The different responders among the replies: the sources of those that
/// report an open port.
pub open spec fn sources_counted(replies: Seq<Reply>) -> Set<u32>
    decreases replies.len(),
{
    if replies.len() == 0 {
        Set::empty()
    } else {
        responders(sources_counted(replies.drop_last()), replies.last())
    }
}

/// Whether `after` is what `record` makes of `before` and `reply`, as far as
/// the responders go.
pub open spec fn recorded(before: Receiver, after: Receiver, reply: Reply) -> bool {
    after.wf() && after.seen() == responders(before.seen(), reply)
}

/// Deduplication over a whole scan: after any sequence of replies, recorded
/// one after another by a receiver that had seen nothing, the count of unique
/// successes is the number of different responders among the replies, as far
/// as the counter holds it.
pub proof fn lemma_dedup(receivers: Seq<Receiver>, replies: Seq<Reply>)
    requires
        receivers.len() == replies.len() + 1,
        receivers[0].wf(),
        receivers[0].seen() == Set::<u32>::empty(),
        forall|i: int|
            0 <= i < replies.len() ==> recorded(#[trigger] receivers[i], receivers[i + 1], replies[i]),
    ensures
        receivers.last().seen() == sources_counted(replies),
        receivers.last().state().success_unique == capped(sources_counted(replies).len()),
    decreases replies.len(),
{
    if replies.len() > 0 {
        let n = replies.len() as int;
        let earlier = receivers.drop_last();
        assert forall|i: int| 0 <= i < replies.drop_last().len() implies recorded(
            #[trigger] earlier[i],
            earlier[i + 1],
            replies.drop_last()[i],
        ) by {
            assert(recorded(receivers[i], receivers[i + 1], replies[i]));
        }
        lemma_dedup(earlier, replies.drop_last());
        assert(recorded(receivers[n - 1], receivers[n], replies[n - 1]));
        assert(earlier.last() == receivers[n - 1]);
    }
    receivers.last().lemma_unique_is_cardinality();
}

/// The receiver: its published state and the responders seen so far.
pub struct Receiver {
    state: ReceiverState,
    seen: SeenIps,
}

impl Receiver {
    /// The published state.
    pub closed spec fn state(&self) -> ReceiverState {
        self.state
    }

    /// The responders seen so far.
    pub closed spec fn seen(&self) -> Set<u32> {
        self.seen@
    }

    /// The count of unique successes is the number of responders seen, as
    /// far as the counter holds it, and no count of a part is above the count
    /// of the whole.
    pub closed spec fn wf(&self) -> bool {
        &&& self.seen.wf()
        &&& self.seen@.finite()
        &&& self.state.success_unique == capped(self.seen@.len())
        &&& self.state.success_unique <= self.state.success_total
        &&& self.state.cooldown_unique <= self.state.cooldown_total
        &&& self.state.cooldown_unique <= self.state.success_unique
        &&& self.state.cooldown_total <= self.state.success_total
    }

    /// Unique successes are successes, and those of the cooldown are among
    /// all.
    pub proof fn lemma_counters_ordered(&self)
        requires
            self.wf(),
        ensures
            self.state().success_unique <= self.state().success_total,
            self.state().cooldown_unique <= self.state().cooldown_total,
            self.state().cooldown_unique <= self.state().success_unique,
            self.state().cooldown_total <= self.state().success_total,
    {
    }

    /// Deduplication: the count of unique successes is the number of
    /// different responders, as far as the counter holds it.
    pub proof fn lemma_unique_is_cardinality(&self)
        requires
            self.wf(),
        ensures
            self.state().success_unique == capped(self.seen().len()),
            self.seen().finite(),
    {
    }

    /// A receiver that has seen nothing.
    pub fn new() -> (r: Self)
        ensures
            r.wf(),
            r.seen() == Set::<u32>::empty(),
            r.state() == (ReceiverState {
                ready: false,
                complete: false,
                success_unique: 0,
                success_total: 0,
                cooldown_unique: 0,
                cooldown_total: 0,
                failure_total: 0,
                start: 0,
                finish: 0,
                pcap_recv: 0,
                pcap_drop: 0,
                pcap_ifdrop: 0,
            }),
    {
        Receiver { state: ReceiverState::default(), seen: SeenIps::new() }
    }

    /// A copy of the published state.
    pub fn snapshot(&self) -> (s: ReceiverState)
        ensures
            s == self.state(),
    {
        self.state
    }

    /// Marks the receiver ready at time `now`.
    pub fn begin(&mut self, now: u64)
        requires
            old(self).wf(),
        ensures
            final(self).wf(),
            final(self).seen() == old(self).seen(),
            final(self).state() == (ReceiverState { ready: true, start: now, ..old(self).state() }),
            receiver_grew(old(self).state(), final(self).state()),
    {
        self.state.ready = true;
        self.state.start = now;
    }

    /// Marks the receiver complete at time `now`.
    pub fn finish(&mut self, now: u64)
        requires
            old(self).wf(),
        ensures
            final(self).wf(),
            final(self).seen() == old(self).seen(),
            final(self).state() == (ReceiverState {
                complete: true,
                finish: now,
                ..old(self).state()
            }),
            receiver_grew(old(self).state(), final(self).state()),
    {
        self.state.finish = now;
        self.state.complete = true;
    }

    /// Takes over the counters of the capture.
    pub fn update_pcap_stats(&mut self, recv: u32, drop: u32, ifdrop: u32)
        requires
            old(self).wf(),
        ensures
            final(self).wf(),
            final(self).seen() == old(self).seen(),
            final(self).state() == (ReceiverState {
                pcap_recv: recv,
                pcap_drop: drop,
                pcap_ifdrop: ifdrop,
                ..old(self).state()
            }),
            receiver_grew(old(self).state(), final(self).state()),
    {
        self.state.pcap_recv = recv;
        self.state.pcap_drop = drop;
        self.state.pcap_ifdrop = ifdrop;
    }

    /// Counts a reply to a probe of ours: a reply that reports a closed port
    /// as a failure, any other as a success, and a success from a responder
    /// that was not seen before as a unique one.
    pub fn record(&mut self, reply: &Reply) -> (v: Verdict)
        requires
            old(self).wf(),
        ensures
            final(self).wf(),
            receiver_grew(old(self).state(), final(self).state()),
            v == verdict_of(old(self).seen(), *reply),
            final(self).state() == counted(old(self).state(), old(self).seen(), *reply),
            final(self).seen() == responders(old(self).seen(), *reply),
    {
        if !reply.open {
            if self.state.failure_total < u32::MAX {
                self.state.failure_total = self.state.failure_total + 1;
            }
            return Verdict::Failure;
        }
        if self.state.success_total < u32::MAX {
            self.state.success_total = self.state.success_total + 1;
        }
        let is_repeat = self.seen.check_ip(reply.source);
        if !is_repeat {
            if self.state.success_unique < u32::MAX {
                self.state.success_unique = self.state.success_unique + 1;
            }
            self.seen.set_ip(reply.source);
        } else {
            assert(self.seen@.insert(reply.source) =~= self.seen@);
        }
        if reply.in_cooldown {
            if self.state.cooldown_total < u32::MAX {
                self.state.cooldown_total = self.state.cooldown_total + 1;
            }
            if !is_repeat && self.state.cooldown_unique < u32::MAX {
                self.state.cooldown_unique = self.state.cooldown_unique + 1;
            }
        }
        if is_repeat {
            Verdict::Repeat
        } else {
            Verdict::Fresh(reply.source)
        }
    }

    /// Handles a captured frame: a frame that answers a probe of ours is
    /// counted, any other is ignored. `sender_complete` says whether the send
    /// phase is over.
    pub fn process_packet(
        &mut self,
        packet: &[u8],
        ctx: &AesCtx,
        config: &Config,
        sender_complete: bool,
    ) -> (v: Verdict)
        requires
            old(self).wf(),
            config.source_port_first <= config.source_port_last,
        ensures
            final(self).wf(),
            receiver_grew(old(self).state(), final(self).state()),
            Self::processed(
                *old(self),
                *final(self),
                v,
                reply_in(packet@, ctx.key(), *config, sender_complete),
            ),
    {
        let (ip, tcp) = match slice_reply(packet) {
            Some(headers) => headers,
            None => {
                return Verdict::Ignored;
            },
        };
        let validation = validation_words(&gen(ctx, ip.destination, ip.source));
        if !validate_reply(&ip, &tcp, &validation, config) {
            return Verdict::Ignored;
        }
        let reply = Reply { source: ip.source, open: classify_reply(&tcp), in_cooldown: sender_complete };
        self.record(&reply)
    }

    /// What `process_packet` leaves for a frame that is the reply `reply`, or
    /// none.
    pub open spec fn processed(before: Self, after: Self, v: Verdict, reply: Option<Reply>) -> bool {
        if reply.is_none() {
            v == Verdict::Ignored && after.state() == before.state() && after.seen()
                == before.seen()
        } else {
            &&& v == verdict_of(before.seen(), reply.unwrap())
            &&& after.state() == counted(before.state(), before.seen(), reply.unwrap())
            &&& after.seen() == responders(before.seen(), reply.unwrap())
        }
    }

    /// Whether the receiver stops at time `now`, given the sender's state: it
    /// does when the scan has the results it wants, or when the send phase
    /// has been over for the whole cooldown.
    pub fn check_stop(&self, config: &Config, sender: &SenderState, now: u64) -> (s: Stop)
        ensures
            s == Self::stop_for(self.state(), *config, *sender, now),
    {
        if config.max_results > 0 && self.state.success_unique >= config.max_results {
            return Stop::MaxResults;
        }
        if sender.complete && now >= sender.finish && (now - sender.finish) / 1000
            >= config.cooldown_secs {
            return Stop::Cooldown;
        }
        Stop::Continue
    }

    /// Whether a receiver with the state `state` stops at time `now`.
    pub open spec fn stop_for(state: ReceiverState, config: Config, sender: SenderState, now: u64) -> Stop {
        if config.max_results > 0 && state.success_unique >= config.max_results {
            Stop::MaxResults
        } else if sender.complete && now - sender.finish >= config.cooldown_secs * 1000 {
            Stop::Cooldown
        } else {
            Stop::Continue
        }
    }
}

} // verus!
