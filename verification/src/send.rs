//! The sender's decisions: where the scan starts, which address is probed
//! next, and when the send phase ends.

use vstd::prelude::*;
use vstd::slice::slice_to_vec;
use crate::blacklist::Blacklist;
use crate::config::Config;
use crate::constraint::ADDRESS_SPACE;
use crate::coverage::{
    lemma_all_invertible,
    lemma_permutation_coverage,
    lemma_walk_periodic,
    round,
    visits,
};
use crate::cyclic::{
    has_inverse,
    is_found,
    lemma_walk_adds,
    lemma_walk_returns,
    next_address,
    walk,
    Cyclic,
    ADDRESS_LIMIT,
    PRIME,
};
use crate::probe_modules::ProbeGenerator;
use crate::rijndael::AesCtx;
use crate::state::{sender_grew, SenderState};
use crate::validate::{gen, tag, validation_of, validation_words};

verus! {

/// Why a sender could not be set up.
#[derive(Clone, Copy, Debug, PartialEq, Eq, Structural)]
pub enum SenderError {
    /// The first and the last source address differ.
    SourceRange,
    /// A whole round of the permutation holds no allowed address.
    NoAllowedAddress,
}

/// What the sender does next.
#[derive(Clone, Copy, Debug, PartialEq, Eq, Structural)]
pub enum NextTarget {
    /// The send phase is over.
    Finished,
    /// Probe this address.
    Probe(u32),
}

/// `n` as a 32-bit counter that stops at its largest value.
pub open spec fn saturated(n: int) -> u32 {
    if n > u32::MAX {
        u32::MAX
    } else {
        n as u32
    }
}

/// The number of IPv4 addresses among the states of the first `k` steps.
pub open spec fn addresses_within(c: nat, g: nat, k: nat) -> nat
    decreases k,
{
    if k == 0 {
        0
    } else {
        addresses_within(c, g, (k - 1) as nat) + if walk(c, g, k) < ADDRESS_LIMIT {
            1nat
        } else {
            0nat
        }
    }
}

/// Whether `ip`, reached after `k` steps, is the first allowed address on
/// the walk from `c`.
pub open spec fn next_allowed(blacklist: Blacklist, c: nat, g: nat, k: nat, ip: u32) -> bool {
    &&& k >= 1
    &&& walk(c, g, k) == ip
    &&& blacklist.allows(ip)
    &&& forall|m: nat|
        1 <= m < k ==> #[trigger] walk(c, g, m) >= ADDRESS_LIMIT || !blacklist.allows(
            walk(c, g, m) as u32,
        )
}

/// Whether the walk from `c` comes to `first` after at least one step.
pub open spec fn on_course(c: nat, g: nat, first: u32) -> bool {
    exists|d: nat| d >= 1 && #[trigger] walk(c, g, d) == first
}

/// The number of targets of a scan: the allowed addresses, at most
/// `max_targets`, and at most what the counter holds.
pub open spec fn targets_for(allowed: nat, max_targets: u32) -> u32 {
    let capped = if allowed >= ADDRESS_SPACE {
        u32::MAX
    } else {
        allowed as u32
    };
    if capped > max_targets {
        max_targets
    } else {
        capped
    }
}

/// The whole seconds from `start` to `now`, zero where `now` is earlier.
pub open spec fn elapsed_seconds(start: u64, now: u64) -> int {
    if now >= start {
        (now - start) / 1000
    } else {
        0
    }
}

/// Whether the send phase is over before another target is taken: all
/// targets were probed, or the runtime is used up.
pub open spec fn send_phase_over(state: SenderState, config: Config, now: u64) -> bool {
    state.sent >= state.targets || (config.max_runtime > 0 && elapsed_seconds(state.start, now)
        >= config.max_runtime)
}

/// While the states after `steps` are no addresses, the count of addresses
/// stands still.
proof fn lemma_gap(c: nat, g: nat, steps: nat, i: nat)
    requires
        forall|m: nat| 1 <= m <= i ==> #[trigger] walk(c, g, steps + m) >= ADDRESS_LIMIT,
    ensures
        addresses_within(c, g, steps + i) == addresses_within(c, g, steps),
    decreases i,
{
    if i > 0 {
        lemma_gap(c, g, steps, (i - 1) as nat);
        assert(walk(c, g, steps + i) >= ADDRESS_LIMIT);
        assert(steps + i - 1 == steps + (i - 1) as nat);
    }
}

/// One call of `next_ip`, seen from the start of the walk: `n` further steps
/// pass over no address and end at one.
proof fn lemma_hop(c: nat, g: nat, steps: nat, n: nat, ip: nat)
    requires
        next_address(walk(c, g, steps), g, n, ip),
    ensures
        walk(c, g, steps + n) == ip,
        forall|m: nat| steps < m < steps + n ==> #[trigger] walk(c, g, m) >= ADDRESS_LIMIT,
        addresses_within(c, g, steps + n) == addresses_within(c, g, steps) + 1,
{
    let here = walk(c, g, steps);
    lemma_walk_adds(c, g, steps, n);
    assert forall|m: nat| 1 <= m < n implies #[trigger] walk(c, g, steps + m) >= ADDRESS_LIMIT by {
        lemma_walk_adds(c, g, steps, m);
        assert(walk(here, g, m) >= ADDRESS_LIMIT);
    }
    assert forall|m: nat| steps < m < steps + n implies #[trigger] walk(c, g, m)
        >= ADDRESS_LIMIT by {
        let j = (m - steps) as nat;
        assert(walk(c, g, steps + j) >= ADDRESS_LIMIT);
        assert(steps + j == m);
    }
    lemma_gap(c, g, steps, (n - 1) as nat);
    assert(steps + n - 1 == steps + (n - 1) as nat);
}

/// The sender: the permutation, the allowed addresses, and the published
/// state.
pub struct Sender {
    pub cyclic: Cyclic,
    pub blacklist: Blacklist,
    pub state: SenderState,
}

impl Sender {
    /// The permutation and the list are well formed, the first scanned
    /// address is an allowed one, and the walk comes back to it.
    pub open spec fn wf(&self) -> bool {
        &&& self.cyclic.wf()
        &&& self.blacklist.wf()
        &&& self.state.first_scanned != 0
        &&& self.blacklist.allows(self.state.first_scanned)
        &&& on_course(self.cyclic.current(), self.cyclic.generator(), self.state.first_scanned)
    }

    /// Whether a whole round of the walk from `c` holds no allowed address.
    pub open spec fn round_disallowed(blacklist: Blacklist, c: nat, g: nat) -> bool {
        exists|d: nat|
            {
                &&& d >= 1
                &&& #[trigger] walk(c, g, d) == c
                &&& forall|m: nat|
                    m < d ==> #[trigger] walk(c, g, m) >= ADDRESS_LIMIT || !blacklist.allows(
                        walk(c, g, m) as u32,
                    )
            }
    }

    /// Whether `ip`, reached after `k` steps, is the first allowed address of
    /// the walk from `c`, the start included.
    pub open spec fn first_allowed(blacklist: Blacklist, c: nat, g: nat, k: nat, ip: u32) -> bool {
        &&& walk(c, g, k) == ip
        &&& blacklist.allows(ip)
        &&& forall|m: nat|
            m < k ==> #[trigger] walk(c, g, m) >= ADDRESS_LIMIT || !blacklist.allows(
                walk(c, g, m) as u32,
            )
    }

    /// Sets a sender up at time `now`: walks to the first allowed address,
    /// which becomes the first scanned one, counts the addresses passed over,
    /// and fixes the number of targets.
    pub fn new(config: &Config, cyclic: Cyclic, blacklist: Blacklist, now: u64) -> (r: Result<
        Self,
        SenderError,
    >)
        requires
            cyclic.wf(),
            blacklist.wf(),
        ensures
            (r matches Err(e) && e == SenderError::SourceRange) <==> config.source_ip_first
                != config.source_ip_last,
            (r matches Err(e) && e == SenderError::NoAllowedAddress) <==> config.source_ip_first
                == config.source_ip_last && Self::round_disallowed(
                blacklist,
                cyclic.current(),
                cyclic.generator(),
            ),
            r matches Ok(s) ==> {
                &&& s.wf()
                &&& s.blacklist == blacklist
                &&& s.cyclic.generator() == cyclic.generator()
                &&& s.cyclic.current() == s.state.first_scanned
                &&& exists|k: nat| #[trigger]
                    Self::first_allowed(
                        blacklist,
                        cyclic.current(),
                        cyclic.generator(),
                        k,
                        s.state.first_scanned,
                    ) && s.state.blacklisted == saturated(
                        addresses_within(cyclic.current(), cyclic.generator(), k) as int,
                    )
                &&& s.state.targets == targets_for(blacklist.allowed_count(), config.max_targets)
                &&& s.state.start == now
                &&& s.state.sent == 0
                &&& s.state.sendto_failures == 0
                &&& !s.state.complete
            },
    {
        if config.source_ip_first != config.source_ip_last {
            return Err(SenderError::SourceRange);
        }
        let mut walker = cyclic;
        let mut state = SenderState::default();
        let ghost c = walker.current();
        let ghost g = walker.generator();
        proof {
            lemma_all_invertible(g);
            lemma_walk_returns(c, g);
        }
        let ghost round = choose|n: nat| 1 <= n <= PRIME && #[trigger] walk(c, g, n) == c;
        let ghost mut steps: nat = 0;
        let start_ip = walker.current_ip();
        let mut ip = start_ip;
        while !blacklist.is_allowed(ip)
            invariant
                config.source_ip_first == config.source_ip_last,
                c == cyclic.current(),
                g == cyclic.generator(),
                walker.wf(),
                blacklist.wf(),
                walker.generator() == g,
                has_inverse(g),
                walker.current() == walk(c, g, steps),
                walker.current() == ip,
                start_ip == c,
                1 <= c < ADDRESS_LIMIT,
                round >= 1,
                walk(c, g, round) == c,
                steps < round,
                forall|m: nat|
                    m < steps ==> #[trigger] walk(c, g, m) >= ADDRESS_LIMIT || !blacklist.allows(
                        walk(c, g, m) as u32,
                    ),
                state.blacklisted == saturated(addresses_within(c, g, steps) as int),
                state.sent == 0,
                state.sendto_failures == 0,
                !state.complete,
            decreases round - steps,
        {
            let ghost here = walker.current();
            let next = walker.next_ip();
            let ghost n = choose|n: nat| n <= 16 && #[trigger] next_address(here, g, n, next as nat);
            proof {
                lemma_hop(c, g, steps, n, next as nat);
                if steps + n > round {
                    let m = (round - steps) as nat;
                    lemma_walk_adds(c, g, steps, m);
                    assert(walk(here, g, m) >= ADDRESS_LIMIT);
                }
                assert(!blacklist.allows(walk(c, g, steps) as u32));
                assert forall|m: nat| m < steps + n implies #[trigger] walk(c, g, m)
                    >= ADDRESS_LIMIT || !blacklist.allows(walk(c, g, m) as u32) by {
                    if m > steps {
                        assert(walk(c, g, m) >= ADDRESS_LIMIT);
                    }
                }
            }
            if state.blacklisted < u32::MAX {
                state.blacklisted = state.blacklisted + 1;
            }
            if next == start_ip {
                proof {
                    assert(Self::round_disallowed(blacklist, c, g)) by {
                        assert(walk(c, g, steps + n) == c);
                    }
                }
                return Err(SenderError::NoAllowedAddress);
            }
            proof {
                steps = steps + n;
            }
            ip = next;
        }
        state.first_scanned = ip;
        let allowed = blacklist.count_allowed();
        state.targets = if allowed == ADDRESS_SPACE {
            u32::MAX
        } else {
            allowed as u32
        };
        if state.targets > config.max_targets {
            state.targets = config.max_targets;
        }
        state.start = now;
        proof {
            lemma_walk_returns(ip as nat, g);
        }
        let s = Sender { cyclic: walker, blacklist, state };
        assert(on_course(s.cyclic.current(), s.cyclic.generator(), s.state.first_scanned));
        assert(Self::first_allowed(blacklist, c, g, steps, s.state.first_scanned));
        proof {
            if Self::round_disallowed(blacklist, c, g) {
                let d = choose|d: nat|
                    {
                        &&& d >= 1
                        &&& #[trigger] walk(c, g, d) == c
                        &&& forall|m: nat|
                            m < d ==> #[trigger] walk(c, g, m) >= ADDRESS_LIMIT
                                || !blacklist.allows(walk(c, g, m) as u32)
                    };
                lemma_walk_periodic(c, g, d, steps);
                let m = steps % d;
                assert(walk(c, g, m) >= ADDRESS_LIMIT || !blacklist.allows(walk(c, g, m) as u32));
                assert(false);
            }
        }
        Ok(s)
    }
    /// What `next_target` leaves where it hands out the address `ip`, reached
    /// after `k` steps.
    pub open spec fn probed(before: Self, after: Self, k: nat, ip: u32, now: u64) -> bool {
        let c = before.cyclic.current();
        let g = before.cyclic.generator();
        let last = ip == before.state.first_scanned;
        &&& next_allowed(before.blacklist, c, g, k, ip)
        &&& after.cyclic.current() == ip
        &&& after.state == (SenderState {
            sent: (before.state.sent + 1) as u32,
            blacklisted: saturated(before.state.blacklisted + addresses_within(c, g, k) - 1),
            complete: last,
            finish: if last {
                now
            } else {
                before.state.finish
            },
            ..before.state
        })
    }

    /// What `next_target` leaves where it hands out the address `ip`.
    pub open spec fn handed_out(before: Self, after: Self, ip: u32, now: u64) -> bool {
        exists|k: nat| #[trigger] Self::probed(before, after, k, ip, now)
    }

    /// Takes the next target at time `now`. Nothing is taken once the sender
    /// is complete, and the sender becomes complete where all targets were
    /// probed or the runtime is used up. Otherwise the walk goes on to the
    /// next allowed address, which is handed out; the addresses passed over
    /// are counted as blacklisted. Where the address handed out is the first
    /// scanned one, the permutation has come round and the sender is complete.
    pub fn next_target(&mut self, config: &Config, now: u64) -> (r: NextTarget)
        requires
            old(self).wf(),
        ensures
            final(self).wf(),
            final(self).blacklist == old(self).blacklist,
            final(self).cyclic.generator() == old(self).cyclic.generator(),
            sender_grew(old(self).state, final(self).state),
            old(self).state.complete ==> r == NextTarget::Finished && *final(self) == *old(self),
            !old(self).state.complete && send_phase_over(old(self).state, *config, now) ==> {
                &&& r == NextTarget::Finished
                &&& final(self).cyclic == old(self).cyclic
                &&& final(self).state == (SenderState {
                    complete: true,
                    finish: now,
                    ..old(self).state
                })
            },
            !old(self).state.complete && !send_phase_over(old(self).state, *config, now)
                ==> r is Probe,
            r is Probe ==> Self::handed_out(*old(self), *final(self), r->0, now),
    {
        if self.state.complete {
            return NextTarget::Finished;
        }
        let elapsed: u64 = if now >= self.state.start {
            (now - self.state.start) / 1000
        } else {
            0
        };
        if self.state.sent >= self.state.targets || (config.max_runtime > 0 && elapsed
            >= config.max_runtime as u64) {
            self.state.complete = true;
            self.state.finish = now;
            return NextTarget::Finished;
        }
        let ghost c = self.cyclic.current();
        let ghost g = self.cyclic.generator();
        let ghost first = self.state.first_scanned;
        proof {
            lemma_all_invertible(g);
        }
        let ghost far = choose|d: nat| d >= 1 && #[trigger] walk(c, g, d) == first;
        let ghost mut steps: nat = 0;
        loop
            invariant
                old(self).wf(),
                !old(self).state.complete,
                !send_phase_over(old(self).state, *config, now),
                c == old(self).cyclic.current(),
                g == old(self).cyclic.generator(),
                first == old(self).state.first_scanned,
                self.blacklist == old(self).blacklist,
                self.cyclic.wf(),
                self.cyclic.generator() == g,
                has_inverse(g),
                self.cyclic.current() == walk(c, g, steps),
                far >= 1,
                walk(c, g, far) == first,
                steps < far,
                forall|m: nat|
                    1 <= m <= steps ==> #[trigger] walk(c, g, m) >= ADDRESS_LIMIT
                        || !self.blacklist.allows(walk(c, g, m) as u32),
                self.state == (SenderState {
                    blacklisted: saturated(
                        old(self).state.blacklisted + addresses_within(c, g, steps),
                    ),
                    ..old(self).state
                }),
            decreases far - steps,
        {
            let ghost here = self.cyclic.current();
            let ip = self.cyclic.next_ip();
            let ghost n = choose|n: nat| n <= 16 && #[trigger] next_address(here, g, n, ip as nat);
            proof {
                lemma_hop(c, g, steps, n, ip as nat);
                if steps + n > far {
                    let m = (far - steps) as nat;
                    lemma_walk_adds(c, g, steps, m);
                    assert(walk(here, g, m) >= ADDRESS_LIMIT);
                }
                assert forall|m: nat| 1 <= m < steps + n implies #[trigger] walk(c, g, m)
                    >= ADDRESS_LIMIT || !self.blacklist.allows(walk(c, g, m) as u32) by {
                    if m > steps {
                        assert(walk(c, g, m) >= ADDRESS_LIMIT);
                    }
                }
            }
            if self.blacklist.is_allowed(ip) {
                if ip == self.state.first_scanned {
                    self.state.complete = true;
                    self.state.finish = now;
                }
                self.state.sent = self.state.sent + 1;
                proof {
                    let k = steps + n;
                    if k < far {
                        lemma_walk_adds(c, g, k, (far - k) as nat);
                        assert(walk(ip as nat, g, (far - k) as nat) == first);
                    } else {
                        lemma_walk_returns(ip as nat, g);
                    }
                    assert(on_course(ip as nat, g, first));
                    assert(next_allowed(old(self).blacklist, c, g, k, ip));
                    assert(Self::probed(*old(self), *self, k, ip, now));
                    assert(Self::handed_out(*old(self), *self, ip, now));
                }
                return NextTarget::Probe(ip);
            }
            if self.state.blacklisted < u32::MAX {
                self.state.blacklisted = self.state.blacklisted + 1;
            }
            proof {
                steps = steps + n;
            }
        }
    }

    /// Ends the send phase at time `now`, as the receiver asks for when it
    /// has all the results it wants. A sender that is complete stays as it is.
    pub fn stop(&mut self, now: u64)
        requires
            old(self).wf(),
        ensures
            final(self).wf(),
            final(self).cyclic == old(self).cyclic,
            final(self).blacklist == old(self).blacklist,
            final(self).state == if old(self).state.complete {
                old(self).state
            } else {
                SenderState { complete: true, finish: now, ..old(self).state }
            },
            sender_grew(old(self).state, final(self).state),
    {
        if !self.state.complete {
            self.state.complete = true;
            self.state.finish = now;
        }
    }

    /// Counts a probe that could not be handed to the network.
    pub fn record_sendto_failure(&mut self)
        requires
            old(self).wf(),
        ensures
            final(self).wf(),
            final(self).cyclic == old(self).cyclic,
            final(self).blacklist == old(self).blacklist,
            final(self).state == (SenderState {
                sendto_failures: saturated(old(self).state.sendto_failures + 1),
                ..old(self).state
            }),
            sender_grew(old(self).state, final(self).state),
    {
        if self.state.sendto_failures < u32::MAX {
            self.state.sendto_failures = self.state.sendto_failures + 1;
        }
    }
}

/// Where a whole round of an accepted generator holds no allowed address, no
/// address but 0.0.0.0 is allowed at all: the round passes every other
/// address.
pub proof fn lemma_empty_round(blacklist: Blacklist, g: u64, c: nat)
    requires
        is_found(g as nat),
        1 <= c < ADDRESS_LIMIT,
        Sender::round_disallowed(blacklist, c, g as nat),
    ensures
        forall|a: u32| a != 0 ==> !#[trigger] blacklist.allows(a),
{
    lemma_permutation_coverage(g, c);
    let d = choose|d: nat|
        {
            &&& d >= 1
            &&& #[trigger] walk(c, g as nat, d) == c
            &&& forall|m: nat|
                m < d ==> #[trigger] walk(c, g as nat, m) >= ADDRESS_LIMIT || !blacklist.allows(
                    walk(c, g as nat, m) as u32,
                )
        };
    assert forall|a: u32| a != 0 implies !#[trigger] blacklist.allows(a) by {
        assert(visits(c, g as nat, a as nat));
        let j = choose|j: nat| 1 <= j <= round() && #[trigger] walk(c, g as nat, j) == a as nat;
        lemma_walk_periodic(c, g as nat, d, j);
        let m = j % d;
        assert(walk(c, g as nat, m) >= ADDRESS_LIMIT || !blacklist.allows(
            walk(c, g as nat, m) as u32,
        ));
    }
}

/// Builds the probes to one target: one frame for each probe number below
/// `config.probes`, in the order of the numbers, each with the tag of the
/// pair of the source address and the target under the key of `ctx`.
pub fn make_probes<G: ProbeGenerator>(
    generator: &mut G,
    ctx: &AesCtx,
    config: &Config,
    destination_ip: u32,
) -> (frames: Vec<Vec<u8>>)
    requires
        old(generator).initialized(),
    ensures
        final(generator).initialized(),
        forall|d: u32, v: [u32; 2], p: u32| #[trigger]
            final(generator).frame_for(d, v, p) == old(generator).frame_for(d, v, p),
        frames@.len() == config.probes,
        forall|i: int|
            0 <= i < config.probes ==> (#[trigger] frames@[i])@ == old(generator).frame_for(
                destination_ip,
                validation_of(tag(ctx.key(), config.source_ip_first, destination_ip)),
                i as u32,
            ),
{
    let validation = validation_words(&gen(ctx, config.source_ip_first, destination_ip));
    let mut frames: Vec<Vec<u8>> = Vec::new();
    let mut i: u32 = 0;
    while i < config.probes
        invariant
            i <= config.probes,
            generator.initialized(),
            validation == validation_of(tag(ctx.key(), config.source_ip_first, destination_ip)),
            forall|d: u32, v: [u32; 2], p: u32| #[trigger]
                generator.frame_for(d, v, p) == old(generator).frame_for(d, v, p),
            frames@.len() == i,
            forall|j: int|
                0 <= j < i ==> (#[trigger] frames@[j])@ == old(generator).frame_for(
                    destination_ip,
                    validation,
                    j as u32,
                ),
        decreases config.probes - i,
    {
        let frame = slice_to_vec(generator.make_packet(destination_ip, &validation, i));
        frames.push(frame);
        i = i + 1;
    }
    frames
}

} // verus!
