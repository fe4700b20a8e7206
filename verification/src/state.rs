//! What the sender and the receiver publish of themselves: counters, phase
//! flags and times. Times are milliseconds on a clock that never goes back.

use vstd::prelude::*;

verus! {

/// The sender's side of a scan.
#[derive(Clone, Copy, Debug)]
pub struct SenderState {
    pub complete: bool,
    pub start: u64,
    pub finish: u64,
    pub sent: u32,
    pub blacklisted: u32,
    pub first_scanned: u32,
    pub targets: u32,
    pub sendto_failures: u32,
}

impl Default for SenderState {
    fn default() -> (s: Self)
        ensures
            s == (SenderState {
                complete: false,
                start: 0,
                finish: 0,
                sent: 0,
                blacklisted: 0,
                first_scanned: 0,
                targets: 0,
                sendto_failures: 0,
            }),
    {
        SenderState {
            complete: false,
            start: 0,
            finish: 0,
            sent: 0,
            blacklisted: 0,
            first_scanned: 0,
            targets: 0,
            sendto_failures: 0,
        }
    }
}

/// The receiver's side of a scan.
#[derive(Clone, Copy, Debug)]
pub struct ReceiverState {
    pub ready: bool,
    pub complete: bool,
    pub success_unique: u32,
    pub success_total: u32,
    pub cooldown_unique: u32,
    pub cooldown_total: u32,
    pub failure_total: u32,
    pub start: u64,
    pub finish: u64,
    pub pcap_recv: u32,
    pub pcap_drop: u32,
    pub pcap_ifdrop: u32,
}

impl Default for ReceiverState {
    fn default() -> (s: Self)
        ensures
            s == (ReceiverState {
                ready: false,
                complete: false,
                success_unique: 0,
                success_total: 0,
                cooldown_unique: 0,
                cooldown_total: 0,
                failure_total: 0,
                start: 0,
                finish: 0,
                pcap_recv: 0,
                pcap_drop: 0,
                pcap_ifdrop: 0,
            }),
    {
        ReceiverState {
            ready: false,
            complete: false,
            success_unique: 0,
            success_total: 0,
            cooldown_unique: 0,
            cooldown_total: 0,
            failure_total: 0,
            start: 0,
            finish: 0,
            pcap_recv: 0,
            pcap_drop: 0,
            pcap_ifdrop: 0,
        }
    }
}

/// The phase of a scan.
#[derive(Clone, Copy, Debug, PartialEq, Eq, Structural)]
pub enum Phase {
    /// Probes are being sent.
    Running,
    /// The sender is done, the receiver still listens.
    Cooldown,
    /// Both are done.
    Done,
}

/// The phase that the two completion flags stand for.
pub open spec fn phase_of(sender_complete: bool, receiver_complete: bool) -> Phase {
    if sender_complete && receiver_complete {
        Phase::Done
    } else if sender_complete {
        Phase::Cooldown
    } else {
        Phase::Running
    }
}

/// The phase of the scan.
pub fn phase(sender: &SenderState, receiver: &ReceiverState) -> (p: Phase)
    ensures
        p == phase_of(sender.complete, receiver.complete),
{
    if sender.complete && receiver.complete {
        Phase::Done
    } else if sender.complete {
        Phase::Cooldown
    } else {
        Phase::Running
    }
}

/// No counter of the sender went down from `before` to `after`.
pub open spec fn sender_grew(before: SenderState, after: SenderState) -> bool {
    &&& before.sent <= after.sent
    &&& before.blacklisted <= after.blacklisted
    &&& before.sendto_failures <= after.sendto_failures
    &&& before.complete ==> after.complete
}

/// No counter of the receiver went down from `before` to `after`.
pub open spec fn receiver_grew(before: ReceiverState, after: ReceiverState) -> bool {
    &&& before.success_unique <= after.success_unique
    &&& before.success_total <= after.success_total
    &&& before.cooldown_unique <= after.cooldown_unique
    &&& before.cooldown_total <= after.cooldown_total
    &&& before.failure_total <= after.failure_total
    &&& before.complete ==> after.complete
    &&& before.ready ==> after.ready
}

/// The sender's counters never go down: over any run of states in which no
/// step lets a counter go down, a later state has counters at least as large
/// as an earlier one, and a completed sender stays completed.
pub proof fn lemma_sender_never_shrinks(states: Seq<SenderState>, i: int, j: int)
    requires
        forall|k: int| 0 <= k < states.len() - 1 ==> sender_grew(#[trigger] states[k], states[k + 1]),
        0 <= i <= j < states.len(),
    ensures
        sender_grew(states[i], states[j]),
    decreases j - i,
{
    if i < j {
        lemma_sender_never_shrinks(states, i, j - 1);
        assert(sender_grew(states[j - 1], states[j - 1 + 1]));
    }
}

/// The receiver's counters never go down: over any run of states in which no
/// step lets a counter go down, a later state has counters at least as large
/// as an earlier one, and a completed receiver stays completed.
pub proof fn lemma_receiver_never_shrinks(states: Seq<ReceiverState>, i: int, j: int)
    requires
        forall|k: int|
            0 <= k < states.len() - 1 ==> receiver_grew(#[trigger] states[k], states[k + 1]),
        0 <= i <= j < states.len(),
    ensures
        receiver_grew(states[i], states[j]),
    decreases j - i,
{
    if i < j {
        lemma_receiver_never_shrinks(states, i, j - 1);
        assert(receiver_grew(states[j - 1], states[j - 1 + 1]));
    }
}

} // verus!
