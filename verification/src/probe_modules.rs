//! What every probe module offers to the sender.

use vstd::prelude::*;

verus! {

/// A builder of probes: set up once by each sending thread, then asked for
/// one frame per probe.
pub trait ProbeGenerator {
    /// Whether the generator was set up.
    spec fn initialized(&self) -> bool;

    /// The frame of probe number `probe_num` to `destination_ip`, where the
    /// tag of the destination has the words `validation`.
    spec fn frame_for(&self, destination_ip: u32, validation: [u32; 2], probe_num: u32) -> Seq<u8>;

    /// The frame of probe number `probe_num` to `destination_ip` that a
    /// generator builds once it is set up with the given addresses, source
    /// port range and target port.
    spec fn frame_with(
        source_mac: [u8; 6],
        gateway_mac: [u8; 6],
        source_ip: u32,
        source_port_first: u16,
        source_port_last: u16,
        target_port: u16,
        destination_ip: u32,
        validation: [u32; 2],
        probe_num: u32,
    ) -> Seq<u8>;

    /// Sets the generator up for one sender: from here on its frames are
    /// those of the given addresses, source port range and target port.
    fn thread_initialize(
        &mut self,
        source_mac: &[u8; 6],
        gateway_mac: &[u8; 6],
        source_ip: u32,
        source_port_first: u16,
        source_port_last: u16,
        target_port: u16,
    )
        requires
            source_port_first <= source_port_last,
        ensures
            final(self).initialized(),
            forall|d: u32, v: [u32; 2], p: u32| #[trigger]
                final(self).frame_for(d, v, p) == Self::frame_with(
                    *source_mac,
                    *gateway_mac,
                    source_ip,
                    source_port_first,
                    source_port_last,
                    target_port,
                    d,
                    v,
                    p,
                ),
    ;

    /// The frame of one probe.
    fn make_packet(&mut self, destination_ip: u32, validation: &[u32; 2], probe_num: u32) -> (packet:
        &[u8])
        requires
            old(self).initialized(),
        ensures
            final(self).initialized(),
            packet@ == old(self).frame_for(destination_ip, *validation, probe_num),
            forall|d: u32, v: [u32; 2], p: u32| #[trigger]
                final(self).frame_for(d, v, p) == old(self).frame_for(d, v, p),
    ;
}

} // verus!
