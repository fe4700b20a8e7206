//! Hardware addresses.

use vstd::prelude::*;

verus! {

/// The six bytes that `eui48` reads from a text, or none where it reads no
/// address.
pub uninterp spec fn parsed_mac(text: Seq<char>) -> Option<Seq<u8>>;

/// Calls `MacAddress::parse_str` of `eui48`, which reads an address in any of
/// the notations it knows, and `to_array` on what it gives. The result depends
/// on the text alone.
#[verifier::external_body]
fn parse_mac(text: &str) -> (r: Option<[u8; 6]>)
    ensures
        match r {
            Some(bytes) => parsed_mac(text@) == Some(bytes@),
            None => parsed_mac(text@).is_none(),
        },
{
    match eui48::MacAddress::parse_str(text) {
        Ok(address) => Some(address.to_array()),
        Err(_) => None,
    }
}

/// A text that is no hardware address.
#[derive(Clone, Copy, Debug, PartialEq, Eq, Structural)]
pub struct MacParseError;

/// A 48-bit hardware address.
#[derive(Clone, Copy, Debug)]
pub struct MacAddress {
    bytes: [u8; 6],
}

impl MacAddress {
    /// The six bytes of the address.
    pub closed spec fn view(&self) -> Seq<u8> {
        self.bytes@
    }

    pub fn new(bytes: [u8; 6]) -> (m: Self)
        ensures
            m@ == bytes@,
    {
        MacAddress { bytes }
    }

    pub fn from_bytes(bytes: &[u8; 6]) -> (m: Self)
        ensures
            m@ == bytes@,
    {
        MacAddress { bytes: *bytes }
    }

    pub fn octets(&self) -> (bytes: [u8; 6])
        ensures
            bytes@ == self@,
    {
        self.bytes
    }

    pub fn as_bytes(&self) -> (bytes: &[u8])
        ensures
            bytes@ == self@,
    {
        self.bytes.as_slice()
    }

    /// Reads an address from a text.
    pub fn from_str(s: &str) -> (r: Result<Self, MacParseError>)
        ensures
            match r {
                Ok(m) => parsed_mac(s@) == Some(m@),
                Err(_) => parsed_mac(s@).is_none(),
            },
    {
        match parse_mac(s) {
            Some(bytes) => Ok(MacAddress { bytes }),
            None => Err(MacParseError),
        }
    }
}

} // verus!
