//! Messages exchanged between the host tool and the bootloader.
use vstd::prelude::*;

pub mod error;

verus! {

/// 256 bytes of flash data.
#[derive(Debug, Clone, Copy)]
pub struct FlashData([u8; 256]);

impl View for FlashData {
    type V = Seq<u8>;

    closed spec fn view(&self) -> Seq<u8> {
        self.0@
    }
}

/// The payload built from `src`: its first 256 bytes, zero-filled up to
/// 256 bytes.
pub open spec fn padded_payload(src: Seq<u8>) -> Seq<u8> {
    Seq::new(256, |i: int| if i < src.len() { src[i] } else { 0u8 })
}

impl FlashData {
    pub const MAX_LEN: usize = 256;

    /// A payload always holds 256 bytes.
    pub proof fn lemma_len(&self)
        ensures
            self@.len() == 256,
    {
    }

    /// Copies the first 256 bytes of `src`; missing bytes are zero.
    pub fn from_bytes(src: &[u8]) -> (d: Self)
        ensures
            d@ == padded_payload(src@),
    {
        let mut bytes = [0u8; 256];
        let len = if src.len() < 256 {
            src.len()
        } else {
            256
        };
        let mut i: usize = 0;
        while i < len
            invariant
                i <= len <= 256,
                len <= src.len(),
                len == src.len() || len == 256,
                bytes@.len() == 256,
                forall|j: int| 0 <= j < i ==> bytes@[j] == src@[j],
                forall|j: int| i <= j < 256 ==> bytes@[j] == 0,
            decreases len - i,
        {
            bytes[i] = src[i];
            i += 1;
        }
        let d = FlashData(bytes);
        assert(d@ =~= padded_payload(src@));
        d
    }

    /// Raw view of all 256 bytes.
    pub fn as_bytes(&self) -> (b: &[u8])
        ensures
            b@ == self@,
            b@.len() == 256,
    {
        self.0.as_slice()
    }
}

/// Building a payload from the bytes of a payload gives it back.
pub proof fn lemma_padded_payload_identity(d: FlashData)
    ensures
        padded_payload(d@) == d@,
{
    d.lemma_len();
    assert(padded_payload(d@) =~= d@);
}

/// Commands sent from host to bootloader.
#[allow(inconsistent_fields)]
#[derive(Debug, Clone, Copy)]
pub enum HostCommand {
    /// Ping the bootloader — expects Ack reply.
    Ping,
    /// Erase all CM4 flash sectors.
    EraseAll,
    /// Write data to a flash address.
    /// `addr` must be 4-byte aligned.
    /// `len` is the number of valid bytes in the 256-byte payload.
    Write { addr: u32, data: FlashData, len: u16 },
    /// Request CRC-32/MPEG2 of a flash region.
    Crc32 { addr: u32, len: u32 },
    /// Boot the validated firmware — triggers system reset.
    Boot,
}

/// Replies from bootloader to host.
#[derive(Debug, Clone, Copy, PartialEq, Eq, Structural)]
pub enum HostReply {
    /// Command accepted.
    Ack,
    /// Command rejected with error code.
    Nak(u8),
    /// Response to Crc32 request.
    CrcResult(u32),
    /// Bootloader ready for next command.
    Ready,
}

} // verus!
