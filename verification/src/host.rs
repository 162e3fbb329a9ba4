//! The host side of the update link: framing of commands, decoding of
//! replies, the text shown for a reply, and the flashing procedure.
use vstd::prelude::*;
use crate::crc::{crc32_mpeg2, crc32_mpeg2_spec};
use crate::protocol::{padded_payload, FlashData, HostCommand, HostReply};
use crate::text::{hex_digit, hex_digit_spec, hex_digits, hex_value_of, lemma_hex_digits_read_back, nibble, push_char};
use crate::uart::{hex, lemma_nibble_bits};
use crate::cobs::{all_nonzero, block_zero, cobs_frame, decode_blocks, prefix_with, encode_blocks, lemma_run_len_at_least, lemma_run_len_exact};

verus! {

/// COBS-encode `input` into a complete frame, trailing `0x00` included.
pub fn cobs_encode(input: &[u8]) -> (out: Vec<u8>)
    requires
        input.len() + 2 <= usize::MAX,
    ensures
        out@ == cobs_frame(input@),
{
    let mut out: Vec<u8> = Vec::with_capacity(input.len() + 2);
    let mut code: u8 = 1;
    let mut code_pos: usize = 0;
    out.push(0);
    let ghost mut start: int = 0;
    let mut i: usize = 0;
    assert(input@.skip(0) =~= input@);
    while i < input.len()
        invariant
            i <= input.len(),
            1 <= code <= 254,
            start == i + 1 - code,
            0 <= start <= i,
            code_pos + code == out.len(),
            forall|j: int| start <= j < i ==> input@[j] != 0,
            encode_blocks(input@) == out@.take(code_pos as int) + encode_blocks(input@.skip(start)),
            out@.skip(code_pos + 1) == input@.subrange(start, i as int),
        decreases input.len() - i,
    {
        let byte = input[i];
        let ghost rest = input@.skip(start);
        let ghost before = out@;
        if byte == 0 {
            proof {
                assert forall|j: int| 0 <= j < code - 1 implies rest[j] != 0 by {
                    assert(rest[j] == input@[start + j]);
                }
                assert(rest[code - 1] == input@[i as int]);
                lemma_run_len_exact(rest, (code - 1) as nat);
                assert(rest.take(code - 1) =~= input@.subrange(start, i as int));
                assert(rest.skip(code as int) =~= input@.skip(i + 1));
            }
            let c = out.len() - code_pos;
            out.set(code_pos, c as u8);
            code_pos = out.len();
            out.push(0);
            code = 1;
            proof {
                assert(out@.take(code_pos as int) =~= before.take(code_pos - c) + seq![c as u8]
                    + input@.subrange(start, i as int));
                start = i + 1;
                assert(out@.skip(code_pos + 1) =~= input@.subrange(start, i + 1));
            }
        } else {
            out.push(byte);
            code += 1;
            if code == 0xFF {
                proof {
                    assert forall|j: int| 0 <= j < 254 implies rest[j] != 0 by {
                        assert(rest[j] == input@[start + j]);
                    }
                    lemma_run_len_at_least(rest, 254);
                    assert(rest.take(254) =~= input@.subrange(start, i + 1));
                    assert(rest.skip(254) =~= input@.skip(i + 1));
                    assert(out@.skip(code_pos + 1) =~= input@.subrange(start, i + 1));
                }
                let ghost before_split = out@;
                out.set(code_pos, 0xFF);
                code_pos = out.len();
                out.push(0);
                code = 1;
                proof {
                    assert(out@.take(code_pos as int) =~= before_split.take(code_pos - 255)
                        + seq![0xFFu8] + input@.subrange(start, i + 1));
                    start = i + 1;
                    assert(out@.skip(code_pos + 1) =~= input@.subrange(start, i + 1));
                }
            } else {
                proof {
                    assert(out@.skip(code_pos + 1) =~= input@.subrange(start, i + 1));
                }
            }
        }
        i += 1;
    }
    proof {
        let rest = input@.skip(start);
        assert forall|j: int| 0 <= j < rest.len() implies rest[j] != 0 by {
            assert(rest[j] == input@[start + j]);
        }
        lemma_run_len_exact(rest, rest.len());
        assert(rest =~= input@.subrange(start, i as int));
    }
    let ghost before_close = out@;
    out.set(code_pos, code);
    proof {
        assert(out@ =~= before_close.take(code_pos as int) + seq![code]
            + input@.subrange(start, i as int));
    }
    out.push(0);
    out
}


/// COBS-decode a frame given without its trailing `0x00`: a zero is
/// restored after every block that has input behind it, except after a
/// full `0xFF` block.
///
/// Returns `None` when the encoding is invalid.
pub fn cobs_decode(input: &[u8]) -> (out: Option<Vec<u8>>)
    requires
        input.len() + 255 <= usize::MAX,
    ensures
        match out {
            Some(v) => decode_blocks(input@) == Some(v@),
            None => decode_blocks(input@) is None,
        },
{
    let mut out: Vec<u8> = Vec::with_capacity(input.len());
    let mut i: usize = 0;
    assert(input@.skip(0) =~= input@);
    assert(out@ + input@ =~= input@);
    while i < input.len()
        invariant
            i <= input.len(),
            input.len() + 255 <= usize::MAX,
            decode_blocks(input@) == prefix_with(out@, decode_blocks(input@.skip(i as int))),
        decreases input.len() - i,
    {
        let ghost blk: int = i as int;
        let ghost s = input@.skip(blk);
        let ghost out0 = out@;
        let code = input[i];
        if code == 0 {
            return None;
        }
        i += 1;
        let block_end = i + (code as usize) - 1;
        let end = if block_end < input.len() {
            block_end
        } else {
            input.len()
        };
        while i < end
            invariant
                blk < i <= end <= input.len(),
                end == (if block_end < input.len() { block_end } else { input.len() }),
                block_end == blk + code,
                0 <= blk < input.len(),
                s == input@.skip(blk),
                s[0] == code,
                code != 0,
                decode_blocks(input@) == prefix_with(out0, decode_blocks(s)),
                out@ == out0 + input@.subrange(blk + 1, i as int),
                all_nonzero(input@.subrange(blk + 1, i as int)),
            decreases end - i,
        {
            if input[i] == 0 {
                proof {
                    let data = if block_end < input.len() {
                        s.subrange(1, code as int)
                    } else {
                        s.skip(1)
                    };
                    assert(data[i - blk - 1] == input@[i as int]);
                    assert(!all_nonzero(data));
                    assert(decode_blocks(s) is None);
                }
                return None;
            }
            out.push(input[i]);
            proof {
                assert(input@.subrange(blk + 1, i + 1) =~= input@.subrange(blk + 1, i as int).push(
                    input@[i as int],
                ));
            }
            i += 1;
        }
        if block_end < input.len() {
            if code < 0xFF {
                out.push(0);
            }
            proof {
                assert(s.subrange(1, code as int) =~= input@.subrange(blk + 1, i as int));
                assert(s.skip(code as int) =~= input@.skip(i as int));
                assert(out@ =~= out0 + input@.subrange(blk + 1, i as int) + block_zero(code));
                match decode_blocks(input@.skip(i as int)) {
                    Some(r) => {
                        assert(out0 + (input@.subrange(blk + 1, i as int) + block_zero(code) + r)
                            =~= out@ + r);
                    },
                    None => {},
                }
            }
        } else {
            proof {
                assert(s.skip(1) =~= input@.subrange(blk + 1, i as int));
                assert(input@.skip(i as int) =~= Seq::<u8>::empty());
                assert(out@ + Seq::<u8>::empty() =~= out@);
            }
        }
    }
    proof {
        assert(input@.skip(i as int) =~= Seq::<u8>::empty());
        assert(out@ + Seq::<u8>::empty() =~= out@);
    }
    Some(out)
}


/// The `digits` upper-case hexadecimal digits of the low nibbles of `n`,
/// most significant first.
pub open spec fn hex_chars(n: u32, digits: int) -> Seq<char> {
    Seq::new(digits as nat, |k: int| hex_digit_spec(nibble(n, digits - 1 - k)) as char)
}

/// The text shown for a reply.
pub open spec fn reply_text(reply: HostReply) -> Seq<char> {
    match reply {
        HostReply::Ack => seq!['A', 'C', 'K'],
        HostReply::Nak(code) => seq!['N', 'A', 'K', '(', '0', 'x'] + hex_chars(code as u32, 2)
            + seq![')'],
        HostReply::CrcResult(val) => seq!['C', 'R', 'C', ' ', '=', ' ', '0', 'x'] + hex_chars(
            val,
            8,
        ),
        HostReply::Ready => seq!['R', 'E', 'A', 'D', 'Y'],
    }
}

/// The text of a CRC result is `CRC = 0x` followed by eight upper-case
/// hexadecimal digits that read back as the CRC.
pub proof fn lemma_crc_text_reads_back(v: u32)
    ensures
        reply_text(HostReply::CrcResult(v)).len() == 16,
        reply_text(HostReply::CrcResult(v)).take(8) == seq!['C', 'R', 'C', ' ', '=', ' ', '0', 'x'],
        forall|k: int|
            0 <= k < 8 ==> reply_text(HostReply::CrcResult(v))[8 + k] == hex_digits(v)[k] as char,
        hex_value_of(hex_digits(v)) == v,
{
    let t = reply_text(HostReply::CrcResult(v));
    assert(t.take(8) =~= seq!['C', 'R', 'C', ' ', '=', ' ', '0', 'x']);
    lemma_hex_digits_read_back(v);
}

fn push_str_chars(s: &mut String, chars: &[char])
    ensures
        final(s)@ == old(s)@ + chars@,
{
    let mut i: usize = 0;
    assert(old(s)@ + chars@.take(0) =~= old(s)@);
    while i < chars.len()
        invariant
            i <= chars.len(),
            s@ == old(s)@ + chars@.take(i as int),
        decreases chars.len() - i,
    {
        push_char(s, chars[i]);
        proof {
            assert(old(s)@ + chars@.take(i + 1) =~= (old(s)@ + chars@.take(i as int)).push(
                chars@[i as int],
            ));
        }
        i += 1;
    }
    assert(chars@.take(chars.len() as int) =~= chars@);
}

/// Text shown for a reply: `ACK`, `NAK(0xNN)`, `CRC = 0xNNNNNNNN` or
/// `READY`, with upper-case hexadecimal digits.
pub fn format_reply(reply: &HostReply) -> (text: String)
    ensures
        text@ == reply_text(*reply),
{
    let mut s = String::new();
    match reply {
        HostReply::Ack => {
            push_str_chars(&mut s, &['A', 'C', 'K']);
        },
        HostReply::Nak(code) => {
            push_str_chars(&mut s, &['N', 'A', 'K', '(', '0', 'x']);
            let n = *code as u32;
            proof {
                lemma_nibble_bits(n, 1);
                lemma_nibble_bits(n, 0);
            }
            assert((n >> 0u32) & 0xFu32 == n & 0xFu32) by (bit_vector);
            assert(n & 0xFu32 < 16) by (bit_vector);
            assert((n >> 4u32) & 0xFu32 < 16) by (bit_vector);
            assert((n >> 4u32) & 0xFu32 == (n >> (1u32 * 4)) & 0xFu32);
            let hi = hex_digit((n >> 4) & 0xF);
            let lo = hex_digit(n & 0xF);
            push_char(&mut s, hi as char);
            push_char(&mut s, lo as char);
            push_char(&mut s, ')');
            proof {
                assert(s@ =~= reply_text(*reply));
            }
        },
        HostReply::CrcResult(val) => {
            push_str_chars(&mut s, &['C', 'R', 'C', ' ', '=', ' ', '0', 'x']);
            let digits = hex(*val);
            let ghost prefix = s@;
            let mut k: usize = 0;
            while k < 8
                invariant
                    k <= 8,
                    prefix == seq!['C', 'R', 'C', ' ', '=', ' ', '0', 'x'],
                    forall|j: int|
                        0 <= j < 8 ==> digits@[j] == hex_digit_spec(nibble(*val, 7 - j)),
                    s@ == prefix + hex_chars(*val, 8).take(k as int),
                decreases 8 - k,
            {
                push_char(&mut s, digits[k] as char);
                proof {
                    assert(hex_chars(*val, 8).take(k + 1) =~= hex_chars(*val, 8).take(
                        k as int,
                    ).push(digits@[k as int] as char));
                }
                k += 1;
            }
            proof {
                assert(hex_chars(*val, 8).take(8) =~= hex_chars(*val, 8));
            }
        },
        HostReply::Ready => {
            push_str_chars(&mut s, &['R', 'E', 'A', 'D', 'Y']);
        },
    }
    proof {
        assert(s@ =~= reply_text(*reply));
    }
    s
}


/// Size of the chunks the firmware image is written in.
pub const CHUNK_SIZE: usize = 256;

/// Number of chunks of an image of `len` bytes.
pub open spec fn chunk_count(len: nat) -> nat {
    ((len + 255) / 256) as nat
}

/// Bytes `256i..256i+256` of the image (fewer for the last chunk).
pub open spec fn chunk_bytes(binary: Seq<u8>, i: int) -> Seq<u8> {
    binary.subrange(
        256 * i,
        if 256 * i + 256 <= binary.len() {
            256 * i + 256
        } else {
            binary.len() as int
        },
    )
}

/// `cmd` writes chunk `i` of the image: to `base + 256 i`, its bytes
/// zero-padded to 256, with its length.
pub open spec fn is_chunk_command(cmd: HostCommand, binary: Seq<u8>, base: u32, i: int) -> bool {
    match cmd {
        HostCommand::Write { addr, data, len } => {
            &&& addr == base + 256 * i
            &&& data@ == padded_payload(chunk_bytes(binary, i))
            &&& len == chunk_bytes(binary, i).len()
        },
        _ => false,
    }
}

/// Where a flashing session stands: the command it waits on a reply to.
#[derive(Debug, Clone, Copy, PartialEq, Eq, Structural)]
pub enum FlashStage {
    /// `Ping` was sent.
    Ping,
    /// `EraseAll` was sent.
    Erase,
    /// The `Write` of this chunk was sent.
    Write(usize),
    /// `Crc32` over the image was sent.
    Verify,
    /// `Boot` was sent.
    Boot,
    /// The session is over.
    Done,
}

/// Why a flashing session stopped.
#[derive(Debug, Clone, Copy, PartialEq, Eq, Structural)]
pub enum FlashError {
    /// The bootloader did not acknowledge `Ping`.
    PingFailed(HostReply),
    /// The bootloader did not acknowledge `EraseAll`.
    EraseFailed(HostReply),
    /// The bootloader did not acknowledge the write of chunk `chunk`
    /// (counted from 1) of `total`.
    WriteFailed { chunk: usize, total: usize, reply: HostReply },
    /// The bootloader's CRC of the written image differs from the host's.
    CrcMismatch { host: u32, device: u32 },
    /// The bootloader did not answer `Crc32` with a CRC.
    CrcFailed(HostReply),
}

/// What the host does next in a flashing session.
#[derive(Debug, Clone, Copy)]
pub enum FlashStep {
    /// Send this command and report its reply.
    Send(HostCommand),
    /// `Boot` was answered with this reply; the session succeeded.
    Booted(HostReply),
    /// The session failed.
    Failed(FlashError),
}

/// The state of a flashing session, as a model.
pub struct FlashSessionView {
    pub binary: Seq<u8>,
    pub base: u32,
    pub host_crc: u32,
    pub total: usize,
    pub stage: FlashStage,
}

/// A firmware update: ping, erase, write the image in 256-byte chunks,
/// compare the bootloader's CRC of the written image with the host's, and
/// boot.
pub struct FlashSession {
    binary: Vec<u8>,
    base_addr: u32,
    host_crc: u32,
    total: usize,
    stage: FlashStage,
}

impl View for FlashSession {
    type V = FlashSessionView;

    closed spec fn view(&self) -> FlashSessionView {
        FlashSessionView {
            binary: self.binary@,
            base: self.base_addr,
            host_crc: self.host_crc,
            total: self.total,
            stage: self.stage,
        }
    }
}

/// The image fits the machine and every chunk address fits in 32 bits.
pub open spec fn flash_image_fits(binary: Seq<u8>, base: u32) -> bool {
    &&& binary.len() + 256 <= usize::MAX
    &&& chunk_count(binary.len()) > 0 ==> base + 256 * (chunk_count(binary.len()) - 1) <= u32::MAX
}

/// The command sent once the last chunk is written: the CRC of the whole
/// image, its length truncated to 32 bits.
pub open spec fn verify_command(v: FlashSessionView) -> HostCommand {
    HostCommand::Crc32 { addr: v.base, len: v.binary.len() as u32 }
}

/// The step, and the state after it, for a reply received in `v`.
pub open spec fn flash_next(v: FlashSessionView, reply: HostReply, w: FlashSessionView, step: FlashStep) -> bool {
    let total = chunk_count(v.binary.len());
    &&& w.binary == v.binary
    &&& w.base == v.base
    &&& w.host_crc == v.host_crc
    &&& w.total == v.total
    &&& match v.stage {
        FlashStage::Ping => if reply == HostReply::Ack {
            w.stage == FlashStage::Erase && step == FlashStep::Send(HostCommand::EraseAll)
        } else {
            w.stage == FlashStage::Done && step == FlashStep::Failed(FlashError::PingFailed(reply))
        },
        FlashStage::Erase => if reply != HostReply::Ack {
            w.stage == FlashStage::Done && step == FlashStep::Failed(FlashError::EraseFailed(reply))
        } else if total > 0 {
            &&& w.stage == FlashStage::Write(0)
            &&& step matches FlashStep::Send(c) && is_chunk_command(c, v.binary, v.base, 0)
        } else {
            w.stage == FlashStage::Verify && step == FlashStep::Send(verify_command(v))
        },
        FlashStage::Write(i) => if reply != HostReply::Ack {
            &&& w.stage == FlashStage::Done
            &&& step == FlashStep::Failed(
                FlashError::WriteFailed { chunk: (i + 1) as usize, total: total as usize, reply },
            )
        } else if i + 1 < total {
            &&& w.stage == FlashStage::Write((i + 1) as usize)
            &&& step matches FlashStep::Send(c) && is_chunk_command(c, v.binary, v.base, i + 1)
        } else {
            w.stage == FlashStage::Verify && step == FlashStep::Send(verify_command(v))
        },
        FlashStage::Verify => match reply {
            HostReply::CrcResult(device) => if device == v.host_crc {
                w.stage == FlashStage::Boot && step == FlashStep::Send(HostCommand::Boot)
            } else {
                &&& w.stage == FlashStage::Done
                &&& step == FlashStep::Failed(FlashError::CrcMismatch { host: v.host_crc, device })
            },
            _ => w.stage == FlashStage::Done && step == FlashStep::Failed(FlashError::CrcFailed(reply)),
        },
        FlashStage::Boot => w.stage == FlashStage::Done && step == FlashStep::Booted(reply),
        FlashStage::Done => false,
    }
}

/// A session state that can occur: the image fits, the CRC is the image's,
/// and a chunk stage names a chunk of the image.
pub open spec fn flash_session_wf(v: FlashSessionView) -> bool {
    &&& flash_image_fits(v.binary, v.base)
    &&& v.host_crc == crc32_mpeg2_spec(v.binary)
    &&& v.total == chunk_count(v.binary.len())
    &&& v.stage matches FlashStage::Write(i) ==> i < chunk_count(v.binary.len())
}

/// The host sends `Boot` only in answer to the bootloader reporting, for
/// the written image, the CRC the host computed over the image.
pub proof fn lemma_boot_only_after_matching_crc(
    v: FlashSessionView,
    reply: HostReply,
    w: FlashSessionView,
    step: FlashStep,
)
    requires
        flash_session_wf(v),
        flash_next(v, reply, w, step),
        step matches FlashStep::Send(c) && c is Boot,
    ensures
        v.stage == FlashStage::Verify,
        reply == HostReply::CrcResult(crc32_mpeg2_spec(v.binary)),
{
}

/// The chunks cover the image in order: byte `j` of the image is byte
/// `j % 256` of chunk `j / 256`, which is written to `base + j`.
pub proof fn lemma_chunks_cover_image(binary: Seq<u8>, base: u32, j: int)
    requires
        0 <= j < binary.len(),
    ensures
        j / 256 < chunk_count(binary.len()),
        j % 256 < chunk_bytes(binary, j / 256).len(),
        chunk_bytes(binary, j / 256)[j % 256] == binary[j],
        base + 256 * (j / 256) + j % 256 == base + j,
{
}

/// The write of the chunk that holds byte `j` of the image puts that byte
/// at `base + j`: the byte stands at offset `j % 256` of the chunk's
/// payload, within its length, and the chunk is written from
/// `base + 256 (j / 256)`.
pub proof fn lemma_chunk_write_places_byte(binary: Seq<u8>, base: u32, j: int, cmd: HostCommand)
    requires
        0 <= j < binary.len(),
        is_chunk_command(cmd, binary, base, j / 256),
    ensures
        cmd matches HostCommand::Write { addr, data, len } && j % 256 < len && data@[j % 256]
            == binary[j] && addr + j % 256 == base + j,
{
    lemma_chunks_cover_image(binary, base, j);
}

/// The writes of two different chunks never overlap: the earlier chunk
/// ends at or before the address the later one starts at.
pub proof fn lemma_chunk_writes_disjoint(
    binary: Seq<u8>,
    base: u32,
    i: int,
    k: int,
    ci: HostCommand,
    ck: HostCommand,
)
    requires
        0 <= i < k < chunk_count(binary.len()),
        is_chunk_command(ci, binary, base, i),
        is_chunk_command(ck, binary, base, k),
    ensures
        ci matches HostCommand::Write { addr: a, len: la, .. } && ck matches HostCommand::Write {
            addr: b,
            ..
        } && a + la <= b,
{
}

/// With every command acknowledged, a session pings, erases, writes the
/// chunks in order, chunk `i` to `base + 256 i`, and then asks for the
/// CRC of the `len` bytes from `base`; a command that is not acknowledged
/// ends the session with a failure.
pub proof fn lemma_session_writes_in_order(
    v: FlashSessionView,
    reply: HostReply,
    w: FlashSessionView,
    step: FlashStep,
)
    requires
        flash_session_wf(v),
        flash_next(v, reply, w, step),
    ensures
        v.stage == FlashStage::Ping && reply == HostReply::Ack ==> step == FlashStep::Send(
            HostCommand::EraseAll,
        ),
        v.stage == FlashStage::Erase && reply == HostReply::Ack && v.binary.len() > 0 ==> (
        step matches FlashStep::Send(HostCommand::Write { addr, len, .. }) && addr == v.base
            && len == (if v.binary.len() < 256 { v.binary.len() as int } else { 256 })),
        v.stage == FlashStage::Erase && reply == HostReply::Ack && v.binary.len() == 0 ==> step
            == FlashStep::Send(HostCommand::Crc32 { addr: v.base, len: 0 }),
        v.stage is Write && reply == HostReply::Ack && 256 * (v.stage->0 + 1) < v.binary.len()
            ==> (step matches FlashStep::Send(HostCommand::Write { addr, .. }) && addr == v.base
            + 256 * (v.stage->0 + 1) && w.stage == FlashStage::Write((v.stage->0 + 1) as usize)),
        v.stage is Write && reply == HostReply::Ack && 256 * (v.stage->0 + 1) >= v.binary.len()
            ==> step == FlashStep::Send(
            HostCommand::Crc32 { addr: v.base, len: v.binary.len() as u32 },
        ),
        (v.stage == FlashStage::Ping || v.stage == FlashStage::Erase || v.stage is Write)
            && reply != HostReply::Ack ==> step is Failed && w.stage == FlashStage::Done,
{
    let n = v.binary.len();
    if let FlashStage::Write(i) = v.stage {
        let i = i as int;
        assert((i + 1 < (n + 255) / 256) == (256 * (i + 1) < n)) by (nonlinear_arith)
            requires
                i >= 0,
                n >= 0,
        ;
    }
    if v.stage == FlashStage::Erase && n > 0 {
        assert((n + 255) / 256 > 0) by (nonlinear_arith)
            requires
                n > 0,
        ;
    }
}

impl FlashSession {
    /// Starts a session for `binary` at `base_addr`; the host CRC of the
    /// image is computed here.
    pub fn new(binary: Vec<u8>, base_addr: u32) -> (s: Self)
        requires
            flash_image_fits(binary@, base_addr),
        ensures
            s@.binary == binary@,
            s@.base == base_addr,
            s@.host_crc == crc32_mpeg2_spec(binary@),
            s@.stage == FlashStage::Ping,
            flash_session_wf(s@),
    {
        let host_crc = crc32_mpeg2(binary.as_slice());
        let total = (binary.len() + 255) / 256;
        FlashSession { binary, base_addr, host_crc, total, stage: FlashStage::Ping }
    }

    /// The CRC-32/MPEG2 of the image.
    pub fn host_crc(&self) -> (crc: u32)
        ensures
            crc == self@.host_crc,
    {
        self.host_crc
    }

    /// Number of 256-byte chunks of the image.
    pub fn total_chunks(&self) -> (n: usize)
        requires
            flash_session_wf(self@),
        ensures
            n == self@.total,
            n == chunk_count(self@.binary.len()),
    {
        self.total
    }

    /// The first command of the session: `Ping`.
    pub fn first_command(&self) -> (cmd: HostCommand)
        ensures
            cmd == HostCommand::Ping,
    {
        HostCommand::Ping
    }

    /// Whether the session is over.
    pub fn is_done(&self) -> (done: bool)
        ensures
            done == (self@.stage == FlashStage::Done),
    {
        match self.stage {
            FlashStage::Done => true,
            _ => false,
        }
    }

    fn chunk_command(&self, i: usize) -> (cmd: HostCommand)
        requires
            flash_session_wf(self@),
            i < chunk_count(self@.binary.len()),
        ensures
            is_chunk_command(cmd, self@.binary, self@.base, i as int),
    {
        let start = i * 256;
        let end = if start + 256 <= self.binary.len() {
            start + 256
        } else {
            self.binary.len()
        };
        let mut data = [0u8; 256];
        let mut j: usize = 0;
        while start + j < end
            invariant
                start == i * 256,
                start < end <= self.binary@.len(),
                end - start <= 256,
                start + j <= end,
                data@.len() == 256,
                forall|k: int| 0 <= k < j ==> data@[k] == self.binary@[start + k],
                forall|k: int| j <= k < 256 ==> data@[k] == 0,
            decreases end - start - j,
        {
            data[j] = self.binary[start + j];
            j += 1;
        }
        let len = (end - start) as u16;
        let fd = FlashData::from_bytes(&data);
        proof {
            let chunk = chunk_bytes(self@.binary, i as int);
            assert(chunk.len() == end - start);
            assert(padded_payload(data@) =~= padded_payload(chunk));
        }
        HostCommand::Write { addr: self.base_addr + (i as u32 * 256), data: fd, len }
    }

    /// Takes in the bootloader's reply to the last command sent.
    ///
    /// `Ping`, `EraseAll` and every `Write` must be acknowledged; the CRC
    /// the bootloader computes over the written image must equal the
    /// host's CRC of the image; only then is `Boot` sent, and its reply
    /// ends the session.
    pub fn on_reply(&mut self, reply: HostReply) -> (step: FlashStep)
        requires
            flash_session_wf(old(self)@),
            old(self)@.stage != FlashStage::Done,
        ensures
            flash_session_wf(final(self)@),
            flash_next(old(self)@, reply, final(self)@, step),
    {
        match self.stage {
            FlashStage::Ping => {
                if reply == HostReply::Ack {
                    self.stage = FlashStage::Erase;
                    FlashStep::Send(HostCommand::EraseAll)
                } else {
                    self.stage = FlashStage::Done;
                    FlashStep::Failed(FlashError::PingFailed(reply))
                }
            },
            FlashStage::Erase => {
                if reply != HostReply::Ack {
                    self.stage = FlashStage::Done;
                    FlashStep::Failed(FlashError::EraseFailed(reply))
                } else if self.total > 0 {
                    let cmd = self.chunk_command(0);
                    self.stage = FlashStage::Write(0);
                    FlashStep::Send(cmd)
                } else {
                    self.stage = FlashStage::Verify;
                    FlashStep::Send(
                        HostCommand::Crc32 { addr: self.base_addr, len: self.binary.len() as u32 },
                    )
                }
            },
            FlashStage::Write(i) => {
                if reply != HostReply::Ack {
                    self.stage = FlashStage::Done;
                    FlashStep::Failed(
                        FlashError::WriteFailed { chunk: i + 1, total: self.total, reply },
                    )
                } else if i + 1 < self.total {
                    let cmd = self.chunk_command(i + 1);
                    self.stage = FlashStage::Write(i + 1);
                    FlashStep::Send(cmd)
                } else {
                    self.stage = FlashStage::Verify;
                    FlashStep::Send(
                        HostCommand::Crc32 { addr: self.base_addr, len: self.binary.len() as u32 },
                    )
                }
            },
            FlashStage::Verify => {
                match reply {
                    HostReply::CrcResult(device) => {
                        if device == self.host_crc {
                            self.stage = FlashStage::Boot;
                            FlashStep::Send(HostCommand::Boot)
                        } else {
                            self.stage = FlashStage::Done;
                            FlashStep::Failed(
                                FlashError::CrcMismatch { host: self.host_crc, device },
                            )
                        }
                    },
                    _ => {
                        self.stage = FlashStage::Done;
                        FlashStep::Failed(FlashError::CrcFailed(reply))
                    },
                }
            },
            FlashStage::Boot => {
                self.stage = FlashStage::Done;
                FlashStep::Booted(reply)
            },
            FlashStage::Done => {
                FlashStep::Booted(reply)
            },
        }
    }
}


/// What a reply collector holds: whether a frame has begun, and its bytes
/// so far.
pub struct CollectState {
    pub started: bool,
    pub bytes: Seq<u8>,
}

/// The effect of one byte read from the bootloader: zero bytes before a
/// frame are skipped, a non-zero byte begins one, and within a frame
/// `0x00` completes it (the bytes before it are handed out) while other
/// bytes are collected.
pub open spec fn collect_step(st: CollectState, b: u8) -> (CollectState, Option<Seq<u8>>) {
    if b == 0 {
        (
            CollectState { started: false, bytes: Seq::empty() },
            if st.started {
                Some(st.bytes)
            } else {
                None
            },
        )
    } else if !st.started {
        (CollectState { started: true, bytes: seq![b] }, None)
    } else {
        (CollectState { started: true, bytes: st.bytes.push(b) }, None)
    }
}

/// Collects the bytes of one reply frame, up to its `0x00` delimiter.
pub struct FrameCollector {
    started: bool,
    bytes: Vec<u8>,
}

impl View for FrameCollector {
    type V = CollectState;

    closed spec fn view(&self) -> CollectState {
        CollectState { started: self.started, bytes: self.bytes@ }
    }
}

/// The collector after reading `bytes` one after another.
pub open spec fn collect_feed(st: CollectState, bytes: Seq<u8>) -> CollectState
    decreases bytes.len(),
{
    if bytes.len() == 0 {
        st
    } else {
        collect_step(collect_feed(st, bytes.drop_last()), bytes.last()).0
    }
}

/// Reading `a` and then `b` is reading `a + b`.
pub proof fn lemma_collect_feed_concat(st: CollectState, a: Seq<u8>, b: Seq<u8>)
    ensures
        collect_feed(st, a + b) == collect_feed(collect_feed(st, a), b),
    decreases b.len(),
{
    if b.len() == 0 {
        assert(a + b =~= a);
    } else {
        assert((a + b).drop_last() =~= a + b.drop_last());
        assert((a + b).last() == b.last());
        lemma_collect_feed_concat(st, a, b.drop_last());
    }
}

proof fn lemma_collect_nonzero_prefix(f: Seq<u8>, k: int)
    requires
        all_nonzero(f),
        1 <= k <= f.len(),
    ensures
        collect_feed(CollectState { started: false, bytes: Seq::empty() }, f.take(k)) == (
        CollectState { started: true, bytes: f.take(k) }),
    decreases k,
{
    let idle = CollectState { started: false, bytes: Seq::empty() };
    let t = f.take(k);
    assert(t.drop_last() =~= f.take(k - 1));
    assert(t.last() == f[k - 1]);
    if k == 1 {
        assert(f.take(0) =~= Seq::<u8>::empty());
        assert(collect_feed(idle, f.take(0)) == idle);
        assert(t =~= seq![f[0]]);
    } else {
        lemma_collect_nonzero_prefix(f, k - 1);
        assert(f.take(k - 1).push(f[k - 1]) =~= t);
    }
}

/// A reply frame read by an idle collector: its non-zero bytes are held
/// until the delimiter, which hands them out and leaves the collector
/// empty; the frame after it is then collected on its own.
pub proof fn lemma_collect_two_frames(f1: Seq<u8>, f2: Seq<u8>)
    requires
        f1.len() > 0,
        all_nonzero(f1),
        f2.len() > 0,
        all_nonzero(f2),
    ensures
        collect_step(collect_feed(CollectState { started: false, bytes: Seq::empty() }, f1), 0)
            == (CollectState { started: false, bytes: Seq::empty() }, Some(f1)),
        collect_step(
            collect_feed(CollectState { started: false, bytes: Seq::empty() }, f1.push(0) + f2),
            0,
        ).1 == Some(f2),
{
    let idle = CollectState { started: false, bytes: Seq::empty() };
    lemma_collect_nonzero_prefix(f1, f1.len() as int);
    lemma_collect_nonzero_prefix(f2, f2.len() as int);
    assert(f1.take(f1.len() as int) =~= f1);
    assert(f2.take(f2.len() as int) =~= f2);
    assert(f1.push(0).drop_last() =~= f1);
    assert(collect_feed(idle, f1.push(0)) == collect_step(collect_feed(idle, f1), 0).0);
    assert(collect_feed(idle, f1.push(0)) == idle);
    lemma_collect_feed_concat(idle, f1.push(0), f2);
}

impl FrameCollector {
    /// A collector waiting for the first byte of a frame.
    pub fn new() -> (c: Self)
        ensures
            c@ == (CollectState { started: false, bytes: Seq::empty() }),
    {
        FrameCollector { started: false, bytes: Vec::new() }
    }

    /// Takes in one byte; returns the frame (without its delimiter) once
    /// the delimiter arrives.
    pub fn push_byte(&mut self, b: u8) -> (frame: Option<Vec<u8>>)
        requires
            !old(self)@.started ==> old(self)@.bytes.len() == 0,
        ensures
            final(self)@ == collect_step(old(self)@, b).0,
            !final(self)@.started ==> final(self)@.bytes.len() == 0,
            match frame {
                Some(f) => collect_step(old(self)@, b).1 == Some(f@),
                None => collect_step(old(self)@, b).1 is None,
            },
    {
        if b == 0 {
            let started = self.started;
            self.started = false;
            let mut done: Vec<u8> = Vec::new();
            std::mem::swap(&mut done, &mut self.bytes);
            proof {
                assert(self.bytes@ =~= Seq::<u8>::empty());
            }
            if started {
                Some(done)
            } else {
                None
            }
        } else if !self.started {
            self.bytes.push(b);
            self.started = true;
            proof {
                assert(self.bytes@ =~= seq![b]);
            }
            None
        } else {
            self.bytes.push(b);
            None
        }
    }
}

} // verus!
