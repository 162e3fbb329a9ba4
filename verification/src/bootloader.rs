//! The bootloader side of the update link: COBS framing into fixed
//! buffers, the byte transport, frame reception and command dispatch.
use vstd::prelude::*;
use crate::cobs::{
    all_nonzero, block_len, block_zero, cobs_frame, decode_blocks, decode_output_len,
    encode_blocks, lemma_decode_encode, lemma_decode_output_len, lemma_encode_blocks_nonzero,
    lemma_encode_len_at_least, lemma_run_len_at_least, lemma_run_len_bound, lemma_run_len_exact,
    prefix_with,
};
use crate::crc::{crc_region_ok, crc_region_valid};
use crate::flash::{program_address_ok, program_address_spec, CM4_FLASH_END};
use crate::protocol::error;
use crate::protocol::{FlashData, HostCommand, HostReply};

verus! {

/// Size of the frame buffers: a 256-byte payload, COBS overhead and the
/// delimiter fit with room to spare.
pub const BUF_SIZE: usize = 512;

/// Length of the COBS frame of `input`, the `0x00` delimiter included,
/// counted without building the frame.
pub fn cobs_frame_len(input: &[u8]) -> (n: usize)
    requires
        input.len() + input.len() / 254 + 2 <= usize::MAX,
    ensures
        n == cobs_frame(input@).len(),
{
    let mut code: usize = 1;
    let mut done: usize = 0;
    let ghost mut start: int = 0;
    let mut i: usize = 0;
    assert(input@.skip(0) =~= input@);
    while i < input.len()
        invariant
            i <= input.len(),
            input.len() + input.len() / 254 + 2 <= usize::MAX,
            1 <= code <= 254,
            0 <= start <= i,
            start == i + 1 - code,
            done <= start + start / 254,
            forall|j: int| start <= j < i ==> input@[j] != 0,
            encode_blocks(input@).len() == done + encode_blocks(input@.skip(start)).len(),
        decreases input.len() - i,
    {
        let ghost rest = input@.skip(start);
        if input[i] == 0 {
            proof {
                assert forall|j: int| 0 <= j < code - 1 implies rest[j] != 0 by {
                    assert(rest[j] == input@[start + j]);
                }
                assert(rest[code - 1] == input@[i as int]);
                lemma_run_len_exact(rest, (code - 1) as nat);
                assert(rest.skip(code as int) =~= input@.skip(i + 1));
                assert((start + code) / 254 >= start / 254) by (nonlinear_arith)
                    requires
                        code >= 1,
                        start >= 0,
                ;
            }
            done = done + code;
            code = 1;
            proof {
                start = i + 1;
            }
        } else {
            code = code + 1;
            if code == 255 {
                proof {
                    assert forall|j: int| 0 <= j < 254 implies rest[j] != 0 by {
                        assert(rest[j] == input@[start + j]);
                    }
                    lemma_run_len_at_least(rest, 254);
                    lemma_run_len_bound(rest);
                    assert(rest.skip(254) =~= input@.skip(i + 1));
                    assert((start + 254) / 254 == start / 254 + 1) by (nonlinear_arith)
                        requires
                            start >= 0,
                    ;
                }
                done = done + 255;
                code = 1;
                proof {
                    start = i + 1;
                }
            }
        }
        i += 1;
    }
    proof {
        let rest = input@.skip(start);
        assert forall|j: int| 0 <= j < rest.len() implies rest[j] != 0 by {
            assert(rest[j] == input@[start + j]);
        }
        lemma_run_len_exact(rest, rest.len());
        assert(start / 254 <= input.len() / 254) by (nonlinear_arith)
            requires
                0 <= start <= input.len(),
        ;
    }
    done + code + 1
}

/// Whether the frame of `payload`, its delimiter included, fits a
/// `BUF_SIZE` buffer.
pub fn frame_fits(payload: &[u8]) -> (fits: bool)
    ensures
        fits == (encode_blocks(payload@).len() < BUF_SIZE),
{
    if payload.len() >= BUF_SIZE {
        proof {
            crate::cobs::lemma_encode_len(payload@);
        }
        return false;
    }
    cobs_frame_len(payload) <= BUF_SIZE
}

/// COBS-encode `input` into `output`.
///
/// Returns the number of bytes written, the trailing `0x00` delimiter
/// included.
pub fn cobs_encode(input: &[u8], output: &mut [u8]) -> (n: usize)
    requires
        encode_blocks(input@).len() < old(output)@.len(),
    ensures
        n == encode_blocks(input@).len() + 1,
        final(output)@.len() == old(output)@.len(),
        final(output)@.take(n as int) == cobs_frame(input@),
        final(output)@.skip(n as int) == old(output)@.skip(n as int),
{
    let mut code: u8 = 1;
    let mut code_pos: usize = 0;
    let mut out_pos: usize = 1;
    let ghost mut start: int = 0;
    let mut i: usize = 0;
    assert(input@.skip(0) =~= input@);
    assert(output@.take(0) + encode_blocks(input@) =~= encode_blocks(input@));
    while i < input.len()
        invariant
            i <= input.len(),
            1 <= code <= 254,
            0 <= start <= i,
            start == i + 1 - code,
            code_pos <= out_pos,
            out_pos == code_pos + code,
            out_pos < output@.len(),
            output@.len() == old(output)@.len(),
            forall|j: int| start <= j < i ==> input@[j] != 0,
            encode_blocks(input@) == output@.take(code_pos as int) + encode_blocks(
                input@.skip(start),
            ),
            encode_blocks(input@).len() < output@.len(),
            output@.subrange(code_pos + 1, out_pos as int) == input@.subrange(start, i as int),
            forall|j: int| out_pos <= j < output@.len() ==> output@[j] == old(output)@[j],
        decreases input.len() - i,
    {
        let byte = input[i];
        let ghost rest = input@.skip(start);
        let ghost before = output@;
        if byte == 0 {
            proof {
                assert forall|j: int| 0 <= j < code - 1 implies rest[j] != 0 by {
                    assert(rest[j] == input@[start + j]);
                }
                assert(rest[code - 1] == input@[i as int]);
                lemma_run_len_exact(rest, (code - 1) as nat);
                lemma_run_len_bound(rest);
                assert(block_len(rest) == code - 1);
                assert(rest.take(code - 1) =~= input@.subrange(start, i as int));
                assert(rest.skip(code as int) =~= input@.skip(i + 1));
                lemma_encode_len_at_least(rest.skip(code as int), 0);
                assert(encode_blocks(input@).len() == code_pos + encode_blocks(rest).len());
            }
            output[code_pos] = (out_pos - code_pos) as u8;
            code_pos = out_pos;
            out_pos += 1;
            code = 1;
            proof {
                assert(output@.take(code_pos as int) =~= before.take(code_pos - (i + 1 - start))
                    + seq![(i + 1 - start) as u8] + input@.subrange(start, i as int));
                start = i + 1;
                assert(output@.subrange(code_pos + 1, out_pos as int) =~= input@.subrange(
                    start,
                    i + 1,
                ));
            }
        } else {
            proof {
                assert forall|j: int| 0 <= j < code implies rest[j] != 0 by {
                    assert(rest[j] == input@[start + j]);
                }
                lemma_encode_len_at_least(rest, code as nat);
                assert(encode_blocks(input@).len() == code_pos + encode_blocks(rest).len());
            }
            output[out_pos] = byte;
            out_pos += 1;
            code += 1;
            if code == 0xFF {
                proof {
                    assert forall|j: int| 0 <= j < 254 implies rest[j] != 0 by {
                        assert(rest[j] == input@[start + j]);
                    }
                    lemma_run_len_at_least(rest, 254);
                    assert(rest.take(254) =~= input@.subrange(start, i + 1));
                    assert(rest.skip(254) =~= input@.skip(i + 1));
                    lemma_encode_len_at_least(rest.skip(254), 0);
                    assert(output@.subrange(code_pos + 1, out_pos as int) =~= input@.subrange(
                        start,
                        i + 1,
                    ));
                }
                let ghost before_split = output@;
                output[code_pos] = 0xFF;
                code_pos = out_pos;
                out_pos += 1;
                code = 1;
                proof {
                    assert(output@.take(code_pos as int) =~= before_split.take(code_pos - 255)
                        + seq![0xFFu8] + input@.subrange(start, i + 1));
                    start = i + 1;
                    assert(output@.subrange(code_pos + 1, out_pos as int) =~= input@.subrange(
                        start,
                        i + 1,
                    ));
                }
            } else {
                proof {
                    assert(output@.subrange(code_pos + 1, out_pos as int) =~= input@.subrange(
                        start,
                        i + 1,
                    ));
                }
            }
        }
        i += 1;
    }
    proof {
        let rest = input@.skip(start);
        assert forall|j: int| 0 <= j < rest.len() implies rest[j] != 0 by {
            assert(rest[j] == input@[start + j]);
        }
        lemma_run_len_exact(rest, rest.len());
        assert(rest =~= input@.subrange(start, i as int));
    }
    let ghost before_close = output@;
    output[code_pos] = code;
    output[out_pos] = 0x00;
    proof {
        assert(output@.take(out_pos + 1) =~= (before_close.take(code_pos as int) + seq![code]
            + input@.subrange(start, i as int)).push(0));
        assert(output@.skip(out_pos + 1) =~= old(output)@.skip(out_pos + 1));
    }
    out_pos + 1
}

/// COBS-decode a frame, given without its `0x00` delimiter, into `output`.
///
/// A zero is restored after every block that has input behind it, except
/// after a full `0xFF` block. Returns the number of decoded bytes, or
/// `None` on an invalid encoding; `output` needs room for the bytes
/// written before the decoder finishes or stops.
/// Bytes of `output` past the decoded ones are left as they were.
pub fn cobs_decode(input: &[u8], output: &mut [u8]) -> (res: Option<usize>)
    requires
        decode_output_len(input@) <= old(output)@.len(),
        input.len() + 255 <= usize::MAX,
    ensures
        final(output)@.len() == old(output)@.len(),
        match res {
            Some(n) => {
                &&& decode_blocks(input@) == Some(final(output)@.take(n as int))
                &&& n == decode_output_len(input@)
                &&& n <= input.len()
                &&& n <= final(output)@.len()
                &&& final(output)@.skip(n as int) == old(output)@.skip(n as int)
            },
            None => decode_blocks(input@) is None,
        },
{
    let mut out_pos: usize = 0;
    let mut i: usize = 0;
    assert(input@.skip(0) =~= input@);
    assert(output@.take(0) + input@ =~= input@);
    while i < input.len()
        invariant
            i <= input.len(),
            input.len() + 255 <= usize::MAX,
            output@.len() == old(output)@.len(),
            decode_blocks(input@) == prefix_with(
                output@.take(out_pos as int),
                decode_blocks(input@.skip(i as int)),
            ),
            out_pos + decode_output_len(input@.skip(i as int)) <= output@.len(),
            forall|j: int| out_pos <= j < output@.len() ==> output@[j] == old(output)@[j],
        decreases input.len() - i,
    {
        let ghost blk: int = i as int;
        let ghost s = input@.skip(blk);
        let ghost out0 = output@.take(out_pos as int);
        let ghost pos0: int = out_pos as int;
        let code = input[i];
        if code == 0 {
            return None;
        }
        i += 1;
        let block_end = i + (code as usize) - 1;
        let end = if block_end < input.len() {
            block_end
        } else {
            input.len()
        };
        proof {
            lemma_run_len_bound(s.skip(1));
        }
        while i < end
            invariant
                blk < i <= end <= input.len(),
                end == (if block_end < input.len() { block_end } else { input.len() }),
                block_end == blk + code,
                0 <= blk < input.len(),
                input.len() + 255 <= usize::MAX,
                output@.len() == old(output)@.len(),
                s == input@.skip(blk),
                s[0] == code,
                code != 0,
                decode_blocks(input@) == prefix_with(out0, decode_blocks(s)),
                pos0 + decode_output_len(s) <= output@.len(),
                out_pos == pos0 + (i - blk - 1),
                output@.take(out_pos as int) == out0 + input@.subrange(blk + 1, i as int),
                all_nonzero(input@.subrange(blk + 1, i as int)),
                forall|j: int| out_pos <= j < output@.len() ==> output@[j] == old(output)@[j],
            decreases end - i,
        {
            if input[i] == 0 {
                proof {
                    let data = if block_end < input.len() {
                        s.subrange(1, code as int)
                    } else {
                        s.skip(1)
                    };
                    assert(data[i - blk - 1] == input@[i as int]);
                    assert(!all_nonzero(data));
                    assert(decode_blocks(s) is None);
                }
                return None;
            }
            proof {
                let t = s.skip(1);
                assert forall|j: int| 0 <= j < i - blk implies t[j] != 0 by {
                    assert(t[j] == input@[blk + 1 + j]);
                    if j < i - blk - 1 {
                        assert(input@.subrange(blk + 1, i as int)[j] == input@[blk + 1 + j]);
                    }
                }
                lemma_run_len_at_least(t, (i - blk) as nat);
            }
            let ghost before = output@;
            output[out_pos] = input[i];
            proof {
                assert(output@.take(out_pos + 1) =~= before.take(out_pos as int).push(
                    input@[i as int],
                ));
                assert(input@.subrange(blk + 1, i + 1) =~= input@.subrange(blk + 1, i as int).push(
                    input@[i as int],
                ));
            }
            out_pos += 1;
            i += 1;
        }
        if block_end < input.len() {
            proof {
                assert(s.subrange(1, code as int) =~= input@.subrange(blk + 1, i as int));
                assert(s.skip(code as int) =~= input@.skip(i as int));
            }
            if code < 0xFF {
                let ghost before = output@;
                output[out_pos] = 0;
                out_pos += 1;
                proof {
                    assert(output@.take(out_pos as int) =~= out0 + input@.subrange(
                        blk + 1,
                        i as int,
                    ) + block_zero(code));
                }
            } else {
                proof {
                    assert(output@.take(out_pos as int) =~= out0 + input@.subrange(
                        blk + 1,
                        i as int,
                    ) + block_zero(code));
                }
            }
            proof {
                match decode_blocks(input@.skip(i as int)) {
                    Some(r) => {
                        assert(out0 + (input@.subrange(blk + 1, i as int) + block_zero(code) + r)
                            =~= output@.take(out_pos as int) + r);
                    },
                    None => {},
                }
            }
        } else {
            proof {
                assert(s.skip(1) =~= input@.subrange(blk + 1, i as int));
                assert(input@.skip(i as int) =~= Seq::<u8>::empty());
                assert(output@.take(out_pos as int) + Seq::<u8>::empty() =~= output@.take(
                    out_pos as int,
                ));
            }
        }
    }
    proof {
        assert(input@.skip(i as int) =~= Seq::<u8>::empty());
        assert(output@.take(out_pos as int) + Seq::<u8>::empty() =~= output@.take(out_pos as int));
        assert(output@.skip(out_pos as int) =~= old(output)@.skip(out_pos as int));
        lemma_decode_output_len(input@);
    }
    Some(out_pos)
}

/// `256^j`: the weight of byte `j` of a little-endian word.
pub open spec fn byte_place(j: nat) -> int
    decreases j,
{
    if j == 0 {
        1
    } else {
        256 * byte_place((j - 1) as nat)
    }
}

/// The little-endian value of `s`.
pub open spec fn le_value(s: Seq<u8>) -> int
    decreases s.len(),
{
    if s.len() == 0 {
        0
    } else {
        le_value(s.drop_last()) + s.last() * byte_place((s.len() - 1) as nat)
    }
}

/// One-past-end of the bytes of word `i` of a 256-byte payload.
pub open spec fn word_end(i: int) -> int {
    if 4 * i + 4 <= 256 {
        4 * i + 4
    } else {
        256
    }
}

/// Word `i` of the payload: its bytes `4i..4i+4` (fewer at the end of the
/// payload), least significant first.
pub open spec fn payload_word(data: Seq<u8>, i: int) -> u32 {
    le_value(data.subrange(4 * i, word_end(i))) as u32
}

/// Number of 32-bit words programmed for `len` valid bytes.
pub open spec fn word_count(len: u16) -> int {
    (len + 3) / 4
}

pub proof fn lemma_byte_place_pos(j: nat)
    ensures
        byte_place(j) >= 1,
    decreases j,
{
    if j > 0 {
        lemma_byte_place_pos((j - 1) as nat);
    }
}

pub proof fn lemma_le_value_bounds(s: Seq<u8>)
    ensures
        0 <= le_value(s) < byte_place(s.len()),
    decreases s.len(),
{
    if s.len() > 0 {
        let n = (s.len() - 1) as nat;
        lemma_le_value_bounds(s.drop_last());
        lemma_byte_place_pos(n);
        let b = byte_place(n);
        let l = s.last() as int;
        assert(0 <= l * b <= 255 * b) by (nonlinear_arith)
            requires
                0 <= l <= 255,
                b >= 1,
        ;
    }
}

/// The little-endian value of `s` is its first byte plus 256 times the
/// value of the rest.
pub proof fn lemma_le_value_front(s: Seq<u8>)
    requires
        s.len() >= 1,
    ensures
        le_value(s) == s[0] + 256 * le_value(s.drop_first()),
    decreases s.len(),
{
    if s.len() == 1 {
        assert(s.drop_last().len() == 0);
        assert(s.drop_first().len() == 0);
        assert(le_value(s.drop_last()) == 0);
        assert(le_value(s.drop_first()) == 0);
        assert(s.last() == s[0]);
        assert(byte_place(0) == 1);
    } else {
        let t = s.drop_last();
        lemma_le_value_front(t);
        assert(t.drop_first() =~= s.drop_first().drop_last());
        let x = le_value(t.drop_first());
        let l = s.last() as int;
        let b = byte_place((s.len() - 2) as nat);
        assert(byte_place((s.len() - 1) as nat) == 256 * b);
        assert(s.drop_first().last() == s.last());
        assert(t[0] == s[0]);
        assert(le_value(s) == le_value(t) + l * byte_place((s.len() - 1) as nat));
        assert(le_value(s.drop_first()) == x + l * b);
        assert(256 * (x + l * b) == 256 * x + l * (256 * b)) by (nonlinear_arith);
    }
}

/// Byte `m` of the little-endian value of `s` is `s[m]`.
pub proof fn lemma_le_value_byte(s: Seq<u8>, m: nat)
    requires
        m < s.len(),
    ensures
        (le_value(s) / byte_place(m)) % 256 == s[m as int],
    decreases m,
{
    lemma_le_value_front(s);
    lemma_le_value_bounds(s.drop_first());
    let q = le_value(s.drop_first());
    let r = s[0] as int;
    vstd::arithmetic::div_mod::lemma_fundamental_div_mod_converse(le_value(s), 256, q, r);
    if m > 0 {
        lemma_le_value_byte(s.drop_first(), (m - 1) as nat);
        lemma_byte_place_pos((m - 1) as nat);
        vstd::arithmetic::div_mod::lemma_div_denominator(le_value(s), 256, byte_place((m - 1) as nat));
        assert(s.drop_first()[m - 1] == s[m as int]);
    }
}

/// Packing a byte below `256^j` bytes already packed adds it at place `j`.
proof fn lemma_pack_step(word: u32, b: u8, j: u32)
    requires
        j < 4,
        word < byte_place(j as nat),
    ensures
        word | ((b as u32) << (j * 8)) == word + b * byte_place(j as nat),
        word + b * byte_place(j as nat) < byte_place((j + 1) as nat),
{
    assert(byte_place(0) == 1);
    assert(byte_place(1) == 256);
    assert(byte_place(2) == 65536);
    assert(byte_place(3) == 16777216);
    assert(byte_place(4) == 4294967296);
    if j == 0 {
        assert(word | ((b as u32) << 0u32) == word + (b as u32)) by (bit_vector)
            requires
                word < 1,
        ;
    } else if j == 1 {
        assert(word | ((b as u32) << 8u32) == word + (b as u32) * 256) by (bit_vector)
            requires
                word < 256,
        ;
    } else if j == 2 {
        assert(word | ((b as u32) << 16u32) == word + (b as u32) * 65536) by (bit_vector)
            requires
                word < 65536,
        ;
    } else {
        assert(word | ((b as u32) << 24u32) == word + (b as u32) * 16777216) by (bit_vector)
            requires
                word < 16777216,
        ;
    }
}

/// Packs word `i` of a 256-byte payload, least significant byte first.
fn payload_word_at(bytes: &[u8], i: usize) -> (w: u32)
    requires
        bytes@.len() == 256,
        i * 4 <= 256,
    ensures
        w == payload_word(bytes@, i as int),
{
    let start = i * 4;
    let end = if start + 4 <= bytes.len() {
        start + 4
    } else {
        bytes.len()
    };
    let mut word: u32 = 0;
    let mut j: u32 = 0;
    assert(bytes@.subrange(start as int, start as int) =~= Seq::<u8>::empty());
    while start + (j as usize) < end
        invariant
            start == i * 4,
            start <= end <= 256,
            end == word_end(i as int),
            bytes@.len() == 256,
            j <= 4,
            start + j <= end,
            word == le_value(bytes@.subrange(start as int, start + j)),
            word < byte_place(j as nat),
        decreases end - start - j,
    {
        let b = bytes[start + j as usize];
        proof {
            lemma_pack_step(word, b, j);
            let sub = bytes@.subrange(start as int, start + j + 1);
            assert(sub.drop_last() =~= bytes@.subrange(start as int, start + j));
            assert(sub.last() == b);
        }
        word |= (b as u32) << (j * 8);
        j += 1;
    }
    word
}

/// Number of 32-bit words a `Write` of `len` bytes programs.
pub fn write_word_count(len: u16) -> (n: usize)
    ensures
        n == word_count(len),
{
    (len as usize + 3) / 4
}

/// What the bootloader does next while serving a command.
#[derive(Debug, Clone, Copy, PartialEq, Eq, Structural)]
pub enum Action {
    /// Send this reply; the command is done.
    Reply(HostReply),
    /// Erase all CM4 flash sectors, then resume with `Outcome::Erased`.
    EraseAll,
    /// Program word `index` of a `Write`, then resume with
    /// `Outcome::Programmed`.
    ProgramWord { index: usize, addr: u32, word: u32 },
    /// Run the CRC unit over the region, then resume with `Outcome::Crc`.
    ComputeCrc { addr: u32, len: u32 },
    /// Write the approval word to shared memory, then resume with
    /// `Outcome::Approved`.
    ApproveFirmware,
}

/// What came of the outside work that an `Action` asked for.
#[derive(Debug, Clone, Copy, PartialEq, Eq, Structural)]
pub enum Outcome {
    /// The erase of all sectors succeeded or failed.
    Erased(bool),
    /// Programming word `index` succeeded or failed.
    Programmed { index: usize, ok: bool },
    /// The CRC unit computed this value.
    Crc(u32),
    /// The approval word was written.
    Approved,
}

/// The step that programs word `i` of a `Write`, or its `Ack` once every
/// word is programmed.
pub open spec fn program_step(addr: u32, data: FlashData, len: u16, i: int) -> Action {
    if i < word_count(len) {
        Action::ProgramWord { index: i as usize, addr: (addr + 4 * i) as u32, word: payload_word(data@, i) }
    } else {
        Action::Reply(HostReply::Ack)
    }
}

/// A `Write` stores its payload: for every byte `j` of the `len` valid
/// bytes, the word programmed for it goes to `addr + 4 (j / 4)`, and its
/// byte `j % 4` in little-endian order (the byte landing at `addr + j`)
/// is payload byte `j`.
pub proof fn lemma_write_programs_payload(addr: u32, data: FlashData, len: u16, j: int)
    requires
        program_address_spec(addr),
        len <= 256,
        0 <= j < len,
    ensures
        program_step(addr, data, len, j / 4) matches Action::ProgramWord { index, addr: a, word }
            && index == j / 4
            && a + j % 4 == addr + j
            && (word as int / byte_place((j % 4) as nat)) % 256 == data@[j],
{
    data.lemma_len();
    let i = j / 4;
    assert(i < word_count(len));
    assert(4 * i + 4 <= 256);
    let sub = data@.subrange(4 * i, word_end(i));
    assert(sub.len() == 4);
    lemma_le_value_bounds(sub);
    assert(byte_place(4) == 4294967296) by {
        assert(byte_place(0) == 1);
        assert(byte_place(1) == 256);
        assert(byte_place(2) == 65536);
        assert(byte_place(3) == 16777216);
    }
    lemma_le_value_byte(sub, (j % 4) as nat);
    assert(sub[j % 4] == data@[j]);
}

/// The `len` bytes written from `addr` end within the CM4 flash.
pub open spec fn write_in_flash(addr: u32, len: u16) -> bool {
    addr + len <= CM4_FLASH_END
}

/// The first step in serving `cmd`.
pub open spec fn dispatch_spec(cmd: HostCommand) -> Action {
    match cmd {
        HostCommand::Ping => Action::Reply(HostReply::Ack),
        HostCommand::EraseAll => Action::EraseAll,
        HostCommand::Write { addr, data, len } => if !program_address_spec(addr) {
            Action::Reply(HostReply::Nak(error::BAD_ADDRESS))
        } else if len > 256 {
            Action::Reply(HostReply::Nak(error::BAD_LENGTH))
        } else if !write_in_flash(addr, len) {
            Action::Reply(HostReply::Nak(error::BAD_ADDRESS))
        } else {
            program_step(addr, data, len, 0)
        },
        HostCommand::Crc32 { addr, len } => if crc_region_ok(addr, len) {
            Action::ComputeCrc { addr, len }
        } else {
            Action::Reply(HostReply::Nak(error::BAD_ADDRESS))
        },
        HostCommand::Boot => Action::ApproveFirmware,
    }
}

/// The outcome is one that the work asked for by `cmd` can produce.
pub open spec fn resume_defined(cmd: HostCommand, outcome: Outcome) -> bool {
    match (cmd, outcome) {
        (HostCommand::EraseAll, Outcome::Erased(_)) => true,
        (HostCommand::Write { addr, data, len }, Outcome::Programmed { index, ok }) => {
            &&& program_address_spec(addr)
            &&& len <= 256
            &&& write_in_flash(addr, len)
            &&& index < word_count(len)
        },
        (HostCommand::Crc32 { addr, len }, Outcome::Crc(_)) => crc_region_ok(addr, len),
        (HostCommand::Boot, Outcome::Approved) => true,
        _ => false,
    }
}

/// The step after `outcome` in serving `cmd`.
pub open spec fn resume_spec(cmd: HostCommand, outcome: Outcome) -> Action {
    match outcome {
        Outcome::Erased(ok) => Action::Reply(
            if ok {
                HostReply::Ack
            } else {
                HostReply::Nak(error::FLASH_ERROR)
            },
        ),
        Outcome::Programmed { index, ok } => if !ok {
            Action::Reply(HostReply::Nak(error::FLASH_ERROR))
        } else {
            match cmd {
                HostCommand::Write { addr, data, len } => program_step(addr, data, len, index + 1),
                _ => Action::Reply(HostReply::Ack),
            }
        },
        Outcome::Crc(value) => Action::Reply(HostReply::CrcResult(value)),
        Outcome::Approved => Action::Reply(HostReply::Ack),
    }
}

fn program_step_exec(addr: u32, data: &FlashData, len: u16, i: usize) -> (a: Action)
    requires
        program_address_spec(addr),
        len <= 256,
        i <= word_count(len),
    ensures
        a == program_step(addr, *data, len, i as int),
{
    let count = (len as usize + 3) / 4;
    if i < count {
        let word = payload_word_at(data.as_bytes(), i);
        Action::ProgramWord { index: i, addr: addr + (i as u32 * 4), word }
    } else {
        Action::Reply(HostReply::Ack)
    }
}

/// A `Write` is refused, before any word is programmed, when its address
/// is not an aligned CM4 flash address, its length exceeds the payload,
/// or its bytes run past the end of the CM4 flash; otherwise every word
/// it programs lies within the CM4 flash.
pub proof fn lemma_write_stays_in_flash(addr: u32, data: FlashData, len: u16, i: int)
    requires
        0 <= i,
    ensures
        !program_address_spec(addr) || len > 256 || !write_in_flash(addr, len) ==> dispatch_spec(
            HostCommand::Write { addr, data, len },
        ) is Reply,
        program_address_spec(addr) && len <= 256 && write_in_flash(addr, len) ==> (program_step(
            addr,
            data,
            len,
            i,
        ) matches Action::ProgramWord { addr: a, .. } ==> program_address_spec(a)),
{
}

/// Which `Write`s are refused, and how, before anything is programmed: an
/// address that is not 4-byte aligned or lies outside
/// `0x0810_0000..0x0820_0000` gets `BAD_ADDRESS`; otherwise a length over
/// 256 gets `BAD_LENGTH`; otherwise bytes running past `0x0820_0000` get
/// `BAD_ADDRESS`.
pub proof fn lemma_refused_writes(addr: u32, data: FlashData, len: u16)
    ensures
        !(0x0810_0000 <= addr < 0x0820_0000 && addr % 4 == 0) ==> dispatch_spec(
            HostCommand::Write { addr, data, len },
        ) == Action::Reply(HostReply::Nak(0x01)),
        0x0810_0000 <= addr < 0x0820_0000 && addr % 4 == 0 && len > 256 ==> dispatch_spec(
            HostCommand::Write { addr, data, len },
        ) == Action::Reply(HostReply::Nak(0x02)),
        0x0810_0000 <= addr < 0x0820_0000 && addr % 4 == 0 && len <= 256 && addr + len
            > 0x0820_0000 ==> dispatch_spec(HostCommand::Write { addr, data, len }) == Action::Reply(
            HostReply::Nak(0x01),
        ),
{
}

/// Word `j` of a payload is its bytes `4j..4j+4`, least significant
/// first.
proof fn lemma_payload_word_bytes(data: FlashData, j: int)
    requires
        0 <= j < 64,
    ensures
        payload_word(data@, j) as int == data@[4 * j] + 256 * data@[4 * j + 1] + 65536 * data@[4
            * j + 2] + 16777216 * data@[4 * j + 3],
{
    data.lemma_len();
    let sub = data@.subrange(4 * j, word_end(j));
    assert(word_end(j) == 4 * j + 4);
    lemma_le_value_front(sub);
    let s1 = sub.drop_first();
    lemma_le_value_front(s1);
    let s2 = s1.drop_first();
    lemma_le_value_front(s2);
    let s3 = s2.drop_first();
    lemma_le_value_front(s3);
    assert(s3.drop_first().len() == 0);
    assert(le_value(s3.drop_first()) == 0);
    let v = data@[4 * j] + 256 * data@[4 * j + 1] + 65536 * data@[4 * j + 2] + 16777216 * data@[4
        * j + 3];
    assert(le_value(sub) == v);
    assert(0 <= v < 0x1_0000_0000);
}

/// A `Write` to a 4-byte aligned CM4 flash address whose `len <= 256`
/// bytes end within the CM4 flash is never refused: with no bytes it is
/// acknowledged at once, otherwise the first step programs, at `addr`,
/// the word made of payload bytes 0..4, least significant first. A full
/// 256-byte chunk is accepted like any other.
pub proof fn lemma_accepted_write_programs_first_word(addr: u32, data: FlashData, len: u16)
    requires
        0x0810_0000 <= addr < 0x0820_0000,
        addr % 4 == 0,
        len <= 256,
        addr + len <= 0x0820_0000,
    ensures
        len == 0 ==> dispatch_spec(HostCommand::Write { addr, data, len }) == Action::Reply(
            HostReply::Ack,
        ),
        len > 0 ==> (dispatch_spec(HostCommand::Write { addr, data, len }) matches
            Action::ProgramWord { index, addr: a, word } && index == 0 && a == addr && word as int
            == data@[0] + 256 * data@[1] + 65536 * data@[2] + 16777216 * data@[3]),
{
    lemma_payload_word_bytes(data, 0);
}

/// An accepted `Write` programs its words one after another: after word
/// `i` is programmed, the next step programs word `i + 1`, made of payload
/// bytes `4(i+1)..4(i+1)+4`, at `addr + 4(i+1)`, until all `(len + 3) / 4`
/// words are done and the write is acknowledged; a word that fails ends
/// the write with `FLASH_ERROR`.
pub proof fn lemma_write_proceeds_word_by_word(addr: u32, data: FlashData, len: u16, i: int)
    requires
        0x0810_0000 <= addr < 0x0820_0000,
        addr % 4 == 0,
        len <= 256,
        addr + len <= 0x0820_0000,
        0 <= i < (len + 3) / 4,
    ensures
        resume_spec(HostCommand::Write { addr, data, len }, Outcome::Programmed { index: i as usize, ok: false })
            == Action::Reply(HostReply::Nak(0x03)),
        i + 1 < (len + 3) / 4 ==> (resume_spec(
            HostCommand::Write { addr, data, len },
            Outcome::Programmed { index: i as usize, ok: true },
        ) matches Action::ProgramWord { index, addr: a, word } && index == i + 1 && a == addr + 4 * (
        i + 1) && word as int == data@[4 * (i + 1)] + 256 * data@[4 * (i + 1) + 1] + 65536 * data@[4
            * (i + 1) + 2] + 16777216 * data@[4 * (i + 1) + 3]),
        i + 1 == (len + 3) / 4 ==> resume_spec(
            HostCommand::Write { addr, data, len },
            Outcome::Programmed { index: i as usize, ok: true },
        ) == Action::Reply(HostReply::Ack),
{
    if i + 1 < (len + 3) / 4 {
        lemma_payload_word_bytes(data, i + 1);
    }
}

/// The commands other than `Write`: `Ping` is acknowledged, `EraseAll`
/// erases, `Boot` approves the firmware, and `Crc32` runs the CRC unit
/// over its region exactly when the region is non-empty and ends within
/// the CM4 flash, and is refused with `BAD_ADDRESS` otherwise.
pub proof fn lemma_dispatch_other_commands(addr: u32, len: u32)
    ensures
        dispatch_spec(HostCommand::Ping) == Action::Reply(HostReply::Ack),
        dispatch_spec(HostCommand::EraseAll) == Action::EraseAll,
        dispatch_spec(HostCommand::Boot) == Action::ApproveFirmware,
        len != 0 && addr + len <= 0x0820_0000 ==> dispatch_spec((HostCommand::Crc32 { addr, len }))
            == (Action::ComputeCrc { addr, len }),
        !(len != 0 && addr + len <= 0x0820_0000) ==> dispatch_spec((HostCommand::Crc32 { addr, len }))
            == Action::Reply(HostReply::Nak(0x01)),
{
}

/// The outcome of the outside work is reported as it came: an erase is
/// acknowledged exactly when it succeeded and fails with `FLASH_ERROR`
/// otherwise, a computed CRC is sent back unchanged, and an approval is
/// acknowledged.
pub proof fn lemma_resume_reports_outcome(cmd: HostCommand, ok: bool, value: u32)
    ensures
        resume_spec(cmd, Outcome::Erased(ok)) == Action::Reply(
            if ok {
                HostReply::Ack
            } else {
                HostReply::Nak(0x03)
            },
        ),
        resume_spec(cmd, Outcome::Crc(value)) == Action::Reply(HostReply::CrcResult(value)),
        resume_spec(cmd, Outcome::Approved) == Action::Reply(HostReply::Ack),
{
}

/// The first step in serving a command from the host.
///
/// `Ping` is answered at once; `EraseAll` erases the CM4 flash; `Write`
/// checks that its address is a 4-byte aligned CM4 flash address, that
/// `len` does not exceed the 256-byte payload and that the bytes end
/// within the CM4 flash, and then programs
/// `(len + 3) / 4` words of its payload one after another;
/// `Crc32` checks its region and runs the CRC unit over it; `Boot`
/// approves the firmware.
pub fn dispatch(cmd: &HostCommand) -> (a: Action)
    ensures
        a == dispatch_spec(*cmd),
{
    match cmd {
        HostCommand::Ping => Action::Reply(HostReply::Ack),
        HostCommand::EraseAll => Action::EraseAll,
        HostCommand::Write { addr, data, len } => {
            if !program_address_ok(*addr) {
                return Action::Reply(HostReply::Nak(error::BAD_ADDRESS));
            }
            if *len > 256 {
                return Action::Reply(HostReply::Nak(error::BAD_LENGTH));
            }
            if *len as u32 > 0x0820_0000 - *addr {
                return Action::Reply(HostReply::Nak(error::BAD_ADDRESS));
            }
            program_step_exec(*addr, data, *len, 0)
        },
        HostCommand::Crc32 { addr, len } => {
            if crc_region_valid(*addr, *len) {
                Action::ComputeCrc { addr: *addr, len: *len }
            } else {
                Action::Reply(HostReply::Nak(error::BAD_ADDRESS))
            }
        },
        HostCommand::Boot => Action::ApproveFirmware,
    }
}

/// The step after the outside work asked for by the previous step.
///
/// A failed erase or program ends the command with `Nak(FLASH_ERROR)`; a
/// programmed word is followed by the next one, and the last by `Ack`; a
/// computed CRC is sent back; an approved firmware is acknowledged.
pub fn resume(cmd: &HostCommand, outcome: Outcome) -> (a: Action)
    requires
        resume_defined(*cmd, outcome),
    ensures
        a == resume_spec(*cmd, outcome),
{
    match outcome {
        Outcome::Erased(ok) => {
            if ok {
                Action::Reply(HostReply::Ack)
            } else {
                Action::Reply(HostReply::Nak(error::FLASH_ERROR))
            }
        },
        Outcome::Programmed { index, ok } => {
            if !ok {
                return Action::Reply(HostReply::Nak(error::FLASH_ERROR));
            }
            match cmd {
                HostCommand::Write { addr, data, len } => program_step_exec(
                    *addr,
                    data,
                    *len,
                    index + 1,
                ),
                _ => Action::Reply(HostReply::Ack),
            }
        },
        Outcome::Crc(value) => Action::Reply(HostReply::CrcResult(value)),
        Outcome::Approved => Action::Reply(HostReply::Ack),
    }
}

/// The reply to a frame that does not hold a command.
pub fn malformed_reply() -> (r: HostReply)
    ensures
        r == HostReply::Nak(error::BAD_ADDRESS),
{
    HostReply::Nak(error::BAD_ADDRESS)
}

/// After the reply to `Boot` is sent, the bootloader resets the system.
pub fn resets_after(cmd: &HostCommand) -> (reset: bool)
    ensures
        reset == (*cmd is Boot),
{
    match cmd {
        HostCommand::Boot => true,
        _ => false,
    }
}


/// A byte stream the bootloader talks over.
pub trait Transport {
    /// Read one byte, blocking.
    fn read_byte(&mut self) -> u8;

    /// Write one byte.
    fn write_byte(&mut self, b: u8);
}

/// What a frame receiver holds: whether a frame has begun, and its bytes
/// so far (without the delimiter).
pub struct RecvState {
    pub in_frame: bool,
    pub collected: Seq<u8>,
}

/// What a received byte brings about, as a model.
pub enum RecvEventModel {
    /// The frame goes on, or none has begun.
    Pending,
    /// The frame was too long or did not decode; it is dropped.
    Dropped,
    /// A frame was decoded: its payload.
    Frame(Seq<u8>),
}

/// The `BUF_SIZE`-byte buffer that holds `d` followed by zeros.
pub open spec fn padded_frame(d: Seq<u8>) -> Seq<u8> {
    Seq::new(BUF_SIZE as nat, |i: int| if i < d.len() { d[i] } else { 0u8 })
}

/// The receiver before any byte: no frame has begun.
pub open spec fn recv_idle() -> RecvState {
    RecvState { in_frame: false, collected: Seq::empty() }
}

/// The effect of one received byte.
///
/// Zero bytes before a frame are skipped; a non-zero byte begins a frame.
/// Within a frame, `0x00` ends it and the collected bytes are decoded; a
/// non-zero byte is collected, unless `BUF_SIZE` bytes are already held,
/// in which case the frame is dropped and the byte with it.
pub open spec fn recv_step(st: RecvState, b: u8) -> (RecvState, RecvEventModel) {
    if !st.in_frame {
        if b == 0 {
            (recv_idle(), RecvEventModel::Pending)
        } else {
            (RecvState { in_frame: true, collected: seq![b] }, RecvEventModel::Pending)
        }
    } else if b == 0 {
        (
            recv_idle(),
            match decode_blocks(st.collected) {
                Some(d) => RecvEventModel::Frame(d),
                None => RecvEventModel::Dropped,
            },
        )
    } else if st.collected.len() >= BUF_SIZE {
        (recv_idle(), RecvEventModel::Dropped)
    } else {
        (RecvState { in_frame: true, collected: st.collected.push(b) }, RecvEventModel::Pending)
    }
}

/// What a received byte brings about.
#[derive(Debug, Clone, Copy)]
pub enum RecvEvent {
    /// The frame goes on, or none has begun.
    Pending,
    /// The frame was too long or did not decode; it is dropped.
    Dropped,
    /// A decoded frame: its first `len` bytes are the payload, the rest of
    /// the buffer is zero.
    Frame { buf: [u8; 512], len: usize },
}

impl RecvEvent {
    pub open spec fn model(self) -> RecvEventModel {
        match self {
            RecvEvent::Pending => RecvEventModel::Pending,
            RecvEvent::Dropped => RecvEventModel::Dropped,
            RecvEvent::Frame { buf, len } => RecvEventModel::Frame(buf@.take(len as int)),
        }
    }
}

/// Assembles COBS frames from the bytes of a transport, one byte at a
/// time, in a fixed buffer.
pub struct FrameReceiver {
    in_frame: bool,
    buf: [u8; 512],
    len: usize,
}

impl FrameReceiver {
    /// The collected bytes never exceed the buffer.
    #[verifier::type_invariant]
    spec fn len_in_buffer(self) -> bool {
        self.len <= BUF_SIZE
    }
}

impl View for FrameReceiver {
    type V = RecvState;

    closed spec fn view(&self) -> RecvState {
        RecvState { in_frame: self.in_frame, collected: self.buf@.take(self.len as int) }
    }
}

/// A receiver state that can occur: an idle receiver holds nothing, and
/// a frame in progress holds between 1 and `BUF_SIZE` non-zero bytes.
pub open spec fn recv_state_wf(st: RecvState) -> bool {
    if st.in_frame {
        1 <= st.collected.len() <= BUF_SIZE && all_nonzero(st.collected)
    } else {
        st.collected.len() == 0
    }
}

/// The receiver after taking in `bytes` one after another.
pub open spec fn recv_feed(st: RecvState, bytes: Seq<u8>) -> RecvState
    decreases bytes.len(),
{
    if bytes.len() == 0 {
        st
    } else {
        recv_step(recv_feed(st, bytes.drop_last()), bytes.last()).0
    }
}

proof fn lemma_feed_nonzero_prefix(blocks: Seq<u8>, k: int)
    requires
        all_nonzero(blocks),
        blocks.len() <= BUF_SIZE,
        1 <= k <= blocks.len(),
    ensures
        recv_feed(recv_idle(), blocks.take(k)) == (RecvState { in_frame: true, collected: blocks.take(k) }),
    decreases k,
{
    let t = blocks.take(k);
    assert(t.drop_last() =~= blocks.take(k - 1));
    assert(t.last() == blocks[k - 1]);
    assert(blocks[k - 1] != 0);
    assert(recv_feed(recv_idle(), t) == recv_step(recv_feed(recv_idle(), blocks.take(k - 1)), blocks[k - 1]).0);
    if k == 1 {
        assert(blocks.take(0) =~= Seq::<u8>::empty());
        assert(recv_feed(recv_idle(), blocks.take(0)) == recv_idle());
        assert(t =~= seq![blocks[0]]);
    } else {
        lemma_feed_nonzero_prefix(blocks, k - 1);
        assert(blocks.take(k - 1).push(blocks[k - 1]) =~= t);
    }
}

/// A frame that the host encodes, from a payload whose blocks fit the
/// receive buffer, fed into an idle receiver: every byte before the
/// delimiter leaves the frame pending, and the delimiter yields the
/// payload.
pub proof fn lemma_receive_host_frame(payload: Seq<u8>)
    requires
        encode_blocks(payload).len() <= BUF_SIZE,
    ensures
        forall|k: int|
            0 <= k < encode_blocks(payload).len() ==> #[trigger] recv_step(
                recv_feed(recv_idle(), encode_blocks(payload).take(k)),
                encode_blocks(payload)[k],
            ).1 == RecvEventModel::Pending,
        recv_feed(recv_idle(), encode_blocks(payload)) == (RecvState {
            in_frame: true,
            collected: encode_blocks(payload),
        }),
        recv_step(recv_feed(recv_idle(), encode_blocks(payload)), 0).1 == RecvEventModel::Frame(
            payload,
        ),
{
    let blocks = encode_blocks(payload);
    lemma_encode_blocks_nonzero(payload);
    lemma_decode_encode(payload);
    crate::cobs::lemma_encode_blocks_nonempty(payload);
    assert forall|k: int| 0 <= k < blocks.len() implies #[trigger] recv_step(
        recv_feed(recv_idle(), blocks.take(k)),
        blocks[k],
    ).1 == RecvEventModel::Pending by {
        if k == 0 {
            assert(blocks.take(0) =~= Seq::<u8>::empty());
        } else {
            lemma_feed_nonzero_prefix(blocks, k);
        }
    }
    lemma_feed_nonzero_prefix(blocks, blocks.len() as int);
    assert(blocks.take(blocks.len() as int) =~= blocks);
}

/// A receiver drops a frame only when it overflows the buffer: at a
/// delimiter, the bytes collected always decode.
pub proof fn lemma_drop_only_on_overflow(st: RecvState, b: u8)
    requires
        recv_state_wf(st),
        recv_step(st, b).1 == RecvEventModel::Dropped,
    ensures
        st.in_frame,
        b != 0,
        st.collected.len() == BUF_SIZE,
{
    if st.in_frame && b == 0 {
        crate::cobs::lemma_decode_nonzero(st.collected);
    }
}

/// Feeding `a` and then `b` is feeding `a + b`.
pub proof fn lemma_recv_feed_concat(st: RecvState, a: Seq<u8>, b: Seq<u8>)
    ensures
        recv_feed(st, a + b) == recv_feed(recv_feed(st, a), b),
    decreases b.len(),
{
    if b.len() == 0 {
        assert(a + b =~= a);
    } else {
        assert((a + b).drop_last() =~= a + b.drop_last());
        assert((a + b).last() == b.last());
        lemma_recv_feed_concat(st, a, b.drop_last());
    }
}

/// The delimiter that ends a frame leaves the receiver empty and waiting
/// for a new frame, whatever the frame held.
pub proof fn lemma_frame_end_resets(st: RecvState)
    requires
        st.in_frame,
    ensures
        recv_step(st, 0).0 == (RecvState { in_frame: false, collected: Seq::empty() }),
{
}

/// Two frames sent back to back, each from a payload whose blocks fit the
/// buffer, are received as those two payloads, each decoded on its own:
/// the delimiter of the first yields the first payload and empties the
/// receiver, and the delimiter of the second yields the second payload.
pub proof fn lemma_receive_two_frames(p1: Seq<u8>, p2: Seq<u8>)
    requires
        encode_blocks(p1).len() <= BUF_SIZE,
        encode_blocks(p2).len() <= BUF_SIZE,
    ensures
        recv_step(recv_feed(recv_idle(), encode_blocks(p1)), 0).1 == RecvEventModel::Frame(p1),
        recv_feed(recv_idle(), cobs_frame(p1)) == (RecvState {
            in_frame: false,
            collected: Seq::empty(),
        }),
        recv_step(recv_feed(recv_idle(), cobs_frame(p1) + encode_blocks(p2)), 0).1
            == RecvEventModel::Frame(p2),
{
    lemma_receive_host_frame(p1);
    lemma_receive_host_frame(p2);
    let f1 = cobs_frame(p1);
    assert(f1.drop_last() =~= encode_blocks(p1));
    assert(f1.last() == 0);
    assert(recv_feed(recv_idle(), f1) == recv_step(recv_feed(recv_idle(), encode_blocks(p1)), 0).0);
    lemma_frame_end_resets(recv_feed(recv_idle(), encode_blocks(p1)));
    assert(recv_feed(recv_idle(), f1) == recv_idle());
    lemma_recv_feed_concat(recv_idle(), f1, encode_blocks(p2));
}

impl FrameReceiver {
    /// A receiver waiting for the first byte of a frame.
    pub fn new() -> (r: Self)
        ensures
            r@ == recv_idle(),
    {
        let r = FrameReceiver { in_frame: false, buf: [0u8; 512], len: 0 };
        assert(r.buf@.take(0) =~= Seq::<u8>::empty());
        r
    }

    /// Take in one byte from the transport.
    pub fn push_byte(&mut self, b: u8) -> (ev: RecvEvent)
        requires
            recv_state_wf(old(self)@),
        ensures
            final(self)@ == recv_step(old(self)@, b).0,
            ev.model() == recv_step(old(self)@, b).1,
            ev matches RecvEvent::Frame { buf, len } ==> len <= BUF_SIZE && buf@ == padded_frame(
                buf@.take(len as int),
            ),
            recv_state_wf(final(self)@),
    {
        proof {
            use_type_invariant(&*self);
        }
        if !self.in_frame {
            if b != 0 {
                self.buf[0] = b;
                self.len = 1;
                self.in_frame = true;
                proof {
                    assert(self.buf@.take(1) =~= seq![b]);
                }
            } else {
                proof {
                    assert(self@.collected =~= Seq::<u8>::empty());
                }
            }
            return RecvEvent::Pending;
        }
        if b == 0 {
            let mut raw = [0u8; 512];
            let ghost raw0 = raw@;
            assert(forall|i: int| 0 <= i < 512 ==> raw0[i] == 0u8);
            let collected = vstd::slice::slice_subrange(self.buf.as_slice(), 0, self.len);
            proof {
                assert(collected@ =~= self@.collected);
                lemma_decode_output_len(collected@);
            }
            let res = cobs_decode(collected, &mut raw);
            self.len = 0;
            self.in_frame = false;
            proof {
                assert(self.buf@.take(0) =~= Seq::<u8>::empty());
            }
            match res {
                Some(n) => {
                    proof {
                        assert forall|i: int| n <= i < 512 implies raw@[i] == 0u8 by {
                            assert(raw@.skip(n as int)[i - n] == raw0.skip(n as int)[i - n]);
                        }
                        assert(raw@ =~= padded_frame(raw@.take(n as int)));
                    }
                    RecvEvent::Frame { buf: raw, len: n }
                },
                None => RecvEvent::Dropped,
            }
        } else if self.len >= 512 {
            self.len = 0;
            self.in_frame = false;
            proof {
                assert(self.buf@.take(0) =~= Seq::<u8>::empty());
            }
            RecvEvent::Dropped
        } else {
            let ghost before = self.buf@.take(self.len as int);
            self.buf[self.len] = b;
            self.len = self.len + 1;
            proof {
                assert(self.buf@.take(self.len as int) =~= before.push(b));
            }
            RecvEvent::Pending
        }
    }
}

} // verus!
