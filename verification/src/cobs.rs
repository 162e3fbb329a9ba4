//! Consistent Overhead Byte Stuffing: the mathematical model of the
//! encoding and decoding used on both ends of the serial link, and the
//! laws that tie them together.
use vstd::prelude::*;

verus! {

/// Every byte of `s` is non-zero.
pub open spec fn all_nonzero(s: Seq<u8>) -> bool {
    forall|j: int| 0 <= j < s.len() ==> s[j] != 0
}

/// Number of non-zero bytes at the front of `s`.
pub open spec fn run_len(s: Seq<u8>) -> nat
    decreases s.len(),
{
    if s.len() == 0 || s[0] == 0 {
        0
    } else {
        1 + run_len(s.drop_first())
    }
}

/// Length of the body of the first block: the leading run, capped at 254.
pub open spec fn block_len(s: Seq<u8>) -> nat {
    if run_len(s) >= 254 {
        254
    } else {
        run_len(s)
    }
}

/// The COBS blocks of `s`: the frame of `s` without its trailing `0x00`.
///
/// Each block is a code byte followed by a run of non-zero bytes. A run
/// that ends at a zero byte of `s` gets the code `run + 1`; a run of 254
/// non-zero bytes gets the code `0xFF` and no zero stands behind it; the
/// last run of `s` gets the code `run + 1`.
pub open spec fn encode_blocks(s: Seq<u8>) -> Seq<u8>
    decreases s.len(),
{
    proof {
        lemma_run_len_bound(s);
    }
    let k = block_len(s);
    if k == 254 {
        seq![0xFFu8] + s.take(254) + encode_blocks(s.skip(254))
    } else if k < s.len() {
        seq![(k + 1) as u8] + s.take(k as int) + encode_blocks(s.skip(k + 1 as int))
    } else {
        seq![(k + 1) as u8] + s
    }
}

/// The complete COBS frame of `s`: its blocks and the `0x00` delimiter.
pub open spec fn cobs_frame(s: Seq<u8>) -> Seq<u8> {
    encode_blocks(s).push(0)
}

/// The zero restored behind a block of code `c`: one, unless the block
/// is a full `0xFF` block.
pub open spec fn block_zero(c: u8) -> Seq<u8> {
    if c == 0xFF {
        Seq::empty()
    } else {
        seq![0u8]
    }
}

/// Decoding of COBS blocks (a frame without its delimiter).
///
/// A code `c` is followed by `c - 1` data bytes; a zero is restored after
/// the block when more input follows it and the code is not `0xFF`. A
/// code byte of zero, or a zero among the data bytes, makes the frame
/// invalid. A last block whose code announces more bytes than remain
/// yields the bytes that remain.
pub open spec fn decode_blocks(s: Seq<u8>) -> Option<Seq<u8>>
    decreases s.len(),
{
    if s.len() == 0 {
        Some(Seq::<u8>::empty())
    } else if s[0] == 0 {
        None
    } else if s[0] as int >= s.len() {
        if all_nonzero(s.skip(1)) {
            Some(s.skip(1))
        } else {
            None
        }
    } else if !all_nonzero(s.subrange(1, s[0] as int)) {
        None
    } else {
        match decode_blocks(s.skip(s[0] as int)) {
            Some(rest) => Some(s.subrange(1, s[0] as int) + block_zero(s[0]) + rest),
            None => None,
        }
    }
}

/// Number of bytes a decoder writes for `s` before it finishes or finds
/// the frame invalid.
pub open spec fn decode_output_len(s: Seq<u8>) -> nat
    decreases s.len(),
{
    if s.len() == 0 || s[0] == 0 {
        0
    } else if s[0] as int >= s.len() {
        if all_nonzero(s.skip(1)) {
            (s.len() - 1) as nat
        } else {
            run_len(s.skip(1))
        }
    } else if !all_nonzero(s.subrange(1, s[0] as int)) {
        run_len(s.skip(1))
    } else {
        (s[0] - 1) as nat + block_zero(s[0]).len() + decode_output_len(s.skip(s[0] as int))
    }
}

/// `rest` with `done` put in front of it, when it is defined.
pub open spec fn prefix_with(done: Seq<u8>, rest: Option<Seq<u8>>) -> Option<Seq<u8>> {
    match rest {
        Some(r) => Some(done + r),
        None => None,
    }
}

pub proof fn lemma_run_len_bound(s: Seq<u8>)
    ensures
        run_len(s) <= s.len(),
        forall|j: int| 0 <= j < run_len(s) ==> s[j] != 0,
        run_len(s) < s.len() ==> s[run_len(s) as int] == 0,
    decreases s.len(),
{
    if s.len() != 0 && s[0] != 0 {
        lemma_run_len_bound(s.drop_first());
        assert forall|j: int| 0 <= j < run_len(s) implies s[j] != 0 by {
            if j > 0 {
                assert(s[j] == s.drop_first()[j - 1]);
            }
        }
    }
}

/// A leading stretch of `m` non-zero bytes makes the run at least `m` long.
pub proof fn lemma_run_len_at_least(s: Seq<u8>, m: nat)
    requires
        m <= s.len(),
        forall|j: int| 0 <= j < m ==> s[j] != 0,
    ensures
        run_len(s) >= m,
    decreases m,
{
    if m > 0 {
        assert forall|j: int| 0 <= j < m - 1 implies s.drop_first()[j] != 0 by {
            assert(s.drop_first()[j] == s[j + 1]);
        }
        lemma_run_len_at_least(s.drop_first(), (m - 1) as nat);
    }
}

/// The run is exactly `m` long when `m` non-zero bytes are followed by a
/// zero or by the end of `s`.
pub proof fn lemma_run_len_exact(s: Seq<u8>, m: nat)
    requires
        m <= s.len(),
        forall|j: int| 0 <= j < m ==> s[j] != 0,
        m == s.len() || s[m as int] == 0,
    ensures
        run_len(s) == m,
{
    lemma_run_len_at_least(s, m);
    lemma_run_len_bound(s);
}

pub proof fn lemma_encode_blocks_nonempty(s: Seq<u8>)
    ensures
        encode_blocks(s).len() >= 1,
        encode_blocks(s)[0] != 0,
{
    lemma_run_len_bound(s);
}

/// Decoding the blocks of any payload gives the payload back.
pub proof fn lemma_decode_encode(s: Seq<u8>)
    ensures
        decode_blocks(encode_blocks(s)) == Some(s),
    decreases s.len(),
{
    lemma_run_len_bound(s);
    let k = block_len(s) as int;
    let e = encode_blocks(s);
    if k == 254 {
        let rest = s.skip(254);
        lemma_decode_encode(rest);
        lemma_encode_blocks_nonempty(rest);
        assert(e == seq![0xFFu8] + s.take(254) + encode_blocks(rest));
        assert(e[0] == 0xFFu8);
        assert(e.subrange(1, 255) =~= s.take(254));
        assert(e.skip(255) =~= encode_blocks(rest));
        assert(s.take(254) + block_zero(0xFFu8) + rest =~= s);
    } else if k < s.len() {
        let rest = s.skip(k + 1);
        lemma_decode_encode(rest);
        lemma_encode_blocks_nonempty(rest);
        assert(e == seq![(k + 1) as u8] + s.take(k) + encode_blocks(rest));
        assert(e[0] as int == k + 1);
        assert(e.subrange(1, k + 1) =~= s.take(k));
        assert(e.skip(k + 1) =~= encode_blocks(rest));
        assert(s.take(k) + block_zero(e[0]) + rest =~= s);
    } else {
        assert(e == seq![(k + 1) as u8] + s);
        assert(e.skip(1) =~= s);
    }
}

/// Every byte of the blocks is non-zero: `0x00` only ever stands as the
/// frame delimiter.
pub proof fn lemma_encode_blocks_nonzero(s: Seq<u8>)
    ensures
        all_nonzero(encode_blocks(s)),
    decreases s.len(),
{
    lemma_run_len_bound(s);
    let k = block_len(s) as int;
    let e = encode_blocks(s);
    if k == 254 {
        lemma_encode_blocks_nonzero(s.skip(254));
        assert(all_nonzero(s.take(254)));
        assert(e == seq![0xFFu8] + s.take(254) + encode_blocks(s.skip(254)));
    } else if k < s.len() {
        lemma_encode_blocks_nonzero(s.skip(k + 1));
        assert(e == seq![(k + 1) as u8] + s.take(k) + encode_blocks(s.skip(k + 1)));
    } else {
        assert(e == seq![(k + 1) as u8] + s);
    }
}

/// The blocks are at least one byte longer than the payload, and at most
/// one byte plus one per 254 payload bytes longer.
pub proof fn lemma_encode_len(s: Seq<u8>)
    ensures
        s.len() + 1 <= encode_blocks(s).len() <= s.len() + s.len() / 254 + 1,
    decreases s.len(),
{
    lemma_run_len_bound(s);
    let k = block_len(s) as int;
    if k == 254 {
        lemma_encode_len(s.skip(254));
        assert((s.len() - 254) / 254 + 1 == s.len() / 254);
    } else if k < s.len() {
        lemma_encode_len(s.skip(k + 1));
        assert((s.len() - k - 1) / 254 <= s.len() / 254);
    }
}

/// A leading stretch of `m <= 254` non-zero bytes fills the first block,
/// so the blocks hold at least `m + 1` bytes.
pub proof fn lemma_encode_len_at_least(s: Seq<u8>, m: nat)
    requires
        m <= 254,
        m <= s.len(),
        forall|j: int| 0 <= j < m ==> s[j] != 0,
    ensures
        encode_blocks(s).len() >= m + 1,
{
    lemma_run_len_at_least(s, m);
    lemma_run_len_bound(s);
}

/// Blocks made only of non-zero bytes always decode: a frame collected up
/// to its delimiter is never rejected.
pub proof fn lemma_decode_nonzero(s: Seq<u8>)
    requires
        all_nonzero(s),
    ensures
        decode_blocks(s) is Some,
    decreases s.len(),
{
    if s.len() > 0 && (s[0] as int) < s.len() {
        let c = s[0] as int;
        assert(all_nonzero(s.subrange(1, c))) by {
            assert forall|j: int| 0 <= j < c - 1 implies s.subrange(1, c)[j] != 0 by {
                assert(s.subrange(1, c)[j] == s[j + 1]);
            }
        }
        assert(all_nonzero(s.skip(c))) by {
            assert forall|j: int| 0 <= j < s.len() - c implies s.skip(c)[j] != 0 by {
                assert(s.skip(c)[j] == s[j + c]);
            }
        }
        lemma_decode_nonzero(s.skip(c));
    } else if s.len() > 0 {
        assert(all_nonzero(s.skip(1))) by {
            assert forall|j: int| 0 <= j < s.len() - 1 implies s.skip(1)[j] != 0 by {
                assert(s.skip(1)[j] == s[j + 1]);
            }
        }
    }
}

/// A decoder writes no more bytes than it reads, and on a valid frame it
/// writes exactly the decoded bytes.
pub proof fn lemma_decode_output_len(s: Seq<u8>)
    ensures
        decode_output_len(s) <= s.len(),
        decode_blocks(s) matches Some(d) ==> decode_output_len(s) == d.len(),
    decreases s.len(),
{
    if s.len() > 0 && s[0] != 0 {
        lemma_run_len_bound(s.skip(1));
        if (s[0] as int) < s.len() && all_nonzero(s.subrange(1, s[0] as int)) {
            lemma_decode_output_len(s.skip(s[0] as int));
        }
    }
}


/// Blocks holding a zero byte never decode: every byte of a frame is a
/// code byte or a data byte, and neither may be zero.
pub proof fn lemma_decode_rejects_zero(s: Seq<u8>)
    requires
        !all_nonzero(s),
    ensures
        decode_blocks(s) is None,
    decreases s.len(),
{
    let z = choose|j: int| 0 <= j < s.len() && s[j] == 0;
    if s[0] != 0 {
        let c = s[0] as int;
        if c >= s.len() {
            assert(s.skip(1)[z - 1] == 0);
        } else if z < c {
            assert(s.subrange(1, c)[z - 1] == 0);
        } else {
            assert(s.skip(c)[z - c] == 0);
            lemma_decode_rejects_zero(s.skip(c));
        }
    }
}

/// The COBS frame of any payload ends in its only `0x00` byte, is two
/// bytes longer than the payload plus at most one byte per 254 payload
/// bytes, and decodes, without its delimiter, to the payload.
pub proof fn lemma_cobs_frame(x: Seq<u8>)
    ensures
        cobs_frame(x).last() == 0,
        all_nonzero(cobs_frame(x).drop_last()),
        x.len() + 2 <= cobs_frame(x).len() <= x.len() + x.len() / 254 + 2,
        decode_blocks(cobs_frame(x).drop_last()) == Some(x),
{
    assert(cobs_frame(x).drop_last() =~= encode_blocks(x));
    lemma_encode_blocks_nonzero(x);
    lemma_encode_len(x);
    lemma_decode_encode(x);
}

/// A payload of fewer than 254 bytes, none of them zero, is one block:
/// the code `len + 1` followed by the payload.
pub proof fn lemma_encode_short_run(x: Seq<u8>)
    requires
        all_nonzero(x),
        x.len() < 254,
    ensures
        encode_blocks(x) == seq![(x.len() + 1) as u8] + x,
{
    lemma_run_len_exact(x, x.len());
}

/// A run of fewer than 254 non-zero bytes ended by a zero is the block
/// `[run + 1] + run`, and the encoding goes on with what follows the zero.
pub proof fn lemma_encode_zero_splits(a: Seq<u8>, b: Seq<u8>)
    requires
        all_nonzero(a),
        a.len() < 254,
    ensures
        encode_blocks(a.push(0) + b) == seq![(a.len() + 1) as u8] + a + encode_blocks(b),
{
    let x = a.push(0) + b;
    assert forall|j: int| 0 <= j < a.len() implies x[j] != 0 by {
        assert(x[j] == a[j]);
    }
    assert(x[a.len() as int] == 0);
    lemma_run_len_exact(x, a.len());
    assert(x.take(a.len() as int) =~= a);
    assert(x.skip(a.len() + 1 as int) =~= b);
}

/// A run of 254 non-zero bytes is the block `[0xFF] + run`, with no zero
/// implied behind it, and the encoding goes on with the next byte.
pub proof fn lemma_encode_full_run(a: Seq<u8>, b: Seq<u8>)
    requires
        all_nonzero(a),
        a.len() == 254,
    ensures
        encode_blocks(a + b) == seq![0xFFu8] + a + encode_blocks(b),
{
    let x = a + b;
    assert forall|j: int| 0 <= j < 254 implies x[j] != 0 by {
        assert(x[j] == a[j]);
    }
    lemma_run_len_at_least(x, 254);
    assert(x.take(254) =~= a);
    assert(x.skip(254) =~= b);
}

} // verus!
