//! DER headers.

use vstd::prelude::*;

verus! {

/// The digit number `n` of a length in base 256, counted from the lowest.
pub open spec fn digit(len: int, n: nat) -> u8 {
    if n == 0 {
        (len % 256) as u8
    } else if n == 1 {
        (len / 0x100 % 256) as u8
    } else if n == 2 {
        (len / 0x1_0000 % 256) as u8
    } else {
        (len / 0x100_0000 % 256) as u8
    }
}

/// A length as DER writes it: in one byte if it is below 128, and otherwise with a
/// byte that says how many follow. No more than four bytes follow, the lowest four
/// of a longer length.
pub open spec fn length(len: int) -> Seq<u8> {
    if len < 128 {
        seq![digit(len, 0)]
    } else if len < 0x100 {
        seq![0x81, digit(len, 0)]
    } else if len < 0x1_0000 {
        seq![0x82, digit(len, 1), digit(len, 0)]
    } else if len < 0x100_0000 {
        seq![0x83, digit(len, 2), digit(len, 1), digit(len, 0)]
    } else {
        seq![0x84, digit(len, 3), digit(len, 2), digit(len, 1), digit(len, 0)]
    }
}

/// A SEQUENCE with these contents.
pub open spec fn sequence(inner: Seq<u8>) -> Seq<u8> {
    seq![0x30u8] + length(inner.len() as int) + inner
}

/// What a DER length at the front of `bytes` says, and how many bytes it takes.
pub open spec fn read_length(bytes: Seq<u8>) -> Option<(int, int)> {
    if bytes.len() == 0 {
        None
    } else if bytes[0] < 128 {
        Some((bytes[0] as int, 1))
    } else if bytes[0] == 0x81 && bytes.len() >= 2 {
        Some((bytes[1] as int, 2))
    } else if bytes[0] == 0x82 && bytes.len() >= 3 {
        Some((bytes[1] * 0x100 + bytes[2], 3))
    } else if bytes[0] == 0x83 && bytes.len() >= 4 {
        Some((bytes[1] * 0x1_0000 + bytes[2] * 0x100 + bytes[3], 4))
    } else if bytes[0] == 0x84 && bytes.len() >= 5 {
        Some((bytes[1] * 0x100_0000 + bytes[2] * 0x1_0000 + bytes[3] * 0x100 + bytes[4], 5))
    } else {
        None
    }
}

/// A length below 4 GiB that was written is read back as it was, whatever follows.
pub proof fn lengths_round_trip(len: int, rest: Seq<u8>)
    requires
        0 <= len < 0x1_0000_0000,
    ensures
        read_length(length(len) + rest) == Some((len, length(len).len() as int)),
{
    let bytes = length(len) + rest;
    assert forall|i: int| 0 <= i < length(len).len() implies bytes[i] == length(len)[i] by {}
    assert(len / 0x100 % 256 == len % 0x1_0000 / 0x100);
    assert(len / 0x1_0000 % 256 == len % 0x100_0000 / 0x1_0000);
    assert(len / 0x100_0000 < 256);
}

/// DER encoding.
pub struct Der;

impl Der {
    /// A SEQUENCE with these contents.
    pub fn wrap_sequence(inner: &[u8]) -> (out: Vec<u8>)
        ensures
            out@ == sequence(inner@),
    {
        let size: usize = inner.len();
        let mut out: Vec<u8> = Vec::new();
        out.push(0x30);
        Self::write_len(&mut out, size);
        out.extend_from_slice(inner);
        assert(out@ =~= sequence(inner@));
        out
    }

    /// Appends a length.
    pub fn write_len(out: &mut Vec<u8>, len: usize)
        ensures
            final(out)@ == old(out)@ + length(len as int),
    {
        let low: u8 = (len % 0x100) as u8;
        let second: u8 = (len / 0x100 % 0x100) as u8;
        let third: u8 = (len / 0x1_0000 % 0x100) as u8;
        let high: u8 = (len / 0x100_0000 % 0x100) as u8;
        if len < 128 {
            out.push(low);
        } else if len < 0x100 {
            out.push(0x81);
            out.push(low);
        } else if len < 0x1_0000 {
            out.push(0x82);
            out.push(second);
            out.push(low);
        } else if len < 0x100_0000 {
            out.push(0x83);
            out.push(third);
            out.push(second);
            out.push(low);
        } else {
            out.push(0x84);
            out.push(high);
            out.push(third);
            out.push(second);
            out.push(low);
        }
        assert(out@ =~= old(out)@ + length(len as int));
    }
}

} // verus!
