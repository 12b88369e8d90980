//! Base-128 variable-length encoding of 64-bit integers: seven payload bits
//! per byte, least significant group first, high bit set on every byte but
//! the last.

use vstd::prelude::*;

verus! {

/// The varint bytes of `n`.
pub open spec fn spec_varint(n: u64) -> Seq<u8>
    decreases n,
{
    if n < 128 {
        seq![n as u8]
    } else {
        seq![(128 + n % 128) as u8] + spec_varint((n / 128) as u64)
    }
}

/// Reads one varint from the front of `s`, returning the value and the
/// unread suffix; `None` on an empty or unterminated encoding or on a value
/// that does not fit in 64 bits.
pub open spec fn spec_parse_varint(s: Seq<u8>) -> Option<(u64, Seq<u8>)>
    decreases s.len(),
{
    if s.len() == 0 {
        None
    } else if s[0] < 128 {
        Some((s[0] as u64, s.skip(1)))
    } else {
        match spec_parse_varint(s.skip(1)) {
            None => None,
            Some((hi, rest)) => {
                if (s[0] - 128) + 128 * (hi as int) <= u64::MAX {
                    Some((((s[0] - 128) + 128 * (hi as int)) as u64, rest))
                } else {
                    None
                }
            },
        }
    }
}

/// An encoded varint is never empty.
pub proof fn lemma_varint_nonempty(n: u64)
    ensures
        spec_varint(n).len() >= 1,
{
}

/// Parsing undoes encoding, whatever bytes follow.
pub proof fn lemma_varint_round_trip(n: u64, rest: Seq<u8>)
    ensures
        spec_parse_varint(spec_varint(n) + rest) == Some((n, rest)),
    decreases n,
{
    if n < 128 {
        assert((spec_varint(n) + rest).skip(1) =~= rest);
    } else {
        lemma_varint_round_trip((n / 128) as u64, rest);
        let b: u8 = (128 + n % 128) as u8;
        assert(spec_varint(n) + rest =~= seq![b] + (spec_varint((n / 128) as u64) + rest));
        assert((seq![b] + (spec_varint((n / 128) as u64) + rest)).skip(1)
            =~= spec_varint((n / 128) as u64) + rest);
        assert((b - 128) + 128 * (n as int / 128) == n) by (nonlinear_arith)
            requires b == 128 + n % 128 && n >= 128;
    }
}

/// Appends the varint encoding of `n` to `out`.
pub fn write_varint(n: u64, out: &mut Vec<u8>)
    ensures
        final(out)@ == old(out)@ + spec_varint(n),
    decreases n,
{
    if n < 128 {
        out.push(n as u8);
        proof {
            assert(out@ =~= old(out)@ + spec_varint(n));
        }
    } else {
        let ghost prefix = out@;
        out.push(128 + (n % 128) as u8);
        write_varint(n / 128, out);
        proof {
            assert(out@ =~= prefix + spec_varint(n));
        }
    }
}

/// Reads one varint from `s` starting at `pos`, returning the value and the
/// position just past it; mirrors `spec_parse_varint` on the suffix.
pub fn read_varint(s: &Vec<u8>, pos: usize) -> (r: Option<(u64, usize)>)
    requires
        pos <= s.len(),
    ensures
        match r {
            Some((v, p2)) => pos < p2 <= s.len()
                && spec_parse_varint(s@.skip(pos as int)) == Some((v, s@.skip(p2 as int))),
            None => spec_parse_varint(s@.skip(pos as int)) is None,
        },
    decreases s.len() - pos,
{
    if pos == s.len() {
        None
    } else {
        let b = s[pos];
        proof {
            assert(s@.skip(pos as int)[0] == b);
            assert(s@.skip(pos as int).skip(1) =~= s@.skip(pos as int + 1));
        }
        if b < 128 {
            Some((b as u64, pos + 1))
        } else {
            match read_varint(s, pos + 1) {
                None => None,
                Some((hi, p2)) => {
                    let low = (b - 128) as u64;
                    if hi > (u64::MAX - low) / 128 {
                        proof {
                            assert(low + 128 * (hi as int) > u64::MAX) by (nonlinear_arith)
                                requires hi > (u64::MAX - low) / 128 && low < 128;
                        }
                        None
                    } else {
                        proof {
                            assert(low + 128 * (hi as int) <= u64::MAX) by (nonlinear_arith)
                                requires hi <= (u64::MAX - low) / 128 && low < 128;
                        }
                        Some((low + 128 * hi, p2))
                    }
                },
            }
        }
    }
}

} // verus!
