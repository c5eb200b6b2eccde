use vstd::prelude::*;

use crate::sourcemap_error::SourceMapErrorType;

verus! {

/// The `,` that separates mappings of one generated line.
pub const COMMA: u8 = 44;

/// The `;` that separates generated lines.
pub const SEMICOLON: u8 = 59;

/// The smallest magnitude the decoder refuses: one close enough to hold
/// every delta between 32-bit counters, with the sign bit interleaved.
pub const VLQ_LIMIT: u64 = 0x8_0000_0000;

/// The byte of the base64 alphabet `A-Z a-z 0-9 + /` for digit `v`.
pub open spec fn base64_byte(v: int) -> u8 {
    if 0 <= v < 26 {
        (65 + v) as u8
    } else if 26 <= v < 52 {
        (71 + v) as u8
    } else if 52 <= v < 62 {
        (v - 4) as u8
    } else if v == 62 {
        43
    } else {
        47
    }
}

/// The digit a byte stands for; negative when the byte is not in the
/// alphabet.
pub open spec fn base64_value(b: u8) -> int {
    if 65 <= b <= 90 {
        b - 65
    } else if 97 <= b <= 122 {
        b - 71
    } else if 48 <= b <= 57 {
        b + 4
    } else if b == 43 {
        62
    } else if b == 47 {
        63
    } else {
        -1
    }
}

/// Each digit is rendered by its own byte.
pub proof fn lemma_base64_roundtrip(v: int)
    requires
        0 <= v < 64,
    ensures
        base64_value(base64_byte(v)) == v,
{
}

/// The sign-interleaved magnitude of a signed number: the sign lands in the
/// lowest bit.
pub open spec fn zigzag(n: int) -> int {
    if n < 0 {
        2 * -n + 1
    } else {
        2 * n
    }
}

/// The signed number a magnitude stands for.
pub open spec fn unzigzag(u: nat) -> int {
    if u % 2 == 1 {
        -((u / 2) as int)
    } else {
        (u / 2) as int
    }
}

pub proof fn lemma_zigzag_roundtrip(n: int)
    ensures
        unzigzag(zigzag(n) as nat) == n,
{
}

/// The bytes that encode a magnitude: five-bit groups, least significant
/// first, each but the last with its continuation bit set, each rendered as
/// a base64 digit.
pub open spec fn vlq_bytes_of(u: nat) -> Seq<u8>
    decreases u,
{
    if u < 32 {
        seq![base64_byte(u as int)]
    } else {
        seq![base64_byte(32 + (u % 32) as int)] + vlq_bytes_of(u / 32)
    }
}

/// The bytes that encode the signed number `n`.
pub open spec fn vlq_encode(n: int) -> Seq<u8> {
    vlq_bytes_of(zigzag(n) as nat)
}

/// What one VLQ scan of the input from a position yields: a magnitude and
/// the position after it, or the way the input failed.
pub enum VlqScan {
    /// A complete number: its magnitude, and the index just past its bytes.
    Number { magnitude: nat, next: int },
    /// A byte outside the base64 alphabet inside the number.
    Invalid,
    /// The input ended while a continuation bit was set.
    Truncated,
}

/// Scan one VLQ number at position `i`.
pub open spec fn vlq_scan(s: Seq<u8>, i: int) -> VlqScan
    decreases s.len() - i,
{
    if i < 0 || i >= s.len() {
        VlqScan::Truncated
    } else if base64_value(s[i]) < 0 {
        VlqScan::Invalid
    } else if base64_value(s[i]) < 32 {
        VlqScan::Number { magnitude: base64_value(s[i]) as nat, next: i + 1 }
    } else {
        match vlq_scan(s, i + 1) {
            VlqScan::Number { magnitude, next } => VlqScan::Number {
                magnitude: (base64_value(s[i]) - 32 + 32 * magnitude) as nat,
                next,
            },
            other => other,
        }
    }
}

/// A scanned number sits strictly between its start and the end of the
/// input.
pub proof fn lemma_vlq_scan_bounds(s: Seq<u8>, i: int)
    ensures
        vlq_scan(s, i) matches VlqScan::Number { magnitude, next } ==> i < next <= s.len(),
    decreases s.len() - i,
{
    if 0 <= i < s.len() && base64_value(s[i]) >= 32 {
        lemma_vlq_scan_bounds(s, i + 1);
    }
}

/// Scanning an encoded magnitude yields it back and stops right after its
/// bytes: the byte encoding of one number is unambiguous.
pub proof fn lemma_vlq_scan_encoded(s: Seq<u8>, i: int, u: nat)
    requires
        0 <= i,
        i + vlq_bytes_of(u).len() <= s.len(),
        forall|j: int| 0 <= j < vlq_bytes_of(u).len() ==> s[i + j] == vlq_bytes_of(u)[j],
    ensures
        vlq_scan(s, i) == (VlqScan::Number { magnitude: u, next: i + vlq_bytes_of(u).len() }),
    decreases u,
{
    if u < 32 {
        assert(s[i + 0] == vlq_bytes_of(u)[0]);
        assert(s[i] == base64_byte(u as int));
        lemma_base64_roundtrip(u as int);
    } else {
        assert(s[i + 0] == vlq_bytes_of(u)[0]);
        assert(s[i] == vlq_bytes_of(u)[0]);
        assert(vlq_bytes_of(u)[0] == base64_byte(32 + (u % 32) as int));
        lemma_base64_roundtrip(32 + (u % 32) as int);
        assert(base64_value(s[i]) == 32 + (u % 32) as int);
        let rest = vlq_bytes_of(u / 32);
        assert(vlq_bytes_of(u).len() == 1 + rest.len());
        assert(forall|j: int| 0 <= j < rest.len() ==> vlq_bytes_of(u)[j + 1] == rest[j]);
        assert(forall|j: int| 0 <= j < rest.len() ==> s[i + 1 + j] == rest[j]);
        lemma_vlq_scan_encoded(s, i + 1, u / 32);
        assert((u % 32) + 32 * (u / 32) == u);
    }
}

/// The exec form of the digit table.
fn base64_digit(v: u8) -> (r: u8)
    requires
        v < 64,
    ensures
        r == base64_byte(v as int),
{
    if v < 26 {
        65 + v
    } else if v < 52 {
        71 + v
    } else if v < 62 {
        v - 4
    } else if v == 62 {
        43
    } else {
        47
    }
}

/// The exec form of the reverse digit table.
fn base64_digit_value(b: u8) -> (r: i8)
    ensures
        r as int == base64_value(b),
{
    if 65 <= b && b <= 90 {
        (b - 65) as i8
    } else if 97 <= b && b <= 122 {
        (b - 71) as i8
    } else if 48 <= b && b <= 57 {
        (b + 4) as i8
    } else if b == 43 {
        62
    } else if b == 47 {
        63
    } else {
        -1
    }
}

/// Append the group bytes of a magnitude, least significant group first.
fn encode_magnitude(u: u64, output: &mut Vec<u8>)
    ensures
        final(output)@ == old(output)@ + vlq_bytes_of(u as nat),
    decreases u,
{
    if u < 32 {
        output.push(base64_digit(u as u8));
        proof {
            assert(final(output)@ =~= old(output)@ + vlq_bytes_of(u as nat));
        }
    } else {
        let ghost before = output@;
        output.push(base64_digit((u % 32 + 32) as u8));
        encode_magnitude(u / 32, output);
        proof {
            assert(output@ =~= before + vlq_bytes_of(u as nat));
        }
    }
}

/// Append the VLQ encoding of the signed number `n`.
pub fn encode(n: i64, output: &mut Vec<u8>)
    requires
        -0xFFFF_FFFFi64 <= n <= 0xFFFF_FFFFi64,
    ensures
        final(output)@ == old(output)@ + vlq_encode(n as int),
{
    let u: u64 = if n < 0 {
        ((-n) as u64) * 2 + 1
    } else {
        (n as u64) * 2
    };
    proof {
        assert(u as nat == zigzag(n as int));
    }
    encode_magnitude(u, output);
}

/// Decode the magnitude of one VLQ number at `pos`; the returned position
/// sits just past its bytes. The magnitude is refused once it can no longer
/// belong to a delta between 32-bit counters.
fn decode_magnitude(input: &[u8], pos: usize) -> (r: Result<(u64, usize), SourceMapErrorType>)
    requires
        pos <= input@.len(),
    ensures
        match r {
            Ok(p) => vlq_scan(input@, pos as int) == (VlqScan::Number {
                magnitude: p.0 as nat,
                next: p.1 as int,
            }) && p.0 < VLQ_LIMIT && p.1 <= input@.len(),
            Err(k) => match vlq_scan(input@, pos as int) {
                VlqScan::Number { magnitude, next } => k == SourceMapErrorType::VlqOverflow
                    && magnitude >= VLQ_LIMIT,
                VlqScan::Invalid => k == SourceMapErrorType::VlqInvalid,
                VlqScan::Truncated => k == SourceMapErrorType::VlqUnexpectedEof,
            },
        },
    decreases input@.len() - pos,
{
    if pos >= input.len() {
        return Err(SourceMapErrorType::VlqUnexpectedEof);
    }
    let v = base64_digit_value(input[pos]);
    if v < 0 {
        return Err(SourceMapErrorType::VlqInvalid);
    }
    if v < 32 {
        return Ok((v as u64, pos + 1));
    }
    let low = (v - 32) as u64;
    match decode_magnitude(input, pos + 1) {
        Err(k) => {
            proof {
                lemma_vlq_scan_bounds(input@, pos + 1);
            }
            Err(k)
        },
        Ok((rest, next)) => {
            if rest >= VLQ_LIMIT / 32 {
                Err(SourceMapErrorType::VlqOverflow)
            } else {
                Ok((low + 32 * rest, next))
            }
        },
    }
}

/// What adding one decoded delta to a 32-bit running counter yields.
pub enum RelOut {
    /// The new counter value, and the position after the number's bytes.
    Good { value: int, next: int },
    /// Why the read failed.
    Bad { kind: SourceMapErrorType },
}

/// Read one signed delta at position `i` and add it to `counter`: the
/// number itself can be malformed or out of range, and the new counter
/// value must fit a 32-bit unsigned field.
pub open spec fn rel_read(s: Seq<u8>, i: int, counter: int) -> RelOut {
    match vlq_scan(s, i) {
        VlqScan::Number { magnitude, next } => {
            if magnitude >= VLQ_LIMIT as nat {
                RelOut::Bad { kind: SourceMapErrorType::VlqOverflow }
            } else if counter + unzigzag(magnitude) < 0 {
                RelOut::Bad { kind: SourceMapErrorType::UnexpectedNegativeNumber }
            } else if counter + unzigzag(magnitude) > u32::MAX {
                RelOut::Bad { kind: SourceMapErrorType::VlqOverflow }
            } else {
                RelOut::Good { value: counter + unzigzag(magnitude), next }
            }
        },
        VlqScan::Invalid => RelOut::Bad { kind: SourceMapErrorType::VlqInvalid },
        VlqScan::Truncated => RelOut::Bad { kind: SourceMapErrorType::VlqUnexpectedEof },
    }
}

/// Decode one signed delta at `pos` and add it to the running counter.
pub fn read_relative(input: &[u8], pos: usize, counter: u32) -> (r: Result<
    (u32, usize),
    SourceMapErrorType,
>)
    requires
        pos <= input@.len(),
    ensures
        match r {
            Ok(p) => rel_read(input@, pos as int, counter as int) == (RelOut::Good {
                value: p.0 as int,
                next: p.1 as int,
            }) && p.1 <= input@.len(),
            Err(k) => rel_read(input@, pos as int, counter as int) == (RelOut::Bad { kind: k }),
        },
{
    match decode_magnitude(input, pos) {
        Err(k) => Err(k),
        Ok((u, next)) => {
            let n: i64 = if u % 2 == 1 {
                -((u / 2) as i64)
            } else {
                (u / 2) as i64
            };
            proof {
                assert(n as int == unzigzag(u as nat));
            }
            let c: i64 = (counter as i64) + n;
            if c < 0 {
                Err(SourceMapErrorType::UnexpectedNegativeNumber)
            } else if c > u32::MAX as i64 {
                Err(SourceMapErrorType::VlqOverflow)
            } else {
                Ok((c as u32, next))
            }
        },
    }
}

/// The delta round trip at the heart of the codec: a delta the writer
/// encodes against a running counter reads back, against the same counter,
/// to exactly the counter value the writer moved to.
pub proof fn lemma_rel_read_encoded(s: Seq<u8>, i: int, prev: int, val: u32, d: int)
    requires
        0 <= i,
        0 <= prev <= u32::MAX,
        d == val - prev,
        i + vlq_encode(d).len() <= s.len(),
        forall|j: int| 0 <= j < vlq_encode(d).len() ==> s[i + j] == vlq_encode(d)[j],
    ensures
        rel_read(s, i, prev) == (RelOut::Good {
            value: val as int,
            next: i + vlq_encode(d).len(),
        }),
{
    let u = zigzag(d) as nat;
    assert(forall|j: int| 0 <= j < vlq_bytes_of(u).len() ==> s[i + j] == vlq_bytes_of(u)[j]);
    lemma_vlq_scan_encoded(s, i, u);
    lemma_zigzag_roundtrip(d);
    assert(u < VLQ_LIMIT as nat);
}

/// No byte of an encoded number is a separator: the reader can always tell
/// where a segment ends.
pub proof fn lemma_vlq_bytes_not_separator(u: nat)
    ensures
        forall|j: int|
            0 <= j < vlq_bytes_of(u).len() ==> (#[trigger] vlq_bytes_of(u)[j]) != COMMA
                && vlq_bytes_of(u)[j] != SEMICOLON,
    decreases u,
{
    if u >= 32 {
        lemma_vlq_bytes_not_separator(u / 32);
        assert(forall|j: int|
            0 < j < vlq_bytes_of(u).len() ==> (#[trigger] vlq_bytes_of(u)[j]) == vlq_bytes_of(
                u / 32,
            )[j - 1]);
        assert(vlq_bytes_of(u)[0] == base64_byte(32 + (u % 32) as int));
        assert forall|j: int|
            0 <= j < vlq_bytes_of(u).len() implies (#[trigger] vlq_bytes_of(u)[j]) != COMMA
            && vlq_bytes_of(u)[j] != SEMICOLON by {
            if j > 0 {
                assert(vlq_bytes_of(u)[j] == vlq_bytes_of(u / 32)[j - 1]);
            }
        }
    }
}

} // verus!
