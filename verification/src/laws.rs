use vstd::prelude::*;
use vstd::std_specs::bits::{axiom_u8_trailing_zeros, u8_trailing_zeros};

use crate::api::is_default_allowed_host;
use crate::pow::{hex_digit_value, hex_pair, le_bytes, pow_input, trailing_zero_bits_spec};
use crate::text::{contains_seq, decimal, trim_end_in, trim_start_in};
use crate::retry::{is_retryable_transport_spec, mint_retry_spec, MintAttemptResult, MintRetryAction, TransportErrorKind};

verus! {

/// Bit `i` of `bytes` read as one big-endian number: bit 0 is the lowest
/// bit of the last byte.
pub open spec fn bit_of(bytes: Seq<u8>, i: int) -> u8 {
    (bytes[bytes.len() - 1 - i / 8] >> ((i % 8) as u8)) & 1
}

/// The count of trailing zero bits is what its name says: reading `bytes` as
/// one big-endian number, bit `i` sits in byte `len - 1 - i / 8` at position
/// `i % 8`; every bit below the count is 0, and the bit at the count, when
/// the bytes have one, is 1.
pub proof fn law_trailing_zero_bits(bytes: Seq<u8>)
    ensures
        trailing_zero_bits_spec(bytes) <= 8 * bytes.len(),
        forall|i: int| 0 <= i < trailing_zero_bits_spec(bytes) ==> #[trigger] bit_of(bytes, i) == 0,
        trailing_zero_bits_spec(bytes) < 8 * bytes.len() ==> bit_of(bytes, trailing_zero_bits_spec(bytes) as int)
            == 1,
    decreases bytes.len(),
{
    if bytes.len() > 0 {
        let last = bytes.last();
        let rest = bytes.drop_last();
        let n = bytes.len() as int;
        axiom_u8_trailing_zeros(last);
        if last == 0 {
            law_trailing_zero_bits(rest);
            let r = trailing_zero_bits_spec(bytes) as int;
            assert(r == 8 + trailing_zero_bits_spec(rest));
            assert forall|i: int| 0 <= i < r implies #[trigger] bit_of(bytes, i) == 0 by {
                if i < 8 {
                    assert(i / 8 == 0);
                    let k = (i % 8) as u8;
                    assert((0u8 >> k) & 1 == 0) by (bit_vector);
                } else {
                    assert(i / 8 == (i - 8) / 8 + 1 && i % 8 == (i - 8) % 8) by (nonlinear_arith)
                        requires
                            i >= 8,
                    {
                    }
                    assert(bytes[n - 1 - i / 8] == rest[(n - 1) - 1 - (i - 8) / 8]);
                    assert(bit_of(bytes, i) == bit_of(rest, i - 8));
                }
            }
            if r < 8 * n {
                assert(r / 8 == (r - 8) / 8 + 1 && r % 8 == (r - 8) % 8) by (nonlinear_arith)
                    requires
                        r >= 8,
                {
                }
                assert(bytes[n - 1 - r / 8] == rest[(n - 1) - 1 - (r - 8) / 8]);
                assert(bit_of(bytes, r) == bit_of(rest, r - 8));
            }
        } else {
            let t = u8_trailing_zeros(last) as int;
            assert(trailing_zero_bits_spec(bytes) == t);
            assert forall|i: int| 0 <= i < t implies #[trigger] bit_of(bytes, i) == 0 by {
                assert(i / 8 == 0 && i % 8 == i);
                assert((last >> (i as u8)) & 1u8 == 0u8);
            }
            assert(t / 8 == 0 && t % 8 == t);
            assert((last >> (t as u8)) & 1u8 == 1u8);
        }
    }
}

/// A zero byte at the end adds exactly eight trailing zero bits.
pub proof fn law_trailing_zero_byte(bytes: Seq<u8>)
    ensures
        trailing_zero_bits_spec(bytes.push(0)) == 8 + trailing_zero_bits_spec(bytes),
{
    assert(bytes.push(0).drop_last() =~= bytes);
}

/// The hex digits, by value, in lower case.
pub open spec fn lower_hex_digits() -> Seq<char> {
    seq!['0', '1', '2', '3', '4', '5', '6', '7', '8', '9', 'a', 'b', 'c', 'd', 'e', 'f']
}

/// The hex digits, by value, in upper case.
pub open spec fn upper_hex_digits() -> Seq<char> {
    seq!['0', '1', '2', '3', '4', '5', '6', '7', '8', '9', 'A', 'B', 'C', 'D', 'E', 'F']
}

/// A byte has hex value `v` exactly when it is the digit for `v` in lower
/// or upper case; no other byte has a value.
pub proof fn law_hex_digit_alphabet(byte: u8, v: u8)
    ensures
        hex_digit_value(byte) == Some(v) <==> v < 16 && (byte as char == lower_hex_digits()[v as int]
            || byte as char == upper_hex_digits()[v as int]),
        hex_digit_value(byte) is None <==> (forall|w: int|
            0 <= w < 16 ==> byte as char != lower_hex_digits()[w] && byte as char != upper_hex_digits()[w]),
{
    let lo = lower_hex_digits();
    let up = upper_hex_digits();
    assert forall|w: int| 0 <= w < 10 implies lo[w] as int == 0x30 + w && up[w] as int == 0x30 + w by {}
    assert forall|w: int| 10 <= w < 16 implies lo[w] as int == 0x61 + w - 10 && up[w] as int == 0x41 + w - 10 by {}
    let c = byte as char;
    assert(c as int == byte as int);
    if hex_digit_value(byte) is Some {
        let d = hex_digit_value(byte).unwrap() as int;
        assert(c == lo[d] || c == up[d]);
    }
}

/// Two hex digits make the byte `16 * high + low`: the digits of any byte,
/// in either case, are read back as that byte.
pub proof fn law_hex_pair_round_trip(value: u8)
    ensures
        hex_pair(lower_hex_digits()[(value / 16) as int] as u8, lower_hex_digits()[(value % 16) as int] as u8)
            == value,
        hex_pair(upper_hex_digits()[(value / 16) as int] as u8, upper_hex_digits()[(value % 16) as int] as u8)
            == value,
{
    let h = (value / 16) as u8;
    let l = (value % 16) as u8;
    let lo = lower_hex_digits();
    let up = upper_hex_digits();
    assert forall|w: int| 0 <= w < 16 implies (lo[w] as int) < 128 && (up[w] as int) < 128 by {}
    assert((lo[h as int] as u8) as char == lo[h as int]);
    assert((lo[l as int] as u8) as char == lo[l as int]);
    assert((up[h as int] as u8) as char == up[h as int]);
    assert((up[l as int] as u8) as char == up[l as int]);
    law_hex_digit_alphabet(lo[h as int] as u8, h);
    law_hex_digit_alphabet(lo[l as int] as u8, l);
    law_hex_digit_alphabet(up[h as int] as u8, h);
    law_hex_digit_alphabet(up[l as int] as u8, l);
    assert(value == h * 16 + l);
}

/// Which transport failures are worth another submission: one that came
/// with an HTTP status never is; one without a status is when it failed in
/// connecting, timing out, sending the request, or reading or decoding the
/// body; one that failed in none of these ways is not.
pub proof fn law_retryable_transport(kind: TransportErrorKind)
    ensures
        kind.has_status ==> !is_retryable_transport_spec(kind),
        !kind.has_status && kind.is_connect ==> is_retryable_transport_spec(kind),
        !kind.has_status && kind.is_timeout ==> is_retryable_transport_spec(kind),
        !kind.has_status && kind.is_request ==> is_retryable_transport_spec(kind),
        !kind.has_status && kind.is_body ==> is_retryable_transport_spec(kind),
        !kind.has_status && kind.is_decode ==> is_retryable_transport_spec(kind),
        !kind.is_connect && !kind.is_timeout && !kind.is_request && !kind.is_body && !kind.is_decode
            ==> !is_retryable_transport_spec(kind),
{
}

/// What follows a submission: an accepted one always ends the mint with its
/// own attempt number; a refused one always fails at once; a transport
/// failure leads to the next attempt, one later after `attempt` times the
/// delay, while attempts are left, and to giving up exactly when none is.
pub proof fn law_mint_actions(attempt: u32, max_attempts: u32, result: MintAttemptResult)
    requires
        1 <= attempt <= max_attempts,
    ensures
        result == MintAttemptResult::Accepted ==> mint_retry_spec(attempt, max_attempts, result)
            == (MintRetryAction::Done { attempts: attempt }),
        result == MintAttemptResult::Refused ==> mint_retry_spec(attempt, max_attempts, result)
            == MintRetryAction::Fail,
        result == MintAttemptResult::TransportFailure && attempt < max_attempts ==> mint_retry_spec(
            attempt,
            max_attempts,
            result,
        ) == (MintRetryAction::Retry { next_attempt: (attempt + 1) as u32, delay_factor: attempt }),
        result == MintAttemptResult::TransportFailure && attempt == max_attempts ==> mint_retry_spec(
            attempt,
            max_attempts,
            result,
        ) == (MintRetryAction::Exhausted { attempts: attempt }),
        mint_retry_spec(attempt, max_attempts, result) is Exhausted ==> result
            == MintAttemptResult::TransportFailure && attempt == max_attempts,
        mint_retry_spec(attempt, max_attempts, result) is Done ==> result == MintAttemptResult::Accepted,
{
}

/// The hosts that need no `--allow-production`: every host whose name holds
/// `staging` anywhere, and the loopback names `localhost`, `127.0.0.1` and
/// `::1`; no other host, and no URL without a host.
pub proof fn law_default_allowed_hosts(h: Seq<char>, i: int)
    ensures
        0 <= i && i + "staging"@.len() <= h.len() && h.subrange(i, i + "staging"@.len()) == "staging"@
            ==> is_default_allowed_host(Some(h)),
        is_default_allowed_host(Some(h)) ==> h == "localhost"@ || h == "127.0.0.1"@ || h == "::1"@ || exists|
            j: int,
        |
            0 <= j && j + "staging"@.len() <= h.len() && #[trigger] h.subrange(j, j + "staging"@.len())
                == "staging"@,
        is_default_allowed_host(Some("localhost"@)),
        is_default_allowed_host(Some("127.0.0.1"@)),
        is_default_allowed_host(Some("::1"@)),
        !is_default_allowed_host(None),
{
    if 0 <= i && i + "staging"@.len() <= h.len() && h.subrange(i, i + "staging"@.len()) == "staging"@ {
        assert(0 <= i <= h.len() - "staging"@.len());
    }
}

/// The nonce bytes are little-endian: each is below 256, and weighting byte
/// `i` by 256^i gives the nonce back.
pub proof fn law_le_bytes_value(n: u64)
    ensures
        le_bytes(n).len() == 8,
        n as int == le_bytes(n)[0] as int + 0x100 * le_bytes(n)[1] as int + 0x1_0000 * le_bytes(n)[2] as int
            + 0x100_0000 * le_bytes(n)[3] as int + 0x1_0000_0000 * le_bytes(n)[4] as int + 0x100_0000_0000
            * le_bytes(n)[5] as int + 0x1_0000_0000_0000 * le_bytes(n)[6] as int + 0x100_0000_0000_0000
            * le_bytes(n)[7] as int,
{
    let b = le_bytes(n);
    let b0 = (n & 0xff) as u8;
    let b1 = ((n >> 8u64) & 0xff) as u8;
    let b2 = ((n >> 16u64) & 0xff) as u8;
    let b3 = ((n >> 24u64) & 0xff) as u8;
    let b4 = ((n >> 32u64) & 0xff) as u8;
    let b5 = ((n >> 40u64) & 0xff) as u8;
    let b6 = ((n >> 48u64) & 0xff) as u8;
    let b7 = ((n >> 56u64) & 0xff) as u8;
    assert(b[0] == b0 && b[1] == b1 && b[2] == b2 && b[3] == b3 && b[4] == b4 && b[5] == b5 && b[6] == b6
        && b[7] == b7) by {
        assert(n >> 0u64 == n) by (bit_vector);
    }
    assert(n as int == b0 as int + 0x100 * b1 as int + 0x1_0000 * b2 as int + 0x100_0000 * b3 as int
        + 0x1_0000_0000 * b4 as int + 0x100_0000_0000 * b5 as int + 0x1_0000_0000_0000 * b6 as int
        + 0x100_0000_0000_0000 * b7 as int) by (bit_vector)
        requires
            b0 == (n & 0xff) as u8,
            b1 == ((n >> 8u64) & 0xff) as u8,
            b2 == ((n >> 16u64) & 0xff) as u8,
            b3 == ((n >> 24u64) & 0xff) as u8,
            b4 == ((n >> 32u64) & 0xff) as u8,
            b5 == ((n >> 40u64) & 0xff) as u8,
            b6 == ((n >> 48u64) & 0xff) as u8,
            b7 == ((n >> 56u64) & 0xff) as u8,
    ;
}

/// The number that decimal digits write: each digit after the first
/// multiplies what comes before by ten.
pub open spec fn digits_value(s: Seq<char>) -> int
    decreases s.len(),
{
    if s.len() == 0 {
        0
    } else {
        10 * digits_value(s.drop_last()) + (s.last() as int - '0' as int)
    }
}

/// The decimal notation of `n` is the shortest run of ASCII digits that
/// writes `n`: every character is a digit, the value is `n`, and it starts
/// with `0` only when it is `"0"`.
pub proof fn law_decimal_notation(n: nat)
    ensures
        decimal(n).len() >= 1,
        forall|i: int| 0 <= i < decimal(n).len() ==> '0' <= #[trigger] decimal(n)[i] <= '9',
        digits_value(decimal(n)) == n,
        decimal(n)[0] == '0' ==> decimal(n) == seq!['0'],
    decreases n,
{
    let ds = seq!['0', '1', '2', '3', '4', '5', '6', '7', '8', '9'];
    assert forall|d: int| 0 <= d < 10 implies ds[d] as int == '0' as int + d by {}
    if n < 10 {
        assert(decimal(n) == seq![ds[n as int]]);
        assert(decimal(n).drop_last() =~= Seq::<char>::empty());
        assert(decimal(n).last() == ds[n as int]);
        assert(digits_value(decimal(n)) == 10 * digits_value(Seq::<char>::empty()) + (ds[n as int] as int
            - '0' as int));
        if decimal(n)[0] == '0' {
            assert(n == 0);
        }
    } else {
        law_decimal_notation(n / 10);
        let p = decimal(n / 10);
        assert(decimal(n) == p.push(ds[(n % 10) as int]));
        assert(decimal(n).drop_last() =~= p);
        assert forall|i: int| 0 <= i < decimal(n).len() implies '0' <= #[trigger] decimal(n)[i] <= '9' by {
            if i < p.len() {
                assert(decimal(n)[i] == p[i]);
            }
        }
        assert(n == 10 * (n / 10) + n % 10);
        assert(decimal(n).last() == ds[(n % 10) as int]);
        assert(digits_value(decimal(n)) == 10 * digits_value(p) + (ds[(n % 10) as int] as int - '0' as int));
        assert(decimal(n)[0] == p[0]);
        if p[0] == '0' {
            assert(p == seq!['0']);
            assert(p.drop_last() =~= Seq::<char>::empty());
            assert(digits_value(p) == 10 * digits_value(Seq::<char>::empty()) + 0);
        }
    }
}

/// Trimming from the front drops exactly the longest prefix that lies in
/// `set`: the result is a suffix of `s`, every dropped character is in
/// `set`, and the first kept one is not.
pub proof fn law_trim_start(s: Seq<char>, set: Set<char>)
    ensures
        exists|k: int|
            0 <= k <= s.len() && trim_start_in(s, set) == s.skip(k) && (forall|i: int|
                0 <= i < k ==> set.contains(#[trigger] s[i])),
        trim_start_in(s, set).len() > 0 ==> !set.contains(trim_start_in(s, set)[0]),
    decreases s.len(),
{
    if s.len() > 0 && set.contains(s[0]) {
        law_trim_start(s.drop_first(), set);
        let k = choose|k: int|
            0 <= k <= s.drop_first().len() && trim_start_in(s.drop_first(), set) == s.drop_first().skip(k)
                && (forall|i: int| 0 <= i < k ==> set.contains(#[trigger] s.drop_first()[i]));
        assert(s.drop_first().skip(k) =~= s.skip(k + 1));
        assert forall|i: int| 0 <= i < k + 1 implies set.contains(#[trigger] s[i]) by {
            if i > 0 {
                assert(s[i] == s.drop_first()[i - 1]);
            }
        }
    } else {
        assert(s.skip(0) =~= s);
    }
}

/// Trimming from the back drops exactly the longest suffix that lies in
/// `set`: the result is a prefix of `s`, every dropped character is in
/// `set`, and the last kept one is not.
pub proof fn law_trim_end(s: Seq<char>, set: Set<char>)
    ensures
        exists|k: int|
            0 <= k <= s.len() && trim_end_in(s, set) == s.take(k) && (forall|i: int|
                k <= i < s.len() ==> set.contains(#[trigger] s[i])),
        trim_end_in(s, set).len() > 0 ==> !set.contains(trim_end_in(s, set).last()),
    decreases s.len(),
{
    if s.len() > 0 && set.contains(s.last()) {
        law_trim_end(s.drop_last(), set);
        let k = choose|k: int|
            0 <= k <= s.drop_last().len() && trim_end_in(s.drop_last(), set) == s.drop_last().take(k)
                && (forall|i: int| k <= i < s.drop_last().len() ==> set.contains(#[trigger] s.drop_last()[i]));
        assert(s.drop_last().take(k) =~= s.take(k));
        assert forall|i: int| k <= i < s.len() implies set.contains(#[trigger] s[i]) by {
            if i < s.len() - 1 {
                assert(s[i] == s.drop_last()[i]);
            }
        }
    } else {
        assert(s.take(s.len() as int) =~= s);
    }
}

/// `needle` occurs in any text made of something, `needle`, and something,
/// and occurs only in such texts.
pub proof fn law_contains(before: Seq<char>, needle: Seq<char>, after: Seq<char>, hay: Seq<char>)
    ensures
        contains_seq(before + needle + after, needle),
        contains_seq(hay, needle) ==> exists|i: int|
            0 <= i && i + needle.len() <= hay.len() && hay =~= hay.take(i) + needle + #[trigger] hay.skip(
                i + needle.len(),
            ),
{
    let h = before + needle + after;
    assert(h.subrange(before.len() as int, before.len() + needle.len() as int) =~= needle);
    if contains_seq(hay, needle) {
        let i = choose|i: int|
            0 <= i <= hay.len() - needle.len() && #[trigger] hay.subrange(i, i + needle.len()) == needle;
        assert(hay =~= hay.take(i) + needle + hay.skip(i + needle.len()));
    }
}

/// What is hashed for a nonce: the challenge prefix unchanged, then eight
/// bytes that write the nonce least significant first.
pub proof fn law_pow_input(prefix: Seq<u8>, nonce: u64)
    ensures
        pow_input(prefix, nonce).len() == prefix.len() + 8,
        pow_input(prefix, nonce).take(prefix.len() as int) == prefix,
        ({
            let b = pow_input(prefix, nonce).skip(prefix.len() as int);
            nonce as int == b[0] as int + 0x100 * b[1] as int + 0x1_0000 * b[2] as int + 0x100_0000 * b[3] as int
                + 0x1_0000_0000 * b[4] as int + 0x100_0000_0000 * b[5] as int + 0x1_0000_0000_0000 * b[6] as int
                + 0x100_0000_0000_0000 * b[7] as int
        }),
{
    law_le_bytes_value(nonce);
    assert(pow_input(prefix, nonce).take(prefix.len() as int) =~= prefix);
    assert(pow_input(prefix, nonce).skip(prefix.len() as int) =~= le_bytes(nonce));
}

} // verus!
