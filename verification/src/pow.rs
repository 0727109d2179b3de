use vstd::prelude::*;
use vstd::std_specs::bits::{axiom_u8_trailing_zeros, u8_trailing_zeros};
use vstd::utf8::encode_utf8;

use crate::digest::{sha256, sha256_digest};
use crate::text::string_push;

verus! {

/// How many hashes a search worker counts before it adds them to the shared
/// total.
pub const HASH_BATCH_SIZE: u64 = 262_144;

/// The highest difficulty: a SHA-256 digest has 256 bits.
pub const MAX_DIFFICULTY: u32 = 256;

/// A nonce that solves a challenge, and the number of hashes computed until
/// it was found.
#[derive(Debug, Clone, Copy, PartialEq, Eq)]
pub struct PowSolution {
    pub nonce: u64,
    pub hashes: u64,
}

/// Byte `i` of `n` in little-endian order.
pub open spec fn le_byte(n: u64, i: int) -> u8 {
    ((n >> ((8 * i) as u64)) & 0xff) as u8
}

/// The eight bytes of `n`, least significant first (`u64::to_le_bytes`).
pub open spec fn le_bytes(n: u64) -> Seq<u8> {
    Seq::new(8, |i: int| le_byte(n, i))
}

/// The bytes that are hashed for `nonce`: the challenge prefix, then the
/// nonce in little-endian order.
pub open spec fn pow_input(prefix: Seq<u8>, nonce: u64) -> Seq<u8> {
    prefix + le_bytes(nonce)
}

/// True when `digest` ends in at least `difficulty` zero bits.
pub open spec fn meets_difficulty(digest: Seq<u8>, difficulty: u32) -> bool {
    trailing_zero_bits_spec(digest) >= difficulty
}

/// True when `nonce` solves the challenge (`prefix`, `difficulty`).
pub open spec fn solves(prefix: Seq<u8>, difficulty: u32, nonce: u64) -> bool {
    meets_difficulty(sha256(pow_input(prefix, nonce)), difficulty)
}

/// Number of zero bits at the low end of `bytes`, read as one number whose
/// least significant byte is the last one and whose bits run from the
/// least significant bit of each byte.
pub open spec fn trailing_zero_bits_spec(bytes: Seq<u8>) -> nat
    decreases bytes.len(),
{
    if bytes.len() == 0 {
        0
    } else if bytes.last() == 0 {
        8 + trailing_zero_bits_spec(bytes.drop_last())
    } else {
        u8_trailing_zeros(bytes.last()) as nat
    }
}

/// Counts the trailing zero bits of a digest: whole zero bytes from the end
/// count eight each, then the low zero bits of the last non-zero byte.
pub fn trailing_zero_bits(bytes: &[u8]) -> (count: u32)
    requires
        trailing_zero_bits_spec(bytes@) <= u32::MAX,
    ensures
        count == trailing_zero_bits_spec(bytes@),
{
    let mut zero_bits: u32 = 0;
    let mut i: usize = bytes.len();
    assert(bytes@.subrange(0, i as int) =~= bytes@);
    while i > 0
        invariant
            i <= bytes@.len(),
            trailing_zero_bits_spec(bytes@) <= u32::MAX,
            trailing_zero_bits_spec(bytes@) == zero_bits + trailing_zero_bits_spec(bytes@.subrange(0, i as int)),
        decreases i,
    {
        let byte = bytes[i - 1];
        proof {
            let pre = bytes@.subrange(0, i as int);
            assert(pre.drop_last() =~= bytes@.subrange(0, i - 1));
            assert(pre.last() == byte);
        }
        if byte == 0 {
            zero_bits = zero_bits + 8;
            i = i - 1;
        } else {
            return zero_bits + byte.trailing_zeros();
        }
    }
    zero_bits
}

pub proof fn lemma_trailing_zero_bits_bound(bytes: Seq<u8>)
    ensures
        trailing_zero_bits_spec(bytes) <= 8 * bytes.len(),
    decreases bytes.len(),
{
    if bytes.len() > 0 {
        lemma_trailing_zero_bits_bound(bytes.drop_last());
        axiom_u8_trailing_zeros(bytes.last());
    }
}

/// Writes `nonce` into `output` in little-endian order.
pub fn write_nonce_le(nonce: u64, output: &mut [u8])
    requires
        old(output)@.len() == 8,
    ensures
        final(output)@ == le_bytes(nonce),
{
    let mut i: usize = 0;
    while i < 8
        invariant
            i <= 8,
            output@.len() == 8,
            forall|j: int| 0 <= j < i ==> #[trigger] output@[j] == le_byte(nonce, j),
        decreases 8 - i,
    {
        let shift = (8 * i) as u64;
        output[i] = ((nonce >> shift) & 0xff) as u8;
        i = i + 1;
    }
    assert(output@ =~= le_bytes(nonce));
}

/// Appends the eight little-endian bytes of `nonce` to `out`.
fn push_nonce_le(out: &mut Vec<u8>, nonce: u64)
    ensures
        final(out)@ == old(out)@ + le_bytes(nonce),
{
    let ghost start = out@;
    let mut i: usize = 0;
    while i < 8
        invariant
            i <= 8,
            out@ == start + le_bytes(nonce).take(i as int),
        decreases 8 - i,
    {
        let shift = (8 * i) as u64;
        out.push(((nonce >> shift) & 0xff) as u8);
        assert(le_bytes(nonce).take(i + 1) =~= le_bytes(nonce).take(i as int).push(le_byte(nonce, i as int)));
        i = i + 1;
    }
    assert(le_bytes(nonce).take(8) =~= le_bytes(nonce));
}

/// Overwrites `out[offset..offset + 8]` with the little-endian bytes of `nonce`.
fn put_nonce_le(out: &mut Vec<u8>, offset: usize, nonce: u64)
    requires
        offset + 8 == old(out)@.len(),
    ensures
        final(out)@ == old(out)@.take(offset as int) + le_bytes(nonce),
    no_unwind
{
    let ghost start = out@;
    let mut i: usize = 0;
    while i < 8
        invariant
            i <= 8,
            offset + 8 == out@.len(),
            offset + 8 == out.len(),
            out@.take(offset as int) == start.take(offset as int),
            forall|j: int| 0 <= j < i ==> #[trigger] out@[offset + j] == le_byte(nonce, j),
        decreases 8 - i,
    {
        let shift = (8 * i) as u64;
        out[offset + i] = ((nonce >> shift) & 0xff) as u8;
        assert(out@.take(offset as int) =~= start.take(offset as int));
        i = i + 1;
    }
    assert forall|k: int| offset <= k < offset + 8 implies out@[k] == le_byte(nonce, k - offset) by {
        assert(out@[offset + (k - offset)] == le_byte(nonce, k - offset));
    }
    assert forall|k: int| 0 <= k < offset implies out@[k] == start[k] by {
        assert(out@.take(offset as int)[k] == start.take(offset as int)[k]);
    }
    assert(out@ =~= start.take(offset as int) + le_bytes(nonce));
}

/// The value of an ASCII hex digit, either case.
pub open spec fn hex_digit_value(byte: u8) -> Option<u8> {
    if 0x30 <= byte <= 0x39 {
        Some((byte - 0x30) as u8)
    } else if 0x61 <= byte <= 0x66 {
        Some((byte - 0x61 + 10) as u8)
    } else if 0x41 <= byte <= 0x46 {
        Some((byte - 0x41 + 10) as u8)
    } else {
        None
    }
}

pub open spec fn is_hex_digit(byte: u8) -> bool {
    hex_digit_value(byte) is Some
}

/// The byte written by the hex digits `high` and `low`.
pub open spec fn hex_pair(high: u8, low: u8) -> u8 {
    (hex_digit_value(high).unwrap() * 16 + hex_digit_value(low).unwrap()) as u8
}

/// Why a hex string was refused.
#[derive(Debug, Clone, Copy, PartialEq, Eq)]
pub enum HexError {
    /// The text has an odd number of bytes.
    OddLength,
    /// The first byte that is not a hex digit.
    NonHexCharacter(u8),
}

impl HexError {
    /// The message that the command-line tools print for this error; a
    /// non-hex byte is written as the character with that code.
    pub fn message(&self) -> (m: String)
        ensures
            *self == HexError::OddLength ==> m@ == "hex value must have an even number of characters"@,
            *self is NonHexCharacter ==> m@ == "hex value contains non-hex character: "@.push(
                (self->NonHexCharacter_0) as char,
            ),
    {
        match self {
            HexError::OddLength => String::from_str("hex value must have an even number of characters"),
            HexError::NonHexCharacter(byte) => {
                let mut m = String::from_str("hex value contains non-hex character: ");
                m.append(latin1_char(*byte).as_str());
                m
            },
        }
    }
}

/// The one-character text of the character whose code is `byte`.
fn latin1_char(byte: u8) -> (s: String)
    ensures
        s@ == seq![byte as char],
{
    let mut s = String::new();
    string_push(&mut s, byte as char);
    assert(s@ =~= seq![byte as char]);
    s
}

/// The value of the hex digit `byte`.
pub fn hex_value(byte: u8) -> (r: Result<u8, HexError>)
    ensures
        match hex_digit_value(byte) {
            Some(v) => r == Ok::<u8, HexError>(v),
            None => r == Err::<u8, HexError>(HexError::NonHexCharacter(byte)),
        },
{
    if 0x30 <= byte && byte <= 0x39 {
        Ok(byte - 0x30)
    } else if 0x61 <= byte && byte <= 0x66 {
        Ok(byte - 0x61 + 10)
    } else if 0x41 <= byte && byte <= 0x46 {
        Ok(byte - 0x41 + 10)
    } else {
        Err(HexError::NonHexCharacter(byte))
    }
}

/// Decodes hex text, two digits per byte, high digit first.
pub fn parse_hex(value: &str) -> (r: Result<Vec<u8>, HexError>)
    ensures
        ({
            let b = encode_utf8(value@);
            &&& (r == Err::<Vec<u8>, HexError>(HexError::OddLength) <==> b.len() % 2 == 1)
            &&& (r is Ok <==> b.len() % 2 == 0 && forall|i: int| 0 <= i < b.len() ==> is_hex_digit(#[trigger] b[i]))
            &&& (r matches Ok(out) ==> out@.len() == b.len() / 2 && forall|i: int|
                0 <= i < out@.len() ==> #[trigger] out@[i] == hex_pair(b[2 * i], b[2 * i + 1]))
            &&& (r matches Err(HexError::NonHexCharacter(c)) ==> b.len() % 2 == 0 && exists|i: int|
                0 <= i < b.len() && b[i] == c && !is_hex_digit(c) && forall|j: int|
                    0 <= j < i ==> is_hex_digit(#[trigger] b[j]))
        }),
{
    let bytes = value.as_bytes();
    let ghost b = bytes@;
    assert(b == encode_utf8(value@));
    if bytes.len() % 2 != 0 {
        return Err(HexError::OddLength);
    }
    let mut out: Vec<u8> = Vec::new();
    let mut i: usize = 0;
    while i < bytes.len()
        invariant
            b == bytes@,
            b == encode_utf8(value@),
            b.len() % 2 == 0,
            i % 2 == 0,
            i <= b.len(),
            out@.len() == i / 2,
            forall|j: int| 0 <= j < i ==> is_hex_digit(#[trigger] b[j]),
            forall|j: int| 0 <= j < out@.len() ==> #[trigger] out@[j] == hex_pair(b[2 * j], b[2 * j + 1]),
        decreases b.len() - i,
    {
        let high = match hex_value(bytes[i]) {
            Ok(v) => v,
            Err(e) => {
                proof {
                    let k = i as int;
                    assert(0 <= k < b.len() && b[k] == bytes@[k] && !is_hex_digit(b[k]));
                    assert(forall|j: int| 0 <= j < k ==> is_hex_digit(#[trigger] b[j]));
                }
                return Err(e);
            },
        };
        let low = match hex_value(bytes[i + 1]) {
            Ok(v) => v,
            Err(e) => {
                proof {
                    let k = i + 1;
                    assert(is_hex_digit(b[i as int]));
                    assert(0 <= k < b.len() && b[k] == bytes@[k] && !is_hex_digit(b[k]));
                    assert forall|j: int| 0 <= j < k implies is_hex_digit(#[trigger] b[j]) by {
                        if j < i {
                        }
                    }
                }
                return Err(e);
            },
        };
        out.push((high << 4) | low);
        proof {
            assert(((high << 4u8) | low) == high * 16 + low) by (bit_vector)
                requires
                    high < 16,
                    low < 16,
            ;
            assert(out@[(i / 2) as int] == hex_pair(b[i as int], b[i + 1]));
        }
        i = i + 2;
    }
    Ok(out)
}

/// Why the options of a search were refused.
#[derive(Debug, Clone, Copy, PartialEq, Eq)]
pub enum SearchOptionsError {
    ZeroThreads,
    DifficultyTooHigh,
    TooManyThreads,
}

impl SearchOptionsError {
    /// The message that the command-line tools print for this error.
    pub fn message(&self) -> (m: String)
        ensures
            *self == SearchOptionsError::ZeroThreads ==> m@ == "--threads must be greater than 0"@,
            *self == SearchOptionsError::DifficultyTooHigh ==> m@ == "--difficulty must be between 0 and 256"@,
            *self == SearchOptionsError::TooManyThreads ==> m@ == "--threads is too large"@,
    {
        match self {
            SearchOptionsError::ZeroThreads => String::from_str("--threads must be greater than 0"),
            SearchOptionsError::DifficultyTooHigh => String::from_str("--difficulty must be between 0 and 256"),
            SearchOptionsError::TooManyThreads => String::from_str("--threads is too large"),
        }
    }
}

/// Checks the options of a search before any thread starts: at least one
/// thread, a difficulty a SHA-256 digest can meet, and a thread count that
/// fits the nonce step.
pub fn validate_search_options(difficulty: u32, threads: usize) -> (r: Result<(), SearchOptionsError>)
    ensures
        threads == 0 ==> r == Err::<(), SearchOptionsError>(SearchOptionsError::ZeroThreads),
        threads != 0 && difficulty > 256 ==> r == Err::<(), SearchOptionsError>(SearchOptionsError::DifficultyTooHigh),
        threads != 0 && difficulty <= 256 && threads > u64::MAX ==> r == Err::<(), SearchOptionsError>(SearchOptionsError::TooManyThreads),
        threads != 0 && difficulty <= 256 && threads <= u64::MAX ==> r == Ok::<(), SearchOptionsError>(()),
{
    if threads == 0 {
        return Err(SearchOptionsError::ZeroThreads);
    }
    if difficulty > MAX_DIFFICULTY {
        return Err(SearchOptionsError::DifficultyTooHigh);
    }
    if threads as u128 > u64::MAX as u128 {
        return Err(SearchOptionsError::TooManyThreads);
    }
    Ok(())
}

/// What one step of a search worker leads to.
#[derive(Debug, Clone, Copy, PartialEq, Eq)]
pub enum WorkerEvent {
    /// `nonce` solves the challenge; `hashes` are the worker's hashes not yet
    /// added to the shared total, this one included.
    Solved { nonce: u64, hashes: u64 },
    /// Go on; add `flush` hashes to the shared total first (0: nothing).
    Continue { flush: u64 },
    /// The worker's next nonce would pass `u64::MAX`; add `flush` hashes
    /// to the shared total and stop.
    Exhausted { flush: u64 },
}

/// One search thread's state: it tries `start`, `start + step`, ... in turn.
pub struct SearchWorker {
    input: Vec<u8>,
    prefix_len: usize,
    nonce: u64,
    step: u64,
    local_hashes: u64,
}

impl SearchWorker {
    #[verifier::type_invariant]
    spec fn well_formed(self) -> bool {
        &&& self.input@.len() == self.prefix_len + 8
        &&& self.local_hashes < HASH_BATCH_SIZE
    }

    /// The challenge prefix that this worker hashes its nonces behind.
    pub closed spec fn prefix(self) -> Seq<u8> {
        self.input@.take(self.prefix_len as int)
    }

    /// The nonce that the next step tries.
    pub closed spec fn next_nonce(self) -> u64 {
        self.nonce
    }

    pub closed spec fn nonce_step(self) -> u64 {
        self.step
    }

    /// Hashes computed since the last time this worker reported some.
    pub closed spec fn pending(self) -> u64 {
        self.local_hashes
    }

    /// A worker that starts at `start` and moves on by `step`.
    pub fn new(prefix: &[u8], start: u64, step: u64) -> (w: SearchWorker)
        requires
            prefix@.len() + 8 <= usize::MAX,
        ensures
            w.prefix() == prefix@,
            w.next_nonce() == start,
            w.nonce_step() == step,
            w.pending() == 0,
    {
        let mut input: Vec<u8> = Vec::new();
        let mut i: usize = 0;
        while i < prefix.len()
            invariant
                i <= prefix@.len(),
                input@ == prefix@.subrange(0, i as int),
            decreases prefix@.len() - i,
        {
            input.push(prefix[i]);
            i = i + 1;
        }
        push_nonce_le(&mut input, 0);
        assert(input@.take(prefix@.len() as int) =~= prefix@);
        SearchWorker { input, prefix_len: prefix.len(), nonce: start, step, local_hashes: 0 }
    }

    /// Hashes computed since the last time this worker reported some.
    pub fn pending_hashes(&self) -> (h: u64)
        ensures
            h == self.pending(),
    {
        self.local_hashes
    }

    /// Hashes the next nonce and says what follows: the nonce solves the
    /// challenge, or the search goes on with the next nonce, or the nonces
    /// of this worker are used up.  Every full batch of hashes is handed
    /// out to be added to the shared total.
    pub fn advance(&mut self, difficulty: u32) -> (event: WorkerEvent)
        ensures
            final(self).prefix() == old(self).prefix(),
            final(self).nonce_step() == old(self).nonce_step(),
            ({
                let n = old(self).next_nonce();
                let counted = old(self).pending() + 1;
                let flush = if counted == HASH_BATCH_SIZE { counted } else { 0 };
                if solves(old(self).prefix(), difficulty, n) {
                    &&& event == WorkerEvent::Solved { nonce: n, hashes: counted as u64 }
                    &&& final(self).next_nonce() == n
                    &&& final(self).pending() == 0
                } else if n + old(self).nonce_step() > u64::MAX {
                    &&& event == WorkerEvent::Exhausted { flush: counted as u64 }
                    &&& final(self).next_nonce() == n
                    &&& final(self).pending() == 0
                } else {
                    &&& event == WorkerEvent::Continue { flush: flush as u64 }
                    &&& final(self).next_nonce() == n + old(self).nonce_step()
                    &&& final(self).pending() == counted - flush
                }
            }),
    {
        proof {
            use_type_invariant(&*self);
        }
        let ghost prefix = self.prefix();
        put_nonce_le(&mut self.input, self.prefix_len, self.nonce);
        let digest = sha256_digest(self.input.as_slice());
        let counted = self.local_hashes + 1;
        proof {
            lemma_trailing_zero_bits_bound(digest@);
            assert(self.input@.take(self.prefix_len as int) =~= prefix);
            assert(self.input@ =~= pow_input(prefix, self.nonce));
        }
        if trailing_zero_bits(digest.as_slice()) >= difficulty {
            self.local_hashes = 0;
            return WorkerEvent::Solved { nonce: self.nonce, hashes: counted };
        }
        let flush = if counted == HASH_BATCH_SIZE {
            self.local_hashes = 0;
            counted
        } else {
            self.local_hashes = counted;
            0
        };
        match self.nonce.checked_add(self.step) {
            Some(next) => {
                self.nonce = next;
                WorkerEvent::Continue { flush }
            },
            None => {
                self.local_hashes = 0;
                WorkerEvent::Exhausted { flush: counted }
            },
        }
    }
}

/// The nonce that a worker started at `start` with step `step` tries after
/// `k` steps.
pub open spec fn worker_nonce(start: nat, step: nat, k: nat) -> nat {
    start + k * step
}

/// With `threads` workers, worker `t` starting at `t` and stepping by
/// `threads`, every nonce is tried by exactly one worker, after exactly one
/// number of steps.
pub proof fn lemma_each_nonce_has_one_worker(nonce: nat, threads: nat)
    requires
        threads > 0,
    ensures
        nonce % threads < threads,
        worker_nonce(nonce % threads, threads, nonce / threads) == nonce,
        forall|t: nat, k: nat|
            t < threads && #[trigger] worker_nonce(t, threads, k) == nonce ==> t == nonce % threads && k
                == nonce / threads,
{
    assert(nonce == nonce % threads + (nonce / threads) * threads && nonce % threads < threads) by (nonlinear_arith)
        requires
            threads > 0,
    {
    }
    assert forall|t: nat, k: nat|
        t < threads && #[trigger] worker_nonce(t, threads, k) == nonce implies t == nonce % threads && k
            == nonce / threads by {
        vstd::arithmetic::div_mod::lemma_fundamental_div_mod_converse(nonce as int, threads as int, k as int, t as int);
        assert(k * threads == threads * k) by (nonlinear_arith);
    }
}

/// Keeps the first solution found: a slot that already holds one is left
/// unchanged; an empty slot takes `nonce` with the shared total before the
/// solving worker's last report plus that report.
pub fn record_solution(slot: &mut Option<PowSolution>, nonce: u64, previous_total: u64, hashes: u64)
    requires
        previous_total + hashes <= u64::MAX,
    ensures
        (*old(slot)) is Some ==> *final(slot) == *old(slot),
        (*old(slot)) is None ==> *final(slot) == Some(PowSolution { nonce, hashes: (previous_total + hashes) as u64 }),
{
    if slot.is_none() {
        *slot = Some(PowSolution { nonce, hashes: previous_total + hashes });
    }
}

} // verus!
