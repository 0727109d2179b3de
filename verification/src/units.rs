use vstd::prelude::*;

use crate::laws::digits_value;
use crate::text::{
    char_utf8_width, chars_of, decimal, decimal_digit, lemma_trim_end_in, lemma_trim_end_in_concat,
    lemma_trim_start_in, lemma_utf8_len_push, lemma_utf8_len_subrange, skip_char, skip_char_back,
    skip_white_space, skip_white_space_back, trim_end_in, trim_start_in, trim_white_space, is_white_space,
    u64_to_decimal, utf8_len, white_space,
};

verus! {

/// The number of decimal places of one RPOW: one RPOW is 10^9 base units.
pub const RPOW_DECIMALS: usize = 9;

pub open spec fn zeros(n: nat) -> Seq<char> {
    Seq::new(n, |i: int| '0')
}

pub open spec fn zero_set() -> Set<char> {
    set!['0']
}

/// The digits of a base-unit amount once surrounding white space and
/// leading zeros are gone; `"0"` when no digit but zeros is left.
pub open spec fn significant_digits(s: Seq<char>) -> Seq<char> {
    let v = trim_start_in(trim_white_space(s), zero_set());
    if v.len() == 0 {
        seq!['0']
    } else {
        v
    }
}

/// True when the last nine bytes of `v` start on a character boundary.
pub open spec fn is_split_point(v: Seq<char>, k: int) -> bool {
    0 <= k <= v.len() && utf8_len(v.take(k)) + 9 == utf8_len(v)
}

/// Where the whole RPOW part of `v` ends: nine bytes before the end.
pub open spec fn split_point(v: Seq<char>) -> int {
    choose|k: int| is_split_point(v, k)
}

/// The inputs on which `format_base_units` does not panic: when more than
/// nine bytes of digits are left, the ninth byte from the end must start a
/// character.
pub open spec fn base_units_formattable(s: Seq<char>) -> bool {
    let v = significant_digits(s);
    trim_white_space(s).len() == 0 || utf8_len(v) <= 9 || exists|k: int| is_split_point(v, k)
}

/// The RPOW notation of an amount below one RPOW: the digits padded to nine
/// places behind `0.`, trailing zeros dropped, `"0"` when none is left.
pub open spec fn below_one_rpow(v: Seq<char>) -> Seq<char> {
    let padded = if v.len() < 9 {
        zeros((9 - v.len()) as nat) + v
    } else {
        v
    };
    let fraction = trim_end_in(padded, zero_set());
    if fraction.len() == 0 {
        seq!['0']
    } else {
        seq!['0', '.'] + fraction
    }
}

/// The RPOW notation of digits `v` whose whole part is `v.take(k)`.
pub open spec fn whole_and_fraction(v: Seq<char>, k: int) -> Seq<char> {
    let fraction = trim_end_in(v.skip(k), zero_set());
    if fraction.len() == 0 {
        v.take(k)
    } else {
        v.take(k) + seq!['.'] + fraction
    }
}

/// A base-unit amount written in RPOW: the last nine digits become the
/// fraction, trailing zeros of the fraction and a bare fraction point are
/// dropped, and an empty or all-zero amount is `"0"`.
pub open spec fn format_base_units_spec(s: Seq<char>) -> Seq<char> {
    if trim_white_space(s).len() == 0 {
        seq!['0']
    } else {
        let v = significant_digits(s);
        if utf8_len(v) <= 9 {
            below_one_rpow(v)
        } else {
            whole_and_fraction(v, split_point(v))
        }
    }
}

/// An amount of base units as the API sends it: text, or (in the older
/// schema) a number.
#[derive(Debug, Clone, PartialEq, Eq)]
pub enum BaseUnitValue {
    String(String),
    Number(u64),
}

impl BaseUnitValue {
    /// The amount as text: the text itself, or the number in decimal.
    pub open spec fn text(self) -> Seq<char> {
        match self {
            BaseUnitValue::String(s) => s@,
            BaseUnitValue::Number(n) => decimal(n as nat),
        }
    }

    /// The amount as text: the text itself, or the number in decimal.
    pub fn as_cow(&self) -> (text: String)
        ensures
            text@ == self.text(),
    {
        match self {
            BaseUnitValue::String(value) => value.clone(),
            BaseUnitValue::Number(value) => u64_to_decimal(*value),
        }
    }
}

pub open spec fn amount_text(value: Option<BaseUnitValue>) -> Option<Seq<char>> {
    match value {
        Some(v) => Some(v.text()),
        None => None,
    }
}

pub open spec fn text_of(value: Option<String>) -> Option<Seq<char>> {
    match value {
        Some(s) => Some(s@),
        None => None,
    }
}

/// The amount from the current field, else the one from the older field.
pub open spec fn preferred(current: Option<BaseUnitValue>, legacy: Option<BaseUnitValue>) -> Option<BaseUnitValue> {
    match current {
        Some(v) => Some(v),
        None => legacy,
    }
}

fn option_text(value: &Option<BaseUnitValue>) -> (text: Option<String>)
    ensures
        text_of(text) == amount_text(*value),
{
    match value {
        Some(v) => Some(v.as_cow()),
        None => None,
    }
}

/// The account that `GET /me` reports: the current schema has the
/// `*_base_units` fields, the older one `balance` and `minted`.
#[derive(Debug, PartialEq, Eq)]
pub struct MeResponse {
    pub email: String,
    pub balance_base_units: Option<BaseUnitValue>,
    pub minted_base_units: Option<BaseUnitValue>,
    pub sent_base_units: Option<BaseUnitValue>,
    pub received_base_units: Option<BaseUnitValue>,
    pub balance: Option<BaseUnitValue>,
    pub minted: Option<BaseUnitValue>,
}

impl MeResponse {
    /// The balance in base units, from `balance_base_units`, else from
    /// `balance`.
    pub fn balance_base_units(&self) -> (text: Option<String>)
        ensures
            text_of(text) == amount_text(preferred(self.balance_base_units, self.balance)),
    {
        match &self.balance_base_units {
            Some(v) => Some(v.as_cow()),
            None => option_text(&self.balance),
        }
    }

    /// The minted amount in base units, from `minted_base_units`, else from
    /// `minted`.
    pub fn minted_base_units(&self) -> (text: Option<String>)
        ensures
            text_of(text) == amount_text(preferred(self.minted_base_units, self.minted)),
    {
        match &self.minted_base_units {
            Some(v) => Some(v.as_cow()),
            None => option_text(&self.minted),
        }
    }

    /// The amount sent, in base units, when reported.
    pub fn sent_base_units(&self) -> (text: Option<String>)
        ensures
            text_of(text) == amount_text(self.sent_base_units),
    {
        option_text(&self.sent_base_units)
    }

    /// The amount received, in base units, when reported.
    pub fn received_base_units(&self) -> (text: Option<String>)
        ensures
            text_of(text) == amount_text(self.received_base_units),
    {
        option_text(&self.received_base_units)
    }
}

/// Writes an amount of base units as RPOW, with up to nine decimal places.
pub fn format_base_units(value: &str) -> (out: String)
    requires
        base_units_formattable(value@),
    ensures
        out@ == format_base_units_spec(value@),
{
    match try_format_base_units(value) {
        Some(out) => out,
        None => {
            assert(false);
            String::new()
        },
    }
}

/// `format_base_units` on every input: `None` exactly where it would have to
/// split a character, which it cannot do.
pub fn try_format_base_units(value: &str) -> (out: Option<String>)
    ensures
        out is None <==> !base_units_formattable(value@),
        out matches Some(text) ==> text@ == format_base_units_spec(value@),
{
    let ghost s = value@;
    let chars = chars_of(value);
    let n = chars.len();
    let lo = skip_white_space(&chars, 0, n);
    let hi = skip_white_space_back(&chars, lo, n);
    proof {
        lemma_trim_start_in(s, 0, lo as int, n as int, white_space());
        assert(s.subrange(0, n as int) =~= s);
        lemma_trim_end_in(s, lo as int, hi as int, n as int, white_space());
        assert(trim_white_space(s) == s.subrange(lo as int, hi as int));
    }
    if lo == hi {
        let out = String::from_str("0");
        proof {
            reveal_strlit("0");
        }
        return Some(out);
    }
    let a = skip_char(&chars, lo, hi, '0');
    proof {
        lemma_trim_start_in(s, lo as int, a as int, hi as int, zero_set());
    }
    if a == hi {
        // Nothing but zeros: "0" padded to nine zeros has no fraction left.
        proof {
            lemma_all_zero_below_one_rpow();
            assert(utf8_len(seq!['0']) == 1) by {
                lemma_utf8_len_push(Seq::<char>::empty(), '0');
                assert(Seq::<char>::empty().push('0') =~= seq!['0']);
            }
        }
        let out = String::from_str("0");
        proof {
            reveal_strlit("0");
        }
        return Some(out);
    }
    let ghost v = s.subrange(a as int, hi as int);
    assert(significant_digits(s) == v);
    let (k, tail_bytes) = last_nine_bytes(&chars, a, hi);
    proof {
        lemma_utf8_len_subrange(v, (k - a) as int, v.len() as int);
        assert(v.subrange(0, v.len() as int) =~= v);
        assert(v.subrange((k - a) as int, v.len() as int) =~= s.subrange(k as int, hi as int));
    }
    if k == a && tail_bytes <= 9 {
        assert(v.take(0) =~= Seq::<char>::empty());
        Some(format_below_one_rpow(value, &chars, a, hi))
    } else {
        proof {
            assert(v.subrange((k - a) as int, v.len() as int) =~= s.subrange(k as int, hi as int));
            if k < hi {
                assert(v.subrange(k - a + 1, v.len() as int) =~= s.subrange(k + 1, hi as int));
            }
            if utf8_len(v) <= 9 {
                lemma_utf8_len_subrange(v, (k - a) as int, v.len() as int);
            }
            lemma_split_at_last_nine(v, (k - a) as int, tail_bytes as nat);
        }
        if tail_bytes == 9 {
            Some(format_whole_and_fraction(value, &chars, a, k, hi))
        } else {
            None
        }
    }
}

/// Walks back from `hi` until at least nine bytes lie behind `k`, or `a` is
/// reached; gives `k` and the byte length of `chars[k..hi]`.
fn last_nine_bytes(chars: &Vec<char>, a: usize, hi: usize) -> (r: (usize, usize))
    requires
        a < hi <= chars@.len(),
    ensures
        a <= r.0 <= hi,
        r.1 == utf8_len(chars@.subrange(r.0 as int, hi as int)),
        r.0 == a || r.1 >= 9,
        r.0 < hi ==> utf8_len(chars@.subrange(r.0 + 1, hi as int)) < 9,
{
    let mut k = hi;
    let mut acc: usize = 0;
    assert(chars@.subrange(hi as int, hi as int) =~= Seq::<char>::empty());
    while k > a && acc < 9
        invariant
            a <= k <= hi <= chars@.len(),
            acc == utf8_len(chars@.subrange(k as int, hi as int)),
            acc < 13,
            k < hi ==> utf8_len(chars@.subrange(k + 1, hi as int)) < 9,
        decreases k,
    {
        let w = char_utf8_width(chars[k - 1]);
        proof {
            let t = chars@.subrange(k - 1, hi as int);
            lemma_utf8_len_subrange(t, 1, t.len() as int);
            assert(t.subrange(0, t.len() as int) =~= t);
            assert(t.subrange(1, t.len() as int) =~= chars@.subrange(k as int, hi as int));
            lemma_utf8_len_push(Seq::<char>::empty(), chars@[k - 1]);
            assert(Seq::<char>::empty().push(chars@[k - 1]) =~= t.subrange(0, 1));
        }
        acc = acc + w;
        k = k - 1;
    }
    (k, acc)
}

/// The notation of digits `chars[a..hi]` worth less than one RPOW.
fn format_below_one_rpow(value: &str, chars: &Vec<char>, a: usize, hi: usize) -> (out: String)
    requires
        chars@ == value@,
        a < hi <= chars@.len(),
        chars@[a as int] != '0',
        utf8_len(value@.subrange(a as int, hi as int)) <= 9,
    ensures
        out@ == below_one_rpow(value@.subrange(a as int, hi as int)),
{
    let ghost s = value@;
    let ghost v = s.subrange(a as int, hi as int);
    let e = skip_char_back(chars, a, hi, '0');
    proof {
        lemma_trim_end_in(s, a as int, e as int, hi as int, zero_set());
        lemma_chars_le_bytes(v);
        let z = zeros((9 - v.len()) as nat);
        assert(v[0] == s[a as int]);
        lemma_trim_end_in_concat(z, v, zero_set());
        if v.len() >= 9 {
            assert(z + v =~= v);
        }
    }
    let zeros_text = "000000000";
    proof {
        reveal_strlit("000000000");
        reveal_strlit("0.");
    }
    let mut out = String::from_str("0.");
    out.append(zeros_text.substring_ascii(0, RPOW_DECIMALS - (hi - a)));
    out.append(value.substring_char(a, e));
    proof {
        assert(zeros_text@.subrange(0, 9 - (hi - a)) =~= zeros((9 - v.len()) as nat));
        assert(out@ =~= seq!['0', '.'] + zeros((9 - v.len()) as nat) + s.subrange(a as int, e as int));
    }
    out
}

/// The notation of digits `chars[a..hi]` whose whole part is `chars[a..k]`.
fn format_whole_and_fraction(value: &str, chars: &Vec<char>, a: usize, k: usize, hi: usize) -> (out: String)
    requires
        chars@ == value@,
        a <= k <= hi <= chars@.len(),
    ensures
        out@ == whole_and_fraction(value@.subrange(a as int, hi as int), k - a),
{
    let ghost s = value@;
    let ghost v = s.subrange(a as int, hi as int);
    let e = skip_char_back(chars, k, hi, '0');
    proof {
        lemma_trim_end_in(s, k as int, e as int, hi as int, zero_set());
        assert(v.skip(k - a) =~= s.subrange(k as int, hi as int));
        assert(v.take(k - a) =~= s.subrange(a as int, k as int));
    }
    let mut out = String::from_str(value.substring_char(a, k));
    if e > k {
        proof {
            reveal_strlit(".");
        }
        out.append(".");
        out.append(value.substring_char(k, e));
        assert(out@ =~= s.subrange(a as int, k as int) + seq!['.'] + s.subrange(k as int, e as int));
    }
    out
}

/// The last nine bytes of `v` begin at a character exactly when the walk
/// back from the end stops on nine bytes; that character is then the split.
proof fn lemma_split_at_last_nine(v: Seq<char>, j: int, tail: nat)
    requires
        0 <= j <= v.len(),
        tail == utf8_len(v.subrange(j, v.len() as int)),
        j == 0 || tail >= 9,
        j < v.len() ==> utf8_len(v.subrange(j + 1, v.len() as int)) < 9,
        !(j == 0 && tail <= 9),
    ensures
        utf8_len(v) > 9,
        (exists|k0: int| is_split_point(v, k0)) <==> tail == 9,
        tail == 9 ==> split_point(v) == j,
{
    assert(v.subrange(0, v.len() as int) =~= v);
    lemma_utf8_len_subrange(v, j, v.len() as int);
    if j > 0 {
        lemma_chars_le_bytes(v.subrange(0, j));
    }
    assert(v.subrange(0, j) =~= v.take(j));
    if tail == 9 {
        assert(is_split_point(v, j));
    }
    if exists|k0: int| is_split_point(v, k0) {
        let k0 = choose|k0: int| is_split_point(v, k0);
        assert(is_split_point(v, k0));
        lemma_utf8_len_subrange(v, k0, v.len() as int);
        assert(v.subrange(0, k0) =~= v.take(k0));
        if k0 < j {
            let w = v.subrange(k0, v.len() as int);
            lemma_utf8_len_subrange(w, j - k0, w.len() as int);
            assert(w.subrange(0, w.len() as int) =~= w);
            assert(w.subrange(j - k0, w.len() as int) =~= v.subrange(j, v.len() as int));
        } else if k0 > j {
            let w = v.subrange(j + 1, v.len() as int);
            lemma_utf8_len_subrange(w, k0 - j - 1, w.len() as int);
            assert(w.subrange(0, w.len() as int) =~= w);
            assert(w.subrange(k0 - j - 1, w.len() as int) =~= v.subrange(k0, v.len() as int));
        }
    }
}

/// The last `k` digits of an amount: `r` in decimal, padded with zeros to
/// `k` digits.
pub open spec fn padded_decimal(r: nat, k: nat) -> Seq<char> {
    zeros((k - decimal(r).len()) as nat) + decimal(r)
}

/// An amount of `n` base units in RPOW, by arithmetic: the whole RPOW
/// (`0` when none), then, unless it is zero, a point and the nine-digit
/// remainder without its trailing zeros.
pub open spec fn rpow_text(n: nat) -> Seq<char> {
    let whole = if n >= 1_000_000_000 {
        decimal(n / 1_000_000_000)
    } else {
        seq!['0']
    };
    let fraction = trim_end_in(padded_decimal(n % 1_000_000_000, 9), zero_set());
    if fraction.len() == 0 {
        whole
    } else {
        whole + seq!['.'] + fraction
    }
}

/// Formatting the decimal notation of any amount of base units gives that
/// amount divided by 10^9, written exactly: the whole RPOW, and the nine
/// decimal places without trailing zeros.
pub proof fn lemma_format_is_division_by_billion(n: nat)
    ensures
        base_units_formattable(decimal(n)),
        format_base_units_spec(decimal(n)) == rpow_text(n),
{
    let b: nat = 1_000_000_000;
    let q = n / b;
    let r = n % b;
    assert(pow10(9) == b) by {
        reveal_with_fuel(pow10, 10);
    }
    assert(n == q * b + r && r < b) by (nonlinear_arith)
        requires
            q == n / b,
            r == n % b,
            b == 1_000_000_000,
    {
    }
    lemma_decimal_len_bound(r, 9);
    lemma_decimal_digits(r);
    let pad = padded_decimal(r, 9);
    let dr = decimal(r);
    assert(pad.len() == 9);
    lemma_padded_digits(r, 9);
    if r == 0 {
        lemma_trim_end_all_zero(pad);
    } else {
        let z = zeros((9 - dr.len()) as nat);
        assert(pad[z.len() as int] == dr[0]);
        assert(dr[0] != '0');
        assert(pad[z.len() as int] != '0');
        lemma_trim_end_nonzero(pad, z.len() as int);
    }
    let fraction = trim_end_in(pad, zero_set());
    if q == 0 {
        assert(n == r);
        if r == 0 {
            lemma_whole_rpow_amounts(0);
            assert(0 * 1_000_000_000nat == 0);
            assert(rpow_text(n) == seq!['0']);
            let s = decimal(0);
            assert(s == seq!['0']);
            assert(trim_start_in(s, zero_set()) =~= Seq::<char>::empty()) by {
                assert(zero_set().contains(s[0]));
                assert(s.drop_first() =~= Seq::<char>::empty());
                assert(trim_start_in(s.drop_first(), zero_set()) == s.drop_first());
            }
            lemma_digits_trim(s);
            assert(significant_digits(s) == seq!['0']);
            lemma_ascii_utf8_len(seq!['0']);
        } else {
            let s = dr;
            lemma_digits_trim(s);
            assert(trim_start_in(s, zero_set()) == s);
            assert(significant_digits(s) == s);
            lemma_ascii_utf8_len(s);
            if s.len() >= 9 {
                assert(zeros((9 - s.len()) as nat) + s =~= s);
            }
            assert(format_base_units_spec(s) == seq!['0', '.'] + fraction);
            assert(seq!['0', '.'] + fraction =~= seq!['0'] + seq!['.'] + fraction);
        }
    } else {
        assert(n >= b) by (nonlinear_arith)
            requires
                n == q * b + r,
                q > 0,
                b > 0,
        {
        }
        lemma_decimal_split(q, r, 9);
        let dq = decimal(q);
        let s = decimal(n);
        assert(s == dq + pad);
        lemma_decimal_digits(q);
        assert forall|i: int| 0 <= i < s.len() implies is_ascii_digit(#[trigger] s[i]) by {
            if i < dq.len() {
                assert(s[i] == dq[i]);
            } else {
                assert(s[i] == pad[i - dq.len()]);
            }
        }
        lemma_digits_trim(s);
        assert(s[0] == dq[0]);
        assert(trim_start_in(s, zero_set()) == s);
        let v = significant_digits(s);
        assert(v == s);
        lemma_ascii_utf8_len(v);
        lemma_ascii_utf8_len(v.take(dq.len() as int));
        assert(is_split_point(v, dq.len() as int));
        assert forall|k: int| is_split_point(v, k) implies k == dq.len() by {
            lemma_ascii_utf8_len(v.take(k));
        }
        assert(split_point(v) == dq.len());
        assert(v.take(dq.len() as int) =~= dq);
        assert(v.skip(dq.len() as int) =~= pad);
    }
}

/// Trimming zeros off the back keeps a part that holds a non-zero character.
proof fn lemma_trim_end_nonzero(s: Seq<char>, i: int)
    requires
        0 <= i < s.len(),
        s[i] != '0',
    ensures
        trim_end_in(s, zero_set()).len() > i,
    decreases s.len(),
{
    if i < s.len() - 1 {
        if zero_set().contains(s.last()) {
            assert(s.drop_last()[i] == s[i]);
            lemma_trim_end_nonzero(s.drop_last(), i);
        }
    } else {
        assert(!zero_set().contains(s.last()));
    }
}

/// A number below 10^k has at most `k` digits.
proof fn lemma_decimal_len_bound(r: nat, k: nat)
    requires
        k >= 1,
        r < pow10(k),
    ensures
        decimal(r).len() <= k,
    decreases r,
{
    if r >= 10 {
        let kk = (k - 1) as nat;
        assert(k >= 2) by {
            if k == 1 {
                assert(pow10(1) == 10) by {
                    reveal_with_fuel(pow10, 2);
                }
            }
        }
        assert(r / 10 < pow10(kk)) by (nonlinear_arith)
            requires
                r < pow10(k),
                pow10(k) == 10 * pow10(kk),
        {
        }
        lemma_decimal_len_bound(r / 10, kk);
    }
}

/// The padded notation is made of `k` ASCII digits.
proof fn lemma_padded_digits(r: nat, k: nat)
    requires
        decimal(r).len() <= k,
    ensures
        padded_decimal(r, k).len() == k,
        forall|i: int| 0 <= i < k ==> is_ascii_digit(#[trigger] padded_decimal(r, k)[i]),
        r == 0 ==> forall|i: int| 0 <= i < k ==> #[trigger] padded_decimal(r, k)[i] == '0',
{
    lemma_decimal_digits(r);
    let z = zeros((k - decimal(r).len()) as nat);
    assert forall|i: int| 0 <= i < k implies is_ascii_digit(#[trigger] padded_decimal(r, k)[i]) by {
        if i >= z.len() {
            assert(padded_decimal(r, k)[i] == decimal(r)[i - z.len()]);
        }
    }
    if r == 0 {
        assert(decimal(0) == seq!['0']);
        assert forall|i: int| 0 <= i < k implies #[trigger] padded_decimal(r, k)[i] == '0' by {
            if i >= z.len() {
                assert(padded_decimal(r, k)[i] == decimal(r)[i - z.len()]);
            }
        }
    }
}

/// Writing `q * 10^k + r` puts the `k` padded digits of `r` behind those of `q`.
proof fn lemma_decimal_split(q: nat, r: nat, k: nat)
    requires
        q > 0,
        k >= 1,
        r < pow10(k),
    ensures
        decimal(q * pow10(k) + r) == decimal(q) + padded_decimal(r, k),
    decreases k,
{
    lemma_pow10_positive(k);
    lemma_decimal_len_bound(r, k);
    let kk = (k - 1) as nat;
    lemma_pow10_positive(kk);
    let m = q * pow10(kk) + r / 10;
    let d = r % 10;
    assert(q * pow10(k) + r == m * 10 + d && m > 0 && d < 10) by (nonlinear_arith)
        requires
            m == q * pow10(kk) + r / 10,
            d == r % 10,
            pow10(k) == 10 * pow10(kk),
            q > 0,
            pow10(kk) > 0,
    {
    }
    assert((m * 10 + d) / 10 == m && (m * 10 + d) % 10 == d) by (nonlinear_arith)
        requires
            d < 10,
    {
    }
    assert(decimal(m * 10 + d) == decimal(m).push(decimal_digit(d)));
    if k == 1 {
        assert(pow10(1) == 10) by {
            reveal_with_fuel(pow10, 2);
        }
        assert(pow10(0) == 1);
        assert(r / 10 == 0 && r % 10 == r);
        assert(m == q) by (nonlinear_arith)
            requires
                m == q * pow10(kk) + r / 10,
                pow10(kk) == 1,
                r / 10 == 0,
        {
        }
        assert(decimal(r) == seq![decimal_digit(r)]);
        assert(padded_decimal(r, 1) =~= seq![decimal_digit(r)]);
        assert(decimal(q) + padded_decimal(r, 1) =~= decimal(q).push(decimal_digit(r)));
    } else {
        assert(r / 10 < pow10(kk)) by (nonlinear_arith)
            requires
                r < pow10(k),
                pow10(k) == 10 * pow10(kk),
        {
        }
        lemma_decimal_split(q, r / 10, kk);
        lemma_decimal_len_bound(r / 10, kk);
        if r >= 10 {
            assert(decimal(r) == decimal(r / 10).push(decimal_digit(r % 10)));
            assert(padded_decimal(r, k) =~= padded_decimal(r / 10, kk).push(decimal_digit(d)));
        } else {
            assert(r / 10 == 0 && r % 10 == r);
            assert(decimal(0) == seq!['0']);
            assert(decimal(r) == seq![decimal_digit(r)]);
            assert(padded_decimal(r, k) =~= padded_decimal(0, kk).push(decimal_digit(d)));
        }
        assert(decimal(q) + padded_decimal(r, k) =~= (decimal(q) + padded_decimal(r / 10, kk)).push(
            decimal_digit(d),
        ));
    }
}

/// One RPOW is 10^9 base units: a whole number `n` of RPOW, written in base
/// units, is written back as `n`.
pub proof fn lemma_whole_rpow_amounts(n: nat)
    ensures
        format_base_units_spec(decimal(n * 1_000_000_000)) == decimal(n),
{
    let s = decimal(n * 1_000_000_000);
    if n == 0 {
        assert(s == seq!['0']);
        lemma_digits_trim(s);
        assert(trim_start_in(s, zero_set()) =~= Seq::<char>::empty()) by {
            assert(zero_set().contains(s[0]));
            assert(s.drop_first() =~= Seq::<char>::empty());
            assert(trim_start_in(s.drop_first(), zero_set()) == s.drop_first());
        }
        lemma_ascii_utf8_len(seq!['0']);
        lemma_all_zero_below_one_rpow();
        assert(decimal(0) == seq!['0']);
    } else {
        let d = decimal(n);
        lemma_decimal_times_ten_pow(n, 9);
        assert(pow10(9) == 1_000_000_000) by {
            reveal_with_fuel(pow10, 10);
        }
        assert(s == d + zeros(9));
        lemma_decimal_digits(n);
        assert forall|i: int| 0 <= i < s.len() implies is_ascii_digit(#[trigger] s[i]) by {
            if i >= d.len() {
                assert(s[i] == zeros(9)[i - d.len()]);
            } else {
                assert(s[i] == d[i]);
            }
        }
        lemma_digits_trim(s);
        assert(s[0] == d[0]);
        assert(trim_start_in(s, zero_set()) == s);
        let v = significant_digits(s);
        assert(v == s);
        lemma_ascii_utf8_len(v);
        lemma_ascii_utf8_len(v.take(d.len() as int));
        assert(is_split_point(v, d.len() as int));
        assert forall|k: int| is_split_point(v, k) implies k == d.len() by {
            lemma_ascii_utf8_len(v.take(k));
        }
        assert(split_point(v) == d.len());
        assert(v.take(d.len() as int) =~= d);
        assert(v.skip(d.len() as int) =~= zeros(9));
        lemma_trim_end_all_zero(zeros(9));
    }
}

pub open spec fn is_ascii_digit(c: char) -> bool {
    '0' <= c <= '9'
}

/// A decimal notation is made of ASCII digits and starts with a digit other
/// than `0` unless it is `0`.
proof fn lemma_decimal_digits(n: nat)
    ensures
        decimal(n).len() >= 1,
        forall|i: int| 0 <= i < decimal(n).len() ==> is_ascii_digit(#[trigger] decimal(n)[i]),
        n > 0 ==> decimal(n)[0] != '0',
    decreases n,
{
    if n >= 10 {
        lemma_decimal_digits(n / 10);
        let d = decimal(n / 10);
        assert(decimal(n) == d.push(decimal_digit(n % 10)));
        assert forall|i: int| 0 <= i < decimal(n).len() implies is_ascii_digit(#[trigger] decimal(n)[i]) by {
            if i < d.len() {
                assert(decimal(n)[i] == d[i]);
            }
        }
        assert(decimal(n)[0] == d[0]);
    }
}

/// Multiplying by 10^k appends `k` zeros.
proof fn lemma_decimal_times_ten_pow(n: nat, k: nat)
    requires
        n > 0,
    ensures
        decimal(n * pow10(k)) == decimal(n) + zeros(k),
    decreases k,
{
    if k == 0 {
        assert(pow10(0) == 1);
        assert(n * 1 == n);
        assert(decimal(n) + zeros(0) =~= decimal(n));
    } else {
        lemma_decimal_times_ten_pow(n, (k - 1) as nat);
        lemma_pow10_positive((k - 1) as nat);
        let m = n * pow10((k - 1) as nat);
        assert(m > 0) by (nonlinear_arith)
            requires
                m == n * pow10((k - 1) as nat),
                n > 0,
                pow10((k - 1) as nat) > 0,
        {
        }
        assert(n * pow10(k) == m * 10) by (nonlinear_arith)
            requires
                m == n * pow10((k - 1) as nat),
                pow10(k) == 10 * pow10((k - 1) as nat),
        {
        }
        assert((m * 10) / 10 == m && (m * 10) % 10 == 0) by (nonlinear_arith);
        assert(decimal(m * 10) == decimal(m).push(decimal_digit(0)));
        assert(decimal(n) + zeros(k) =~= (decimal(n) + zeros((k - 1) as nat)).push('0'));
    }
}

proof fn lemma_pow10_positive(k: nat)
    ensures
        pow10(k) > 0,
    decreases k,
{
    if k > 0 {
        lemma_pow10_positive((k - 1) as nat);
    }
}

pub open spec fn pow10(k: nat) -> nat
    decreases k,
{
    if k == 0 {
        1
    } else {
        10 * pow10((k - 1) as nat)
    }
}

/// Digits take one byte each.
proof fn lemma_ascii_utf8_len(s: Seq<char>)
    requires
        forall|i: int| 0 <= i < s.len() ==> is_ascii_digit(#[trigger] s[i]),
    ensures
        utf8_len(s) == s.len(),
    decreases s.len(),
{
    if s.len() == 0 {
        assert(utf8_len(s) == 0);
    } else {
        let p = s.drop_last();
        assert forall|i: int| 0 <= i < p.len() implies is_ascii_digit(#[trigger] p[i]) by {
            assert(p[i] == s[i]);
        }
        lemma_ascii_utf8_len(p);
        lemma_utf8_len_push(p, s.last());
        assert(p.push(s.last()) =~= s);
        assert(is_ascii_digit(s[s.len() - 1]));
    }
}

/// Digits hold no white space, so trimming leaves them alone.
proof fn lemma_digits_trim(s: Seq<char>)
    requires
        s.len() > 0,
        forall|i: int| 0 <= i < s.len() ==> is_ascii_digit(#[trigger] s[i]),
    ensures
        trim_white_space(s) == s,
{
    assert(!white_space().contains(s[0]));
    assert(trim_start_in(s, white_space()) == s);
    assert(!white_space().contains(s.last()));
}

proof fn lemma_digits_value_concat(a: Seq<char>, b: Seq<char>)
    ensures
        digits_value(a + b) == digits_value(a) * pow10(b.len()) + digits_value(b),
    decreases b.len(),
{
    if b.len() == 0 {
        assert(a + b =~= a);
        assert(pow10(0) == 1);
        assert(digits_value(a) * 1 == digits_value(a));
    } else {
        lemma_digits_value_concat(a, b.drop_last());
        assert((a + b).drop_last() =~= a + b.drop_last());
        assert((a + b).last() == b.last());
        let x = digits_value(a);
        let p = pow10(b.drop_last().len());
        let y = digits_value(b.drop_last());
        let c = b.last() as int - '0' as int;
        assert(pow10(b.len()) == 10 * p);
        assert(10 * (x * p + y) + c == x * (10 * p) + (10 * y + c)) by (nonlinear_arith);
    }
}

proof fn lemma_digits_value_zeros(k: nat)
    ensures
        digits_value(zeros(k)) == 0,
    decreases k,
{
    if k > 0 {
        lemma_digits_value_zeros((k - 1) as nat);
        assert(zeros(k).drop_last() =~= zeros((k - 1) as nat));
    }
}

/// What the RPOW notation says, in numbers: the part before the point
/// writes `n / 10^9`; there is a point exactly when `n % 10^9` is not
/// zero, and then the one to nine digits after it, read as nine places,
/// write `n % 10^9` and do not end in zero.
pub proof fn lemma_rpow_text_value(n: nat)
    ensures
        n % 1_000_000_000 == 0 ==> digits_value(rpow_text(n)) == n / 1_000_000_000 && !rpow_text(
            n,
        ).contains('.'),
        n % 1_000_000_000 != 0 ==> exists|whole: Seq<char>, fraction: Seq<char>|
            rpow_text(n) == whole + seq!['.'] + fraction && !whole.contains('.') && digits_value(whole) == n
                / 1_000_000_000 && 1 <= fraction.len() <= 9 && fraction.last() != '0' && digits_value(
                fraction + zeros((9 - fraction.len()) as nat),
            ) == n % 1_000_000_000,
{
    let q = n / 1_000_000_000;
    let r = n % 1_000_000_000;
    let whole = if n >= 1_000_000_000 {
        decimal(q)
    } else {
        seq!['0']
    };
    assert(pow10(9) == 1_000_000_000) by {
        reveal_with_fuel(pow10, 10);
    }
    lemma_decimal_len_bound(r, 9);
    lemma_padded_digits(r, 9);
    lemma_decimal_digits(q);
    let pad = padded_decimal(r, 9);
    let fraction = trim_end_in(pad, zero_set());
    assert(digits_value(whole) == q) by {
        if n >= 1_000_000_000 {
            crate::laws::law_decimal_notation(q);
        } else {
            assert(q == 0);
            assert(seq!['0'].drop_last() =~= Seq::<char>::empty());
            assert(digits_value(Seq::<char>::empty()) == 0);
        }
    }
    assert(!whole.contains('.')) by {
        if whole.contains('.') {
            let i = choose|i: int| 0 <= i < whole.len() && whole[i] == '.';
            if n >= 1_000_000_000 {
                assert(is_ascii_digit(decimal(q)[i]));
            }
        }
    }
    if r == 0 {
        lemma_trim_end_all_zero(pad);
        assert(rpow_text(n) == whole);
    } else {
        lemma_decimal_digits(r);
        let z = zeros((9 - decimal(r).len()) as nat);
        assert(pad[z.len() as int] == decimal(r)[0]);
        lemma_trim_end_nonzero(pad, z.len() as int);
        crate::laws::law_trim_end(pad, zero_set());
        let m = choose|m: int|
            0 <= m <= pad.len() && trim_end_in(pad, zero_set()) == pad.take(m) && (forall|i: int|
                m <= i < pad.len() ==> zero_set().contains(#[trigger] pad[i]));
        assert(pad =~= fraction + zeros((9 - fraction.len()) as nat)) by {
            assert forall|i: int| m <= i < pad.len() implies #[trigger] pad[i] == '0' by {
                assert(zero_set().contains(pad[i]));
            }
        }
        lemma_digits_value_concat(z, decimal(r));
        lemma_digits_value_zeros(z.len());
        crate::laws::law_decimal_notation(r);
        assert(rpow_text(n) == whole + seq!['.'] + fraction);
    }
}

/// White space around an amount and zeros in front of it change nothing:
/// the amount `n`, written with `k` leading zeros between white space, is
/// still written as `n` divided by 10^9.
pub proof fn lemma_format_ignores_padding(n: nat, k: nat, before: Seq<char>, after: Seq<char>)
    requires
        forall|i: int| 0 <= i < before.len() ==> is_white_space(#[trigger] before[i]),
        forall|i: int| 0 <= i < after.len() ==> is_white_space(#[trigger] after[i]),
    ensures
        base_units_formattable(before + zeros(k) + decimal(n) + after),
        format_base_units_spec(before + zeros(k) + decimal(n) + after) == rpow_text(n),
{
    let d = decimal(n);
    let core = zeros(k) + d;
    let s = before + zeros(k) + decimal(n) + after;
    assert(s =~= before + core + after);
    lemma_decimal_digits(n);
    lemma_format_is_division_by_billion(n);
    assert forall|i: int| 0 <= i < core.len() implies is_ascii_digit(#[trigger] core[i]) by {
        if i >= k {
            assert(core[i] == d[i - k]);
        }
    }
    lemma_trim_around_digits(before, core, after);
    lemma_digits_trim(d);
    lemma_leading_zeros_are_dropped(n, k);
    assert(significant_digits(s) == significant_digits(d));
}

/// White space around digits is trimmed off and nothing else.
proof fn lemma_trim_around_digits(before: Seq<char>, core: Seq<char>, after: Seq<char>)
    requires
        core.len() > 0,
        forall|i: int| 0 <= i < core.len() ==> is_ascii_digit(#[trigger] core[i]),
        forall|i: int| 0 <= i < before.len() ==> is_white_space(#[trigger] before[i]),
        forall|i: int| 0 <= i < after.len() ==> is_white_space(#[trigger] after[i]),
    ensures
        trim_white_space(before + core + after) == core,
{
    let s = before + core + after;
    let lo = before.len() as int;
    let hi = lo + core.len();
    assert forall|i: int| 0 <= i < lo implies white_space().contains(#[trigger] s[i]) by {
        assert(s[i] == before[i]);
    }
    assert(s[lo] == core[0]);
    assert(!white_space().contains(s[lo]));
    lemma_trim_start_in(s, 0, lo, s.len() as int, white_space());
    assert(s.subrange(0, s.len() as int) =~= s);
    assert forall|i: int| hi <= i < s.len() implies white_space().contains(#[trigger] s[i]) by {
        assert(s[i] == after[i - hi]);
    }
    assert(s[hi - 1] == core[core.len() - 1]);
    lemma_trim_end_in(s, lo, hi, s.len() as int, white_space());
    assert(s.subrange(lo, hi) =~= core);
}

/// Leading zeros in front of a decimal notation are dropped like its own.
proof fn lemma_leading_zeros_are_dropped(n: nat, k: nat)
    ensures
        trim_start_in(zeros(k) + decimal(n), zero_set()) == trim_start_in(decimal(n), zero_set()),
{
    let d = decimal(n);
    let core = zeros(k) + d;
    lemma_decimal_digits(n);
    assert forall|i: int| 0 <= i < k implies zero_set().contains(#[trigger] core[i]) by {}
    if n > 0 {
        assert(core[k as int] == d[0]);
        lemma_trim_start_in(core, 0, k as int, core.len() as int, zero_set());
        assert(core.subrange(0, core.len() as int) =~= core);
        assert(core.subrange(k as int, core.len() as int) =~= d);
        lemma_trim_start_in(d, 0, 0, d.len() as int, zero_set());
        assert(d.subrange(0, d.len() as int) =~= d);
    } else {
        assert(d == seq!['0']);
        lemma_trim_start_in(core, 0, core.len() as int, core.len() as int, zero_set());
        assert(core.subrange(0, core.len() as int) =~= core);
        lemma_trim_start_in(d, 0, 1, 1, zero_set());
        assert(d.subrange(0, 1) =~= d);
    }
}

/// Nine zeros leave no fraction.
proof fn lemma_all_zero_below_one_rpow()
    ensures
        below_one_rpow(seq!['0']) == seq!['0'],
{
    let padded = zeros(8) + seq!['0'];
    assert forall|i: int| 0 <= i < padded.len() implies #[trigger] padded[i] == '0' by {}
    lemma_trim_end_all_zero(padded);
}

proof fn lemma_trim_end_all_zero(s: Seq<char>)
    requires
        forall|i: int| 0 <= i < s.len() ==> #[trigger] s[i] == '0',
    ensures
        trim_end_in(s, zero_set()).len() == 0,
    decreases s.len(),
{
    if s.len() > 0 {
        assert(zero_set().contains(s.last()));
        lemma_trim_end_all_zero(s.drop_last());
    }
}

/// Every character takes at least one byte.
proof fn lemma_chars_le_bytes(s: Seq<char>)
    ensures
        s.len() <= utf8_len(s),
    decreases s.len(),
{
    if s.len() > 0 {
        lemma_chars_le_bytes(s.drop_last());
        lemma_utf8_len_push(s.drop_last(), s.last());
        assert(s.drop_last().push(s.last()) =~= s);
    }
}

} // verus!
