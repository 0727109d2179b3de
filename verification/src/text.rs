use vstd::prelude::*;
use vstd::utf8::{char_is_scalar, encode_scalar, encode_utf8};

verus! {

/// Unicode `White_Space` (PropList.txt): the characters that `str::trim`
/// removes.
pub open spec fn is_white_space(c: char) -> bool {
    let v = c as u32;
    ||| 0x09 <= v <= 0x0D
    ||| v == 0x20
    ||| v == 0x85
    ||| v == 0xA0
    ||| v == 0x1680
    ||| 0x2000 <= v <= 0x200A
    ||| v == 0x2028
    ||| v == 0x2029
    ||| v == 0x202F
    ||| v == 0x205F
    ||| v == 0x3000
}

pub open spec fn white_space() -> Set<char> {
    Set::new(|c: char| is_white_space(c))
}

/// `s` without its leading characters that lie in `set`.
pub open spec fn trim_start_in(s: Seq<char>, set: Set<char>) -> Seq<char>
    decreases s.len(),
{
    if s.len() > 0 && set.contains(s[0]) {
        trim_start_in(s.drop_first(), set)
    } else {
        s
    }
}

/// `s` without its trailing characters that lie in `set`.
pub open spec fn trim_end_in(s: Seq<char>, set: Set<char>) -> Seq<char>
    decreases s.len(),
{
    if s.len() > 0 && set.contains(s.last()) {
        trim_end_in(s.drop_last(), set)
    } else {
        s
    }
}

/// What `str::trim` gives back.
pub open spec fn trim_white_space(s: Seq<char>) -> Seq<char> {
    trim_end_in(trim_start_in(s, white_space()), white_space())
}

/// The number of bytes of the UTF-8 encoding of `s` (what `str::len` counts).
pub open spec fn utf8_len(s: Seq<char>) -> nat {
    encode_utf8(s).len()
}

pub open spec fn decimal_digit(d: nat) -> char {
    seq!['0', '1', '2', '3', '4', '5', '6', '7', '8', '9'][d as int]
}

/// The decimal notation of `n`, without sign or leading zeros.
pub open spec fn decimal(n: nat) -> Seq<char>
    decreases n,
{
    if n < 10 {
        seq![decimal_digit(n)]
    } else {
        decimal(n / 10).push(decimal_digit(n % 10))
    }
}

pub fn is_white_space_char(c: char) -> (b: bool)
    ensures
        b == is_white_space(c),
{
    let v = c as u32;
    (0x09 <= v && v <= 0x0D) || v == 0x20 || v == 0x85 || v == 0xA0 || v == 0x1680 || (0x2000 <= v
        && v <= 0x200A) || v == 0x2028 || v == 0x2029 || v == 0x202F || v == 0x205F || v == 0x3000
}

/// The characters of `s`, one by one.
pub fn chars_of(s: &str) -> (out: Vec<char>)
    ensures
        out@ == s@,
{
    let n = s.unicode_len();
    let mut out: Vec<char> = Vec::new();
    let mut i: usize = 0;
    while i < n
        invariant
            n == s@.len(),
            i <= n,
            out@ == s@.subrange(0, i as int),
        decreases n - i,
    {
        out.push(s.get_char(i));
        i = i + 1;
    }
    out
}

/// The number of bytes that `c` takes in UTF-8.
pub fn char_utf8_width(c: char) -> (w: usize)
    ensures
        w == encode_scalar(c as u32).len(),
        1 <= w <= 4,
{
    proof {
        char_is_scalar(c);
    }
    let v = c as u32;
    if v <= 0x7F {
        1
    } else if v <= 0x7FF {
        2
    } else if v <= 0xFFFF {
        3
    } else {
        4
    }
}

pub proof fn lemma_encode_utf8_concat(a: Seq<char>, b: Seq<char>)
    ensures
        encode_utf8(a + b) == encode_utf8(a) + encode_utf8(b),
    decreases a.len(),
{
    if a.len() == 0 {
        assert(a + b =~= b);
        assert(encode_utf8(a) + encode_utf8(b) =~= encode_utf8(b));
    } else {
        lemma_encode_utf8_concat(a.drop_first(), b);
        assert((a + b).drop_first() =~= a.drop_first() + b);
        assert((a + b)[0] == a[0]);
        assert(encode_utf8(a + b) =~= encode_scalar(a[0] as u32) + encode_utf8(a.drop_first() + b));
    }
}

pub proof fn lemma_utf8_len_push(s: Seq<char>, c: char)
    ensures
        utf8_len(s.push(c)) == utf8_len(s) + encode_scalar(c as u32).len(),
{
    lemma_encode_utf8_concat(s, seq![c]);
    assert(s + seq![c] =~= s.push(c));
    assert(seq![c].drop_first() =~= Seq::<char>::empty());
    assert(encode_utf8(seq![c]) =~= encode_scalar(c as u32) + encode_utf8(Seq::<char>::empty()));
}

/// The byte length of a part of `s` never exceeds that of `s`, and byte
/// lengths of prefixes grow with the prefix.
pub proof fn lemma_utf8_len_subrange(s: Seq<char>, i: int, j: int)
    requires
        0 <= i <= j <= s.len(),
    ensures
        utf8_len(s.subrange(i, j)) <= utf8_len(s),
        utf8_len(s.subrange(0, i)) <= utf8_len(s.subrange(0, j)),
        utf8_len(s.subrange(0, i)) + utf8_len(s.subrange(i, j)) == utf8_len(s.subrange(0, j)),
{
    let pre = s.subrange(0, i);
    let mid = s.subrange(i, j);
    let post = s.subrange(j, s.len() as int);
    lemma_encode_utf8_concat(pre, mid);
    lemma_encode_utf8_concat(pre + mid, post);
    assert(pre + mid =~= s.subrange(0, j));
    assert(pre + mid + post =~= s);
}

/// Trimming from the front stops at the first character outside `set`.
pub proof fn lemma_trim_start_in(s: Seq<char>, lo: int, k: int, hi: int, set: Set<char>)
    requires
        0 <= lo <= k <= hi <= s.len(),
        forall|i: int| lo <= i < k ==> set.contains(#[trigger] s[i]),
        k == hi || !set.contains(s[k]),
    ensures
        trim_start_in(s.subrange(lo, hi), set) == s.subrange(k, hi),
    decreases k - lo,
{
    let t = s.subrange(lo, hi);
    if k == lo {
        if t.len() > 0 {
            assert(t[0] == s[k]);
        }
    } else {
        assert(t[0] == s[lo]);
        assert(t.drop_first() =~= s.subrange(lo + 1, hi));
        lemma_trim_start_in(s, lo + 1, k, hi, set);
    }
}

/// Trimming from the back stops after the last character outside `set`.
pub proof fn lemma_trim_end_in(s: Seq<char>, lo: int, k: int, hi: int, set: Set<char>)
    requires
        0 <= lo <= k <= hi <= s.len(),
        forall|i: int| k <= i < hi ==> set.contains(#[trigger] s[i]),
        k == lo || !set.contains(s[k - 1]),
    ensures
        trim_end_in(s.subrange(lo, hi), set) == s.subrange(lo, k),
    decreases hi - k,
{
    let t = s.subrange(lo, hi);
    if k == hi {
        if t.len() > 0 {
            assert(t.last() == s[k - 1]);
        }
    } else {
        assert(t.last() == s[hi - 1]);
        assert(t.drop_last() =~= s.subrange(lo, hi - 1));
        lemma_trim_end_in(s, lo, k, hi - 1, set);
    }
}

/// Trimming the back of `x + y` leaves `x` alone when `y` holds a character
/// outside `set`.
pub proof fn lemma_trim_end_in_concat(x: Seq<char>, y: Seq<char>, set: Set<char>)
    requires
        exists|i: int| 0 <= i < y.len() && !set.contains(#[trigger] y[i]),
    ensures
        trim_end_in(x + y, set) == x + trim_end_in(y, set),
    decreases y.len(),
{
    let i = choose|i: int| 0 <= i < y.len() && !set.contains(#[trigger] y[i]);
    assert((x + y).last() == y.last());
    if set.contains(y.last()) {
        assert((x + y).drop_last() =~= x + y.drop_last());
        assert(y.drop_last()[i] == y[i]);
        lemma_trim_end_in_concat(x, y.drop_last(), set);
    }
}

/// The index of the first character in `chars[lo..hi]` that is not white
/// space, or `hi`.
pub fn skip_white_space(chars: &Vec<char>, lo: usize, hi: usize) -> (k: usize)
    requires
        lo <= hi <= chars@.len(),
    ensures
        lo <= k <= hi,
        forall|i: int| lo <= i < k ==> is_white_space(#[trigger] chars@[i]),
        k == hi || !is_white_space(chars@[k as int]),
{
    let mut k = lo;
    while k < hi && is_white_space_char(chars[k])
        invariant
            lo <= k <= hi <= chars@.len(),
            forall|i: int| lo <= i < k ==> is_white_space(#[trigger] chars@[i]),
        decreases hi - k,
    {
        k = k + 1;
    }
    k
}

/// The end of `chars[lo..hi]` once trailing white space is dropped.
pub fn skip_white_space_back(chars: &Vec<char>, lo: usize, hi: usize) -> (k: usize)
    requires
        lo <= hi <= chars@.len(),
    ensures
        lo <= k <= hi,
        forall|i: int| k <= i < hi ==> is_white_space(#[trigger] chars@[i]),
        k == lo || !is_white_space(chars@[k - 1]),
{
    let mut k = hi;
    while k > lo && is_white_space_char(chars[k - 1])
        invariant
            lo <= k <= hi <= chars@.len(),
            forall|i: int| k <= i < hi ==> is_white_space(#[trigger] chars@[i]),
        decreases k - lo,
    {
        k = k - 1;
    }
    k
}

/// The index of the first character in `chars[lo..hi]` other than `c`, or `hi`.
pub fn skip_char(chars: &Vec<char>, lo: usize, hi: usize, c: char) -> (k: usize)
    requires
        lo <= hi <= chars@.len(),
    ensures
        lo <= k <= hi,
        forall|i: int| lo <= i < k ==> #[trigger] chars@[i] == c,
        k == hi || chars@[k as int] != c,
{
    let mut k = lo;
    while k < hi && chars[k] == c
        invariant
            lo <= k <= hi <= chars@.len(),
            forall|i: int| lo <= i < k ==> #[trigger] chars@[i] == c,
        decreases hi - k,
    {
        k = k + 1;
    }
    k
}

/// The end of `chars[lo..hi]` once trailing copies of `c` are dropped.
pub fn skip_char_back(chars: &Vec<char>, lo: usize, hi: usize, c: char) -> (k: usize)
    requires
        lo <= hi <= chars@.len(),
    ensures
        lo <= k <= hi,
        forall|i: int| k <= i < hi ==> #[trigger] chars@[i] == c,
        k == lo || chars@[k - 1] != c,
{
    let mut k = hi;
    while k > lo && chars[k - 1] == c
        invariant
            lo <= k <= hi <= chars@.len(),
            forall|i: int| k <= i < hi ==> #[trigger] chars@[i] == c,
        decreases k - lo,
    {
        k = k - 1;
    }
    k
}

/// True when `needle` occurs in `hay` (`str::contains`).
pub open spec fn contains_seq(hay: Seq<char>, needle: Seq<char>) -> bool {
    exists|i: int| 0 <= i <= hay.len() - needle.len() && #[trigger] hay.subrange(i, i + needle.len()) == needle
}

/// True when `a` and `b` hold the same text.
pub fn chars_equal(a: &str, b: &str) -> (eq: bool)
    ensures
        eq == (a@ == b@),
{
    let x = chars_of(a);
    let y = chars_of(b);
    if x.len() != y.len() {
        return false;
    }
    let mut i: usize = 0;
    while i < x.len()
        invariant
            x@ == a@,
            y@ == b@,
            x@.len() == y@.len(),
            i <= x@.len(),
            forall|j: int| 0 <= j < i ==> x@[j] == y@[j],
        decreases x@.len() - i,
    {
        if x[i] != y[i] {
            return false;
        }
        i = i + 1;
    }
    assert(x@ =~= y@);
    true
}

/// True when `needle` occurs in `hay`.
pub fn chars_contain(hay: &str, needle: &str) -> (found: bool)
    ensures
        found == contains_seq(hay@, needle@),
{
    let h = chars_of(hay);
    let n = chars_of(needle);
    if n.len() > h.len() {
        return false;
    }
    if n.len() == 0 {
        assert(hay@.subrange(0int, 0int + needle@.len()) =~= needle@);
        return true;
    }
    let last = h.len() - n.len();
    let mut i: usize = 0;
    while i <= last
        invariant
            h@ == hay@,
            n@ == needle@,
            last == h@.len() - n@.len(),
            h@.len() == h.len(),
            n@.len() == n.len() > 0,
            i <= last + 1,
            forall|k: int| 0 <= k < i ==> #[trigger] h@.subrange(k, k + n@.len()) != n@,
        decreases last + 1 - i,
    {
        let mut j: usize = 0;
        while j < n.len() && h[i + j] == n[j]
            invariant
                h@ == hay@,
                n@ == needle@,
                i <= last,
                last == h@.len() - n@.len(),
                h@.len() == h.len(),
                n@.len() == n.len(),
                j <= n@.len(),
                forall|m: int| 0 <= m < j ==> h@[i + m] == n@[m],
            decreases n@.len() - j,
        {
            j = j + 1;
        }
        if j == n.len() {
            assert(h@.subrange(i as int, i + n@.len()) =~= n@);
            return true;
        }
        assert(h@.subrange(i as int, i + n@.len())[j as int] != n@[j as int]);
        i = i + 1;
    }
    proof {
        if contains_seq(hay@, needle@) {
            let k = choose|k: int| 0 <= k <= hay@.len() - needle@.len() && #[trigger] hay@.subrange(k, k + needle@.len()) == needle@;
            assert(h@.subrange(k, k + n@.len()) != n@);
        }
    }
    false
}

/// True when `s` is empty or white space only (`s.trim().is_empty()`).
pub fn is_blank(s: &str) -> (blank: bool)
    ensures
        blank == (trim_white_space(s@).len() == 0),
{
    let chars = chars_of(s);
    let n = chars.len();
    let lo = skip_white_space(&chars, 0, n);
    let hi = skip_white_space_back(&chars, lo, n);
    proof {
        lemma_trim_start_in(s@, 0, lo as int, n as int, white_space());
        assert(s@.subrange(0, n as int) =~= s@);
        lemma_trim_end_in(s@, lo as int, hi as int, n as int, white_space());
    }
    lo == hi
}

/// Calls `String::push`, which appends `c` to the end of `s`.
/// Trusted: the text of `s` afterwards is its text before followed by `c`.
#[verifier::external_body]
pub(crate) fn string_push(s: &mut String, c: char)
    ensures
        final(s)@ == old(s)@.push(c),
{
    s.push(c)
}

/// Appends the decimal notation of `n` to `out`.
pub fn push_decimal(out: &mut String, n: u64)
    ensures
        final(out)@ == old(out)@ + decimal(n as nat),
    decreases n,
{
    if n >= 10 {
        push_decimal(out, n / 10);
    }
    let d = (n % 10) as usize;
    let digits = "0123456789";
    proof {
        reveal_strlit("0123456789");
    }
    out.append(digits.substring_ascii(d, d + 1));
    proof {
        let ds = seq!['0', '1', '2', '3', '4', '5', '6', '7', '8', '9'];
        assert(digits@ =~= ds);
        if n >= 10 {
            assert(decimal(n as nat) == decimal((n / 10) as nat).push(decimal_digit((n % 10) as nat)));
        }
        assert(out@ =~= old(out)@ + decimal(n as nat));
    }
}

/// The decimal notation of `n`, as `u64::to_string` writes it.
pub fn u64_to_decimal(n: u64) -> (s: String)
    ensures
        s@ == decimal(n as nat),
{
    let mut s = String::new();
    push_decimal(&mut s, n);
    assert(s@ =~= decimal(n as nat));
    s
}

} // verus!
