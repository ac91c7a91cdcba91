//! Small verified helpers on strings and characters, and the few calls into
//! the clock and the random generator that the engine needs.

use vstd::prelude::*;
use vstd::string::*;

verus! {

/// The characters of a string slice, in order.
pub fn chars_of(s: &str) -> (v: Vec<char>)
    ensures
        v@ == s@,
{
    let n = s.unicode_len();
    let mut v: Vec<char> = Vec::new();
    let mut i: usize = 0;
    while i < n
        invariant
            n == s@.len(),
            i <= n,
            v@ == s@.subrange(0, i as int),
        decreases n - i,
    {
        let c = s.get_char(i);
        v.push(c);
        i += 1;
    }
    v
}

/// Appends one character to a string (`String::push`).
#[verifier::external_body]
pub(crate) fn push_char(s: &mut String, c: char)
    ensures
        final(s)@ == old(s)@.push(c),
{
    s.push(c);
}

/// Builds a string from a slice of characters.
pub fn string_from_chars(v: &[char]) -> (s: String)
    ensures
        s@ == v@,
{
    let mut s = String::new();
    let mut i: usize = 0;
    while i < v.len()
        invariant
            i <= v@.len(),
            s@ == v@.subrange(0, i as int),
        decreases v@.len() - i,
    {
        push_char(&mut s, v[i]);
        i += 1;
    }
    s
}

/// The characters of `v` from position `start` on.
pub fn chars_from(v: &[char], start: usize) -> (r: Vec<char>)
    requires
        start <= v@.len(),
    ensures
        r@ == v@.subrange(start as int, v@.len() as int),
{
    let mut r: Vec<char> = Vec::new();
    let mut i: usize = start;
    while i < v.len()
        invariant
            start <= i <= v@.len(),
            r@ == v@.subrange(start as int, i as int),
        decreases v@.len() - i,
    {
        r.push(v[i]);
        proof {
            assert(r@ =~= v@.subrange(start as int, i + 1));
        }
        i += 1;
    }
    r
}

/// An owned copy of a string slice.
pub fn owned(s: &str) -> (r: String)
    ensures
        r@ == s@,
{
    String::from_str(s)
}

/// Whether two character sequences are equal.
pub fn chars_eq(a: &[char], b: &[char]) -> (r: bool)
    ensures
        r == (a@ == b@),
{
    if a.len() != b.len() {
        return false;
    }
    let mut i: usize = 0;
    while i < a.len()
        invariant
            a@.len() == b@.len(),
            i <= a@.len(),
            forall|j: int| 0 <= j < i ==> a@[j] == b@[j],
        decreases a@.len() - i,
    {
        if a[i] != b[i] {
            return false;
        }
        i += 1;
    }
    assert(a@ =~= b@);
    true
}

/// Whether two string slices hold the same characters.
pub fn str_eq(a: &str, b: &str) -> (r: bool)
    ensures
        r == (a@ == b@),
{
    let va = chars_of(a);
    let vb = chars_of(b);
    chars_eq(va.as_slice(), vb.as_slice())
}

/// The system clock's reading, as whole seconds since the UNIX epoch and the
/// nanoseconds past them (`SystemTime::now` measured with `duration_since`
/// from `UNIX_EPOCH`); a clock set before the epoch reads as zero, as
/// `unwrap_or_default` gives it. Nothing is promised of the values.
#[verifier::external_body]
pub(crate) fn system_clock() -> (u64, u32) {
    let d = std::time::SystemTime::now().duration_since(std::time::UNIX_EPOCH).unwrap_or_default();
    (d.as_secs(), d.subsec_nanos())
}

/// The current time in milliseconds since the UNIX epoch (the largest `i64`
/// for a clock beyond its range).
pub(crate) fn now_millis() -> i64 {
    let (secs, nanos) = system_clock();
    if secs <= 9_000_000_000_000 {
        (secs * 1000) as i64 + (nanos / 1_000_000) as i64
    } else {
        i64::MAX
    }
}

/// The current time as whole seconds since the UNIX epoch (the largest `i64`
/// for a clock beyond its range) and the nanoseconds past them.
pub(crate) fn now_seconds_and_nanos() -> (i64, u32) {
    let (secs, nanos) = system_clock();
    if secs <= i64::MAX as u64 {
        (secs as i64, nanos)
    } else {
        (i64::MAX, nanos)
    }
}

/// The lower-case form of a text, as `str::to_lowercase` gives it.
pub uninterp spec fn lowercase(s: Seq<char>) -> Seq<char>;

/// `str::to_lowercase`: the text with each character mapped by Unicode's
/// lower-case mapping (context-dependent for a final sigma). The contract
/// names the result.
#[verifier::external_body]
pub(crate) fn to_lowercase(s: &str) -> (r: String)
    ensures
        r@ == lowercase(s@),
{
    s.to_lowercase()
}

/// The upper-case form of a text, as `str::to_uppercase` gives it.
pub uninterp spec fn uppercase(s: Seq<char>) -> Seq<char>;

/// `str::to_uppercase`: the text with each character mapped by Unicode's
/// upper-case mapping (which may lengthen it, as `ß` becomes `SS`). The
/// contract names the result.
#[verifier::external_body]
pub(crate) fn to_uppercase(s: &str) -> (r: String)
    ensures
        r@ == uppercase(s@),
{
    s.to_uppercase()
}

/// The RFC 3339 text of a UTC time given as seconds since the UNIX epoch and
/// nanoseconds (`chrono::DateTime::from_timestamp`, then `to_rfc3339`); empty
/// for a time that chrono cannot represent.
pub uninterp spec fn rfc3339_of(secs: i64, nanos: u32) -> Seq<char>;

/// Formats a UTC time as RFC 3339 text with chrono (see `rfc3339_of`).
#[verifier::external_body]
fn rfc3339_text(secs: i64, nanos: u32) -> (r: String)
    ensures
        r@ == rfc3339_of(secs, nanos),
{
    chrono::DateTime::from_timestamp(secs, nanos).map(|t| t.to_rfc3339()).unwrap_or_default()
}

/// The current time as RFC 3339 text.
pub(crate) fn now_rfc3339() -> String {
    let (secs, nanos) = now_seconds_and_nanos();
    rfc3339_text(secs, nanos)
}

/// Sixteen bytes from the system's random source (`getrandom::fill`), or
/// none when the source fails. Nothing is promised of the bytes.
#[verifier::external_body]
fn random_bytes() -> (r: Option<[u8; 16]>) {
    let mut bytes = [0u8; 16];
    getrandom::fill(&mut bytes).ok().map(|_| bytes)
}

/// The version-4 UUID that `uuid::Builder::from_random_bytes` makes of
/// sixteen random bytes, as a number.
pub uninterp spec fn v4_uuid(bytes: Seq<u8>) -> u128;

/// Makes a version-4 UUID of random bytes (see `v4_uuid`).
#[verifier::external_body]
fn uuid_from_random_bytes(bytes: [u8; 16]) -> (r: u128)
    ensures
        r == v4_uuid(bytes@),
{
    uuid::Builder::from_random_bytes(bytes).into_uuid().as_u128()
}

/// A fresh random 128-bit identifier: a version-4 UUID of random bytes;
/// when the system's random source fails, the clock's reading in
/// nanoseconds.
pub(crate) fn fresh_uuid() -> u128 {
    match random_bytes() {
        Some(bytes) => uuid_from_random_bytes(bytes),
        None => {
            let (secs, nanos) = system_clock();
            secs as u128 * 1_000_000_000 + nanos as u128
        },
    }
}

/// The character of a decimal digit.
pub open spec fn digit_char(d: nat) -> char {
    (48 + d) as char
}

/// The decimal representation of a natural number, without leading zeros.
pub open spec fn decimal(n: nat) -> Seq<char>
    decreases n,
{
    if n < 10 {
        seq![digit_char(n)]
    } else {
        decimal(n / 10).push(digit_char(n % 10))
    }
}

/// The decimal representation of a signed integer, with a leading `-` when
/// it is negative.
pub open spec fn signed_decimal(n: int) -> Seq<char> {
    if n < 0 {
        seq!['-'] + decimal((-n) as nat)
    } else {
        decimal(n as nat)
    }
}

/// Appends the decimal representation of `n`.
pub fn push_decimal(s: &mut String, n: u64)
    ensures
        final(s)@ == old(s)@ + decimal(n as nat),
    decreases n,
{
    if n >= 10 {
        push_decimal(s, n / 10);
    }
    let d: u8 = (n % 10) as u8;
    let c: char = (48u8 + d) as char;
    push_char(s, c);
    proof {
        assert(c == digit_char((n % 10) as nat));
        if n < 10 {
            assert(old(s)@ + decimal(n as nat) =~= old(s)@.push(c));
        } else {
            assert(old(s)@ + decimal(n as nat) =~= (old(s)@ + decimal((n / 10) as nat)).push(c));
        }
    }
}

/// The decimal representation of `n` (`u64::to_string`).
pub fn u64_to_decimal(n: u64) -> (s: String)
    ensures
        s@ == decimal(n as nat),
{
    let mut s = String::new();
    push_decimal(&mut s, n);
    proof {
        assert(s@ =~= decimal(n as nat));
    }
    s
}

/// The decimal representation of `n` (`i64::to_string`).
pub fn i64_to_decimal(n: i64) -> (s: String)
    ensures
        s@ == signed_decimal(n as int),
{
    let mut s = String::new();
    if n < 0 {
        push_char(&mut s, '-');
        let m: u64 = if n == i64::MIN {
            9223372036854775808u64
        } else {
            (-n) as u64
        };
        push_decimal(&mut s, m);
        proof {
            assert(s@ =~= seq!['-'] + decimal(m as nat));
        }
    } else {
        push_decimal(&mut s, n as u64);
        proof {
            assert(s@ =~= decimal(n as nat));
        }
    }
    s
}

/// Lexicographic order on character sequences by code point (the order of
/// `str`'s `<`, since UTF-8 preserves code point order).
pub open spec fn chars_lt(a: Seq<char>, b: Seq<char>) -> bool {
    exists|i: int|
        #![trigger a.subrange(0, i)]
        0 <= i <= a.len() && i <= b.len() && a.subrange(0, i) == b.subrange(0, i) && ((i == a.len() && i
            < b.len()) || (i < a.len() && i < b.len() && (a[i] as u32) < (b[i] as u32)))
}

/// Whether `a` comes strictly before `b` (`str`'s `<`).
pub fn str_lt(a: &str, b: &str) -> (r: bool)
    ensures
        r == chars_lt(a@, b@),
{
    let va = chars_of(a);
    let vb = chars_of(b);
    let n = if va.len() < vb.len() { va.len() } else { vb.len() };
    let mut k: usize = 0;
    while k < n && va[k] == vb[k]
        invariant
            n <= va@.len(),
            n <= vb@.len(),
            n == va@.len() || n == vb@.len(),
            k <= n,
            forall|j: int| 0 <= j < k ==> va@[j] == vb@[j],
        decreases n - k,
    {
        k += 1;
    }
    proof {
        assert(va@.subrange(0, k as int) =~= vb@.subrange(0, k as int));
    }
    let r = if k < n {
        (va[k] as u32) < (vb[k] as u32)
    } else {
        n < vb.len()
    };
    proof {
        let a = va@;
        let b = vb@;
        if r {
            assert(a.subrange(0, k as int) == b.subrange(0, k as int));
        } else {
            assert forall|i: int|
                0 <= i <= a.len() && i <= b.len() && a.subrange(0, i) == b.subrange(0, i) implies !((i
                    == a.len() && i < b.len()) || (i < a.len() && i < b.len() && (a[i] as u32) < (
                b[i] as u32))) by {
                if i < k {
                    assert(a[i] == b[i]);
                } else if i > k {
                    assert(k < n);
                    assert(a.subrange(0, i)[k as int] == a[k as int]);
                    assert(b.subrange(0, i)[k as int] == b[k as int]);
                } else {
                }
            }
        }
    }
    r
}


/// No sequence comes before itself.
pub proof fn lemma_chars_lt_irreflexive(a: Seq<char>)
    ensures
        !chars_lt(a, a),
{
}

/// Where two sequences differ, they differ first somewhere.
proof fn lemma_first_difference(a: Seq<char>, b: Seq<char>, j: int)
    requires
        0 <= j < a.len(),
        j < b.len(),
        a[j] != b[j],
    ensures
        exists|k: int| 0 <= k <= j && a[k] != b[k] && forall|x: int| 0 <= x < k ==> a[x] == b[x],
    decreases j,
{
    if exists|x: int| 0 <= x < j && a[x] != b[x] {
        let x = choose|x: int| 0 <= x < j && a[x] != b[x];
        lemma_first_difference(a, b, x);
    } else {
        assert(forall|x: int| 0 <= x < j ==> a[x] == b[x]);
    }
}

/// Of two different sequences, one comes before the other.
pub proof fn lemma_chars_lt_total(a: Seq<char>, b: Seq<char>)
    requires
        a != b,
    ensures
        chars_lt(a, b) || chars_lt(b, a),
{
    let n: int = if a.len() < b.len() { a.len() as int } else { b.len() as int };
    if exists|j: int| 0 <= j < n && a[j] != b[j] {
        let j0 = choose|j: int| 0 <= j < n && a[j] != b[j];
        lemma_first_difference(a, b, j0);
        let k = choose|k: int| 0 <= k <= j0 && a[k] != b[k] && forall|x: int| 0 <= x < k ==> a[x] == b[x];
        assert(a.subrange(0, k) =~= b.subrange(0, k)) by {
            assert forall|j: int| 0 <= j < k implies a.subrange(0, k)[j] == b.subrange(0, k)[j] by {
                assert(!(a[j] != b[j]));
            }
        }
        if (a[k] as u32) == (b[k] as u32) {
            vstd::utf8::char_u32_cast(a[k], a[k] as u32);
            vstd::utf8::char_u32_cast(b[k], b[k] as u32);
        }
        assert((a[k] as u32) != (b[k] as u32));
        if (a[k] as u32) < (b[k] as u32) {
            assert(chars_lt(a, b));
        } else {
            assert(b.subrange(0, k) == a.subrange(0, k));
            assert(chars_lt(b, a));
        }
    } else {
        assert(a.subrange(0, n) =~= b.subrange(0, n)) by {
            assert forall|j: int| 0 <= j < n implies a.subrange(0, n)[j] == b.subrange(0, n)[j] by {
                assert(!(a[j] != b[j]));
            }
        }
        if a.len() == b.len() {
            assert(a =~= b) by {
                assert(a.subrange(0, n) =~= a);
                assert(b.subrange(0, n) =~= b);
            }
        } else if a.len() < b.len() {
            assert(a.subrange(0, n) =~= a);
            assert(chars_lt(a, b));
        } else {
            assert(b.subrange(0, n) =~= b);
            assert(chars_lt(b, a));
        }
    }
}

/// Two sequences are not each before the other.
pub proof fn lemma_chars_lt_asymmetric(a: Seq<char>, b: Seq<char>)
    requires
        chars_lt(a, b),
    ensures
        !chars_lt(b, a),
{
    let i = choose|i: int|
        #![trigger a.subrange(0, i)]
        0 <= i <= a.len() && i <= b.len() && a.subrange(0, i) == b.subrange(0, i) && ((i == a.len() && i
            < b.len()) || (i < a.len() && i < b.len() && (a[i] as u32) < (b[i] as u32)));
    if chars_lt(b, a) {
        let j = choose|j: int|
            #![trigger b.subrange(0, j)]
            0 <= j <= b.len() && j <= a.len() && b.subrange(0, j) == a.subrange(0, j) && ((j == b.len() && j
                < a.len()) || (j < b.len() && j < a.len() && (b[j] as u32) < (a[j] as u32)));
        if i < j {
            assert(b.subrange(0, j)[i] == a.subrange(0, j)[i]);
        } else if j < i {
            assert(a.subrange(0, i)[j] == b.subrange(0, i)[j]);
        }
    }
}

/// The order is transitive.
pub proof fn lemma_chars_lt_transitive(a: Seq<char>, b: Seq<char>, c: Seq<char>)
    requires
        chars_lt(a, b),
        chars_lt(b, c),
    ensures
        chars_lt(a, c),
{
    let i = choose|i: int|
        #![trigger a.subrange(0, i)]
        0 <= i <= a.len() && i <= b.len() && a.subrange(0, i) == b.subrange(0, i) && ((i == a.len() && i
            < b.len()) || (i < a.len() && i < b.len() && (a[i] as u32) < (b[i] as u32)));
    let j = choose|j: int|
        #![trigger b.subrange(0, j)]
        0 <= j <= b.len() && j <= c.len() && b.subrange(0, j) == c.subrange(0, j) && ((j == b.len() && j
            < c.len()) || (j < b.len() && j < c.len() && (b[j] as u32) < (c[j] as u32)));
    let k = if i < j { i } else { j };
    assert(a.subrange(0, k) =~= c.subrange(0, k)) by {
        assert forall|x: int| 0 <= x < k implies a.subrange(0, k)[x] == c.subrange(0, k)[x] by {
            assert(a.subrange(0, i)[x] == b.subrange(0, i)[x]);
            assert(b.subrange(0, j)[x] == c.subrange(0, j)[x]);
        }
    }
    if i < j {
        assert(b.subrange(0, j)[i] == c.subrange(0, j)[i]);
    } else if j < i {
        assert(a.subrange(0, i)[j] == b.subrange(0, i)[j]);
    }
    assert(0 <= k <= a.len() && k <= c.len() && a.subrange(0, k) == c.subrange(0, k) && ((k == a.len() && k
        < c.len()) || (k < a.len() && k < c.len() && (a[k] as u32) < (c[k] as u32))));
}

} // verus!
