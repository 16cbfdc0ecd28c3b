//! Recognising leaf containers and extracting the date and band fields
//! from a container name.
//!
//! Names are handled as byte strings. A leaf container is a directory whose
//! name, trimmed of trailing whitespace, ends with the suffix `MHz.ms`. The
//! counting pattern is an unanchored match of
//! `<8 digits>_<6 digits>_<2 digits>MHz.ms` anywhere in the name; the
//! leftmost occurrence supplies the date (the 8-digit field) and the band
//! (the 2-digit field).

use vstd::prelude::*;

verus! {

/// An ASCII decimal digit byte, `'0'` to `'9'`.
pub open spec fn is_digit(b: u8) -> bool {
    48 <= b <= 57
}

/// An ASCII whitespace byte: space, tab, line feed, vertical tab, form
/// feed or carriage return.
pub open spec fn is_space_byte(b: u8) -> bool {
    b == 32 || 9 <= b <= 13
}

/// The name with its trailing whitespace bytes removed.
pub open spec fn trim_end(s: Seq<u8>) -> Seq<u8>
    decreases s.len(),
{
    if s.len() > 0 && is_space_byte(s.last()) {
        trim_end(s.drop_last())
    } else {
        s
    }
}

/// The name ends with the leaf-container suffix `MHz.ms`.
pub open spec fn ends_with_leaf_suffix(s: Seq<u8>) -> bool {
    &&& s.len() >= 6
    &&& s[s.len() - 6] == 77u8  // 'M'
    &&& s[s.len() - 5] == 72u8  // 'H'
    &&& s[s.len() - 4] == 122u8  // 'z'
    &&& s[s.len() - 3] == 46u8  // '.'
    &&& s[s.len() - 2] == 109u8  // 'm'
    &&& s[s.len() - 1] == 115u8  // 's'
}

/// The name, trimmed of trailing whitespace, marks a leaf container.
pub open spec fn is_leaf_name(s: Seq<u8>) -> bool {
    ends_with_leaf_suffix(trim_end(s))
}

/// Runtime test for [`is_space_byte`].
fn is_space_ascii(b: u8) -> (r: bool)
    ensures
        r == is_space_byte(b),
{
    b == 32 || (9 <= b && b <= 13)
}

/// An entry is a leaf container: a directory whose (trimmed) name ends
/// with `MHz.ms`. Leading whitespace never changes which suffix a name
/// ends with, so only the trailing trim is observable here.
#[verifier::loop_isolation(false)]
pub fn is_ovro_ms_file(name: &[u8], is_dir: bool) -> (r: bool)
    ensures
        r == (is_dir && is_leaf_name(name@)),
{
    if !is_dir {
        return false;
    }
    let mut end: usize = name.len();
    proof {
        assert(name@.take(end as int) =~= name@);
    }
    while end > 0 && is_space_ascii(name[end - 1])
        invariant
            end <= name@.len(),
            trim_end(name@.take(end as int)) == trim_end(name@),
        decreases end,
    {
        proof {
            assert(name@.take(end as int).last() == name@[end - 1]);
            assert(name@.take(end as int).drop_last() =~= name@.take(end - 1));
        }
        end = end - 1;
    }
    proof {
        let t = name@.take(end as int);
        if end > 0 {
            assert(t.last() == name@[end - 1]);
        }
        assert(trim_end(t) == t);
    }
    if end < 6 {
        return false;
    }
    name[end - 6] == 77u8 && name[end - 5] == 72u8 && name[end - 4] == 122u8
        && name[end - 3] == 46u8 && name[end - 2] == 109u8 && name[end - 1] == 115u8
}

/// The counting pattern `\d{8}_\d{6}_\d{2}MHz\.ms` matches `s` at
/// position `i`: eight date digits, an underscore, six time digits, an
/// underscore, two band digits, then the suffix `MHz.ms`. The whole match
/// is 24 bytes long.
pub open spec fn match_at(s: Seq<u8>, i: int) -> bool {
    &&& 0 <= i
    &&& i + 24 <= s.len()
    &&& forall|k: int| i <= k < i + 8 ==> is_digit(#[trigger] s[k])
    &&& s[i + 8] == 95u8  // '_'
    &&& forall|k: int| i + 9 <= k < i + 15 ==> is_digit(#[trigger] s[k])
    &&& s[i + 15] == 95u8  // '_'
    &&& is_digit(s[i + 16])
    &&& is_digit(s[i + 17])
    &&& s[i + 18] == 77u8  // 'M'
    &&& s[i + 19] == 72u8  // 'H'
    &&& s[i + 20] == 122u8  // 'z'
    &&& s[i + 21] == 46u8  // '.'
    &&& s[i + 22] == 109u8  // 'm'
    &&& s[i + 23] == 115u8  // 's'
}

/// The value of the `n` decimal digits of `s` starting at position `i`.
pub open spec fn digits_val(s: Seq<u8>, i: int, n: int) -> nat
    decreases n,
{
    if n <= 0 {
        0
    } else {
        digits_val(s, i, n - 1) * 10 + (s[i + n - 1] - 48) as nat
    }
}

/// The counting pattern matches somewhere in the name.
pub open spec fn has_pattern(s: Seq<u8>) -> bool {
    exists|i: int| match_at(s, i)
}

/// `i` is the leftmost position at which the counting pattern matches.
pub open spec fn first_match_at(s: Seq<u8>, i: int) -> bool {
    match_at(s, i) && forall|j: int| 0 <= j < i ==> !match_at(s, j)
}

/// The leftmost position at which the counting pattern matches.
pub open spec fn first_match_index(s: Seq<u8>) -> int {
    choose|i: int| first_match_at(s, i)
}

/// The date field (eight digits) of the leftmost match.
pub open spec fn pattern_date(s: Seq<u8>) -> nat {
    digits_val(s, first_match_index(s), 8)
}

/// The band field (two digits) of the leftmost match.
pub open spec fn pattern_band(s: Seq<u8>) -> nat {
    digits_val(s, first_match_index(s) + 16, 2)
}

/// The leftmost match position is unique, so `first_match_index` names it.
pub proof fn lemma_first_match_unique(s: Seq<u8>, i: int)
    requires
        first_match_at(s, i),
    ensures
        first_match_index(s) == i,
{
    assert(first_match_at(s, first_match_index(s)));
    let j = first_match_index(s);
    if i < j {
        assert(!match_at(s, i));
    }
    if j < i {
        assert(!match_at(s, j));
    }
}

/// The pattern matches `s` at position `i`: the run-time test for
/// [`match_at`].
#[verifier::loop_isolation(false)]
fn check_match_at(name: &[u8], i: usize) -> (r: bool)
    requires
        i + 24 <= name@.len(),
    ensures
        r == match_at(name@, i as int),
{
    let nlen = name.len();
    let mut k: usize = 0;
    while k < 8
        invariant
            k <= 8,
            i + 24 <= name@.len(),
            forall|m: int| i <= m < i + k ==> is_digit(#[trigger] name@[m]),
        decreases 8 - k,
    {
        let b = name[i + k];
        if !(48 <= b && b <= 57) {
            return false;
        }
        k = k + 1;
    }
    if name[i + 8] != 95u8 {
        return false;
    }
    let mut k: usize = 9;
    while k < 15
        invariant
            9 <= k <= 15,
            i + 24 <= name@.len(),
            forall|m: int| i + 9 <= m < i + k ==> is_digit(#[trigger] name@[m]),
        decreases 15 - k,
    {
        let b = name[i + k];
        if !(48 <= b && b <= 57) {
            return false;
        }
        k = k + 1;
    }
    if name[i + 15] != 95u8 {
        return false;
    }
    let b16 = name[i + 16];
    let b17 = name[i + 17];
    if !(48 <= b16 && b16 <= 57) || !(48 <= b17 && b17 <= 57) {
        return false;
    }
    name[i + 18] == 77u8 && name[i + 19] == 72u8 && name[i + 20] == 122u8
        && name[i + 21] == 46u8 && name[i + 22] == 109u8 && name[i + 23] == 115u8
}

/// The value of the `n` digits starting at `start`, read left to right.
#[verifier::loop_isolation(false)]
fn read_digits(name: &[u8], start: usize, n: usize) -> (v: u64)
    requires
        start + n <= name@.len(),
        n <= 8,
        forall|m: int| start <= m < start + n ==> is_digit(#[trigger] name@[m]),
    ensures
        v as nat == digits_val(name@, start as int, n as int),
        v < 100_000_000,
{
    let nlen = name.len();
    let mut v: u64 = 0;
    let mut k: usize = 0;
    while k < n
        invariant
            k <= n <= 8,
            start + n <= name@.len(),
            forall|m: int| start <= m < start + n ==> is_digit(#[trigger] name@[m]),
            v as nat == digits_val(name@, start as int, k as int),
            v < pow10(k as nat),
        decreases n - k,
    {
        proof {
            lemma_pow10_mono(k as nat, 7);
            lemma_pow10_vals();
        }
        let b = name[start + k];
        v = v * 10 + ((b - 48) as u64);
        k = k + 1;
    }
    proof {
        lemma_pow10_mono(n as nat, 8);
        lemma_pow10_vals();
    }
    v
}

proof fn lemma_pow10_vals()
    ensures
        pow10(7) == 10_000_000,
        pow10(8) == 100_000_000,
{
    assert(pow10(0) == 1);
    assert(pow10(1) == 10);
    assert(pow10(2) == 100);
    assert(pow10(3) == 1000);
    assert(pow10(4) == 10_000);
    assert(pow10(5) == 100_000);
    assert(pow10(6) == 1_000_000);
    assert(pow10(7) == 10_000_000);
    assert(pow10(8) == 100_000_000);
}

/// `10^n`.
pub open spec fn pow10(n: nat) -> nat
    decreases n,
{
    if n == 0 {
        1
    } else {
        10 * pow10((n - 1) as nat)
    }
}

proof fn lemma_pow10_mono(a: nat, b: nat)
    requires
        a <= b,
    ensures
        pow10(a) <= pow10(b),
    decreases b,
{
    if a < b {
        lemma_pow10_mono(a, (b - 1) as nat);
    }
}

/// Applies the counting pattern to a name. Returns the date and band
/// fields of the leftmost match, or `None` when the pattern matches
/// nowhere in the name.
#[verifier::loop_isolation(false)]
pub fn find_match(name: &[u8]) -> (r: Option<(u32, u8)>)
    ensures
        r is Some <==> has_pattern(name@),
        r matches Some(p) ==> {
            &&& p.0 as nat == pattern_date(name@)
            &&& p.1 as nat == pattern_band(name@)
            &&& p.0 < 100_000_000
            &&& p.1 < 100
        },
{
    let len = name.len();
    if len < 24 {
        proof {
            assert forall|j: int| !match_at(name@, j) by {}
        }
        return None;
    }
    let mut i: usize = 0;
    while i <= len - 24
        invariant
            len == name@.len(),
            24 <= len,
            i <= len,
            forall|j: int| 0 <= j < i ==> !match_at(name@, j),
        decreases len - i,
    {
        if check_match_at(name, i) {
            proof {
                lemma_first_match_unique(name@, i as int);
            }
            let date = read_digits(name, i, 8);
            let band = read_digits(name, i + 16, 2);
            proof {
                assert(digits_val(name@, i + 16, 2) < 100) by {
                    assert(digits_val(name@, i + 16, 0) == 0);
                    assert(digits_val(name@, i + 16, 1) < 10);
                }
            }
            return Some((date as u32, band as u8));
        }
        i = i + 1;
    }
    proof {
        assert forall|j: int| !match_at(name@, j) by {
            if 0 <= j < i {
                assert(!match_at(name@, j));
            }
        }
    }
    None
}

} // verus!
