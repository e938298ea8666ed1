//! Byte-level text primitives shared by the input formats: equality,
//! substring search, splitting on a separator, and integer parsing.

use vstd::prelude::*;

verus! {

/// The pattern `pat` occurs in `s` starting at position `i`.
pub open spec fn match_at(s: Seq<u8>, pat: Seq<u8>, i: int) -> bool {
    0 <= i && i + pat.len() <= s.len() && s.subrange(i, i + pat.len()) == pat
}

/// `b` is an ASCII decimal digit.
pub open spec fn is_digit(b: u8) -> bool {
    48 <= b <= 57
}

/// Every byte of `s` is a decimal digit.
pub open spec fn all_digits(s: Seq<u8>) -> bool {
    forall|i: int| 0 <= i < s.len() ==> is_digit(#[trigger] s[i])
}

/// The number that the digit string `s` denotes in base ten.
pub open spec fn digits_val(s: Seq<u8>) -> int
    decreases s.len(),
{
    if s.len() == 0 {
        0
    } else {
        digits_val(s.drop_last()) * 10 + (s.last() - 48)
    }
}

/// The integer a decimal token denotes: an optional sign followed by at
/// least one digit; anything else denotes nothing.
pub open spec fn int_str_val(s: Seq<u8>) -> Option<int> {
    if s.len() == 0 {
        None
    } else if s[0] == 43 || s[0] == 45 {
        let rest = s.skip(1);
        if rest.len() > 0 && all_digits(rest) {
            Some(if s[0] == 45 { -digits_val(rest) } else { digits_val(rest) })
        } else {
            None
        }
    } else {
        if all_digits(s) {
            Some(digits_val(s))
        } else {
            None
        }
    }
}

/// The `i64` a decimal token denotes: its integer value when that value is
/// representable, and nothing otherwise.
pub open spec fn i64_val(s: Seq<u8>) -> Option<int> {
    match int_str_val(s) {
        Some(v) => if i64::MIN <= v <= i64::MAX {
            Some(v)
        } else {
            None
        },
        None => None,
    }
}

/// The `u32` a decimal token denotes: no minus sign, and a value that
/// fits; anything else denotes nothing.
pub open spec fn u32_val(s: Seq<u8>) -> Option<int> {
    if s.len() > 0 && s[0] == 45 {
        None
    } else {
        match int_str_val(s) {
            Some(v) => if 0 <= v <= u32::MAX {
                Some(v)
            } else {
                None
            },
            None => None,
        }
    }
}

/// The `i32` a decimal token denotes: its integer value when that value
/// is representable, and nothing otherwise.
pub open spec fn i32_val(s: Seq<u8>) -> Option<int> {
    match int_str_val(s) {
        Some(v) => if i32::MIN <= v <= i32::MAX {
            Some(v)
        } else {
            None
        },
        None => None,
    }
}

/// `s` with its leading and trailing spaces removed.
pub open spec fn spec_trim(s: Seq<u8>) -> Seq<u8>
    decreases s.len(),
{
    if s.len() > 0 && s[0] == 32 {
        spec_trim(s.skip(1))
    } else if s.len() > 0 && s.last() == 32 {
        spec_trim(s.drop_last())
    } else {
        s
    }
}

/// The position of the first occurrence of `b` in `s`, if any.
pub open spec fn first_byte_pos(s: Seq<u8>, b: u8) -> Option<int>
    decreases s.len(),
{
    if s.len() == 0 {
        None
    } else if s[0] == b {
        Some(0)
    } else {
        match first_byte_pos(s.skip(1), b) {
            Some(i) => Some(i + 1),
            None => None,
        }
    }
}

/// The found position holds `b` and no earlier one does; `None` means no
/// position holds it.
pub proof fn lemma_first_byte_pos(s: Seq<u8>, b: u8)
    ensures
        first_byte_pos(s, b) matches Some(i) ==> 0 <= i < s.len() && s[i] == b && forall|j: int|
            0 <= j < i ==> s[j] != b,
        first_byte_pos(s, b) is None ==> forall|j: int| 0 <= j < s.len() ==> s[j] != b,
    decreases s.len(),
{
    if s.len() > 0 {
        lemma_first_byte_pos(s.skip(1), b);
        assert(forall|j: int| 1 <= j < s.len() ==> #[trigger] s[j] == s.skip(1)[j - 1]);
    }
}

/// The position of the first occurrence of `b` at or past `i`, found by
/// `first_byte_pos`.
pub proof fn lemma_first_byte_pos_at(s: Seq<u8>, b: u8, i: int)
    requires
        0 <= i < s.len(),
        s[i] == b,
        forall|j: int| 0 <= j < i ==> s[j] != b,
    ensures
        first_byte_pos(s, b) == Some(i),
    decreases i,
{
    if i > 0 {
        assert(s.skip(1)[i - 1] == s[i]);
        assert(forall|j: int| 0 <= j < i - 1 ==> s.skip(1)[j] == #[trigger] s[j + 1]);
        assert forall|j: int| 0 <= j < i - 1 implies s.skip(1)[j] != b by {
            assert(s.skip(1)[j] == s[j + 1]);
        }
        lemma_first_byte_pos_at(s.skip(1), b, i - 1);
    }
}

/// The position of the first occurrence of the pattern `pat` at or after
/// position `i` in `s`, if any.
pub open spec fn first_match_from(s: Seq<u8>, pat: Seq<u8>, i: int) -> Option<int>
    recommends
        0 <= i,
    decreases s.len() + 1 - i
        when 0 <= i <= s.len() + 1
{
    if i + pat.len() > s.len() {
        None
    } else if match_at(s, pat, i) {
        Some(i)
    } else {
        first_match_from(s, pat, i + 1)
    }
}

/// The position of the first occurrence of `pat` in `s`, if any.
pub open spec fn first_match_pos(s: Seq<u8>, pat: Seq<u8>) -> Option<int> {
    first_match_from(s, pat, 0)
}

/// A position that matches, with none matching before it, is the first
/// match; with no matching position there is no first match.
pub proof fn lemma_first_match_pos(s: Seq<u8>, pat: Seq<u8>, i: int)
    requires
        match_at(s, pat, i),
        forall|j: int| 0 <= j < i ==> !match_at(s, pat, j),
    ensures
        first_match_pos(s, pat) == Some(i),
{
    lemma_first_match_from(s, pat, 0, i);
}

/// With no matching position at all there is no first match.
pub proof fn lemma_first_match_pos_none(s: Seq<u8>, pat: Seq<u8>)
    requires
        forall|j: int| !match_at(s, pat, j),
    ensures
        first_match_pos(s, pat) is None,
{
    lemma_first_match_from_none(s, pat, 0);
}

proof fn lemma_first_match_from(s: Seq<u8>, pat: Seq<u8>, k: int, i: int)
    requires
        0 <= k <= i,
        match_at(s, pat, i),
        forall|j: int| k <= j < i ==> !match_at(s, pat, j),
    ensures
        first_match_from(s, pat, k) == Some(i),
    decreases i - k,
{
    if k < i {
        lemma_first_match_from(s, pat, k + 1, i);
    }
}

proof fn lemma_first_match_from_none(s: Seq<u8>, pat: Seq<u8>, k: int)
    requires
        0 <= k <= s.len() + 1,
        forall|j: int| k <= j ==> !match_at(s, pat, j),
    ensures
        first_match_from(s, pat, k) is None,
    decreases s.len() + 1 - k,
{
    if k + pat.len() <= s.len() {
        lemma_first_match_from_none(s, pat, k + 1);
    }
}

/// The position of the last occurrence of `pat` at or before position `i`
/// in `s`, if any.
pub open spec fn last_match_before(s: Seq<u8>, pat: Seq<u8>, i: int) -> Option<int>
    decreases i + 1
        when -1 <= i
{
    if i < 0 {
        None
    } else if match_at(s, pat, i) {
        Some(i)
    } else {
        last_match_before(s, pat, i - 1)
    }
}

/// The position of the last occurrence of `pat` in `s`, if any.
pub open spec fn last_match_pos(s: Seq<u8>, pat: Seq<u8>) -> Option<int> {
    if pat.len() > s.len() {
        None
    } else {
        last_match_before(s, pat, s.len() - pat.len())
    }
}

/// A position that matches, with none matching after it, is the last
/// match.
pub proof fn lemma_last_match_pos(s: Seq<u8>, pat: Seq<u8>, i: int)
    requires
        match_at(s, pat, i),
        forall|j: int| j > i ==> !match_at(s, pat, j),
    ensures
        last_match_pos(s, pat) == Some(i),
{
    lemma_last_match_before(s, pat, s.len() - pat.len(), i);
}

/// With no matching position at all there is no last match.
pub proof fn lemma_last_match_pos_none(s: Seq<u8>, pat: Seq<u8>)
    requires
        forall|j: int| !match_at(s, pat, j),
    ensures
        last_match_pos(s, pat) is None,
{
    if pat.len() <= s.len() {
        lemma_last_match_before_none(s, pat, s.len() - pat.len());
    }
}

proof fn lemma_last_match_before(s: Seq<u8>, pat: Seq<u8>, k: int, i: int)
    requires
        i <= k,
        match_at(s, pat, i),
        forall|j: int| i < j <= k ==> !match_at(s, pat, j),
    ensures
        last_match_before(s, pat, k) == Some(i),
    decreases k - i,
{
    if i < k {
        lemma_last_match_before(s, pat, k - 1, i);
    }
}

proof fn lemma_last_match_before_none(s: Seq<u8>, pat: Seq<u8>, k: int)
    requires
        -1 <= k,
        forall|j: int| j <= k ==> !match_at(s, pat, j),
    ensures
        last_match_before(s, pat, k) is None,
    decreases k + 1,
{
    if k >= 0 {
        lemma_last_match_before_none(s, pat, k - 1);
    }
}

/// The first occurrence of `b` in `s`, if any.
pub fn find_byte(s: &[u8], b: u8) -> (r: Option<usize>)
    ensures
        r == (match first_byte_pos(s@, b) {
            Some(i) => Some(i as usize),
            None => None::<usize>,
        }),
{
    let mut i: usize = 0;
    while i < s.len()
        invariant
            i <= s.len(),
            forall|j: int| 0 <= j < i ==> s@[j] != b,
        decreases s.len() - i,
    {
        if s[i] == b {
            proof {
                lemma_first_byte_pos_at(s@, b, i as int);
            }
            return Some(i);
        }
        i += 1;
    }
    proof {
        lemma_first_byte_pos(s@, b);
        if first_byte_pos(s@, b) is Some {
            let j = first_byte_pos(s@, b)->Some_0;
            assert(s@[j] != b);
        }
    }
    None
}

/// The bytes of `s` from position `a` up to, not including, position `b`.
pub fn sub_bytes(s: &[u8], a: usize, b: usize) -> (r: Vec<u8>)
    requires
        a <= b <= s@.len(),
    ensures
        r@ == s@.subrange(a as int, b as int),
{
    let mut out: Vec<u8> = Vec::new();
    let mut i: usize = a;
    while i < b
        invariant
            a <= i <= b <= s@.len(),
            out@ == s@.subrange(a as int, i as int),
        decreases b - i,
    {
        out.push(s[i]);
        proof {
            assert(out@ =~= s@.subrange(a as int, i as int + 1));
        }
        i += 1;
    }
    out
}

/// The fields of `s` between occurrences of `sep`, scanned left to right;
/// adjacent separators yield empty fields, and there is always one more
/// field than there are separators.
pub open spec fn split_scan(s: Seq<u8>, sep: u8, done: Seq<Seq<u8>>, cur: Seq<u8>) -> Seq<Seq<u8>>
    decreases s.len(),
{
    if s.len() == 0 {
        done.push(cur)
    } else if s[0] == sep {
        split_scan(s.skip(1), sep, done.push(cur), Seq::empty())
    } else {
        split_scan(s.skip(1), sep, done, cur.push(s[0]))
    }
}

/// The fields of `s` separated by `sep`.
pub open spec fn spec_split(s: Seq<u8>, sep: u8) -> Seq<Seq<u8>> {
    split_scan(s, sep, Seq::empty(), Seq::empty())
}

/// A digit string denotes a number that is not negative.
pub proof fn lemma_digits_val_nonneg(s: Seq<u8>)
    requires
        all_digits(s),
    ensures
        digits_val(s) >= 0,
    decreases s.len(),
{
    if s.len() > 0 {
        assert(forall|i: int|
            0 <= i < s.drop_last().len() ==> s.drop_last()[i] == #[trigger] s[i]);
        lemma_digits_val_nonneg(s.drop_last());
    }
}

/// Dropping trailing digits never increases the denoted number.
pub proof fn lemma_digits_val_prefix_bound(s: Seq<u8>, k: int)
    requires
        all_digits(s),
        0 <= k <= s.len(),
    ensures
        digits_val(s.take(k)) <= digits_val(s),
    decreases s.len() - k,
{
    if k == s.len() {
        assert(s.take(k) =~= s);
    } else {
        assert(s.take(k + 1).drop_last() =~= s.take(k));
        assert(s.take(k + 1).last() == s[k]);
        assert(forall|i: int| 0 <= i < k ==> s.take(k)[i] == #[trigger] s[i]);
        assert(all_digits(s.take(k)));
        lemma_digits_val_nonneg(s.take(k));
        lemma_digits_val_prefix_bound(s, k + 1);
    }
}

/// Splits `s` into the fields separated by `sep`; empty fields are kept.
pub fn split_bytes(s: &[u8], sep: u8) -> (r: Vec<Vec<u8>>)
    ensures
        r.deep_view() == spec_split(s@, sep),
{
    let mut out: Vec<Vec<u8>> = Vec::new();
    let mut cur: Vec<u8> = Vec::new();
    proof {
        assert(s@.skip(0) =~= s@);
        assert(out.deep_view() =~= Seq::<Seq<u8>>::empty());
        assert(cur@ =~= Seq::<u8>::empty());
    }
    let mut i: usize = 0;
    while i < s.len()
        invariant
            i <= s.len(),
            split_scan(s@.skip(i as int), sep, out.deep_view(), cur@) == spec_split(s@, sep),
        decreases s.len() - i,
    {
        let ghost old_out = out.deep_view();
        let ghost old_cur = cur@;
        let b: u8 = s[i];
        if b == sep {
            out.push(cur);
            cur = Vec::new();
            proof {
                assert(out.deep_view() =~~= old_out.push(old_cur));
                assert(cur@ =~= Seq::<u8>::empty());
            }
        } else {
            cur.push(b);
        }
        proof {
            assert(s@.skip(i as int)[0] == s@[i as int]);
            assert(s@.skip(i as int).skip(1) =~= s@.skip(i as int + 1));
        }
        i += 1;
    }
    proof {
        assert(s@.skip(s@.len() as int).len() == 0);
    }
    let ghost final_out = out.deep_view();
    let ghost final_cur = cur@;
    out.push(cur);
    proof {
        assert(out.deep_view() =~~= final_out.push(final_cur));
    }
    out
}

/// Parses a decimal integer token as `i64`: an optional sign and at least
/// one digit, denoting a value that fits; anything else gives `None`.
#[verifier::loop_isolation(false)]
pub fn parse_i64(s: &[u8]) -> (r: Option<i64>)
    ensures
        r == (match int_str_val(s@) {
            Some(v) => if i64::MIN <= v <= i64::MAX {
                Some(v as i64)
            } else {
                None::<i64>
            },
            None => None::<i64>,
        }),
{
    if s.len() == 0 {
        return None;
    }
    let neg: bool = s[0] == 45;
    let has_sign: bool = s[0] == 43 || s[0] == 45;
    let off: usize = if has_sign {
        1
    } else {
        0
    };
    if s.len() == off {
        return None;
    }
    let ghost d = s@.skip(off as int);
    proof {
        if !has_sign {
            assert(d =~= s@);
        }
    }
    let mut acc: u64 = 0;
    let mut j: usize = off;
    proof {
        assert(d.take(0).len() == 0);
    }
    while j < s.len()
        invariant
            off <= j <= s.len(),
            off <= 1,
            s@.len() > off,
            d == s@.skip(off as int),
            all_digits(d.take(j - off)),
            acc == digits_val(d.take(j - off)),
        decreases s.len() - j,
    {
        let b: u8 = s[j];
        proof {
            assert(d[j - off] == s@[j as int]);
        }
        if b < 48 || b > 57 {
            proof {
                assert(!is_digit(d[j - off]));
                assert(!all_digits(d));
                assert(int_str_val(s@) is None);
            }
            return None;
        }
        let dig: u64 = (b - 48) as u64;
        proof {
            assert(d.take(j - off + 1).drop_last() =~= d.take(j - off));
            assert(d.take(j - off + 1).last() == d[j - off]);
            assert(all_digits(d.take(j - off + 1)));
        }
        if acc > (u64::MAX - dig) / 10 {
            proof {
                assert(10 * ((u64::MAX - dig) / 10) + 9 >= u64::MAX - dig);
                assert(acc * 10 + dig > u64::MAX);
                assert(digits_val(d.take(j - off + 1)) > u64::MAX);
                if all_digits(d) {
                    lemma_digits_val_prefix_bound(d, j - off + 1);
                    assert(digits_val(d) > u64::MAX);
                } else {
                    assert(int_str_val(s@) is None);
                }
            }
            return None;
        }
        acc = acc * 10 + dig;
        j += 1;
    }
    proof {
        assert(d.take(s@.len() - off) =~= d);
        assert(all_digits(d) && acc == digits_val(d));
    }
    if neg {
        if acc > 9223372036854775808u64 {
            return None;
        }
        if acc == 9223372036854775808u64 {
            return Some(i64::MIN);
        }
        Some(-(acc as i64))
    } else {
        if acc > 9223372036854775807u64 {
            return None;
        }
        Some(acc as i64)
    }
}

/// Parses a decimal token as `u32`: no sign or a plus sign, at least one
/// digit, denoting a value that fits; anything else gives `None`.
pub fn parse_u32(s: &[u8]) -> (r: Option<u32>)
    ensures
        r == (match u32_val(s@) {
            Some(v) => Some(v as u32),
            None => None::<u32>,
        }),
{
    if s.len() > 0 && s[0] == 45 {
        return None;
    }
    proof {
        if s@.len() > 0 && s@[0] == 43 {
            if s@.skip(1).len() > 0 && all_digits(s@.skip(1)) {
                lemma_digits_val_nonneg(s@.skip(1));
            }
        } else if all_digits(s@) {
            lemma_digits_val_nonneg(s@);
        }
    }
    match parse_i64(s) {
        Some(v) => if v <= 0xffff_ffffi64 {
            Some(v as u32)
        } else {
            None
        },
        None => None,
    }
}

/// Parses a decimal token as `i32`.
pub fn parse_i32(s: &[u8]) -> (r: Option<i32>)
    ensures
        r == (match i32_val(s@) {
            Some(v) => Some(v as i32),
            None => None::<i32>,
        }),
{
    match parse_i64(s) {
        Some(v) => if -0x8000_0000i64 <= v && v <= 0x7fff_ffffi64 {
            Some(v as i32)
        } else {
            None
        },
        None => None,
    }
}

/// Removes the spaces at both ends of `s`.
pub fn trim_spaces(s: &[u8]) -> (r: Vec<u8>)
    ensures
        r@ == spec_trim(s@),
{
    let mut lo: usize = 0;
    let mut hi: usize = s.len();
    proof {
        assert(s@.subrange(0, s@.len() as int) =~= s@);
    }
    while lo < hi && s[lo] == 32
        invariant
            lo <= hi <= s@.len(),
            spec_trim(s@) == spec_trim(s@.subrange(lo as int, hi as int)),
        decreases hi - lo,
    {
        proof {
            assert(s@.subrange(lo as int, hi as int).skip(1) =~= s@.subrange(
                lo as int + 1,
                hi as int,
            ));
        }
        lo += 1;
    }
    while lo < hi && s[hi - 1] == 32
        invariant
            lo <= hi <= s@.len(),
            spec_trim(s@) == spec_trim(s@.subrange(lo as int, hi as int)),
            lo < hi ==> s@[lo as int] != 32,
        decreases hi,
    {
        proof {
            assert(s@.subrange(lo as int, hi as int).drop_last() =~= s@.subrange(
                lo as int,
                hi as int - 1,
            ));
        }
        hi -= 1;
    }
    let out: Vec<u8> = sub_bytes(s, lo, hi);
    proof {
        if lo < hi {
            assert(s@.subrange(lo as int, hi as int)[0] != 32);
            assert(s@.subrange(lo as int, hi as int).last() != 32);
        }
        assert(spec_trim(s@.subrange(lo as int, hi as int)) == s@.subrange(
            lo as int,
            hi as int,
        ));
    }
    out
}

/// Whether two byte strings hold the same bytes.
pub fn bytes_eq(a: &[u8], b: &[u8]) -> (r: bool)
    ensures
        r == (a@ == b@),
{
    if a.len() != b.len() {
        proof {
            assert(a@.len() != b@.len());
        }
        return false;
    }
    let mut i: usize = 0;
    while i < a.len()
        invariant
            i <= a.len(),
            a.len() == b.len(),
            forall|k: int| 0 <= k < i ==> a@[k] == b@[k],
        decreases a.len() - i,
    {
        if a[i] != b[i] {
            return false;
        }
        i += 1;
    }
    proof {
        assert(a@ =~= b@);
    }
    true
}

/// Whether `pat` occurs in `s` at position `i`.
fn is_match(s: &[u8], pat: &[u8], i: usize) -> (r: bool)
    requires
        i + pat@.len() <= s@.len(),
    ensures
        r == match_at(s@, pat@, i as int),
{
    let total: usize = s.len();
    let mut k: usize = 0;
    while k < pat.len()
        invariant
            k <= pat.len(),
            i + pat@.len() <= s@.len(),
            s@.len() == total,
            forall|m: int| 0 <= m < k ==> s@[i + m] == pat@[m],
        decreases pat.len() - k,
    {
        if s[i + k] != pat[k] {
            proof {
                assert(s@.subrange(i as int, i + pat@.len())[k as int] != pat@[k as int]);
            }
            return false;
        }
        k += 1;
    }
    proof {
        assert(s@.subrange(i as int, i + pat@.len()) =~= pat@);
    }
    true
}

/// The position of the first occurrence of `pat` in `s`, if any.
pub fn find_sub(s: &[u8], pat: &[u8]) -> (r: Option<usize>)
    ensures
        r matches Some(i) ==> match_at(s@, pat@, i as int) && forall|j: int|
            0 <= j < i ==> !match_at(s@, pat@, j),
        r is None ==> forall|j: int| !match_at(s@, pat@, j),
{
    if pat.len() > s.len() {
        return None;
    }
    let last: usize = s.len() - pat.len();
    let mut i: usize = 0;
    loop
        invariant_except_break
            i <= last,
            last == s@.len() - pat@.len(),
            pat@.len() <= s@.len(),
            forall|j: int| 0 <= j < i ==> !match_at(s@, pat@, j),
        ensures
            forall|j: int| !match_at(s@, pat@, j),
        decreases last - i,
    {
        if is_match(s, pat, i) {
            return Some(i);
        }
        if i == last {
            break;
        }
        i += 1;
    }
    None
}

/// The position of the last occurrence of `pat` in `s`, if any.
pub fn rfind_sub(s: &[u8], pat: &[u8]) -> (r: Option<usize>)
    ensures
        r matches Some(i) ==> match_at(s@, pat@, i as int) && forall|j: int|
            i < j ==> !match_at(s@, pat@, j),
        r is None ==> forall|j: int| !match_at(s@, pat@, j),
{
    if pat.len() > s.len() {
        return None;
    }
    let last: usize = s.len() - pat.len();
    let mut i: usize = last;
    loop
        invariant_except_break
            i <= last,
            last == s@.len() - pat@.len(),
            pat@.len() <= s@.len(),
            forall|j: int| i < j ==> !match_at(s@, pat@, j),
        ensures
            forall|j: int| !match_at(s@, pat@, j),
        decreases i,
    {
        if is_match(s, pat, i) {
            return Some(i);
        }
        if i == 0 {
            break;
        }
        i -= 1;
    }
    None
}

} // verus!
