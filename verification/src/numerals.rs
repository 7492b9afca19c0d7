//! Parsing and validation of the numeric column texts.
//!
//! The integer columns are parsed here outright: `parse_i32` accepts an
//! optional sign followed by decimal digits, exactly the strings whose
//! value fits the column type, and returns that value.  The real-valued
//! columns are only validated: `check_real` decides membership in the
//! decimal-literal grammar (optional sign, digits with at most one point,
//! optional exponent), and the surrounding binary converts an accepted
//! text to the machine's floating-point type, a conversion that cannot
//! fail on this grammar.

use vstd::prelude::*;
use vstd::string::StrSliceExecFns;

verus! {

/// A decimal digit.
pub open spec fn is_digit_char(c: char) -> bool {
    '0' as u32 <= c as u32 <= '9' as u32
}

/// The value of one digit.
pub open spec fn digit_val(c: char) -> int {
    c as u32 - '0' as u32
}

/// Every character of `s` is a decimal digit (an empty `s` qualifies).
pub open spec fn all_digits(s: Seq<char>) -> bool {
    forall|i: int| 0 <= i < s.len() ==> is_digit_char(#[trigger] s[i])
}

/// A non-empty run of decimal digits.
pub open spec fn is_digit_seq(s: Seq<char>) -> bool {
    s.len() > 0 && all_digits(s)
}

/// The value of a digit run read in base ten.
pub open spec fn digits_val(s: Seq<char>) -> int
    decreases s.len(),
{
    if s.len() == 0 {
        0
    } else {
        digits_val(s.drop_last()) * 10 + digit_val(s.last())
    }
}

/// `s` without a single leading sign character, if it carries one.
pub open spec fn strip_sign(s: Seq<char>) -> Seq<char> {
    if s.len() > 0 && (s[0] == '+' || s[0] == '-') {
        s.drop_first()
    } else {
        s
    }
}

/// The sign a leading character denotes (`-1` only for a leading minus).
pub open spec fn sign_of(s: Seq<char>) -> int {
    if s.len() > 0 && s[0] == '-' {
        -1
    } else {
        1
    }
}

/// `s` is an optionally signed non-empty digit run.
pub open spec fn is_int_literal(s: Seq<char>) -> bool {
    is_digit_seq(strip_sign(s))
}

/// The integer an accepted literal denotes.
pub open spec fn int_literal_val(s: Seq<char>) -> int {
    sign_of(s) * digits_val(strip_sign(s))
}

/// The strings the 32-bit integer columns accept: the literal's value
/// must fit the column type.
pub open spec fn is_i32_literal(s: Seq<char>) -> bool {
    is_int_literal(s) && i32::MIN <= int_literal_val(s) <= i32::MAX
}

proof fn lemma_digits_val_bounds(s: Seq<char>)
    requires
        all_digits(s),
    ensures
        digits_val(s) >= 0,
        s.len() > 0 && s[0] as u32 > '0' as u32 ==> digits_val(s) >= 1,
    decreases s.len(),
{
    if s.len() > 0 {
        assert(is_digit_char(s.last()));
        assert(all_digits(s.drop_last())) by {
            assert(forall|i: int|
                0 <= i < s.len() - 1 ==> is_digit_char(#[trigger] s.drop_last()[i]));
        }
        lemma_digits_val_bounds(s.drop_last());
        if s.len() > 1 {
            assert(s.drop_last()[0] == s[0]);
        }
    }
}

/// An exponent marker of a real literal.
pub open spec fn is_exp_char(c: char) -> bool {
    c == 'e' || c == 'E'
}

/// The split of a mantissa at `k`: either no decimal point at all
/// (`k == s.len()`) and `s` a digit run, or a single point at `k` with
/// digit runs on both sides, at least one of them non-empty.
pub open spec fn mantissa_split_ok(s: Seq<char>, k: int) -> bool {
    if k == s.len() {
        is_digit_seq(s)
    } else {
        &&& 0 <= k < s.len()
        &&& s[k] == '.'
        &&& all_digits(s.subrange(0, k))
        &&& all_digits(s.subrange(k + 1, s.len() as int))
        &&& (k > 0 || k + 1 < s.len())
    }
}

/// Digits with at most one decimal point and at least one digit.
pub open spec fn is_mantissa(s: Seq<char>) -> bool {
    exists|k: int| mantissa_split_ok(s, k)
}

/// An optionally signed non-empty digit run, as an exponent part.
pub open spec fn is_exponent(s: Seq<char>) -> bool {
    is_digit_seq(strip_sign(s))
}

/// A mantissa, optionally followed by an exponent marker and an exponent.
pub open spec fn real_body_ok(s: Seq<char>) -> bool {
    is_mantissa(s) || exists|j: int|
        #![auto]
        0 <= j < s.len() && is_exp_char(s[j]) && is_mantissa(s.subrange(0, j)) && is_exponent(
            s.subrange(j + 1, s.len() as int),
        )
}

/// The strings the real-valued columns accept: an optionally signed
/// mantissa with an optional exponent.  This is the finite-number part
/// of the store's own literal grammar, so an accepted text always
/// converts to the machine's floating-point type.  Texts naming
/// infinities or not-a-number are no numerals of a real-valued column
/// and are rejected.
pub open spec fn is_real_literal(s: Seq<char>) -> bool {
    real_body_ok(strip_sign(s))
}

/// Every character of a mantissa is a digit or the decimal point.
proof fn lemma_mantissa_chars(s: Seq<char>, p: int)
    requires
        is_mantissa(s),
        0 <= p < s.len(),
    ensures
        is_digit_char(s[p]) || s[p] == '.',
{
    let k = choose|k: int| mantissa_split_ok(s, k);
    if k != s.len() && p != k {
        if p < k {
            assert(s.subrange(0, k)[p] == s[p]);
        } else {
            assert(s.subrange(k + 1, s.len() as int)[p - k - 1] == s[p]);
        }
    }
}

/// A decimal point of a mantissa can only stand at its split.
proof fn lemma_dot_is_split(s: Seq<char>, p: int)
    requires
        is_mantissa(s),
        0 <= p < s.len(),
        s[p] == '.',
    ensures
        mantissa_split_ok(s, p),
{
    let k = choose|k: int| mantissa_split_ok(s, k);
    if k == s.len() {
        assert(is_digit_char(s[p]));
    } else if k != p {
        if p < k {
            assert(s.subrange(0, k)[p] == s[p]);
            assert(is_digit_char(s[p]));
        } else {
            assert(s.subrange(k + 1, s.len() as int)[p - k - 1] == s[p]);
            assert(is_digit_char(s[p]));
        }
    }
}

/// An exponent part never contains an exponent marker.
proof fn lemma_exp_char_not_exponent(s: Seq<char>, p: int)
    requires
        0 <= p < s.len(),
        is_exp_char(s[p]),
    ensures
        !is_exponent(s),
{
    if is_exponent(s) {
        let t = strip_sign(s);
        if s.len() > 0 && (s[0] == '+' || s[0] == '-') {
            assert(p >= 1);
            assert(t[p - 1] == s[p]);
            assert(is_digit_char(s[p]));
        } else {
            assert(is_digit_char(s[p]));
        }
    }
}

/// The characters of `s`, in order, as a vector.
pub fn chars_of(s: &str) -> (v: Vec<char>)
    ensures
        v@ == s@,
{
    let n: usize = s.unicode_len();
    let mut v: Vec<char> = Vec::new();
    let mut i: usize = 0;
    while i < n
        invariant
            n == s@.len(),
            i <= n,
            v@ == s@.subrange(0, i as int),
        decreases n - i,
    {
        v.push(s.get_char(i));
        i = i + 1;
        assert(v@ =~= s@.subrange(0, i as int));
    }
    assert(v@ =~= s@);
    v
}

fn is_digit(c: char) -> (b: bool)
    ensures
        b == is_digit_char(c),
{
    let u: u32 = c as u32;
    48 <= u && u <= 57
}

/// Parse a 32-bit integer column text.
///
/// Returns the denoted value exactly when the text is an optionally
/// signed digit run whose value fits the type; every other text is
/// rejected.
pub fn parse_i32(s: &str) -> (r: Option<i32>)
    ensures
        r matches Some(v) ==> is_i32_literal(s@) && v as int == int_literal_val(s@),
        r is None ==> !is_i32_literal(s@),
{
    let v: Vec<char> = chars_of(s);
    let n: usize = v.len();
    let negative: bool;
    let start: usize;
    if n > 0 && (v[0] == '+' || v[0] == '-') {
        negative = v[0] == '-';
        start = 1;
        assert(strip_sign(s@) =~= s@.subrange(1, n as int));
    } else {
        negative = false;
        start = 0;
        assert(strip_sign(s@) =~= s@.subrange(0, n as int));
        assert(s@.subrange(0, n as int) =~= s@);
    }
    let ghost mag_seq = strip_sign(s@);
    if start >= n {
        assert(mag_seq.len() == 0);
        return None;
    }
    let mut i: usize = start;
    let mut mag: u64 = 0;
    let mut too_big = false;
    while i < n
        invariant
            start <= i <= n,
            n == v.len(),
            v@ == s@,
            start == 0 || start == 1,
            start <= n,
            mag_seq == strip_sign(s@),
            mag_seq =~= s@.subrange(start as int, n as int),
            all_digits(s@.subrange(start as int, i as int)),
            !too_big ==> mag == digits_val(s@.subrange(start as int, i as int)),
            !too_big ==> mag <= 0xFFFF_FFFF,
            too_big ==> digits_val(s@.subrange(start as int, i as int)) > 0xFFFF_FFFF,
        decreases n - i,
    {
        let c = v[i];
        if !is_digit(c) {
            assert(mag_seq[i - start] == s@[i as int]);
            assert(!all_digits(mag_seq));
            return None;
        }
        let d: u64 = (c as u32 - 48) as u64;
        proof {
            let pre = s@.subrange(start as int, i as int);
            let ext = s@.subrange(start as int, i as int + 1);
            assert(ext.drop_last() =~= pre);
            assert(ext.last() == s@[i as int]);
            assert(digits_val(ext) == digits_val(pre) * 10 + digit_val(s@[i as int]));
        }
        if too_big || mag > 0xFFFF_FFFF / 10 + 1 {
            too_big = true;
        } else {
            let next: u64 = mag * 10 + d;
            if next > 0xFFFF_FFFF {
                too_big = true;
            } else {
                mag = next;
            }
        }
        proof {
            let pre = s@.subrange(start as int, i as int);
            let ext = s@.subrange(start as int, i as int + 1);
            lemma_digits_val_bounds(pre);
            if too_big {
                assert(digits_val(ext) > 0xFFFF_FFFF);
            }
        }
        i = i + 1;
    }
    assert(s@.subrange(start as int, i as int) =~= mag_seq);
    if too_big {
        proof {
            lemma_digits_val_bounds(mag_seq);
            assert(digits_val(mag_seq) > 0xFFFF_FFFF);
            assert(int_literal_val(s@) > i32::MAX || int_literal_val(s@) < i32::MIN);
        }
        return None;
    }
    assert(mag == digits_val(mag_seq));
    if negative {
        assert(s@[0] == '-');
        if mag > 0x8000_0000 {
            return None;
        }
        let r: i32 = (0i64 - mag as i64) as i32;
        assert(r as int == int_literal_val(s@));
        Some(r)
    } else {
        assert(sign_of(s@) == 1);
        if mag > 0x7FFF_FFFF {
            return None;
        }
        Some(mag as i32)
    }
}

/// Decide whether `v[a..b]` is a mantissa.
fn mantissa_check(v: &Vec<char>, a: usize, b: usize) -> (r: bool)
    requires
        a <= b <= v@.len(),
    ensures
        r == is_mantissa(v@.subrange(a as int, b as int)),
{
    let ghost s = v@.subrange(a as int, b as int);
    let mut dot: Option<usize> = None;
    let mut i: usize = a;
    while i < b
        invariant
            a <= i <= b <= v@.len(),
            s == v@.subrange(a as int, b as int),
            (match dot {
                None => forall|p: int| 0 <= p < i - a ==> is_digit_char(#[trigger] s[p]),
                Some(kk) => a <= kk < i && s[kk - a] == '.' && forall|p: int|
                    0 <= p < i - a && p != kk - a ==> is_digit_char(#[trigger] s[p]),
            }),
        decreases b - i,
    {
        let c = v[i];
        if is_digit(c) {
            // a digit extends whichever run we are in
        } else if c == '.' {
            if dot.is_some() {
                proof {
                    let kk = dot->0;
                    if is_mantissa(s) {
                        lemma_dot_is_split(s, kk - a);
                        assert(s.subrange(kk - a + 1, s.len() as int)[i - a - (kk - a) - 1]
                            == s[i - a]);
                    }
                }
                return false;
            }
            dot = Some(i);
        } else {
            proof {
                if is_mantissa(s) {
                    lemma_mantissa_chars(s, i - a);
                }
            }
            return false;
        }
        i = i + 1;
    }
    match dot {
        None => {
            if b > a {
                proof {
                    assert(mantissa_split_ok(s, s.len() as int));
                }
                true
            } else {
                proof {
                    if is_mantissa(s) {
                        let k = choose|k: int| mantissa_split_ok(s, k);
                    }
                }
                false
            }
        },
        Some(kk) => {
            if kk > a || kk + 1 < b {
                proof {
                    assert(all_digits(s.subrange(0, kk - a))) by {
                        assert(forall|p: int|
                            0 <= p < kk - a ==> #[trigger] s.subrange(0, kk - a)[p] == s[p]);
                    }
                    assert(all_digits(s.subrange(kk - a + 1, s.len() as int))) by {
                        assert(forall|p: int|
                            0 <= p < s.len() - (kk - a) - 1 ==> #[trigger] s.subrange(
                                kk - a + 1,
                                s.len() as int,
                            )[p] == s[p + kk - a + 1]);
                    }
                    assert(mantissa_split_ok(s, kk - a));
                }
                true
            } else {
                proof {
                    if is_mantissa(s) {
                        lemma_dot_is_split(s, kk - a);
                    }
                }
                false
            }
        },
    }
}

/// Decide whether `v[a..b]` is an exponent part.
fn exponent_check(v: &Vec<char>, a: usize, b: usize) -> (r: bool)
    requires
        a <= b <= v@.len(),
    ensures
        r == is_exponent(v@.subrange(a as int, b as int)),
{
    let ghost s = v@.subrange(a as int, b as int);
    let start: usize = if a < b && (v[a] == '+' || v[a] == '-') {
        a + 1
    } else {
        a
    };
    proof {
        assert(strip_sign(s) =~= v@.subrange(start as int, b as int));
    }
    if start >= b {
        return false;
    }
    let mut i: usize = start;
    while i < b
        invariant
            a <= start <= i <= b <= v@.len(),
            s == v@.subrange(a as int, b as int),
            strip_sign(s) =~= v@.subrange(start as int, b as int),
            forall|p: int|
                0 <= p < i - start ==> is_digit_char(#[trigger] strip_sign(s)[p]),
        decreases b - i,
    {
        if !is_digit(v[i]) {
            assert(strip_sign(s)[i - start] == v@[i as int]);
            return false;
        }
        i = i + 1;
    }
    true
}

/// Decide whether the column text is a real literal of the store's
/// grammar.
pub fn check_real(s: &str) -> (r: bool)
    ensures
        r == is_real_literal(s@),
{
    let v: Vec<char> = chars_of(s);
    let n: usize = v.len();
    let start: usize = if n > 0 && (v[0] == '+' || v[0] == '-') {
        1
    } else {
        0
    };
    let ghost body = strip_sign(s@);
    proof {
        assert(body =~= s@.subrange(start as int, n as int));
    }
    let mut j: usize = start;
    while j < n && !(v[j] == 'e' || v[j] == 'E')
        invariant
            start <= j <= n,
            n == v@.len(),
            v@ == s@,
            forall|p: int| start <= p < j ==> !is_exp_char(#[trigger] v@[p]),
        decreases n - j,
    {
        j = j + 1;
    }
    if j == n {
        let r = mantissa_check(&v, start, n);
        proof {
            assert(body =~= v@.subrange(start as int, n as int));
            if !r {
                assert(!real_body_ok(body)) by {
                    if real_body_ok(body) {
                        let jj = choose|jj: int|
                            #![auto]
                            0 <= jj < body.len() && is_exp_char(body[jj]) && is_mantissa(
                                body.subrange(0, jj),
                            ) && is_exponent(body.subrange(jj + 1, body.len() as int));
                        assert(body[jj] == v@[jj + start]);
                    }
                }
            }
        }
        r
    } else {
        let m = mantissa_check(&v, start, j);
        let e = exponent_check(&v, j + 1, n);
        let ghost jr = j - start;
        proof {
            assert(is_exp_char(body[jr])) by {
                assert(body[jr] == v@[j as int]);
            }
            assert(body.subrange(0, jr) =~= v@.subrange(start as int, j as int));
            assert(body.subrange(jr + 1, body.len() as int) =~= v@.subrange(
                j as int + 1,
                n as int,
            ));
            assert(!is_mantissa(body)) by {
                if is_mantissa(body) {
                    lemma_mantissa_chars(body, jr);
                }
            }
            if m && e {
                assert(real_body_ok(body));
            } else {
                assert(!real_body_ok(body)) by {
                    if real_body_ok(body) {
                        let jj = choose|jj: int|
                            #![auto]
                            0 <= jj < body.len() && is_exp_char(body[jj]) && is_mantissa(
                                body.subrange(0, jj),
                            ) && is_exponent(body.subrange(jj + 1, body.len() as int));
                        if jj < jr {
                            assert(body[jj] == v@[jj + start]);
                        } else if jj > jr {
                            assert(body.subrange(0, jj)[jr] == body[jr]);
                            lemma_mantissa_chars(body.subrange(0, jj), jr);
                        }
                    }
                }
            }
        }
        m && e
    }
}

} // verus!
