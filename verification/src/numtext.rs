use vstd::prelude::*;

verus! {

broadcast use vstd::seq::group_seq_axioms, vstd::std_specs::vec::group_vec_axioms;

pub open spec fn is_digit(b: u8) -> bool {
    ('0' as u8) <= b && b <= ('9' as u8)
}

pub open spec fn digit_of(b: u8) -> int {
    b - ('0' as u8)
}

pub open spec fn all_digits(s: Seq<u8>) -> bool {
    forall|i: int| 0 <= i < s.len() ==> is_digit(#[trigger] s[i])
}

/// The number a run of decimal digits denotes, most significant first.
pub open spec fn digits_val(s: Seq<u8>) -> int
    decreases s.len(),
{
    if s.len() == 0 {
        0
    } else {
        digits_val(s.drop_last()) * 10 + digit_of(s.last())
    }
}

pub proof fn lemma_digits_val_nonneg(s: Seq<u8>)
    requires
        all_digits(s),
    ensures
        digits_val(s) >= 0,
    decreases s.len(),
{
    if s.len() > 0 {
        assert(all_digits(s.drop_last())) by {
            assert(forall|i: int|
                0 <= i < s.len() - 1 ==> #[trigger] s.drop_last()[i] == s[i]);
        }
        lemma_digits_val_nonneg(s.drop_last());
    }
}

/// A leading sign, if any, and the rest of the token.
pub open spec fn sign_split(t: Seq<u8>) -> (bool, Seq<u8>) {
    if t.len() > 0 && t[0] == ('-' as u8) {
        (true, t.drop_first())
    } else if t.len() > 0 && t[0] == ('+' as u8) {
        (false, t.drop_first())
    } else {
        (false, t)
    }
}

/// What an integer literal denotes: an optional sign, then at least one
/// digit, denoting a value within the signed 64-bit range.
pub open spec fn spec_parse_i64(t: Seq<u8>) -> Option<i64> {
    let (neg, ds) = sign_split(t);
    if ds.len() == 0 || !all_digits(ds) {
        None
    } else {
        let v = if neg {
            -digits_val(ds)
        } else {
            digits_val(ds)
        };
        if i64::MIN <= v <= i64::MAX {
            Some(v as i64)
        } else {
            None
        }
    }
}

/// What a selector number denotes: an optional plus sign, then at least
/// one digit, denoting a value within the unsigned 64-bit range.
pub open spec fn spec_parse_u64(t: Seq<u8>) -> Option<u64> {
    let (neg, ds) = sign_split(t);
    if neg || ds.len() == 0 || !all_digits(ds) {
        None
    } else if digits_val(ds) <= u64::MAX {
        Some(digits_val(ds) as u64)
    } else {
        None
    }
}

proof fn lemma_digits_val_push(s: Seq<u8>, b: u8)
    ensures
        digits_val(s.push(b)) == digits_val(s) * 10 + digit_of(b),
{
    assert(s.push(b).drop_last() =~= s);
    assert(s.push(b).last() == b);
}

/// Parse a run of digits with its value, watching for overflow past the
/// given bound.  Returns the value if every byte is a digit and the value
/// stays within `bound`.
fn parse_digits(t: &Vec<u8>, start: usize, bound: u128) -> (r: Option<u128>)
    requires
        start <= t@.len(),
        bound <= 0x1_0000_0000_0000_0000u128,
    ensures
        ({
            let ds = t@.subrange(start as int, t@.len() as int);
            match r {
                Some(v) => ds.len() > 0 && all_digits(ds) && digits_val(ds) == v && v <= bound,
                None => ds.len() == 0 || !all_digits(ds) || digits_val(ds) > bound,
            }
        }),
{
    let ghost ds = t@.subrange(start as int, t@.len() as int);
    let n = t.len();
    if start == n {
        return None;
    }
    let mut acc: u128 = 0;
    let mut i: usize = start;
    while i < n
        invariant
            start <= i <= n,
            n == t@.len(),
            ds == t@.subrange(start as int, n as int),
            bound <= 0x1_0000_0000_0000_0000u128,
            acc <= bound,
            all_digits(t@.subrange(start as int, i as int)),
            acc == digits_val(t@.subrange(start as int, i as int)),
        decreases n - i,
    {
        let b = t[i];
        if !(('0' as u8) <= b && b <= ('9' as u8)) {
            proof {
                assert(ds[i - start] == t@[i as int]);
                assert(!is_digit(ds[i - start]));
            }
            return None;
        }
        proof {
            let pre = t@.subrange(start as int, i as int);
            assert(t@.subrange(start as int, i + 1) =~= pre.push(t@[i as int]));
            lemma_digits_val_push(pre, t@[i as int]);
        }
        acc = acc * 10 + ((b - ('0' as u8)) as u128);
        i += 1;
        if acc > bound {
            proof {
                if all_digits(ds) {
                    lemma_digits_val_grows(t@.subrange(start as int, i as int), ds);
                }
            }
            return None;
        }
    }
    proof {
        assert(t@.subrange(start as int, n as int) =~= ds);
    }
    Some(acc)
}

/// A longer digit run denotes at least as large a number: appending
/// digits never shrinks the value.
proof fn lemma_digits_val_grows(p: Seq<u8>, s: Seq<u8>)
    requires
        all_digits(s),
        p.len() <= s.len(),
        forall|i: int| 0 <= i < p.len() ==> p[i] == s[i],
    ensures
        digits_val(s) >= digits_val(p),
    decreases s.len(),
{
    if p.len() == s.len() {
        assert(p =~= s);
    } else {
        assert(all_digits(s.drop_last())) by {
            assert(forall|i: int|
                0 <= i < s.len() - 1 ==> #[trigger] s.drop_last()[i] == s[i]);
        }
        lemma_digits_val_grows(p, s.drop_last());
        lemma_digits_val_nonneg(s.drop_last());
        assert(digits_val(s) == digits_val(s.drop_last()) * 10 + digit_of(s.last()));
    }
}

/// Read an integer literal.
pub fn parse_i64(t: &Vec<u8>) -> (r: Option<i64>)
    ensures
        r == spec_parse_i64(t@),
{
    let n = t.len();
    if n == 0 {
        return None;
    }
    let neg = t[0] == ('-' as u8);
    let signed = neg || t[0] == ('+' as u8);
    let start: usize = if signed {
        1
    } else {
        0
    };
    let ghost ds = t@.subrange(start as int, n as int);
    proof {
        if signed {
            assert(ds =~= t@.drop_first());
        } else {
            assert(ds =~= t@);
        }
    }
    let bound: u128 = if neg {
        0x8000_0000_0000_0000u128
    } else {
        0x7fff_ffff_ffff_ffffu128
    };
    match parse_digits(t, start, bound) {
        None => {
            proof {
                if ds.len() > 0 && all_digits(ds) {
                    lemma_digits_val_nonneg(ds);
                }
            }
            None
        },
        Some(v) => {
            if neg {
                Some((-(v as i128)) as i64)
            } else {
                Some(v as i64)
            }
        },
    }
}

/// Read an unsigned number, as a selector token holds.
pub fn parse_u64(t: &Vec<u8>) -> (r: Option<u64>)
    ensures
        r == spec_parse_u64(t@),
{
    let n = t.len();
    if n == 0 {
        return None;
    }
    if t[0] == ('-' as u8) {
        return None;
    }
    let start: usize = if t[0] == ('+' as u8) {
        1
    } else {
        0
    };
    let ghost ds = t@.subrange(start as int, n as int);
    proof {
        if start == 1 {
            assert(ds =~= t@.drop_first());
        } else {
            assert(ds =~= t@);
        }
    }
    match parse_digits(t, start, 0xffff_ffff_ffff_ffffu128) {
        None => {
            proof {
                if ds.len() > 0 && all_digits(ds) {
                    lemma_digits_val_nonneg(ds);
                }
            }
            None
        },
        Some(v) => Some(v as u64),
    }
}

/// Render a number as decimal digits.
pub open spec fn spec_render_nat(n: int) -> Seq<u8>
    decreases n,
{
    if n < 0 {
        Seq::empty()
    } else if n < 10 {
        seq![(n + ('0' as u8)) as u8]
    } else {
        spec_render_nat(n / 10).push((n % 10 + ('0' as u8)) as u8)
    }
}

/// Render a signed number: a minus sign for a negative one, then its
/// magnitude in decimal.
pub open spec fn spec_render_int(x: int) -> Seq<u8> {
    if x < 0 {
        seq![('-' as u8)] + spec_render_nat(-x)
    } else {
        spec_render_nat(x)
    }
}

fn render_u64(m: u64) -> (r: Vec<u8>)
    ensures
        r@ == spec_render_nat(m as int),
    decreases m,
{
    if m < 10 {
        let r = vec![(m as u8) + ('0' as u8)];
        proof {
            assert(r@ =~= spec_render_nat(m as int));
        }
        r
    } else {
        let mut r = render_u64(m / 10);
        r.push(((m % 10) as u8) + ('0' as u8));
        r
    }
}

/// Render an integer value as its literal text.
pub fn render_i64(x: i64) -> (r: Vec<u8>)
    ensures
        r@ == spec_render_int(x as int),
{
    if x < 0 {
        let m: u64 = (-(x as i128)) as u64;
        let mut r = vec!['-' as u8];
        let tail = render_u64(m);
        let mut j: usize = 0;
        let n = tail.len();
        while j < n
            invariant
                j <= n,
                n == tail@.len(),
                r@ =~= seq![('-' as u8)] + tail@.subrange(0, j as int),
            decreases n - j,
        {
            r.push(tail[j]);
            j += 1;
        }
        proof {
            assert(tail@.subrange(0, n as int) =~= tail@);
            assert(r@ =~= spec_render_int(x as int));
        }
        r
    } else {
        render_u64(x as u64)
    }
}

/// Render an unsigned count, as selectors and arities use.
pub fn render_usize(x: usize) -> (r: Vec<u8>)
    ensures
        r@ == spec_render_nat(x as int),
{
    render_u64(x as u64)
}

/// The lower-case fold of an ASCII letter.
pub open spec fn to_lower(b: u8) -> u8 {
    if ('A' as u8) <= b && b <= ('Z' as u8) {
        (b + 32) as u8
    } else {
        b
    }
}

pub open spec fn seq_lower(s: Seq<u8>) -> Seq<u8> {
    s.map(|i: int, b: u8| to_lower(b))
}

/// The three special float words the reader accepts, compared without
/// regard to letter case.
pub open spec fn lit_inf() -> Seq<u8> {
    seq!['i' as u8, 'n' as u8, 'f' as u8]
}

pub open spec fn lit_infinity() -> Seq<u8> {
    seq![
        'i' as u8,
        'n' as u8,
        'f' as u8,
        'i' as u8,
        'n' as u8,
        'i' as u8,
        't' as u8,
        'y' as u8,
    ]
}

pub open spec fn lit_nan() -> Seq<u8> {
    seq!['n' as u8, 'a' as u8, 'n' as u8]
}

/// The end of the digit run that starts at `i`.
pub open spec fn digits_end(t: Seq<u8>, i: int) -> int
    decreases t.len() - i,
{
    if 0 <= i < t.len() && is_digit(t[i]) {
        digits_end(t, i + 1)
    } else {
        i
    }
}

pub proof fn lemma_digits_end_bounds(t: Seq<u8>, i: int)
    requires
        0 <= i <= t.len(),
    ensures
        i <= digits_end(t, i) <= t.len(),
    decreases t.len() - i,
{
    if i < t.len() && is_digit(t[i]) {
        lemma_digits_end_bounds(t, i + 1);
    }
}

/// Whether the unsigned part of a token has the shape of a decimal float:
/// digits, an optional point with more digits, at least one digit in all,
/// then an optional exponent with at least one digit.
pub open spec fn is_decimal_float(u: Seq<u8>) -> bool {
    let p = digits_end(u, 0);
    let q = if p < u.len() && u[p] == ('.' as u8) {
        digits_end(u, p + 1)
    } else {
        p
    };
    let mantissa_ok = p > 0 || (p < u.len() && u[p] == ('.' as u8) && q > p + 1);
    if !mantissa_ok {
        false
    } else if q == u.len() {
        true
    } else if u[q] == ('e' as u8) || u[q] == ('E' as u8) {
        let r = if q + 1 < u.len() && (u[q + 1] == ('+' as u8) || u[q + 1] == ('-' as u8)) {
            q + 2
        } else {
            q + 1
        };
        digits_end(u, r) == u.len() && u.len() > r
    } else {
        false
    }
}

/// Whether a token is a float literal: an optional sign, then a decimal
/// float shape or one of the special words.
pub open spec fn is_float_token(t: Seq<u8>) -> bool {
    let u = sign_split(t).1;
    seq_lower(u) == lit_inf() || seq_lower(u) == lit_infinity() || seq_lower(u) == lit_nan()
        || is_decimal_float(u)
}

/// The end of the digit run that starts at `i`.
fn scan_digits(t: &Vec<u8>, i: usize) -> (r: usize)
    requires
        i <= t@.len(),
    ensures
        r == digits_end(t@, i as int),
        i <= r <= t@.len(),
    decreases t@.len() - i,
{
    if i < t.len() && ('0' as u8) <= t[i] && t[i] <= ('9' as u8) {
        scan_digits(t, i + 1)
    } else {
        i
    }
}

/// Whether the bytes of `u` spell `word`, without regard to case.
fn eq_lower(u: &Vec<u8>, word: &Vec<u8>) -> (r: bool)
    ensures
        r == (seq_lower(u@) == word@),
{
    if u.len() != word.len() {
        proof {
            assert(seq_lower(u@).len() == u@.len());
        }
        return false;
    }
    let n = word.len();
    let mut i: usize = 0;
    while i < n
        invariant
            i <= n,
            n == u@.len() == word@.len(),
            forall|j: int| 0 <= j < i ==> to_lower(u@[j]) == word@[j],
        decreases n - i,
    {
        let b = u[i];
        let low: u8 = if ('A' as u8) <= b && b <= ('Z' as u8) {
            b + 32
        } else {
            b
        };
        if low != word[i] {
            proof {
                assert(seq_lower(u@)[i as int] == to_lower(u@[i as int]));
            }
            return false;
        }
        i += 1;
    }
    proof {
        assert(seq_lower(u@) =~= word@);
    }
    true
}

/// `is_decimal_float`, decided by scanning.
fn is_decimal_float_exec(u: &Vec<u8>) -> (r: bool)
    ensures
        r == is_decimal_float(u@),
{
    let n = u.len();
    let p = scan_digits(u, 0);
    let q: usize = if p < n && u[p] == ('.' as u8) {
        scan_digits(u, p + 1)
    } else {
        p
    };
    let mantissa_ok = p > 0 || (p < n && u[p] == ('.' as u8) && q > p + 1);
    if !mantissa_ok {
        return false;
    }
    if q == n {
        return true;
    }
    if u[q] == ('e' as u8) || u[q] == ('E' as u8) {
        let r: usize = if q + 1 < n && (u[q + 1] == ('+' as u8) || u[q + 1] == ('-' as u8)) {
            q + 2
        } else {
            q + 1
        };
        let e = scan_digits(u, r);
        e == n && n > r
    } else {
        false
    }
}

/// Whether this token reads as a float literal.
pub fn is_float_literal(t: &Vec<u8>) -> (r: bool)
    ensures
        r == is_float_token(t@),
{
    let n = t.len();
    let start: usize = if n > 0 && (t[0] == ('-' as u8) || t[0] == ('+' as u8)) {
        1
    } else {
        0
    };
    let mut u: Vec<u8> = Vec::new();
    let mut i: usize = start;
    while i < n
        invariant
            start <= i <= n,
            n == t@.len(),
            u@ =~= t@.subrange(start as int, i as int),
        decreases n - i,
    {
        u.push(t[i]);
        i += 1;
    }
    proof {
        if start == 1 {
            assert(u@ =~= t@.drop_first());
        } else {
            assert(u@ =~= t@);
        }
        assert(u@ == sign_split(t@).1);
    }
    let word_inf = vec!['i' as u8, 'n' as u8, 'f' as u8];
    let word_infinity = vec![
        'i' as u8,
        'n' as u8,
        'f' as u8,
        'i' as u8,
        'n' as u8,
        'i' as u8,
        't' as u8,
        'y' as u8,
    ];
    let word_nan = vec!['n' as u8, 'a' as u8, 'n' as u8];
    proof {
        assert(word_inf@ =~= lit_inf());
        assert(word_infinity@ =~= lit_infinity());
        assert(word_nan@ =~= lit_nan());
    }
    if eq_lower(&u, &word_inf) || eq_lower(&u, &word_infinity) || eq_lower(&u, &word_nan) {
        return true;
    }
    is_decimal_float_exec(&u)
}

} // verus!
