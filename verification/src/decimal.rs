//! Exact decimal amounts.
//!
//! An amount is a sign, an integer mantissa and a scale: the value is
//! `mant / 10^scale`. Amount text is parsed and rendered here without ever
//! passing through binary floating point, and multiplication and
//! half-away-from-zero rounding are exact.

use vstd::prelude::*;

verus! {

/// Largest mantissa (exclusive) that `parse_dec` accepts: 19 digits.
pub const MANT_CAP: u128 = 10_000_000_000_000_000_000;

/// Largest scale that `parse_dec` accepts.
pub const SCALE_CAP: u32 = 28;

/// An exact decimal number: `(if neg { -1 } else { 1 }) * mant / 10^scale`.
#[derive(Clone, Copy, Debug)]
pub struct Dec {
    pub neg: bool,
    pub mant: u128,
    pub scale: u32,
}

pub open spec fn is_digit(c: char) -> bool {
    '0' <= c && c <= '9'
}

pub open spec fn digit_val(c: char) -> nat {
    if is_digit(c) {
        (c as u32 - 48) as nat
    } else {
        0
    }
}

/// Does the text start with an explicit sign?
pub open spec fn has_sign(s: Seq<char>) -> bool {
    s.len() > 0 && (s[0] == '-' || s[0] == '+')
}

pub open spec fn neg_of(s: Seq<char>) -> bool {
    s.len() > 0 && s[0] == '-'
}

/// The text with any leading sign removed.
pub open spec fn dec_body(s: Seq<char>) -> Seq<char> {
    if has_sign(s) {
        s.skip(1)
    } else {
        s
    }
}

pub open spec fn all_digits(b: Seq<char>) -> bool {
    forall|i: int| 0 <= i < b.len() ==> is_digit(#[trigger] b[i])
}

pub open spec fn has_dot(b: Seq<char>) -> bool {
    exists|i: int| 0 <= i < b.len() && #[trigger] b[i] == '.'
}

/// Position `j` holds the single decimal point and every other position a digit.
pub open spec fn dot_at(b: Seq<char>, j: int) -> bool {
    0 <= j < b.len() && b[j] == '.' && (forall|i: int|
        0 <= i < b.len() && i != j ==> is_digit(#[trigger] b[i]))
}

/// The grammar of decimal text (after the optional sign): digits, with at
/// most one decimal point and at least one digit.
pub open spec fn dec_body_ok(b: Seq<char>) -> bool {
    (b.len() > 0 && all_digits(b)) || (b.len() > 1 && exists|j: int| dot_at(b, j))
}

/// `s` is well-formed decimal text: an optional sign, then digits with at
/// most one decimal point and at least one digit.
pub open spec fn dec_text_ok(s: Seq<char>) -> bool {
    dec_body_ok(dec_body(s))
}

/// The digits of `b` read as one integer, ignoring the decimal point.
pub open spec fn mant_of(b: Seq<char>) -> nat
    decreases b.len(),
{
    if b.len() == 0 {
        0
    } else if b.last() == '.' {
        mant_of(b.drop_last())
    } else {
        mant_of(b.drop_last()) * 10 + digit_val(b.last())
    }
}

/// How many characters follow the decimal point.
pub open spec fn scale_of(b: Seq<char>) -> nat
    decreases b.len(),
{
    if b.len() == 0 || !has_dot(b) {
        0
    } else if b.last() == '.' {
        0
    } else {
        1 + scale_of(b.drop_last())
    }
}

/// Exactly the texts that `parse_dec` accepts: well-formed, with the
/// mantissa and scale within the caps above.
pub open spec fn parse_ok(s: Seq<char>) -> bool {
    dec_text_ok(s) && mant_of(dec_body(s)) < MANT_CAP && scale_of(dec_body(s)) <= SCALE_CAP
}

proof fn lemma_mant_push(b: Seq<char>, c: char)
    ensures
        c == '.' ==> mant_of(b.push(c)) == mant_of(b),
        c != '.' ==> mant_of(b.push(c)) == mant_of(b) * 10 + digit_val(c),
{
    assert(b.push(c).drop_last() =~= b);
    assert(b.push(c).last() == c);
}

proof fn lemma_has_dot_push(b: Seq<char>, c: char)
    ensures
        has_dot(b.push(c)) == (has_dot(b) || c == '.'),
{
    let p = b.push(c);
    if c == '.' {
        assert(p[b.len() as int] == '.');
        assert(has_dot(p));
    }
    if has_dot(b) {
        let i = choose|i: int| 0 <= i < b.len() && #[trigger] b[i] == '.';
        assert(p[i] == '.');
        assert(has_dot(p));
    }
    if has_dot(p) && c != '.' {
        let i = choose|i: int| 0 <= i < p.len() && #[trigger] p[i] == '.';
        assert(i < b.len());
        assert(b[i] == '.');
        assert(has_dot(b));
    }
}

proof fn lemma_scale_push(b: Seq<char>, c: char)
    ensures
        c == '.' ==> scale_of(b.push(c)) == 0,
        c != '.' && has_dot(b) ==> scale_of(b.push(c)) == scale_of(b) + 1,
        c != '.' && !has_dot(b) ==> scale_of(b.push(c)) == 0,
{
    let p = b.push(c);
    assert(p.drop_last() =~= b);
    assert(p.last() == c);
    lemma_has_dot_push(b, c);
}

/// Reading more characters never shrinks the mantissa.
proof fn lemma_mant_take_le(b: Seq<char>, k: int)
    requires
        0 <= k <= b.len(),
    ensures
        mant_of(b.take(k)) <= mant_of(b),
    decreases b.len(),
{
    if k < b.len() {
        let b0 = b.drop_last();
        assert(b.take(k) =~= b0.take(k));
        lemma_mant_take_le(b0, k);
        assert(mant_of(b0) * 10 + digit_val(b.last()) >= mant_of(b0));
    } else {
        assert(b.take(k) =~= b);
    }
}

/// In a well-formed dotted body, the scale is the distance from the dot to the end.
proof fn lemma_scale_of_dotted(b: Seq<char>, j: int)
    requires
        dot_at(b, j),
    ensures
        scale_of(b) == b.len() - 1 - j,
    decreases b.len(),
{
    assert(has_dot(b));
    if b.last() == '.' {
        assert(b[b.len() - 1] == '.');
        if j < b.len() - 1 {
            assert(is_digit(b[b.len() - 1]));
            assert(false);
        }
    } else {
        assert(j < b.len() - 1);
        let b0 = b.drop_last();
        assert(dot_at(b0, j)) by {
            assert(b0[j] == b[j]);
            assert(forall|i: int| 0 <= i < b0.len() && i != j ==> is_digit(#[trigger] b0[i]));
        }
        lemma_scale_of_dotted(b0, j);
    }
}

/// Parse decimal text. Returns the exact sign, mantissa and scale, and
/// `None` exactly on text that `parse_ok` rejects.
pub fn parse_dec(s: &str) -> (r: Option<Dec>)
    ensures
        r.is_some() == parse_ok(s@),
        r matches Some(d) ==> d.neg == neg_of(s@) && d.mant == mant_of(dec_body(s@)) && d.scale
            == scale_of(dec_body(s@)),
{
    let n = s.unicode_len();
    if n == 0 {
        return None;
    }
    let c0 = s.get_char(0);
    let mut start: usize = 0;
    let mut neg = false;
    if c0 == '-' {
        neg = true;
        start = 1;
    } else if c0 == '+' {
        start = 1;
    }
    let ghost body = dec_body(s@);
    proof {
        if start == 1 {
            assert(body =~= s@.subrange(1, n as int));
        } else {
            assert(body =~= s@.subrange(0, n as int));
        }
        assert(neg == neg_of(s@));
    }
    if start == n {
        proof {
            assert(body.len() == 0);
        }
        return None;
    }
    let mut mant: u128 = 0;
    let mut scale: u32 = 0;
    let mut seen_dot = false;
    let mut dotpos: usize = 0;
    let mut i: usize = start;
    proof {
        assert(body.take(0) =~= Seq::<char>::empty());
    }
    while i < n
        invariant
            start <= i <= n,
            start <= 1,
            n == s@.len(),
            body == dec_body(s@),
            body =~= s@.subrange(start as int, n as int),
            body.len() == n - start,
            mant == mant_of(body.take(i - start)),
            mant < MANT_CAP,
            scale == scale_of(body.take(i - start)),
            scale <= SCALE_CAP,
            seen_dot == has_dot(body.take(i - start)),
            seen_dot ==> start <= dotpos < i && body[dotpos - start] == '.',
            forall|k: int|
                0 <= k < i - start && k != dotpos - start ==> is_digit(#[trigger] body[k]),
            !seen_dot ==> forall|k: int| 0 <= k < i - start ==> is_digit(#[trigger] body[k]),
        decreases n - i,
    {
        let c = s.get_char(i);
        let ghost pre = body.take(i - start);
        proof {
            assert(body[i - start] == s@[i as int]);
            assert(body.take(i + 1 - start) =~= pre.push(c));
            lemma_mant_push(pre, c);
            lemma_scale_push(pre, c);
            lemma_has_dot_push(pre, c);
        }
        if c == '.' {
            if seen_dot {
                proof {
                    assert(!dec_body_ok(body)) by {
                        assert(body[dotpos - start] == '.');
                        assert(body[i - start] == '.');
                        assert(!is_digit('.'));
                        assert(!all_digits(body));
                        if exists|j: int| dot_at(body, j) {
                            let j = choose|j: int| dot_at(body, j);
                            if j != dotpos - start {
                                assert(is_digit(body[dotpos - start]));
                            } else {
                                assert(is_digit(body[i - start]));
                            }
                        }
                    }
                }
                return None;
            }
            seen_dot = true;
            dotpos = i;
            scale = 0;
        } else if '0' <= c && c <= '9' {
            let d = (c as u32 - 48) as u128;
            proof {
                assert(digit_val(c) == d);
                assert(mant * 10 + d < MANT_CAP * 10 + 10) by (nonlinear_arith)
                    requires
                        mant < MANT_CAP,
                        d < 10,
                ;
            }
            let m2 = mant * 10 + d;
            if m2 >= MANT_CAP {
                proof {
                    assert(!parse_ok(s@)) by {
                        if dec_body_ok(body) {
                            lemma_mant_take_le(body, i + 1 - start);
                            assert(mant_of(body.take(i + 1 - start)) == m2);
                            assert(mant_of(body) >= MANT_CAP);
                        }
                    }
                }
                return None;
            }
            if seen_dot {
                if scale == SCALE_CAP {
                    proof {
                        assert(!parse_ok(s@)) by {
                            if dec_body_ok(body) {
                                assert(!all_digits(body)) by {
                                    assert(body[dotpos - start] == '.');
                                    assert(!is_digit('.'));
                                }
                                let j = choose|j: int| dot_at(body, j);
                                assert(j == dotpos - start) by {
                                    if j != dotpos - start {
                                        assert(is_digit(body[dotpos - start]));
                                    }
                                }
                                lemma_scale_of_dotted(body, j);
                                let pre0 = body.take(i - start);
                                assert(dot_at(pre0, dotpos - start)) by {
                                    assert(pre0[dotpos - start] == body[dotpos - start]);
                                    assert(forall|k: int|
                                        0 <= k < pre0.len() && k != dotpos - start ==> is_digit(
                                            #[trigger] pre0[k],
                                        ));
                                }
                                lemma_scale_of_dotted(pre0, dotpos - start);
                                assert(scale == (i - start) - 1 - (dotpos - start));
                                assert(scale_of(body) == body.len() - 1 - j);
                                assert(body.len() >= i + 1 - start);
                                assert(scale_of(body) >= scale + 1);
                            }
                        }
                    }
                    return None;
                }
                scale = scale + 1;
            }
            mant = m2;
        } else {
            proof {
                assert(!dec_body_ok(body)) by {
                    assert(body[i - start] == c);
                    assert(!is_digit(c));
                    assert(!all_digits(body));
                    if exists|j: int| dot_at(body, j) {
                        let j = choose|j: int| dot_at(body, j);
                        assert(j != i - start);
                        assert(is_digit(body[i - start]));
                    }
                }
            }
            return None;
        }
        i = i + 1;
    }
    proof {
        assert(body.take(i - start) =~= body);
    }
    if seen_dot {
        if n - start == 1 {
            proof {
                assert(body.len() == 1);
                assert(body[0] == '.');
                assert(!dec_body_ok(body)) by {
                    assert(!is_digit('.'));
                    assert(!all_digits(body));
                }
            }
            return None;
        }
        proof {
            assert(dec_body_ok(body)) by {
                assert(dot_at(body, dotpos - start));
            }
        }
    } else {
        proof {
            assert(dec_body_ok(body)) by {
                assert(all_digits(body));
            }
        }
    }
    Some(Dec { neg, mant, scale })
}

} // verus!

verus! {

/// `10^k`.
pub open spec fn pow10(k: nat) -> nat
    decreases k,
{
    if k == 0 {
        1
    } else {
        10 * pow10((k - 1) as nat)
    }
}

pub proof fn lemma_pow10_pos(k: nat)
    ensures
        pow10(k) >= 1,
    decreases k,
{
    if k > 0 {
        lemma_pow10_pos((k - 1) as nat);
    }
}

pub proof fn lemma_pow10_mono(a: nat, b: nat)
    requires
        a <= b,
    ensures
        pow10(a) <= pow10(b),
    decreases b,
{
    if a < b {
        lemma_pow10_mono(a, (b - 1) as nat);
        lemma_pow10_pos((b - 1) as nat);
    }
}

/// `10^38` fits in a `u128`; `10^39` does not even fit twice over.
proof fn lemma_pow10_bounds()
    ensures
        pow10(38) == 0x4b3b4ca85a86c47a098a224000000000u128,
        pow10(39) > 2 * (u128::MAX as nat),
{
    reveal_with_fuel(pow10, 40);
    assert(pow10(38) == 0x4b3b4ca85a86c47a098a224000000000u128);
    assert(pow10(39) == 10 * pow10(38));
}

/// `10^k` as a machine integer.
fn pow10_u128(k: u32) -> (r: u128)
    requires
        k <= 38,
    ensures
        r == pow10(k as nat),
{
    let mut r: u128 = 1;
    let mut i: u32 = 0;
    while i < k
        invariant
            i <= k <= 38,
            r == pow10(i as nat),
        decreases k - i,
    {
        proof {
            lemma_pow10_mono(i as nat + 1, 38);
            lemma_pow10_bounds();
        }
        r = r * 10;
        i = i + 1;
    }
    r
}

/// The character for one decimal digit.
pub open spec fn digit_char(d: nat) -> char {
    ((48 + d) as u32) as char
}

/// The decimal digits of `n`, most significant first, no leading zeros
/// (just "0" for zero).
pub open spec fn digits_of(n: nat) -> Seq<char>
    decreases n,
{
    if n < 10 {
        seq![digit_char(n)]
    } else {
        digits_of(n / 10).push(digit_char(n % 10))
    }
}

/// The decimal digits of `n`, zero-padded on the left to exactly `w` digits.
pub open spec fn fixed_digits(n: nat, w: nat) -> Seq<char>
    decreases w,
{
    if w == 0 {
        Seq::empty()
    } else {
        fixed_digits(n / 10, (w - 1) as nat).push(digit_char(n % 10))
    }
}

/// The canonical text of a decimal: optional minus sign, the integer part,
/// and, when the scale is positive, a point and exactly `scale` fraction digits.
pub open spec fn dec_text(neg: bool, m: nat, s: nat) -> Seq<char> {
    let sign: Seq<char> = if neg {
        seq!['-']
    } else {
        Seq::empty()
    };
    if s == 0 {
        sign + digits_of(m)
    } else {
        sign + digits_of(m / pow10(s)) + seq!['.'] + fixed_digits(m % pow10(s), s)
    }
}

/// The digits of `v`, last collected first: `v` holds them least significant first.
spec fn rev_digit_seq(v: Seq<u8>) -> Seq<char> {
    Seq::new(v.len(), |i: int| digit_char(v[v.len() - 1 - i] as nat))
}

/// One decimal digit as a string.
fn digit_str(d: u8) -> (r: &'static str)
    requires
        d < 10,
    ensures
        r@.len() == 1,
        r@[0] == digit_char(d as nat),
{
    let r: &'static str = match d {
        0 => "0",
        1 => "1",
        2 => "2",
        3 => "3",
        4 => "4",
        5 => "5",
        6 => "6",
        7 => "7",
        8 => "8",
        _ => "9",
    };
    proof {
        reveal_strlit("0");
        reveal_strlit("1");
        reveal_strlit("2");
        reveal_strlit("3");
        reveal_strlit("4");
        reveal_strlit("5");
        reveal_strlit("6");
        reveal_strlit("7");
        reveal_strlit("8");
        reveal_strlit("9");
    }
    r
}

/// Append the digits collected in `v` (least significant first) to `out`.
fn append_rev_digits(out: &mut String, v: &Vec<u8>)
    requires
        forall|i: int| 0 <= i < v@.len() ==> v@[i] < 10,
    ensures
        final(out)@ == old(out)@ + rev_digit_seq(v@),
{
    let ghost base = out@;
    let mut k: usize = v.len();
    while k > 0
        invariant
            k <= v@.len(),
            forall|i: int| 0 <= i < v@.len() ==> v@[i] < 10,
            out@ =~= base + rev_digit_seq(v@).take(v@.len() - k),
        decreases k,
    {
        k = k - 1;
        let d = v[k];
        out.append(digit_str(d));
        proof {
            let t = v@.len() - k;
            assert(rev_digit_seq(v@)[t - 1] == digit_char(v@[k as int] as nat));
            assert(out@ =~= base + rev_digit_seq(v@).take(t));
        }
    }
    proof {
        assert(rev_digit_seq(v@).take(v@.len() as int) =~= rev_digit_seq(v@));
    }
}

/// Append the digits of `n`, most significant first, to `out`.
fn push_digits(out: &mut String, n: u128)
    ensures
        final(out)@ == old(out)@ + digits_of(n as nat),
{
    let mut v: Vec<u8> = Vec::new();
    let mut cur: u128 = n;
    proof {
        assert(rev_digit_seq(v@) =~= Seq::<char>::empty());
        assert(digits_of(n as nat) =~= digits_of(cur as nat) + rev_digit_seq(v@));
    }
    while cur >= 10
        invariant
            digits_of(n as nat) =~= digits_of(cur as nat) + rev_digit_seq(v@),
            forall|i: int| 0 <= i < v@.len() ==> v@[i] < 10,
        decreases cur,
    {
        let d = (cur % 10) as u8;
        let next = cur / 10;
        proof {
            let ghost v2 = v@.push(d);
            assert(rev_digit_seq(v2) =~= seq![digit_char(d as nat)] + rev_digit_seq(v@)) by {
                assert forall|i: int| 0 <= i < v2.len() implies rev_digit_seq(v2)[i] == (
                seq![digit_char(d as nat)] + rev_digit_seq(v@))[i] by {
                    if i > 0 {
                        assert(v2[v2.len() - 1 - i] == v@[v@.len() - 1 - (i - 1)]);
                    }
                }
            }
            assert(digits_of(cur as nat) == digits_of(next as nat).push(digit_char(d as nat)));
            assert(digits_of(next as nat).push(digit_char(d as nat)) + rev_digit_seq(v@)
                =~= digits_of(next as nat) + rev_digit_seq(v2));
        }
        v.push(d);
        cur = next;
    }
    let d = cur as u8;
    proof {
        let ghost v2 = v@.push(d);
        assert(digits_of(cur as nat) =~= seq![digit_char(d as nat)]);
        assert(rev_digit_seq(v2) =~= seq![digit_char(d as nat)] + rev_digit_seq(v@)) by {
            assert forall|i: int| 0 <= i < v2.len() implies rev_digit_seq(v2)[i] == (
            seq![digit_char(d as nat)] + rev_digit_seq(v@))[i] by {
                if i > 0 {
                    assert(v2[v2.len() - 1 - i] == v@[v@.len() - 1 - (i - 1)]);
                }
            }
        }
        assert(digits_of(n as nat) =~= rev_digit_seq(v2));
    }
    v.push(d);
    append_rev_digits(out, &v);
}

/// Append exactly `w` digits of `n`, zero-padded, to `out`.
fn push_fixed_digits(out: &mut String, n: u128, w: u32)
    ensures
        final(out)@ == old(out)@ + fixed_digits(n as nat, w as nat),
{
    let mut v: Vec<u8> = Vec::new();
    let mut cur: u128 = n;
    let mut t: u32 = 0;
    proof {
        assert(rev_digit_seq(v@) =~= Seq::<char>::empty());
        assert(fixed_digits(n as nat, w as nat) =~= fixed_digits(cur as nat, w as nat)
            + rev_digit_seq(v@));
    }
    while t < w
        invariant
            t <= w,
            fixed_digits(n as nat, w as nat) =~= fixed_digits(cur as nat, (w - t) as nat)
                + rev_digit_seq(v@),
            forall|i: int| 0 <= i < v@.len() ==> v@[i] < 10,
        decreases w - t,
    {
        let d = (cur % 10) as u8;
        let next = cur / 10;
        proof {
            let ghost v2 = v@.push(d);
            assert(rev_digit_seq(v2) =~= seq![digit_char(d as nat)] + rev_digit_seq(v@)) by {
                assert forall|i: int| 0 <= i < v2.len() implies rev_digit_seq(v2)[i] == (
                seq![digit_char(d as nat)] + rev_digit_seq(v@))[i] by {
                    if i > 0 {
                        assert(v2[v2.len() - 1 - i] == v@[v@.len() - 1 - (i - 1)]);
                    }
                }
            }
            assert(fixed_digits(cur as nat, (w - t) as nat) == fixed_digits(
                next as nat,
                (w - t - 1) as nat,
            ).push(digit_char(d as nat)));
            assert(fixed_digits(next as nat, (w - t - 1) as nat).push(digit_char(d as nat))
                + rev_digit_seq(v@) =~= fixed_digits(next as nat, (w - t - 1) as nat)
                + rev_digit_seq(v2));
        }
        v.push(d);
        cur = next;
        t = t + 1;
    }
    proof {
        assert(fixed_digits(cur as nat, 0) =~= Seq::<char>::empty());
        assert(fixed_digits(n as nat, w as nat) =~= rev_digit_seq(v@));
    }
    append_rev_digits(out, &v);
}

/// Render a decimal as its canonical text.
pub fn dec_to_text(d: &Dec) -> (r: String)
    requires
        d.scale <= 38,
    ensures
        r@ == dec_text(d.neg, d.mant as nat, d.scale as nat),
{
    let mut out = String::new();
    if d.neg {
        out.append("-");
        proof {
            reveal_strlit("-");
            assert(out@ =~= seq!['-']);
        }
    }
    if d.scale == 0 {
        push_digits(&mut out, d.mant);
        proof {
            assert(out@ =~= dec_text(d.neg, d.mant as nat, d.scale as nat));
        }
        return out;
    }
    let p = pow10_u128(d.scale);
    proof {
        lemma_pow10_pos(d.scale as nat);
    }
    let ip = d.mant / p;
    let fp = d.mant % p;
    push_digits(&mut out, ip);
    out.append(".");
    proof {
        reveal_strlit(".");
    }
    push_fixed_digits(&mut out, fp, d.scale);
    proof {
        assert(out@ =~= dec_text(d.neg, d.mant as nat, d.scale as nat));
    }
    out
}

/// Multiply two decimals exactly: mantissas multiply, scales add.
pub fn mul_dec(a: &Dec, b: &Dec) -> (r: Option<Dec>)
    ensures
        r.is_some() == (a.mant * b.mant <= u128::MAX && a.scale + b.scale <= u32::MAX),
        r matches Some(c) ==> c.mant == a.mant * b.mant && c.scale == a.scale + b.scale && c.neg
            == (a.neg != b.neg),
{
    match a.mant.checked_mul(b.mant) {
        None => None,
        Some(m) => match a.scale.checked_add(b.scale) {
            None => None,
            Some(s) => Some(Dec { neg: a.neg != b.neg, mant: m, scale: s }),
        },
    }
}

/// The mantissa after rescaling `m / 10^s` to scale `e`, rounding
/// half away from zero.
pub open spec fn round_mant(m: nat, s: nat, e: nat) -> nat {
    if s <= e {
        m * pow10((e - s) as nat)
    } else {
        let d = pow10((s - e) as nat);
        if 2 * (m % d) >= d {
            m / d + 1
        } else {
            m / d
        }
    }
}

/// Rescale a decimal to scale `e`, rounding half away from zero. Fails
/// exactly when the rescaled mantissa no longer fits.
pub fn round_dec(d: &Dec, e: u32) -> (r: Option<Dec>)
    ensures
        r.is_some() == (round_mant(d.mant as nat, d.scale as nat, e as nat) <= u128::MAX),
        r matches Some(x) ==> x.neg == d.neg && x.scale == e && x.mant == round_mant(
            d.mant as nat,
            d.scale as nat,
            e as nat,
        ),
{
    if e >= d.scale {
        let diff = e - d.scale;
        let mut m = d.mant;
        let mut k: u32 = 0;
        proof {
            assert(pow10(0) == 1);
        }
        while k < diff
            invariant
                k <= diff,
                diff == e - d.scale,
                m == d.mant * pow10(k as nat),
            decreases diff - k,
        {
            proof {
                vstd::arithmetic::mul::lemma_mul_is_associative(
                    d.mant as int,
                    pow10(k as nat) as int,
                    10,
                );
            }
            match m.checked_mul(10) {
                None => {
                    proof {
                        broadcast use vstd::arithmetic::mul::group_mul_properties;

                        assert(d.mant * pow10((k + 1) as nat) == m * 10);
                        lemma_pow10_mono((k + 1) as nat, diff as nat);
                        vstd::arithmetic::mul::lemma_mul_inequality(
                            pow10((k + 1) as nat) as int,
                            pow10(diff as nat) as int,
                            d.mant as int,
                        );
                        assert(d.mant * pow10(diff as nat) >= d.mant * pow10((k + 1) as nat));
                        assert(round_mant(d.mant as nat, d.scale as nat, e as nat) > u128::MAX);
                    }
                    return None;
                },
                Some(m2) => {
                    m = m2;
                },
            }
            k = k + 1;
        }
        Some(Dec { neg: d.neg, mant: m, scale: e })
    } else {
        let sd = d.scale - e;
        if sd > 38 {
            proof {
                lemma_pow10_bounds();
                lemma_pow10_mono(39, sd as nat);
                let p = pow10(sd as nat);
                assert(d.mant < p);
                vstd::arithmetic::div_mod::lemma_basic_div(d.mant as int, p as int);
                vstd::arithmetic::div_mod::lemma_small_mod(d.mant as nat, p);
                assert(round_mant(d.mant as nat, d.scale as nat, e as nat) == 0);
            }
            return Some(Dec { neg: d.neg, mant: 0, scale: e });
        }
        let p = pow10_u128(sd);
        proof {
            lemma_pow10_pos(sd as nat);
            lemma_pow10_bounds();
            lemma_pow10_mono(sd as nat, 38);
        }
        let q = d.mant / p;
        let rem = d.mant % p;
        proof {
            assert(rem < p);
            assert(2 * rem <= u128::MAX);
            assert(q * p <= d.mant) by {
                vstd::arithmetic::div_mod::lemma_fundamental_div_mod(d.mant as int, p as int);
            }
            assert(q < u128::MAX) by {
                if q == u128::MAX {
                    assert(p >= 10) by {
                        assert(sd >= 1);
                        lemma_pow10_mono(1, sd as nat);
                    }
                    assert(q * p >= q * 10) by {
                        broadcast use vstd::arithmetic::mul::group_mul_properties;

                        vstd::arithmetic::mul::lemma_mul_inequality(10, p as int, q as int);
                    }
                    assert(q * 10 > u128::MAX) by (nonlinear_arith)
                        requires
                            q == u128::MAX,
                    ;
                }
            }
        }
        if 2 * rem >= p {
            Some(Dec { neg: d.neg, mant: q + 1, scale: e })
        } else {
            Some(Dec { neg: d.neg, mant: q, scale: e })
        }
    }
}

} // verus!
