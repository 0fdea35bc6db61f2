//! Numeric pieces of the persistence codec: fixed-width lower-case
//! hexadecimal (for identifiers) and variable-width decimal (for years),
//! each with a serializer, a parser, and the lemma that parsing undoes
//! serializing.

use vstd::prelude::*;
use vstd::arithmetic::div_mod::{lemma_fundamental_div_mod, lemma_mod_pos_bound};

verus! {

pub open spec fn pow16(k: nat) -> nat
    decreases k,
{
    if k == 0 {
        1
    } else {
        16 * pow16((k - 1) as nat)
    }
}

pub open spec fn pow10(k: nat) -> nat
    decreases k,
{
    if k == 0 {
        1
    } else {
        10 * pow10((k - 1) as nat)
    }
}

pub proof fn lemma_pow16_pos(k: nat)
    ensures
        pow16(k) >= 1,
    decreases k,
{
    if k > 0 {
        lemma_pow16_pos((k - 1) as nat);
    }
}

pub proof fn lemma_pow16_mono(a: nat, b: nat)
    requires
        a <= b,
    ensures
        pow16(a) <= pow16(b),
    decreases b,
{
    if a < b {
        lemma_pow16_mono(a, (b - 1) as nat);
        lemma_pow16_pos((b - 1) as nat);
    }
}

/// The powers of sixteen the codec bounds its values by.
pub proof fn lemma_pow16_values()
    ensures
        pow16(2) == 0x100,
        pow16(4) == 0x10000,
        pow16(8) == 0x100000000,
        pow16(12) == 0x1000000000000,
        pow16(31) == 0x10000000000000000000000000000000,
        pow16(32) == 0x100000000000000000000000000000000,
{
    assert(pow16(0) == 1);
    assert(pow16(1) == 0x10);
    assert(pow16(2) == 0x100);
    assert(pow16(3) == 0x1000);
    assert(pow16(4) == 0x10000);
    assert(pow16(5) == 0x100000);
    assert(pow16(6) == 0x1000000);
    assert(pow16(7) == 0x10000000);
    assert(pow16(8) == 0x100000000);
    assert(pow16(9) == 0x1000000000);
    assert(pow16(10) == 0x10000000000);
    assert(pow16(11) == 0x100000000000);
    assert(pow16(12) == 0x1000000000000);
    assert(pow16(13) == 0x10000000000000);
    assert(pow16(14) == 0x100000000000000);
    assert(pow16(15) == 0x1000000000000000);
    assert(pow16(16) == 0x10000000000000000);
    assert(pow16(17) == 0x100000000000000000);
    assert(pow16(18) == 0x1000000000000000000);
    assert(pow16(19) == 0x10000000000000000000);
    assert(pow16(20) == 0x100000000000000000000);
    assert(pow16(21) == 0x1000000000000000000000);
    assert(pow16(22) == 0x10000000000000000000000);
    assert(pow16(23) == 0x100000000000000000000000);
    assert(pow16(24) == 0x1000000000000000000000000);
    assert(pow16(25) == 0x10000000000000000000000000);
    assert(pow16(26) == 0x100000000000000000000000000);
    assert(pow16(27) == 0x1000000000000000000000000000);
    assert(pow16(28) == 0x10000000000000000000000000000);
    assert(pow16(29) == 0x100000000000000000000000000000);
    assert(pow16(30) == 0x1000000000000000000000000000000);
    assert(pow16(31) == 0x10000000000000000000000000000000);
    assert(pow16(32) == 0x100000000000000000000000000000000);
}

// ---------------------------------------------------------------------------
// Hexadecimal, fixed width, lower case.
// ---------------------------------------------------------------------------

pub open spec fn is_hex_digit_char(c: char) -> bool {
    (48 <= c as u32 && c as u32 <= 57) || (97 <= c as u32 && c as u32 <= 102)
}

pub open spec fn hex_val(c: char) -> nat {
    if 48 <= c as u32 && c as u32 <= 57 {
        (c as u32 - 48) as nat
    } else {
        (c as u32 - 87) as nat
    }
}

pub open spec fn hex_digit(n: nat) -> char {
    if n < 10 {
        (48 + n) as char
    } else {
        (87 + n) as char
    }
}

pub proof fn lemma_hex_digit_val(n: nat)
    requires
        n < 16,
    ensures
        is_hex_digit_char(hex_digit(n)),
        hex_val(hex_digit(n)) == n,
{
}

/// The `k` lower-case hex digits of `n`, most significant first.
pub open spec fn ser_hex(n: nat, k: nat) -> Seq<char>
    decreases k,
{
    if k == 0 {
        Seq::empty()
    } else {
        seq![hex_digit(n / pow16((k - 1) as nat))] + ser_hex(n % pow16((k - 1) as nat), (k - 1) as nat)
    }
}

pub proof fn lemma_ser_hex_len(n: nat, k: nat)
    ensures
        ser_hex(n, k).len() == k,
    decreases k,
{
    if k > 0 {
        lemma_pow16_pos((k - 1) as nat);
        lemma_ser_hex_len(n % pow16((k - 1) as nat), (k - 1) as nat);
    }
}

/// Consumes exactly `k` hex digits starting at `i`, folding them onto `acc`.
pub open spec fn parse_hex_at(s: Seq<char>, i: int, k: nat, acc: nat) -> Option<(nat, int)>
    decreases k,
{
    if k == 0 {
        Some((acc, i))
    } else if 0 <= i < s.len() && is_hex_digit_char(s[i]) {
        parse_hex_at(s, i + 1, (k - 1) as nat, acc * 16 + hex_val(s[i]))
    } else {
        None
    }
}

/// Parsing undoes serializing: where the document carries the `k` hex digits
/// of `n` at `i`, the parse folds them onto `acc` and stops right after.
pub proof fn lemma_parse_ser_hex(doc: Seq<char>, i: int, n: nat, k: nat, acc: nat)
    requires
        0 <= i,
        i + k <= doc.len(),
        n < pow16(k),
        doc.subrange(i, i + k) == ser_hex(n, k),
    ensures
        parse_hex_at(doc, i, k, acc) == Some::<(nat, int)>(((acc * pow16(k) + n) as nat, i + k)),
    decreases k,
{
    if k == 0 {
        assert(acc * 1 == acc) by (nonlinear_arith);
    } else {
        let p = pow16((k - 1) as nat);
        lemma_pow16_pos((k - 1) as nat);
        lemma_ser_hex_len(n % p, (k - 1) as nat);
        assert(n / p < 16) by (nonlinear_arith)
            requires
                n < 16 * p,
                p >= 1,
                n >= 0,
        ;
        lemma_fundamental_div_mod(n as int, p as int);
        assert(doc[i] == ser_hex(n, k)[0]);
        assert(doc[i] == hex_digit(n / p));
        lemma_hex_digit_val(n / p);
        assert(doc.subrange(i + 1, i + k) =~= ser_hex(n % p, (k - 1) as nat)) by {
            assert forall|t: int|
                #![trigger ser_hex(n % p, (k - 1) as nat)[t]]
                0 <= t < k - 1 implies doc.subrange(i + 1, i + k)[t] == ser_hex(
                n % p,
                (k - 1) as nat,
            )[t] by {
                assert(doc.subrange(i, i + k)[t + 1] == ser_hex(n, k)[t + 1]);
            }
        }
        assert(n % p < p) by (nonlinear_arith)
            requires
                p >= 1,
                n >= 0,
        ;
        lemma_parse_ser_hex(doc, i + 1, n % p, (k - 1) as nat, acc * 16 + n / p);
        assert((acc * 16 + n / p) * p + n % p == acc * (16 * p) + (p * (n / p) + n % p))
            by (nonlinear_arith);
    }
}

/// Relates the fold to its floor: the folded value is never below `acc`
/// scaled up, so a parse that began above a bound stays above it.
pub proof fn lemma_parse_hex_lb(s: Seq<char>, i: int, k: nat, acc: nat)
    requires
        parse_hex_at(s, i, k, acc) is Some,
    ensures
        parse_hex_at(s, i, k, acc).unwrap().0 >= acc,
        parse_hex_at(s, i, k, acc).unwrap().1 == i + k,
        k > 0 ==> i + k <= s.len(),
    decreases k,
{
    if k > 0 {
        let acc2 = acc * 16 + hex_val(s[i]);
        assert(acc2 >= acc) by (nonlinear_arith)
            requires
                acc2 == acc * 16 + hex_val(s[i]),
                acc >= 0,
                hex_val(s[i]) >= 0,
        ;
        lemma_parse_hex_lb(s, i + 1, (k - 1) as nat, acc2);
    }
}

fn hex_digit_exec(v: u8) -> (c: char)
    requires
        v < 16,
    ensures
        c == hex_digit(v as nat),
{
    if v < 10 {
        (48 + v) as char
    } else {
        (87 + v) as char
    }
}

fn pow16_exec(k: usize) -> (r: u128)
    requires
        k <= 31,
    ensures
        r as nat == pow16(k as nat),
{
    let mut r: u128 = 1;
    let mut i: usize = 0;
    while i < k
        invariant
            0 <= i <= k <= 31,
            r as nat == pow16(i as nat),
        decreases k - i,
    {
        proof {
            lemma_pow16_mono((i + 1) as nat, 31);
            lemma_pow16_values();
        }
        r = r * 16;
        i += 1;
    }
    r
}

/// Appends the `k` hex digits of `n`, most significant first.
pub fn ser_hex_exec(n: u128, k: usize, out: &mut Vec<char>)
    requires
        k <= 32,
        (n as nat) < pow16(k as nat),
    ensures
        final(out)@ == old(out)@ + ser_hex(n as nat, k as nat),
    decreases k,
{
    if k == 0 {
        proof {
            assert(out@ + Seq::<char>::empty() =~= out@);
        }
        return ;
    }
    let p = pow16_exec(k - 1);
    proof {
        lemma_pow16_pos((k - 1) as nat);
        assert((n as nat) / (p as nat) < 16) by (nonlinear_arith)
            requires
                (n as nat) < 16 * (p as nat),
                (p as nat) >= 1,
        ;
        assert((n as nat) % (p as nat) < (p as nat)) by (nonlinear_arith)
            requires
                (p as nat) >= 1,
        ;
    }
    let d = n / p;
    out.push(hex_digit_exec(d as u8));
    let ghost mid = out@;
    ser_hex_exec(n % p, k - 1, out);
    proof {
        assert(out@ =~= old(out)@ + ser_hex(n as nat, k as nat));
    }
}

/// Reads exactly `k` hex digits at `i`; the parse the specification
/// describes, with the folded value returned as `u128`.
pub fn parse_hex_exec(s: &Vec<char>, i: usize, k: usize) -> (r: Option<(u128, usize)>)
    requires
        k <= 32,
    ensures
        match r {
            Some((v, j)) => parse_hex_at(s@, i as int, k as nat, 0) == Some::<(nat, int)>(
                (v as nat, j as int),
            ),
            None => parse_hex_at(s@, i as int, k as nat, 0) is None,
        },
{
    let mut acc: u128 = 0;
    let mut j: usize = i;
    let mut rem: usize = k;
    while rem > 0
        invariant
            rem <= k <= 32,
            i <= j,
            (acc as nat) < pow16((k - rem) as nat),
            parse_hex_at(s@, i as int, k as nat, 0) == parse_hex_at(
                s@,
                j as int,
                rem as nat,
                acc as nat,
            ),
        decreases rem,
    {
        if j >= s.len() {
            return None;
        }
        let c = s[j];
        let u = c as u32;
        let v: u32 = if 48 <= u && u <= 57 {
            u - 48
        } else if 97 <= u && u <= 102 {
            u - 87
        } else {
            return None;
        };
        proof {
            assert(is_hex_digit_char(c));
            assert(v as nat == hex_val(c));
            lemma_pow16_mono((k - rem + 1) as nat, 32);
            lemma_pow16_values();
            assert((acc as nat) * 16 + (v as nat) < pow16((k - rem + 1) as nat)) by (
            nonlinear_arith)
                requires
                    (acc as nat) < pow16((k - rem) as nat),
                    (v as nat) < 16,
                    pow16((k - rem + 1) as nat) == 16 * pow16((k - rem) as nat),
            ;
        }
        acc = acc * 16 + (v as u128);
        j += 1;
        rem -= 1;
    }
    Some((acc, j))
}

// ---------------------------------------------------------------------------
// Decimal, variable width, no leading zeros.
// ---------------------------------------------------------------------------

pub open spec fn is_dec_digit_char(c: char) -> bool {
    48 <= c as u32 && c as u32 <= 57
}

pub open spec fn dec_val(c: char) -> nat {
    (c as u32 - 48) as nat
}

pub open spec fn dec_digit(n: nat) -> char {
    (48 + n) as char
}

/// The decimal digits of `n`, most significant first, without leading zeros.
pub open spec fn ser_nat(n: nat) -> Seq<char>
    decreases n,
{
    if n < 10 {
        seq![dec_digit(n)]
    } else {
        ser_nat(n / 10).push(dec_digit(n % 10))
    }
}

/// Consumes decimal digits from `i` for as long as they last, folding them
/// onto `acc`; returns the folded value and the first unconsumed position.
pub open spec fn parse_nat_at(s: Seq<char>, i: int, acc: nat) -> (nat, int)
    decreases s.len() - i,
{
    if 0 <= i < s.len() && is_dec_digit_char(s[i]) {
        parse_nat_at(s, i + 1, acc * 10 + dec_val(s[i]))
    } else {
        (acc, i)
    }
}

pub proof fn lemma_ser_nat_len(n: nat)
    ensures
        ser_nat(n).len() >= 1,
        n < pow10(ser_nat(n).len()),
    decreases n,
{
    if n < 10 {
        assert(pow10(0) == 1);
        assert(pow10(1) == 10);
    } else {
        lemma_ser_nat_len(n / 10);
        let l = ser_nat(n / 10).len();
        lemma_fundamental_div_mod(n as int, 10);
        lemma_mod_pos_bound(n as int, 10);
        assert(n < pow10(l + 1)) by (nonlinear_arith)
            requires
                n == 10 * (n / 10) + n % 10,
                n / 10 < pow10(l),
                0 <= n % 10 < 10,
                pow10(l + 1) == 10 * pow10(l),
        ;
    }
}

/// Parsing undoes serializing, continuation style: where the document
/// carries the digits of `n` at `i`, the parse folds them onto `acc` and
/// goes on right after them.
pub proof fn lemma_parse_ser_nat(doc: Seq<char>, i: int, n: nat, acc: nat)
    requires
        0 <= i,
        i + ser_nat(n).len() <= doc.len(),
        doc.subrange(i, i + ser_nat(n).len()) == ser_nat(n),
    ensures
        parse_nat_at(doc, i, acc) == parse_nat_at(
            doc,
            i + ser_nat(n).len(),
            (acc * pow10(ser_nat(n).len()) + n) as nat,
        ),
    decreases n,
{
    let l = ser_nat(n).len();
    if n < 10 {
        assert(doc[i] == ser_nat(n)[0]);
        assert(pow10(0) == 1);
        assert(pow10(1) == 10);
    } else {
        let lh = ser_nat(n / 10).len();
        assert(l == lh + 1);
        assert(doc.subrange(i, i + lh as int) =~= ser_nat(n / 10)) by {
            assert forall|t: int|
                #![trigger ser_nat(n / 10)[t]]
                0 <= t < lh implies doc.subrange(i, i + lh as int)[t] == ser_nat(
                n / 10,
            )[t] by {
                assert(doc.subrange(i, i + l as int)[t] == ser_nat(n)[t]);
            }
        }
        lemma_parse_ser_nat(doc, i, n / 10, acc);
        assert(doc[i + lh as int] == ser_nat(n)[lh as int]);
        assert(doc[i + lh as int] == dec_digit(n % 10));
        assert(is_dec_digit_char(dec_digit(n % 10)) && dec_val(dec_digit(n % 10)) == n % 10);
        lemma_fundamental_div_mod(n as int, 10);
        assert((acc * pow10(lh) + n / 10) * 10 + n % 10 == acc * (10 * pow10(lh)) + (10 * (n / 10)
            + n % 10)) by (nonlinear_arith);
        assert(parse_nat_at(doc, i + lh as int, (acc * pow10(lh) + n / 10) as nat) == parse_nat_at(
            doc,
            i + l as int,
            (acc * pow10(l) + n) as nat,
        ));
    }
}

/// The folded value is never below the accumulator it began with.
pub proof fn lemma_parse_nat_lb(s: Seq<char>, i: int, acc: nat)
    ensures
        parse_nat_at(s, i, acc).0 >= acc,
        parse_nat_at(s, i, acc).1 >= i,
    decreases s.len() - i,
{
    if 0 <= i < s.len() && is_dec_digit_char(s[i]) {
        let acc2 = acc * 10 + dec_val(s[i]);
        assert(acc2 >= acc) by (nonlinear_arith)
            requires
                acc2 == acc * 10 + dec_val(s[i]),
                acc >= 0,
                dec_val(s[i]) >= 0,
        ;
        lemma_parse_nat_lb(s, i + 1, acc2);
    }
}

fn dec_digit_exec(v: u8) -> (c: char)
    requires
        v < 10,
    ensures
        c == dec_digit(v as nat),
{
    (48 + v) as char
}

fn is_dec_digit_exec(c: char) -> (r: bool)
    ensures
        r == is_dec_digit_char(c),
{
    let u = c as u32;
    48 <= u && u <= 57
}

/// Appends the decimal digits of `n`, most significant first.
pub fn ser_nat_exec(n: u64, out: &mut Vec<char>)
    ensures
        final(out)@ == old(out)@ + ser_nat(n as nat),
    decreases n,
{
    if n < 10 {
        out.push(dec_digit_exec(n as u8));
        proof {
            assert(out@ =~= old(out)@ + ser_nat(n as nat));
        }
    } else {
        ser_nat_exec(n / 10, out);
        out.push(dec_digit_exec((n % 10) as u8));
        proof {
            assert(out@ =~= old(out)@ + ser_nat(n as nat));
        }
    }
}

/// Folds decimal digits starting at `i` exactly as the specification does;
/// a run whose value passes `0xFFFF_FFFF` is reported as too large instead.
pub fn parse_nat_exec(s: &Vec<char>, i: usize) -> (r: Option<(u64, usize)>)
    requires
        i <= s@.len(),
    ensures
        match r {
            Some((v, j)) => parse_nat_at(s@, i as int, 0) == ((v as nat, j as int)) && v
                <= 0xFFFF_FFFF && j <= s@.len(),
            None => parse_nat_at(s@, i as int, 0).0 > 0xFFFF_FFFF,
        },
{
    let mut acc: u64 = 0;
    let mut j: usize = i;
    while j < s.len() && is_dec_digit_exec(s[j])
        invariant
            i <= j <= s@.len(),
            acc <= 0xFFFF_FFFF,
            parse_nat_at(s@, i as int, 0) == parse_nat_at(s@, j as int, acc as nat),
        decreases s@.len() - j,
    {
        let v = (s[j] as u32) - 48;
        proof {
            assert(is_dec_digit_char(s@[j as int]));
            assert(v as nat == dec_val(s@[j as int]));
        }
        acc = acc * 10 + (v as u64);
        j += 1;
        if acc > 0xFFFF_FFFF {
            proof {
                lemma_parse_nat_lb(s@, j as int, acc as nat);
            }
            return None;
        }
    }
    Some((acc, j))
}

} // verus!
