//! The persistence codec: one JSON document holding the whole catalogue
//! state, with the books, the magazines, the borrow relation and the readers
//! as four top-level sequences. The serializer and the parser are both
//! verified, and parsing is proved to undo serializing.

use vstd::prelude::*;

use crate::catalogue::{Catalogue, CatalogueView};
use crate::codec_num::{
    is_dec_digit_char, lemma_parse_ser_hex, lemma_parse_ser_nat, lemma_parse_nat_lb,
    lemma_pow16_values, lemma_ser_hex_len, lemma_ser_nat_len, parse_hex_at, parse_hex_exec,
    parse_nat_at, parse_nat_exec, pow16, ser_hex, ser_hex_exec, ser_nat, ser_nat_exec,
};
use crate::codec_text::{
    lemma_parse_ser_string, parse_string_at, parse_string_exec, ser_string, ser_string_exec,
};
use crate::entities::{Book, BookView, CatalogueItem, Magazine, MagazineView, Reader, ReaderView};
use crate::errors::DepoError;
use crate::text::{chars_to_string, str_to_chars};

verus! {

// ---------------------------------------------------------------------------
// Identifiers: the 36-character hyphenated lower-case hex form.
// ---------------------------------------------------------------------------

/// The textual form of a 128-bit identifier: five hex groups of 8, 4, 4, 4
/// and 12 digits, most significant first, separated by hyphens.
pub open spec fn ser_uuid(u: u128) -> Seq<char> {
    let n = u as nat;
    let g5 = n % 0x1000000000000;
    let r1 = n / 0x1000000000000;
    let g4 = r1 % 0x10000;
    let r2 = r1 / 0x10000;
    let g3 = r2 % 0x10000;
    let r3 = r2 / 0x10000;
    let g2 = r3 % 0x10000;
    let g1 = r3 / 0x10000;
    ser_hex(g1, 8) + (seq!['-'] + (ser_hex(g2, 4) + (seq!['-'] + (ser_hex(g3, 4) + (seq!['-'] + (
    ser_hex(g4, 4) + (seq!['-'] + ser_hex(g5, 12))))))))
}

/// Reads the 36-character identifier form starting at `i`.
pub open spec fn parse_uuid_at(s: Seq<char>, i: int) -> Option<(nat, int)> {
    match parse_hex_at(s, i, 8, 0) {
        Some((g1, j1)) => if 0 <= j1 < s.len() && s[j1] == '-' {
            match parse_hex_at(s, j1 + 1, 4, 0) {
                Some((g2, j2)) => if 0 <= j2 < s.len() && s[j2] == '-' {
                    match parse_hex_at(s, j2 + 1, 4, 0) {
                        Some((g3, j3)) => if 0 <= j3 < s.len() && s[j3] == '-' {
                            match parse_hex_at(s, j3 + 1, 4, 0) {
                                Some((g4, j4)) => if 0 <= j4 < s.len() && s[j4] == '-' {
                                    match parse_hex_at(s, j4 + 1, 12, 0) {
                                        Some((g5, j5)) => Some(
                                            (
                                                ((((g1 * 0x10000 + g2) * 0x10000 + g3) * 0x10000
                                                    + g4) * 0x1000000000000 + g5) as nat,
                                                j5,
                                            ),
                                        ),
                                        None => None,
                                    }
                                } else {
                                    None
                                },
                                None => None,
                            }
                        } else {
                            None
                        },
                        None => None,
                    }
                } else {
                    None
                },
                None => None,
            }
        } else {
            None
        },
        None => None,
    }
}

/// Splits a context that carries `a + b` at `i` into its two pieces.
pub proof fn lemma_subrange_concat(doc: Seq<char>, i: int, a: Seq<char>, b: Seq<char>)
    requires
        0 <= i,
        i + a.len() + b.len() <= doc.len(),
        doc.subrange(i, i + a.len() + b.len()) == a + b,
    ensures
        doc.subrange(i, i + a.len()) == a,
        doc.subrange(i + a.len(), i + a.len() + b.len()) == b,
{
    let al = a.len() as int;
    let bl = b.len() as int;
    assert(doc.subrange(i, i + al) =~= a) by {
        assert forall|t: int| 0 <= t < al implies doc.subrange(i, i + al)[t] == a[t] by {
            assert(doc.subrange(i, i + al + bl)[t] == (a + b)[t]);
        }
    }
    assert(doc.subrange(i + al, i + al + bl) =~= b) by {
        assert forall|t: int| 0 <= t < bl implies doc.subrange(i + al, i + al + bl)[t] == b[t] by {
            assert(doc.subrange(i, i + al + bl)[al + t] == (a + b)[al + t]);
        }
    }
}

/// Parsing undoes serializing for the identifier form.
pub proof fn lemma_parse_ser_uuid(doc: Seq<char>, i: int, u: u128)
    requires
        0 <= i,
        i + 36 <= doc.len(),
        doc.subrange(i, i + 36) == ser_uuid(u),
    ensures
        parse_uuid_at(doc, i) == Some((u as nat, i + 36)),
{
    lemma_pow16_values();
    let n = u as nat;
    let g5 = n % 0x1000000000000;
    let r1 = n / 0x1000000000000;
    let g4 = r1 % 0x10000;
    let r2 = r1 / 0x10000;
    let g3 = r2 % 0x10000;
    let r3 = r2 / 0x10000;
    let g2 = r3 % 0x10000;
    let g1 = r3 / 0x10000;
    assert(g1 < pow16(8)) by (nonlinear_arith)
        requires
            g1 == ((n / 0x1000000000000) / 0x10000) / 0x10000 / 0x10000,
            n < 0x100000000000000000000000000000000,
            pow16(8) == 0x100000000,
    ;
    assert(g2 < pow16(4) && g3 < pow16(4) && g4 < pow16(4) && g5 < pow16(12)) by (nonlinear_arith)
        requires
            g2 == r3 % 0x10000,
            g3 == r2 % 0x10000,
            g4 == r1 % 0x10000,
            g5 == n % 0x1000000000000,
            pow16(4) == 0x10000,
            pow16(12) == 0x1000000000000,
    ;
    lemma_ser_hex_len(g1, 8);
    lemma_ser_hex_len(g2, 4);
    lemma_ser_hex_len(g3, 4);
    lemma_ser_hex_len(g4, 4);
    lemma_ser_hex_len(g5, 12);
    let h1 = ser_hex(g1, 8);
    let h2 = ser_hex(g2, 4);
    let h3 = ser_hex(g3, 4);
    let h4 = ser_hex(g4, 4);
    let h5 = ser_hex(g5, 12);
    let d = seq!['-'];
    lemma_subrange_concat(doc, i, h1, d + (h2 + (d + (h3 + (d + (h4 + (d + h5)))))));
    lemma_subrange_concat(doc, i + 8, d, h2 + (d + (h3 + (d + (h4 + (d + h5))))));
    lemma_subrange_concat(doc, i + 9, h2, d + (h3 + (d + (h4 + (d + h5)))));
    lemma_subrange_concat(doc, i + 13, d, h3 + (d + (h4 + (d + h5))));
    lemma_subrange_concat(doc, i + 14, h3, d + (h4 + (d + h5)));
    lemma_subrange_concat(doc, i + 18, d, h4 + (d + h5));
    lemma_subrange_concat(doc, i + 19, h4, d + h5);
    lemma_subrange_concat(doc, i + 23, d, h5);
    lemma_parse_ser_hex(doc, i, g1, 8, 0);
    lemma_parse_ser_hex(doc, i + 9, g2, 4, 0);
    lemma_parse_ser_hex(doc, i + 14, g3, 4, 0);
    lemma_parse_ser_hex(doc, i + 19, g4, 4, 0);
    lemma_parse_ser_hex(doc, i + 24, g5, 12, 0);
    assert(doc[i + 8] == '-') by {
        assert(doc.subrange(i + 8, i + 9)[0] == d[0]);
    }
    assert(doc[i + 13] == '-') by {
        assert(doc.subrange(i + 13, i + 14)[0] == d[0]);
    }
    assert(doc[i + 18] == '-') by {
        assert(doc.subrange(i + 18, i + 19)[0] == d[0]);
    }
    assert(doc[i + 23] == '-') by {
        assert(doc.subrange(i + 23, i + 24)[0] == d[0]);
    }
    assert(0 * pow16(8) + g1 == g1) by (nonlinear_arith);
    assert(0 * pow16(4) + g2 == g2) by (nonlinear_arith);
    assert(0 * pow16(12) + g5 == g5) by (nonlinear_arith);
    assert(n == ((((g1 * 0x10000 + g2) * 0x10000 + g3) * 0x10000 + g4) * 0x1000000000000
        + g5) as nat) by (nonlinear_arith)
        requires
            g5 == n % 0x1000000000000,
            r1 == n / 0x1000000000000,
            g4 == r1 % 0x10000,
            r2 == r1 / 0x10000,
            g3 == r2 % 0x10000,
            r3 == r2 / 0x10000,
            g2 == r3 % 0x10000,
            g1 == r3 / 0x10000,
    ;
}

/// Appends the 36-character identifier form of `u`.
pub fn ser_uuid_exec(u: u128, out: &mut Vec<char>)
    ensures
        final(out)@ == old(out)@ + ser_uuid(u),
{
    proof {
        lemma_pow16_values();
        let n = u as nat;
        assert((n / 0x1000000000000) / 0x10000 / 0x10000 / 0x10000 < pow16(8)) by (nonlinear_arith)
            requires
                n < 0x100000000000000000000000000000000,
                pow16(8) == 0x100000000,
        ;
        assert(n % 0x1000000000000 < pow16(12) && ((n / 0x1000000000000) % 0x10000) < pow16(4) && ((
        n / 0x1000000000000 / 0x10000) % 0x10000) < pow16(4) && ((n / 0x1000000000000 / 0x10000
            / 0x10000) % 0x10000) < pow16(4)) by (nonlinear_arith)
            requires
                pow16(4) == 0x10000,
                pow16(12) == 0x1000000000000,
        ;
    }
    let g5 = u % 0x1000000000000;
    let r1 = u / 0x1000000000000;
    let g4 = r1 % 0x10000;
    let r2 = r1 / 0x10000;
    let g3 = r2 % 0x10000;
    let r3 = r2 / 0x10000;
    let g2 = r3 % 0x10000;
    let g1 = r3 / 0x10000;
    ser_hex_exec(g1, 8, out);
    out.push('-');
    ser_hex_exec(g2, 4, out);
    out.push('-');
    ser_hex_exec(g3, 4, out);
    out.push('-');
    ser_hex_exec(g4, 4, out);
    out.push('-');
    ser_hex_exec(g5, 12, out);
    proof {
        assert(out@ =~= old(out)@ + ser_uuid(u));
    }
}

/// Reads the 36-character identifier form starting at `i`; exactly the parse
/// the specification describes.
pub fn parse_uuid_exec(s: &Vec<char>, i: usize) -> (r: Option<(u128, usize)>)
    ensures
        match r {
            Some((u, j)) => parse_uuid_at(s@, i as int) == Some((u as nat, j as int)) && j
                <= s@.len(),
            None => parse_uuid_at(s@, i as int) is None,
        },
{
    proof {
        lemma_pow16_values();
    }
    let (g1, j1) = match parse_hex_exec(s, i, 8) {
        Some(x) => x,
        None => {
            return None;
        },
    };
    proof {
        crate::codec_num::lemma_parse_hex_lb(s@, i as int, 8, 0);
        lemma_parse_hex_ub(s@, i as int, 8);
    }
    if j1 >= s.len() || s[j1] != '-' {
        return None;
    }
    let (g2, j2) = match parse_hex_exec(s, j1 + 1, 4) {
        Some(x) => x,
        None => {
            return None;
        },
    };
    proof {
        crate::codec_num::lemma_parse_hex_lb(s@, j1 as int + 1, 4, 0);
        lemma_parse_hex_ub(s@, j1 as int + 1, 4);
    }
    if j2 >= s.len() || s[j2] != '-' {
        return None;
    }
    let (g3, j3) = match parse_hex_exec(s, j2 + 1, 4) {
        Some(x) => x,
        None => {
            return None;
        },
    };
    proof {
        crate::codec_num::lemma_parse_hex_lb(s@, j2 as int + 1, 4, 0);
        lemma_parse_hex_ub(s@, j2 as int + 1, 4);
    }
    if j3 >= s.len() || s[j3] != '-' {
        return None;
    }
    let (g4, j4) = match parse_hex_exec(s, j3 + 1, 4) {
        Some(x) => x,
        None => {
            return None;
        },
    };
    proof {
        crate::codec_num::lemma_parse_hex_lb(s@, j3 as int + 1, 4, 0);
        lemma_parse_hex_ub(s@, j3 as int + 1, 4);
    }
    if j4 >= s.len() || s[j4] != '-' {
        return None;
    }
    let (g5, j5) = match parse_hex_exec(s, j4 + 1, 12) {
        Some(x) => x,
        None => {
            return None;
        },
    };
    proof {
        crate::codec_num::lemma_parse_hex_lb(s@, j4 as int + 1, 12, 0);
        lemma_parse_hex_ub(s@, j4 as int + 1, 12);
        assert(((((g1 as nat) * 0x10000 + (g2 as nat)) * 0x10000 + (g3 as nat)) * 0x10000 + (
        g4 as nat)) * 0x1000000000000 + (g5 as nat) < 0x100000000000000000000000000000000) by (
        nonlinear_arith)
            requires
                (g1 as nat) < 0x100000000,
                (g2 as nat) < 0x10000,
                (g3 as nat) < 0x10000,
                (g4 as nat) < 0x10000,
                (g5 as nat) < 0x1000000000000,
        ;
    }
    let u = (((g1 * 0x10000 + g2) * 0x10000 + g3) * 0x10000 + g4) * 0x1000000000000 + g5;
    Some((u, j5))
}

/// A fold that starts at zero stays under the power of its width.
pub proof fn lemma_parse_hex_ub(s: Seq<char>, i: int, k: nat)
    requires
        parse_hex_at(s, i, k, 0) is Some,
    ensures
        parse_hex_at(s, i, k, 0).unwrap().0 < pow16(k),
{
    lemma_parse_hex_ub_general(s, i, k, 0);
    assert((0 + 1) * pow16(k) == pow16(k)) by (nonlinear_arith);
}

proof fn lemma_parse_hex_ub_general(s: Seq<char>, i: int, k: nat, acc: nat)
    requires
        parse_hex_at(s, i, k, acc) is Some,
    ensures
        parse_hex_at(s, i, k, acc).unwrap().0 < (acc + 1) * pow16(k),
    decreases k,
{
    if k == 0 {
        assert((acc + 1) * 1 == acc + 1) by (nonlinear_arith);
    } else {
        let acc2 = acc * 16 + crate::codec_num::hex_val(s[i]);
        lemma_parse_hex_ub_general(s, i + 1, (k - 1) as nat, acc2);
        crate::codec_num::lemma_pow16_pos((k - 1) as nat);
        assert((acc2 + 1) * pow16((k - 1) as nat) <= (acc + 1) * pow16(k)) by (nonlinear_arith)
            requires
                acc2 <= acc * 16 + 15,
                pow16(k) == 16 * pow16((k - 1) as nat),
                pow16((k - 1) as nat) >= 1,
                acc >= 0,
        ;
    }
}

// ---------------------------------------------------------------------------
// Years: signed decimal.
// ---------------------------------------------------------------------------

/// The decimal form of a (possibly negative) year.
pub open spec fn ser_i32(v: int) -> Seq<char> {
    if v < 0 {
        seq!['-'] + ser_nat((-v) as nat)
    } else {
        ser_nat(v as nat)
    }
}

/// Reads a signed decimal number starting at `i`; values outside the 32-bit
/// signed range are rejected.
pub open spec fn parse_i32_at(s: Seq<char>, i: int) -> Option<(int, int)> {
    if 0 <= i < s.len() && s[i] == '-' {
        let f = parse_nat_at(s, i + 1, 0);
        if f.1 > i + 1 && f.0 <= 0x80000000 {
            Some((-(f.0 as int), f.1))
        } else {
            None
        }
    } else if 0 <= i {
        let f = parse_nat_at(s, i, 0);
        if f.1 > i && f.0 <= 0x7FFFFFFF {
            Some((f.0 as int, f.1))
        } else {
            None
        }
    } else {
        None
    }
}

/// The first character of a decimal form is a digit.
pub proof fn lemma_ser_nat_first_digit(n: nat)
    ensures
        is_dec_digit_char(ser_nat(n)[0]),
    decreases n,
{
    if n < 10 {
    } else {
        lemma_ser_nat_first_digit(n / 10);
        lemma_ser_nat_len(n / 10);
        assert(ser_nat(n)[0] == ser_nat(n / 10)[0]);
    }
}

/// Parsing undoes serializing for a year, provided a non-digit follows it.
pub proof fn lemma_parse_ser_i32(doc: Seq<char>, i: int, v: i32)
    requires
        0 <= i,
        i + ser_i32(v as int).len() < doc.len(),
        doc.subrange(i, i + ser_i32(v as int).len()) == ser_i32(v as int),
        !is_dec_digit_char(doc[i + ser_i32(v as int).len()]),
    ensures
        parse_i32_at(doc, i) == Some((v as int, i + ser_i32(v as int).len())),
{
    let l = ser_i32(v as int).len() as int;
    if v < 0 {
        let m = (-(v as int)) as nat;
        lemma_ser_nat_len(m);
        lemma_subrange_concat(doc, i, seq!['-'], ser_nat(m));
        assert(doc[i] == '-') by {
            assert(doc.subrange(i, i + 1)[0] == seq!['-'][0]);
        }
        lemma_parse_ser_nat(doc, i + 1, m, 0);
        assert(0 * crate::codec_num::pow10(ser_nat(m).len()) + m == m) by (nonlinear_arith);
        assert(parse_nat_at(doc, i + l, m) == ((m, i + l)));
        assert(parse_nat_at(doc, i + 1, 0) == ((m, i + l)));
    } else {
        let m = (v as int) as nat;
        lemma_ser_nat_len(m);
        lemma_ser_nat_first_digit(m);
        assert(doc[i] == ser_nat(m)[0]);
        assert(doc[i] != '-');
        lemma_parse_ser_nat(doc, i, m, 0);
        assert(0 * crate::codec_num::pow10(ser_nat(m).len()) + m == m) by (nonlinear_arith);
        assert(parse_nat_at(doc, i + l, m) == ((m, i + l)));
        assert(parse_nat_at(doc, i, 0) == ((m, i + l)));
    }
}

/// Appends the decimal form of `v`.
pub fn ser_i32_exec(v: i32, out: &mut Vec<char>)
    ensures
        final(out)@ == old(out)@ + ser_i32(v as int),
{
    if v < 0 {
        out.push('-');
        let m = -(v as i64);
        ser_nat_exec(m as u64, out);
        proof {
            assert(out@ =~= old(out)@ + ser_i32(v as int));
        }
    } else {
        ser_nat_exec(v as u64, out);
    }
}

/// Reads a year starting at `i`; exactly the parse the specification
/// describes.
pub fn parse_i32_exec(s: &Vec<char>, i: usize) -> (r: Option<(i32, usize)>)
    requires
        i <= s@.len(),
    ensures
        match r {
            Some((v, j)) => parse_i32_at(s@, i as int) == Some((v as int, j as int)) && j
                <= s@.len(),
            None => parse_i32_at(s@, i as int) is None,
        },
{
    if i < s.len() && s[i] == '-' {
        match parse_nat_exec(s, i + 1) {
            Some((val, j)) => {
                if j > i + 1 && val <= 0x80000000 {
                    Some(((-(val as i64)) as i32, j))
                } else {
                    None
                }
            },
            None => {
                proof {
                    lemma_parse_nat_lb(s@, i as int + 1, 0);
                }
                None
            },
        }
    } else {
        match parse_nat_exec(s, i) {
            Some((val, j)) => {
                if j > i && val <= 0x7FFFFFFF {
                    Some((val as i32, j))
                } else {
                    None
                }
            },
            None => {
                proof {
                    lemma_parse_nat_lb(s@, i as int, 0);
                }
                None
            },
        }
    }
}

// ---------------------------------------------------------------------------
// The fixed pieces of the document.
// ---------------------------------------------------------------------------

#[verifier::opaque]
pub open spec fn lit_obj_uuid() -> Seq<char> {
    seq!['{', '"', 'u', 'u', 'i', 'd', '"', ':', '"']
}

#[verifier::opaque]
pub open spec fn lit_isbn() -> Seq<char> {
    seq!['"', ',', '"', 'i', 's', 'b', 'n', '_', 'c', 'o', 'd', 'e', '"', ':']
}

#[verifier::opaque]
pub open spec fn lit_title() -> Seq<char> {
    seq![',', '"', 't', 'i', 't', 'l', 'e', '"', ':']
}

#[verifier::opaque]
pub open spec fn lit_year() -> Seq<char> {
    seq![',', '"', 'y', 'e', 'a', 'r', '"', ':']
}

#[verifier::opaque]
pub open spec fn lit_hero() -> Seq<char> {
    seq![',', '"', 's', 'u', 'p', 'e', 'r', '_', 'h', 'e', 'r', 'o', '"', ':']
}

#[verifier::opaque]
pub open spec fn lit_name() -> Seq<char> {
    seq!['"', ',', '"', 'n', 'a', 'm', 'e', '"', ':']
}

#[verifier::opaque]
pub open spec fn lit_close() -> Seq<char> {
    seq!['}']
}

#[verifier::opaque]
pub open spec fn lit_pair_open() -> Seq<char> {
    seq!['[', '"']
}

#[verifier::opaque]
pub open spec fn lit_pair_mid() -> Seq<char> {
    seq!['"', ',', '"']
}

#[verifier::opaque]
pub open spec fn lit_pair_close() -> Seq<char> {
    seq!['"', ']']
}


/// The lengths and the leading characters of the fixed pieces.
pub proof fn lemma_lit_facts()
    ensures
        lit_obj_uuid().len() == 9,
        lit_obj_uuid()[0] == '{',
        lit_isbn().len() == 14,
        lit_title().len() == 9,
        lit_year().len() == 8,
        lit_hero().len() == 14,
        lit_hero()[0] == ',',
        lit_name().len() == 9,
        lit_close().len() == 1,
        lit_close()[0] == '}',
        lit_pair_open().len() == 2,
        lit_pair_open()[0] == '[',
        lit_pair_mid().len() == 3,
        lit_pair_close().len() == 2,
        lit_doc_books().len() == 20,
        lit_doc_mags().len() == 24,
        lit_doc_borrows().len() == 11,
        lit_doc_readers().len() == 11,
{
    reveal(lit_obj_uuid);
    reveal(lit_isbn);
    reveal(lit_title);
    reveal(lit_year);
    reveal(lit_hero);
    reveal(lit_name);
    reveal(lit_close);
    reveal(lit_pair_open);
    reveal(lit_pair_mid);
    reveal(lit_pair_close);
    reveal(lit_doc_books);
    reveal(lit_doc_mags);
    reveal(lit_doc_borrows);
    reveal(lit_doc_readers);
}

/// Consumes the exact characters of `lit` at `i`, or nothing.
pub open spec fn match_lit(s: Seq<char>, i: int, lit: Seq<char>) -> Option<int> {
    if 0 <= i && i + lit.len() <= s.len() && s.subrange(i, i + lit.len()) == lit {
        Some(i + lit.len())
    } else {
        None
    }
}

/// Appends the characters of `lit`.
pub fn push_lit(out: &mut Vec<char>, lit: &Vec<char>)
    ensures
        final(out)@ == old(out)@ + lit@,
{
    let n = lit.len();
    let mut t: usize = 0;
    proof {
        assert(out@ =~= old(out)@ + lit@.subrange(0, 0));
    }
    while t < n
        invariant
            0 <= t <= n,
            n == lit@.len(),
            out@ == old(out)@ + lit@.subrange(0, t as int),
        decreases n - t,
    {
        out.push(lit[t]);
        proof {
            assert(lit@.subrange(0, t as int + 1) =~= lit@.subrange(0, t as int).push(
                lit@[t as int],
            ));
            assert(out@ =~= old(out)@ + lit@.subrange(0, t as int + 1));
        }
        t += 1;
    }
    proof {
        assert(lit@.subrange(0, n as int) =~= lit@);
    }
}

/// Reads the exact characters of `lit` at `i`; exactly the match the
/// specification describes.
pub fn expect_lit(s: &Vec<char>, i: usize, lit: &Vec<char>) -> (r: Option<usize>)
    ensures
        match r {
            Some(j) => match_lit(s@, i as int, lit@) == Some(j as int) && j <= s@.len(),
            None => match_lit(s@, i as int, lit@) is None,
        },
{
    let n = lit.len();
    if i > s.len() || n > s.len() - i {
        return None;
    }
    let mut t: usize = 0;
    while t < n
        invariant
            0 <= t <= n,
            n == lit@.len(),
            i + n <= s@.len(),
            i + n <= usize::MAX,
            forall|q: int| 0 <= q < t ==> s@[i + q] == lit@[q],
        decreases n - t,
    {
        if s[i + t] != lit[t] {
            proof {
                assert(s@.subrange(i as int, i as int + n as int)[t as int] == s@[i as int
                    + t as int]);
            }
            return None;
        }
        t += 1;
    }
    proof {
        assert(s@.subrange(i as int, i as int + n as int) =~= lit@);
    }
    Some(i + n)
}

// ---------------------------------------------------------------------------
// Records: one book, one magazine, one reader, one borrow pair.
// ---------------------------------------------------------------------------

pub open spec fn ser_book(b: BookView) -> Seq<char> {
    lit_obj_uuid() + (ser_uuid(b.uuid) + (lit_isbn() + (ser_string(b.isbn_code) + (lit_title() + (
    ser_string(b.title) + (lit_year() + (ser_i32(b.year as int) + lit_close())))))))
}

pub open spec fn ser_magazine(m: MagazineView) -> Seq<char> {
    lit_obj_uuid() + (ser_uuid(m.uuid) + (lit_isbn() + (ser_string(m.isbn_code) + (lit_title() + (
    ser_string(m.title) + (lit_year() + (ser_i32(m.year as int) + (lit_hero() + (ser_string(
        m.super_hero,
    ) + lit_close())))))))))
}

pub open spec fn ser_reader(r: ReaderView) -> Seq<char> {
    lit_obj_uuid() + (ser_uuid(r.uuid) + (lit_name() + (ser_string(r.name) + lit_close())))
}

pub open spec fn ser_pair(p: (u128, u128)) -> Seq<char> {
    lit_pair_open() + (ser_uuid(p.0) + (lit_pair_mid() + (ser_uuid(p.1) + lit_pair_close())))
}

pub open spec fn parse_book_at(s: Seq<char>, i: int) -> Option<(BookView, int)> {
    match match_lit(s, i, lit_obj_uuid()) {
        Some(j1) => match parse_uuid_at(s, j1) {
            Some((u, j2)) => match match_lit(s, j2, lit_isbn()) {
                Some(j3) => match parse_string_at(s, j3) {
                    Some((isbn, j4)) => match match_lit(s, j4, lit_title()) {
                        Some(j5) => match parse_string_at(s, j5) {
                            Some((title, j6)) => match match_lit(s, j6, lit_year()) {
                                Some(j7) => match parse_i32_at(s, j7) {
                                    Some((y, j8)) => match match_lit(s, j8, lit_close()) {
                                        Some(j9) => Some(
                                            (
                                                BookView {
                                                    uuid: u as u128,
                                                    isbn_code: isbn,
                                                    title: title,
                                                    year: y as i32,
                                                },
                                                j9,
                                            ),
                                        ),
                                        None => None,
                                    },
                                    None => None,
                                },
                                None => None,
                            },
                            None => None,
                        },
                        None => None,
                    },
                    None => None,
                },
                None => None,
            },
            None => None,
        },
        None => None,
    }
}

pub open spec fn parse_magazine_at(s: Seq<char>, i: int) -> Option<(MagazineView, int)> {
    match match_lit(s, i, lit_obj_uuid()) {
        Some(j1) => match parse_uuid_at(s, j1) {
            Some((u, j2)) => match match_lit(s, j2, lit_isbn()) {
                Some(j3) => match parse_string_at(s, j3) {
                    Some((isbn, j4)) => match match_lit(s, j4, lit_title()) {
                        Some(j5) => match parse_string_at(s, j5) {
                            Some((title, j6)) => match match_lit(s, j6, lit_year()) {
                                Some(j7) => match parse_i32_at(s, j7) {
                                    Some((y, j8)) => match match_lit(s, j8, lit_hero()) {
                                        Some(j9) => match parse_string_at(s, j9) {
                                            Some((hero, j10)) => match match_lit(
                                                s,
                                                j10,
                                                lit_close(),
                                            ) {
                                                Some(j11) => Some(
                                                    (
                                                        MagazineView {
                                                            uuid: u as u128,
                                                            isbn_code: isbn,
                                                            title: title,
                                                            year: y as i32,
                                                            super_hero: hero,
                                                        },
                                                        j11,
                                                    ),
                                                ),
                                                None => None,
                                            },
                                            None => None,
                                        },
                                        None => None,
                                    },
                                    None => None,
                                },
                                None => None,
                            },
                            None => None,
                        },
                        None => None,
                    },
                    None => None,
                },
                None => None,
            },
            None => None,
        },
        None => None,
    }
}

pub open spec fn parse_reader_at(s: Seq<char>, i: int) -> Option<(ReaderView, int)> {
    match match_lit(s, i, lit_obj_uuid()) {
        Some(j1) => match parse_uuid_at(s, j1) {
            Some((u, j2)) => match match_lit(s, j2, lit_name()) {
                Some(j3) => match parse_string_at(s, j3) {
                    Some((name, j4)) => match match_lit(s, j4, lit_close()) {
                        Some(j5) => Some((ReaderView { uuid: u as u128, name: name }, j5)),
                        None => None,
                    },
                    None => None,
                },
                None => None,
            },
            None => None,
        },
        None => None,
    }
}

pub open spec fn parse_pair_at(s: Seq<char>, i: int) -> Option<((u128, u128), int)> {
    match match_lit(s, i, lit_pair_open()) {
        Some(j1) => match parse_uuid_at(s, j1) {
            Some((a, j2)) => match match_lit(s, j2, lit_pair_mid()) {
                Some(j3) => match parse_uuid_at(s, j3) {
                    Some((b, j4)) => match match_lit(s, j4, lit_pair_close()) {
                        Some(j5) => Some(((a as u128, b as u128), j5)),
                        None => None,
                    },
                    None => None,
                },
                None => None,
            },
            None => None,
        },
        None => None,
    }
}

pub proof fn lemma_ser_uuid_len(u: u128)
    ensures
        ser_uuid(u).len() == 36,
{
    let n = u as nat;
    lemma_ser_hex_len(((n / 0x1000000000000) / 0x10000) / 0x10000 / 0x10000, 8);
    lemma_ser_hex_len(((n / 0x1000000000000) / 0x10000) % 0x10000, 4);
    lemma_ser_hex_len((n / 0x1000000000000) % 0x10000, 4);
    lemma_ser_hex_len(((n / 0x1000000000000) / 0x10000 / 0x10000) % 0x10000, 4);
    lemma_ser_hex_len(n % 0x1000000000000, 12);
}

/// Parsing undoes serializing for one book record.
pub proof fn lemma_parse_ser_book(doc: Seq<char>, i: int, b: BookView)
    requires
        0 <= i,
        i + ser_book(b).len() <= doc.len(),
        doc.subrange(i, i + ser_book(b).len()) == ser_book(b),
    ensures
        parse_book_at(doc, i) == Some((b, i + ser_book(b).len())),
{
    lemma_lit_facts();
    lemma_ser_uuid_len(b.uuid);
    let p2 = ser_uuid(b.uuid);
    let p4 = ser_string(b.isbn_code);
    let p6 = ser_string(b.title);
    let p8 = ser_i32(b.year as int);
    let r2 = p2 + (lit_isbn() + (p4 + (lit_title() + (p6 + (lit_year() + (p8 + lit_close()))))));
    let r3 = lit_isbn() + (p4 + (lit_title() + (p6 + (lit_year() + (p8 + lit_close())))));
    let r4 = p4 + (lit_title() + (p6 + (lit_year() + (p8 + lit_close()))));
    let r5 = lit_title() + (p6 + (lit_year() + (p8 + lit_close())));
    let r6 = p6 + (lit_year() + (p8 + lit_close()));
    let r7 = lit_year() + (p8 + lit_close());
    let r8 = p8 + lit_close();
    let j1 = i + 9;
    let j2 = j1 + 36;
    let j3 = j2 + 14;
    let j4 = j3 + p4.len() as int;
    let j5 = j4 + 9;
    let j6 = j5 + p6.len() as int;
    let j7 = j6 + 8;
    let j8 = j7 + p8.len() as int;
    let j9 = j8 + 1;
    lemma_subrange_concat(doc, i, lit_obj_uuid(), r2);
    lemma_subrange_concat(doc, j1, p2, r3);
    lemma_subrange_concat(doc, j2, lit_isbn(), r4);
    lemma_subrange_concat(doc, j3, p4, r5);
    lemma_subrange_concat(doc, j4, lit_title(), r6);
    lemma_subrange_concat(doc, j5, p6, r7);
    lemma_subrange_concat(doc, j6, lit_year(), r8);
    lemma_subrange_concat(doc, j7, p8, lit_close());
    lemma_parse_ser_uuid(doc, j1, b.uuid);
    lemma_parse_ser_string(doc, j3, b.isbn_code);
    lemma_parse_ser_string(doc, j5, b.title);
    assert(doc[j8] == '}') by {
        assert(doc.subrange(j8, j9)[0] == lit_close()[0]);
    }
    lemma_parse_ser_i32(doc, j7, b.year);
}

/// Parsing undoes serializing for one magazine record.
pub proof fn lemma_parse_ser_magazine(doc: Seq<char>, i: int, m: MagazineView)
    requires
        0 <= i,
        i + ser_magazine(m).len() <= doc.len(),
        doc.subrange(i, i + ser_magazine(m).len()) == ser_magazine(m),
    ensures
        parse_magazine_at(doc, i) == Some((m, i + ser_magazine(m).len())),
{
    lemma_lit_facts();
    lemma_ser_uuid_len(m.uuid);
    let p2 = ser_uuid(m.uuid);
    let p4 = ser_string(m.isbn_code);
    let p6 = ser_string(m.title);
    let p8 = ser_i32(m.year as int);
    let pa = ser_string(m.super_hero);
    let r2 = p2 + (lit_isbn() + (p4 + (lit_title() + (p6 + (lit_year() + (p8 + (lit_hero() + (pa
        + lit_close()))))))));
    let r3 = lit_isbn() + (p4 + (lit_title() + (p6 + (lit_year() + (p8 + (lit_hero() + (pa
        + lit_close())))))));
    let r4 = p4 + (lit_title() + (p6 + (lit_year() + (p8 + (lit_hero() + (pa + lit_close()))))));
    let r5 = lit_title() + (p6 + (lit_year() + (p8 + (lit_hero() + (pa + lit_close())))));
    let r6 = p6 + (lit_year() + (p8 + (lit_hero() + (pa + lit_close()))));
    let r7 = lit_year() + (p8 + (lit_hero() + (pa + lit_close())));
    let r8 = p8 + (lit_hero() + (pa + lit_close()));
    let r9 = lit_hero() + (pa + lit_close());
    let ra = pa + lit_close();
    let j1 = i + 9;
    let j2 = j1 + 36;
    let j3 = j2 + 14;
    let j4 = j3 + p4.len() as int;
    let j5 = j4 + 9;
    let j6 = j5 + p6.len() as int;
    let j7 = j6 + 8;
    let j8 = j7 + p8.len() as int;
    let j9 = j8 + 14;
    let j10 = j9 + pa.len() as int;
    let j11 = j10 + 1;
    lemma_subrange_concat(doc, i, lit_obj_uuid(), r2);
    lemma_subrange_concat(doc, j1, p2, r3);
    lemma_subrange_concat(doc, j2, lit_isbn(), r4);
    lemma_subrange_concat(doc, j3, p4, r5);
    lemma_subrange_concat(doc, j4, lit_title(), r6);
    lemma_subrange_concat(doc, j5, p6, r7);
    lemma_subrange_concat(doc, j6, lit_year(), r8);
    lemma_subrange_concat(doc, j7, p8, r9);
    lemma_subrange_concat(doc, j8, lit_hero(), ra);
    lemma_subrange_concat(doc, j9, pa, lit_close());
    lemma_parse_ser_uuid(doc, j1, m.uuid);
    lemma_parse_ser_string(doc, j3, m.isbn_code);
    lemma_parse_ser_string(doc, j5, m.title);
    assert(doc[j8] == ',') by {
        assert(doc.subrange(j8, j9)[0] == lit_hero()[0]);
    }
    lemma_parse_ser_i32(doc, j7, m.year);
    lemma_parse_ser_string(doc, j9, m.super_hero);
}

/// Parsing undoes serializing for one reader record.
pub proof fn lemma_parse_ser_reader(doc: Seq<char>, i: int, r: ReaderView)
    requires
        0 <= i,
        i + ser_reader(r).len() <= doc.len(),
        doc.subrange(i, i + ser_reader(r).len()) == ser_reader(r),
    ensures
        parse_reader_at(doc, i) == Some((r, i + ser_reader(r).len())),
{
    lemma_lit_facts();
    lemma_ser_uuid_len(r.uuid);
    let p2 = ser_uuid(r.uuid);
    let p4 = ser_string(r.name);
    let r2 = p2 + (lit_name() + (p4 + lit_close()));
    let r3 = lit_name() + (p4 + lit_close());
    let r4 = p4 + lit_close();
    let j1 = i + 9;
    let j2 = j1 + 36;
    let j3 = j2 + 9;
    let j4 = j3 + p4.len() as int;
    lemma_subrange_concat(doc, i, lit_obj_uuid(), r2);
    lemma_subrange_concat(doc, j1, p2, r3);
    lemma_subrange_concat(doc, j2, lit_name(), r4);
    lemma_subrange_concat(doc, j3, p4, lit_close());
    lemma_parse_ser_uuid(doc, j1, r.uuid);
    lemma_parse_ser_string(doc, j3, r.name);
}

/// Parsing undoes serializing for one borrow pair.
pub proof fn lemma_parse_ser_pair(doc: Seq<char>, i: int, p: (u128, u128))
    requires
        0 <= i,
        i + ser_pair(p).len() <= doc.len(),
        doc.subrange(i, i + ser_pair(p).len()) == ser_pair(p),
    ensures
        parse_pair_at(doc, i) == Some((p, i + ser_pair(p).len())),
{
    lemma_lit_facts();
    lemma_ser_uuid_len(p.0);
    lemma_ser_uuid_len(p.1);
    let pa = ser_uuid(p.0);
    let pb = ser_uuid(p.1);
    let r2 = pa + (lit_pair_mid() + (pb + lit_pair_close()));
    let r3 = lit_pair_mid() + (pb + lit_pair_close());
    let r4 = pb + lit_pair_close();
    let j1 = i + 2;
    let j2 = j1 + 36;
    let j3 = j2 + 3;
    let j4 = j3 + 36;
    lemma_subrange_concat(doc, i, lit_pair_open(), r2);
    lemma_subrange_concat(doc, j1, pa, r3);
    lemma_subrange_concat(doc, j2, lit_pair_mid(), r4);
    lemma_subrange_concat(doc, j3, pb, lit_pair_close());
    lemma_parse_ser_uuid(doc, j1, p.0);
    lemma_parse_ser_uuid(doc, j3, p.1);
}

// ---------------------------------------------------------------------------
// Lists: the four top-level sequences of the document.
// ---------------------------------------------------------------------------

pub open spec fn ser_books(l: Seq<BookView>) -> Seq<char>
    decreases l.len(),
{
    if l.len() == 0 {
        seq!['[', ']']
    } else {
        seq!['['] + (ser_book(l[0]) + ser_books_rest(l.drop_first()))
    }
}

pub open spec fn ser_books_rest(l: Seq<BookView>) -> Seq<char>
    decreases l.len(),
{
    if l.len() == 0 {
        seq![']']
    } else {
        seq![','] + (ser_book(l[0]) + ser_books_rest(l.drop_first()))
    }
}

pub open spec fn ser_magazines(l: Seq<MagazineView>) -> Seq<char>
    decreases l.len(),
{
    if l.len() == 0 {
        seq!['[', ']']
    } else {
        seq!['['] + (ser_magazine(l[0]) + ser_magazines_rest(l.drop_first()))
    }
}

pub open spec fn ser_magazines_rest(l: Seq<MagazineView>) -> Seq<char>
    decreases l.len(),
{
    if l.len() == 0 {
        seq![']']
    } else {
        seq![','] + (ser_magazine(l[0]) + ser_magazines_rest(l.drop_first()))
    }
}

pub open spec fn ser_pairs(l: Seq<(u128, u128)>) -> Seq<char>
    decreases l.len(),
{
    if l.len() == 0 {
        seq!['[', ']']
    } else {
        seq!['['] + (ser_pair(l[0]) + ser_pairs_rest(l.drop_first()))
    }
}

pub open spec fn ser_pairs_rest(l: Seq<(u128, u128)>) -> Seq<char>
    decreases l.len(),
{
    if l.len() == 0 {
        seq![']']
    } else {
        seq![','] + (ser_pair(l[0]) + ser_pairs_rest(l.drop_first()))
    }
}

pub open spec fn ser_readers(l: Seq<ReaderView>) -> Seq<char>
    decreases l.len(),
{
    if l.len() == 0 {
        seq!['[', ']']
    } else {
        seq!['['] + (ser_reader(l[0]) + ser_readers_rest(l.drop_first()))
    }
}

pub open spec fn ser_readers_rest(l: Seq<ReaderView>) -> Seq<char>
    decreases l.len(),
{
    if l.len() == 0 {
        seq![']']
    } else {
        seq![','] + (ser_reader(l[0]) + ser_readers_rest(l.drop_first()))
    }
}

pub open spec fn parse_books_at(s: Seq<char>, i: int) -> Option<(Seq<BookView>, int)> {
    if 0 <= i < s.len() && s[i] == '[' {
        if i + 1 < s.len() && s[i + 1] == ']' {
            Some((Seq::empty(), i + 2))
        } else {
            match parse_book_at(s, i + 1) {
                Some((b, j)) => if i + 1 < j <= s.len() {
                    match parse_books_rest(s, j) {
                        Some((tl, k)) => Some((seq![b] + tl, k)),
                        None => None,
                    }
                } else {
                    None
                },
                None => None,
            }
        }
    } else {
        None
    }
}

pub open spec fn parse_books_rest(s: Seq<char>, i: int) -> Option<(Seq<BookView>, int)>
    decreases s.len() - i,
{
    if 0 <= i < s.len() && s[i] == ']' {
        Some((Seq::empty(), i + 1))
    } else if 0 <= i < s.len() && s[i] == ',' {
        match parse_book_at(s, i + 1) {
            Some((b, j)) => if i + 1 < j <= s.len() {
                match parse_books_rest(s, j) {
                    Some((tl, k)) => Some((seq![b] + tl, k)),
                    None => None,
                }
            } else {
                None
            },
            None => None,
        }
    } else {
        None
    }
}

pub open spec fn parse_magazines_at(s: Seq<char>, i: int) -> Option<(Seq<MagazineView>, int)> {
    if 0 <= i < s.len() && s[i] == '[' {
        if i + 1 < s.len() && s[i + 1] == ']' {
            Some((Seq::empty(), i + 2))
        } else {
            match parse_magazine_at(s, i + 1) {
                Some((m, j)) => if i + 1 < j <= s.len() {
                    match parse_magazines_rest(s, j) {
                        Some((tl, k)) => Some((seq![m] + tl, k)),
                        None => None,
                    }
                } else {
                    None
                },
                None => None,
            }
        }
    } else {
        None
    }
}

pub open spec fn parse_magazines_rest(s: Seq<char>, i: int) -> Option<(Seq<MagazineView>, int)>
    decreases s.len() - i,
{
    if 0 <= i < s.len() && s[i] == ']' {
        Some((Seq::empty(), i + 1))
    } else if 0 <= i < s.len() && s[i] == ',' {
        match parse_magazine_at(s, i + 1) {
            Some((m, j)) => if i + 1 < j <= s.len() {
                match parse_magazines_rest(s, j) {
                    Some((tl, k)) => Some((seq![m] + tl, k)),
                    None => None,
                }
            } else {
                None
            },
            None => None,
        }
    } else {
        None
    }
}

pub open spec fn parse_pairs_at(s: Seq<char>, i: int) -> Option<(Seq<(u128, u128)>, int)> {
    if 0 <= i < s.len() && s[i] == '[' {
        if i + 1 < s.len() && s[i + 1] == ']' {
            Some((Seq::empty(), i + 2))
        } else {
            match parse_pair_at(s, i + 1) {
                Some((p, j)) => if i + 1 < j <= s.len() {
                    match parse_pairs_rest(s, j) {
                        Some((tl, k)) => Some((seq![p] + tl, k)),
                        None => None,
                    }
                } else {
                    None
                },
                None => None,
            }
        }
    } else {
        None
    }
}

pub open spec fn parse_pairs_rest(s: Seq<char>, i: int) -> Option<(Seq<(u128, u128)>, int)>
    decreases s.len() - i,
{
    if 0 <= i < s.len() && s[i] == ']' {
        Some((Seq::empty(), i + 1))
    } else if 0 <= i < s.len() && s[i] == ',' {
        match parse_pair_at(s, i + 1) {
            Some((p, j)) => if i + 1 < j <= s.len() {
                match parse_pairs_rest(s, j) {
                    Some((tl, k)) => Some((seq![p] + tl, k)),
                    None => None,
                }
            } else {
                None
            },
            None => None,
        }
    } else {
        None
    }
}

pub open spec fn parse_readers_at(s: Seq<char>, i: int) -> Option<(Seq<ReaderView>, int)> {
    if 0 <= i < s.len() && s[i] == '[' {
        if i + 1 < s.len() && s[i + 1] == ']' {
            Some((Seq::empty(), i + 2))
        } else {
            match parse_reader_at(s, i + 1) {
                Some((r, j)) => if i + 1 < j <= s.len() {
                    match parse_readers_rest(s, j) {
                        Some((tl, k)) => Some((seq![r] + tl, k)),
                        None => None,
                    }
                } else {
                    None
                },
                None => None,
            }
        }
    } else {
        None
    }
}

pub open spec fn parse_readers_rest(s: Seq<char>, i: int) -> Option<(Seq<ReaderView>, int)>
    decreases s.len() - i,
{
    if 0 <= i < s.len() && s[i] == ']' {
        Some((Seq::empty(), i + 1))
    } else if 0 <= i < s.len() && s[i] == ',' {
        match parse_reader_at(s, i + 1) {
            Some((r, j)) => if i + 1 < j <= s.len() {
                match parse_readers_rest(s, j) {
                    Some((tl, k)) => Some((seq![r] + tl, k)),
                    None => None,
                }
            } else {
                None
            },
            None => None,
        }
    } else {
        None
    }
}

pub proof fn lemma_parse_ser_books_rest(doc: Seq<char>, i: int, l: Seq<BookView>)
    requires
        0 <= i,
        i + ser_books_rest(l).len() <= doc.len(),
        doc.subrange(i, i + ser_books_rest(l).len()) == ser_books_rest(l),
    ensures
        parse_books_rest(doc, i) == Some((l, i + ser_books_rest(l).len())),
    decreases l.len(),
{
    lemma_lit_facts();
    if l.len() == 0 {
        assert(doc[i] == ser_books_rest(l)[0]);
    } else {
        let sb = ser_book(l[0]);
        lemma_subrange_concat(doc, i, seq![','], sb + ser_books_rest(l.drop_first()));
        lemma_subrange_concat(doc, i + 1, sb, ser_books_rest(l.drop_first()));
        assert(doc[i] == ',') by {
            assert(doc.subrange(i, i + 1)[0] == seq![','][0]);
        }
        lemma_parse_ser_book(doc, i + 1, l[0]);
        lemma_parse_ser_books_rest(doc, i + 1 + sb.len(), l.drop_first());
        assert(seq![l[0]] + l.drop_first() =~= l);
    }
}

pub proof fn lemma_parse_ser_books(doc: Seq<char>, i: int, l: Seq<BookView>)
    requires
        0 <= i,
        i + ser_books(l).len() <= doc.len(),
        doc.subrange(i, i + ser_books(l).len()) == ser_books(l),
    ensures
        parse_books_at(doc, i) == Some((l, i + ser_books(l).len())),
{
    lemma_lit_facts();
    if l.len() == 0 {
        assert(doc[i] == ser_books(l)[0]);
        assert(doc[i + 1] == ser_books(l)[1]);
    } else {
        let sb = ser_book(l[0]);
        lemma_subrange_concat(doc, i, seq!['['], sb + ser_books_rest(l.drop_first()));
        lemma_subrange_concat(doc, i + 1, sb, ser_books_rest(l.drop_first()));
        assert(doc[i] == '[') by {
            assert(doc.subrange(i, i + 1)[0] == seq!['['][0]);
        }
        assert(doc[i + 1] == '{') by {
            assert(doc.subrange(i + 1, i + 1 + sb.len())[0] == sb[0]);
            assert(sb[0] == lit_obj_uuid()[0]);
        }
        lemma_parse_ser_book(doc, i + 1, l[0]);
        lemma_parse_ser_books_rest(doc, i + 1 + sb.len(), l.drop_first());
        assert(seq![l[0]] + l.drop_first() =~= l);
    }
}

pub proof fn lemma_parse_ser_magazines_rest(doc: Seq<char>, i: int, l: Seq<MagazineView>)
    requires
        0 <= i,
        i + ser_magazines_rest(l).len() <= doc.len(),
        doc.subrange(i, i + ser_magazines_rest(l).len()) == ser_magazines_rest(l),
    ensures
        parse_magazines_rest(doc, i) == Some((l, i + ser_magazines_rest(l).len())),
    decreases l.len(),
{
    lemma_lit_facts();
    if l.len() == 0 {
        assert(doc[i] == ser_magazines_rest(l)[0]);
    } else {
        let sm = ser_magazine(l[0]);
        lemma_subrange_concat(doc, i, seq![','], sm + ser_magazines_rest(l.drop_first()));
        lemma_subrange_concat(doc, i + 1, sm, ser_magazines_rest(l.drop_first()));
        assert(doc[i] == ',') by {
            assert(doc.subrange(i, i + 1)[0] == seq![','][0]);
        }
        lemma_parse_ser_magazine(doc, i + 1, l[0]);
        lemma_parse_ser_magazines_rest(doc, i + 1 + sm.len(), l.drop_first());
        assert(seq![l[0]] + l.drop_first() =~= l);
    }
}

pub proof fn lemma_parse_ser_magazines(doc: Seq<char>, i: int, l: Seq<MagazineView>)
    requires
        0 <= i,
        i + ser_magazines(l).len() <= doc.len(),
        doc.subrange(i, i + ser_magazines(l).len()) == ser_magazines(l),
    ensures
        parse_magazines_at(doc, i) == Some((l, i + ser_magazines(l).len())),
{
    lemma_lit_facts();
    if l.len() == 0 {
        assert(doc[i] == ser_magazines(l)[0]);
        assert(doc[i + 1] == ser_magazines(l)[1]);
    } else {
        let sm = ser_magazine(l[0]);
        lemma_subrange_concat(doc, i, seq!['['], sm + ser_magazines_rest(l.drop_first()));
        lemma_subrange_concat(doc, i + 1, sm, ser_magazines_rest(l.drop_first()));
        assert(doc[i] == '[') by {
            assert(doc.subrange(i, i + 1)[0] == seq!['['][0]);
        }
        assert(doc[i + 1] == '{') by {
            assert(doc.subrange(i + 1, i + 1 + sm.len())[0] == sm[0]);
            assert(sm[0] == lit_obj_uuid()[0]);
        }
        lemma_parse_ser_magazine(doc, i + 1, l[0]);
        lemma_parse_ser_magazines_rest(doc, i + 1 + sm.len(), l.drop_first());
        assert(seq![l[0]] + l.drop_first() =~= l);
    }
}

pub proof fn lemma_parse_ser_pairs_rest(doc: Seq<char>, i: int, l: Seq<(u128, u128)>)
    requires
        0 <= i,
        i + ser_pairs_rest(l).len() <= doc.len(),
        doc.subrange(i, i + ser_pairs_rest(l).len()) == ser_pairs_rest(l),
    ensures
        parse_pairs_rest(doc, i) == Some((l, i + ser_pairs_rest(l).len())),
    decreases l.len(),
{
    lemma_lit_facts();
    if l.len() == 0 {
        assert(doc[i] == ser_pairs_rest(l)[0]);
    } else {
        let sp = ser_pair(l[0]);
        lemma_subrange_concat(doc, i, seq![','], sp + ser_pairs_rest(l.drop_first()));
        lemma_subrange_concat(doc, i + 1, sp, ser_pairs_rest(l.drop_first()));
        assert(doc[i] == ',') by {
            assert(doc.subrange(i, i + 1)[0] == seq![','][0]);
        }
        lemma_parse_ser_pair(doc, i + 1, l[0]);
        lemma_parse_ser_pairs_rest(doc, i + 1 + sp.len(), l.drop_first());
        assert(seq![l[0]] + l.drop_first() =~= l);
    }
}

pub proof fn lemma_parse_ser_pairs(doc: Seq<char>, i: int, l: Seq<(u128, u128)>)
    requires
        0 <= i,
        i + ser_pairs(l).len() <= doc.len(),
        doc.subrange(i, i + ser_pairs(l).len()) == ser_pairs(l),
    ensures
        parse_pairs_at(doc, i) == Some((l, i + ser_pairs(l).len())),
{
    lemma_lit_facts();
    if l.len() == 0 {
        assert(doc[i] == ser_pairs(l)[0]);
        assert(doc[i + 1] == ser_pairs(l)[1]);
    } else {
        let sp = ser_pair(l[0]);
        lemma_subrange_concat(doc, i, seq!['['], sp + ser_pairs_rest(l.drop_first()));
        lemma_subrange_concat(doc, i + 1, sp, ser_pairs_rest(l.drop_first()));
        assert(doc[i] == '[') by {
            assert(doc.subrange(i, i + 1)[0] == seq!['['][0]);
        }
        assert(doc[i + 1] == '[') by {
            assert(doc.subrange(i + 1, i + 1 + sp.len())[0] == sp[0]);
            assert(sp[0] == lit_pair_open()[0]);
        }
        lemma_parse_ser_pair(doc, i + 1, l[0]);
        lemma_parse_ser_pairs_rest(doc, i + 1 + sp.len(), l.drop_first());
        assert(seq![l[0]] + l.drop_first() =~= l);
    }
}

pub proof fn lemma_parse_ser_readers_rest(doc: Seq<char>, i: int, l: Seq<ReaderView>)
    requires
        0 <= i,
        i + ser_readers_rest(l).len() <= doc.len(),
        doc.subrange(i, i + ser_readers_rest(l).len()) == ser_readers_rest(l),
    ensures
        parse_readers_rest(doc, i) == Some((l, i + ser_readers_rest(l).len())),
    decreases l.len(),
{
    lemma_lit_facts();
    if l.len() == 0 {
        assert(doc[i] == ser_readers_rest(l)[0]);
    } else {
        let sr = ser_reader(l[0]);
        lemma_subrange_concat(doc, i, seq![','], sr + ser_readers_rest(l.drop_first()));
        lemma_subrange_concat(doc, i + 1, sr, ser_readers_rest(l.drop_first()));
        assert(doc[i] == ',') by {
            assert(doc.subrange(i, i + 1)[0] == seq![','][0]);
        }
        lemma_parse_ser_reader(doc, i + 1, l[0]);
        lemma_parse_ser_readers_rest(doc, i + 1 + sr.len(), l.drop_first());
        assert(seq![l[0]] + l.drop_first() =~= l);
    }
}

pub proof fn lemma_parse_ser_readers(doc: Seq<char>, i: int, l: Seq<ReaderView>)
    requires
        0 <= i,
        i + ser_readers(l).len() <= doc.len(),
        doc.subrange(i, i + ser_readers(l).len()) == ser_readers(l),
    ensures
        parse_readers_at(doc, i) == Some((l, i + ser_readers(l).len())),
{
    lemma_lit_facts();
    if l.len() == 0 {
        assert(doc[i] == ser_readers(l)[0]);
        assert(doc[i + 1] == ser_readers(l)[1]);
    } else {
        let sr = ser_reader(l[0]);
        lemma_subrange_concat(doc, i, seq!['['], sr + ser_readers_rest(l.drop_first()));
        lemma_subrange_concat(doc, i + 1, sr, ser_readers_rest(l.drop_first()));
        assert(doc[i] == '[') by {
            assert(doc.subrange(i, i + 1)[0] == seq!['['][0]);
        }
        assert(doc[i + 1] == '{') by {
            assert(doc.subrange(i + 1, i + 1 + sr.len())[0] == sr[0]);
            assert(sr[0] == lit_obj_uuid()[0]);
        }
        lemma_parse_ser_reader(doc, i + 1, l[0]);
        lemma_parse_ser_readers_rest(doc, i + 1 + sr.len(), l.drop_first());
        assert(seq![l[0]] + l.drop_first() =~= l);
    }
}

// ---------------------------------------------------------------------------
// The whole document.
// ---------------------------------------------------------------------------

#[verifier::opaque]
pub open spec fn lit_doc_books() -> Seq<char> {
    seq![
        '{',
        '"',
        'd',
        'e',
        'p',
        'o',
        's',
        'i',
        't',
        'o',
        'r',
        'y',
        '_',
        'b',
        'o',
        'o',
        'k',
        's',
        '"',
        ':',
    ]
}

#[verifier::opaque]
pub open spec fn lit_doc_mags() -> Seq<char> {
    seq![
        ',',
        '"',
        'd',
        'e',
        'p',
        'o',
        's',
        'i',
        't',
        'o',
        'r',
        'y',
        '_',
        'm',
        'a',
        'g',
        'a',
        'z',
        'i',
        'n',
        'e',
        's',
        '"',
        ':',
    ]
}

#[verifier::opaque]
pub open spec fn lit_doc_borrows() -> Seq<char> {
    seq![',', '"', 'b', 'o', 'r', 'r', 'o', 'w', 's', '"', ':']
}

#[verifier::opaque]
pub open spec fn lit_doc_readers() -> Seq<char> {
    seq![',', '"', 'r', 'e', 'a', 'd', 'e', 'r', 's', '"', ':']
}

/// The persisted document: the four sequences under their fixed keys.
pub open spec fn ser_catalogue(v: CatalogueView) -> Seq<char> {
    lit_doc_books() + (ser_books(v.books) + (lit_doc_mags() + (ser_magazines(v.magazines) + (
    lit_doc_borrows() + (ser_pairs(v.borrows) + (lit_doc_readers() + (ser_readers(v.readers)
        + lit_close())))))))
}

pub open spec fn parse_catalogue_at(s: Seq<char>, i: int) -> Option<(CatalogueView, int)> {
    match match_lit(s, i, lit_doc_books()) {
        Some(j1) => match parse_books_at(s, j1) {
            Some((bs, j2)) => match match_lit(s, j2, lit_doc_mags()) {
                Some(j3) => match parse_magazines_at(s, j3) {
                    Some((ms, j4)) => match match_lit(s, j4, lit_doc_borrows()) {
                        Some(j5) => match parse_pairs_at(s, j5) {
                            Some((ps, j6)) => match match_lit(s, j6, lit_doc_readers()) {
                                Some(j7) => match parse_readers_at(s, j7) {
                                    Some((rs, j8)) => match match_lit(s, j8, lit_close()) {
                                        Some(j9) => Some(
                                            (
                                                CatalogueView {
                                                    books: bs,
                                                    magazines: ms,
                                                    borrows: ps,
                                                    readers: rs,
                                                },
                                                j9,
                                            ),
                                        ),
                                        None => None,
                                    },
                                    None => None,
                                },
                                None => None,
                            },
                            None => None,
                        },
                        None => None,
                    },
                    None => None,
                },
                None => None,
            },
            None => None,
        },
        None => None,
    }
}

/// The document as a whole: the parse must consume every character.
pub open spec fn parse_catalogue_full(s: Seq<char>) -> Option<CatalogueView> {
    match parse_catalogue_at(s, 0) {
        Some((v, j)) => if j == s.len() {
            Some(v)
        } else {
            None
        },
        None => None,
    }
}

/// Law: the codec round-trips. Parsing the serialized form of any catalogue
/// state reproduces that state exactly: the same books and magazines in
/// order, the same borrow relation, the same readers.
/// Splits a document that is a nine-piece concatenation into the nine
/// subranges, one at each cumulative offset.
proof fn lemma_doc_split(
    doc: Seq<char>,
    p1: Seq<char>,
    p2: Seq<char>,
    p3: Seq<char>,
    p4: Seq<char>,
    p5: Seq<char>,
    p6: Seq<char>,
    p7: Seq<char>,
    p8: Seq<char>,
    p9: Seq<char>,
)
    requires
        doc == p1 + (p2 + (p3 + (p4 + (p5 + (p6 + (p7 + (p8 + p9))))))),
    ensures
        ({
            let o1 = p1.len() as int;
            let o2 = o1 + p2.len();
            let o3 = o2 + p3.len();
            let o4 = o3 + p4.len();
            let o5 = o4 + p5.len();
            let o6 = o5 + p6.len();
            let o7 = o6 + p7.len();
            let o8 = o7 + p8.len();
            let o9 = o8 + p9.len();
            &&& doc.len() == o9
            &&& doc.subrange(0, o1) == p1
            &&& doc.subrange(o1, o2) == p2
            &&& doc.subrange(o2, o3) == p3
            &&& doc.subrange(o3, o4) == p4
            &&& doc.subrange(o4, o5) == p5
            &&& doc.subrange(o5, o6) == p6
            &&& doc.subrange(o6, o7) == p7
            &&& doc.subrange(o7, o8) == p8
            &&& doc.subrange(o8, o9) == p9
        }),
{
    let o1 = p1.len() as int;
    let o2 = o1 + p2.len();
    let o3 = o2 + p3.len();
    let o4 = o3 + p4.len();
    let o5 = o4 + p5.len();
    let o6 = o5 + p6.len();
    let o7 = o6 + p7.len();
    let o8 = o7 + p8.len();
    let o9 = o8 + p9.len();
    assert(doc.subrange(0, o9) =~= doc);
    lemma_subrange_concat(doc, 0, p1, p2 + (p3 + (p4 + (p5 + (p6 + (p7 + (p8 + p9)))))));
    lemma_subrange_concat(doc, o1, p2, p3 + (p4 + (p5 + (p6 + (p7 + (p8 + p9))))));
    lemma_subrange_concat(doc, o2, p3, p4 + (p5 + (p6 + (p7 + (p8 + p9)))));
    lemma_subrange_concat(doc, o3, p4, p5 + (p6 + (p7 + (p8 + p9))));
    lemma_subrange_concat(doc, o4, p5, p6 + (p7 + (p8 + p9)));
    lemma_subrange_concat(doc, o5, p6, p7 + (p8 + p9));
    lemma_subrange_concat(doc, o6, p7, p8 + p9);
    lemma_subrange_concat(doc, o7, p8, p9);
}

#[verifier::rlimit(100)]
#[verifier::spinoff_prover]
pub proof fn lemma_parse_ser_catalogue(v: CatalogueView)
    ensures
        parse_catalogue_full(ser_catalogue(v)) == Some(v),
{
    lemma_lit_facts();
    let doc = ser_catalogue(v);
    let pb = ser_books(v.books);
    let pm = ser_magazines(v.magazines);
    let pp = ser_pairs(v.borrows);
    let pr = ser_readers(v.readers);
    lemma_doc_split(
        doc,
        lit_doc_books(),
        pb,
        lit_doc_mags(),
        pm,
        lit_doc_borrows(),
        pp,
        lit_doc_readers(),
        pr,
        lit_close(),
    );
    let j1 = 20int;
    let j2 = j1 + pb.len() as int;
    let j3 = j2 + 24;
    let j4 = j3 + pm.len() as int;
    let j5 = j4 + 11;
    let j6 = j5 + pp.len() as int;
    let j7 = j6 + 11;
    let j8 = j7 + pr.len() as int;
    let j9 = j8 + 1;
    lemma_parse_ser_books(doc, j1, v.books);
    lemma_parse_ser_magazines(doc, j3, v.magazines);
    lemma_parse_ser_pairs(doc, j5, v.borrows);
    lemma_parse_ser_readers(doc, j7, v.readers);
    assert(match_lit(doc, 0, lit_doc_books()) == Some(j1));
    assert(parse_books_at(doc, j1) == Some((v.books, j2)));
    assert(match_lit(doc, j2, lit_doc_mags()) == Some(j3));
    assert(parse_magazines_at(doc, j3) == Some((v.magazines, j4)));
    assert(match_lit(doc, j4, lit_doc_borrows()) == Some(j5));
    assert(parse_pairs_at(doc, j5) == Some((v.borrows, j6)));
    assert(match_lit(doc, j6, lit_doc_readers()) == Some(j7));
    assert(parse_readers_at(doc, j7) == Some((v.readers, j8)));
    assert(match_lit(doc, j8, lit_close()) == Some(j9));
    assert(parse_catalogue_at(doc, 0) == Some((v, j9)));
    assert(j9 == doc.len());
}

// ---------------------------------------------------------------------------
// The executable serializer.
// ---------------------------------------------------------------------------

pub open spec fn views_books(s: Seq<Book>) -> Seq<BookView> {
    s.map_values(|b: Book| b@)
}

pub open spec fn views_magazines(s: Seq<Magazine>) -> Seq<MagazineView> {
    s.map_values(|m: Magazine| m@)
}

pub open spec fn views_readers(s: Seq<Reader>) -> Seq<ReaderView> {
    s.map_values(|r: Reader| r@)
}

/// Appends one book record.
#[verifier::rlimit(100)]
#[verifier::spinoff_prover]
pub fn ser_book_exec(b: &Book, out: &mut Vec<char>)
    ensures
        final(out)@ == old(out)@ + ser_book(b@),
{
    let l1 = str_to_chars("{\"uuid\":\"");
    let l2 = str_to_chars("\",\"isbn_code\":");
    let l3 = str_to_chars(",\"title\":");
    let l4 = str_to_chars(",\"year\":");
    proof {
        reveal_strlit("{\"uuid\":\"");
        reveal_strlit("\",\"isbn_code\":");
        reveal_strlit(",\"title\":");
        reveal_strlit(",\"year\":");
        reveal(lit_obj_uuid);
        reveal(lit_isbn);
        reveal(lit_title);
        reveal(lit_year);
        assert(l1@ =~= lit_obj_uuid());
        assert(l2@ =~= lit_isbn());
        assert(l3@ =~= lit_title());
        assert(l4@ =~= lit_year());
    }
    push_lit(out, &l1);
    ser_uuid_exec(b.uuid, out);
    push_lit(out, &l2);
    let isbn = str_to_chars(b.isbn_code.as_str());
    ser_string_exec(&isbn, out);
    push_lit(out, &l3);
    let title = str_to_chars(b.title.as_str());
    ser_string_exec(&title, out);
    push_lit(out, &l4);
    ser_i32_exec(b.year, out);
    out.push('}');
    proof {
        reveal(lit_close);
        assert(seq!['}'] =~= lit_close());
        assert(out@ =~= old(out)@ + ser_book(b@));
    }
}

/// Appends one magazine record.
#[verifier::rlimit(100)]
#[verifier::spinoff_prover]
pub fn ser_magazine_exec(m: &Magazine, out: &mut Vec<char>)
    ensures
        final(out)@ == old(out)@ + ser_magazine(m@),
{
    let l1 = str_to_chars("{\"uuid\":\"");
    let l2 = str_to_chars("\",\"isbn_code\":");
    let l3 = str_to_chars(",\"title\":");
    let l4 = str_to_chars(",\"year\":");
    let l5 = str_to_chars(",\"super_hero\":");
    proof {
        reveal_strlit("{\"uuid\":\"");
        reveal_strlit("\",\"isbn_code\":");
        reveal_strlit(",\"title\":");
        reveal_strlit(",\"year\":");
        reveal_strlit(",\"super_hero\":");
        reveal(lit_obj_uuid);
        reveal(lit_isbn);
        reveal(lit_title);
        reveal(lit_year);
        reveal(lit_hero);
        assert(l1@ =~= lit_obj_uuid());
        assert(l2@ =~= lit_isbn());
        assert(l3@ =~= lit_title());
        assert(l4@ =~= lit_year());
        assert(l5@ =~= lit_hero());
    }
    push_lit(out, &l1);
    ser_uuid_exec(m.uuid, out);
    push_lit(out, &l2);
    let isbn = str_to_chars(m.isbn_code.as_str());
    ser_string_exec(&isbn, out);
    push_lit(out, &l3);
    let title = str_to_chars(m.title.as_str());
    ser_string_exec(&title, out);
    push_lit(out, &l4);
    ser_i32_exec(m.year, out);
    push_lit(out, &l5);
    let hero = str_to_chars(m.super_hero.as_str());
    ser_string_exec(&hero, out);
    out.push('}');
    proof {
        reveal(lit_close);
        assert(seq!['}'] =~= lit_close());
        assert(out@ =~= old(out)@ + ser_magazine(m@));
    }
}

/// Appends one reader record.
pub fn ser_reader_exec(r: &Reader, out: &mut Vec<char>)
    ensures
        final(out)@ == old(out)@ + ser_reader(r@),
{
    let l1 = str_to_chars("{\"uuid\":\"");
    let l2 = str_to_chars("\",\"name\":");
    proof {
        reveal_strlit("{\"uuid\":\"");
        reveal_strlit("\",\"name\":");
        reveal(lit_obj_uuid);
        reveal(lit_name);
        assert(l1@ =~= lit_obj_uuid());
        assert(l2@ =~= lit_name());
    }
    push_lit(out, &l1);
    ser_uuid_exec(r.uuid, out);
    push_lit(out, &l2);
    let name = str_to_chars(r.name.as_str());
    ser_string_exec(&name, out);
    out.push('}');
    proof {
        reveal(lit_close);
        assert(seq!['}'] =~= lit_close());
        assert(out@ =~= old(out)@ + ser_reader(r@));
    }
}

/// Appends one borrow pair.
pub fn ser_pair_exec(p: (u128, u128), out: &mut Vec<char>)
    ensures
        final(out)@ == old(out)@ + ser_pair(p),
{
    let l1 = str_to_chars("[\"");
    let l2 = str_to_chars("\",\"");
    let l3 = str_to_chars("\"]");
    proof {
        reveal_strlit("[\"");
        reveal_strlit("\",\"");
        reveal_strlit("\"]");
        reveal(lit_pair_open);
        reveal(lit_pair_mid);
        reveal(lit_pair_close);
        assert(l1@ =~= lit_pair_open());
        assert(l2@ =~= lit_pair_mid());
        assert(l3@ =~= lit_pair_close());
    }
    push_lit(out, &l1);
    ser_uuid_exec(p.0, out);
    push_lit(out, &l2);
    ser_uuid_exec(p.1, out);
    push_lit(out, &l3);
    proof {
        assert(out@ =~= old(out)@ + ser_pair(p));
    }
}

/// Appends the book list of an item list: the books, in item-list order.
#[verifier::rlimit(100)]
#[verifier::spinoff_prover]
fn ser_items_books_exec(items: &Vec<CatalogueItem>, out: &mut Vec<char>)
    ensures
        final(out)@ == old(out)@ + ser_books(crate::entities::books_of(items@)),
{
    let n = items.len();
    let mut k: usize = 0;
    let mut first: bool = true;
    proof {
        assert(items@.subrange(0, n as int) =~= items@);
    }
    while k < n
        invariant
            0 <= k <= n,
            n == items@.len(),
            first ==> old(out)@ + ser_books(crate::entities::books_of(items@)) == out@
                + ser_books(crate::entities::books_of(items@.subrange(k as int, n as int))),
            !first ==> old(out)@ + ser_books(crate::entities::books_of(items@)) == out@
                + ser_books_rest(crate::entities::books_of(items@.subrange(k as int, n as int))),
        decreases n - k,
    {
        proof {
            assert(items@.subrange(k as int, n as int).drop_first() =~= items@.subrange(
                k as int + 1,
                n as int,
            ));
        }
        match &items[k] {
            CatalogueItem::Book(b) => {
                if first {
                    out.push('[');
                    first = false;
                } else {
                    out.push(',');
                }
                ser_book_exec(b, out);
                proof {
                    let bv = crate::entities::books_of(items@.subrange(k as int, n as int));
                    let bvrest = crate::entities::books_of(
                        items@.subrange(k as int + 1, n as int),
                    );
                    assert(items@.subrange(k as int, n as int)[0] == items@[k as int]);
                    assert(bv == seq![b@] + bvrest);
                    assert(bv[0] == b@);
                    assert(bv.drop_first() =~= bvrest);
                    assert(old(out)@ + ser_books(crate::entities::books_of(items@)) =~= out@
                        + ser_books_rest(bvrest));
                }
            },
            CatalogueItem::Magazine(_) => {
            },
        }
        k += 1;
    }
    proof {
        assert(crate::entities::books_of(items@.subrange(n as int, n as int))
            =~= Seq::<BookView>::empty());
    }
    if first {
        out.push('[');
        out.push(']');
        proof {
            assert(old(out)@ + ser_books(crate::entities::books_of(items@)) =~= out@);
        }
    } else {
        out.push(']');
        proof {
            assert(old(out)@ + ser_books(crate::entities::books_of(items@)) =~= out@);
        }
    }
}

/// Appends the magazine list of an item list: the magazines, in item-list
/// order.
#[verifier::rlimit(100)]
#[verifier::spinoff_prover]
fn ser_items_magazines_exec(items: &Vec<CatalogueItem>, out: &mut Vec<char>)
    ensures
        final(out)@ == old(out)@ + ser_magazines(crate::entities::magazines_of(items@)),
{
    let n = items.len();
    let mut k: usize = 0;
    let mut first: bool = true;
    proof {
        assert(items@.subrange(0, n as int) =~= items@);
    }
    while k < n
        invariant
            0 <= k <= n,
            n == items@.len(),
            first ==> old(out)@ + ser_magazines(crate::entities::magazines_of(items@)) == out@
                + ser_magazines(
                crate::entities::magazines_of(items@.subrange(k as int, n as int)),
            ),
            !first ==> old(out)@ + ser_magazines(crate::entities::magazines_of(items@)) == out@
                + ser_magazines_rest(
                crate::entities::magazines_of(items@.subrange(k as int, n as int)),
            ),
        decreases n - k,
    {
        proof {
            assert(items@.subrange(k as int, n as int).drop_first() =~= items@.subrange(
                k as int + 1,
                n as int,
            ));
        }
        match &items[k] {
            CatalogueItem::Magazine(m) => {
                if first {
                    out.push('[');
                    first = false;
                } else {
                    out.push(',');
                }
                ser_magazine_exec(m, out);
                proof {
                    let mv = crate::entities::magazines_of(items@.subrange(k as int, n as int));
                    let mvrest = crate::entities::magazines_of(
                        items@.subrange(k as int + 1, n as int),
                    );
                    assert(items@.subrange(k as int, n as int)[0] == items@[k as int]);
                    assert(mv == seq![m@] + mvrest);
                    assert(mv[0] == m@);
                    assert(mv.drop_first() =~= mvrest);
                    assert(old(out)@ + ser_magazines(crate::entities::magazines_of(items@)) =~= out@
                        + ser_magazines_rest(mvrest));
                }
            },
            CatalogueItem::Book(_) => {
            },
        }
        k += 1;
    }
    proof {
        assert(crate::entities::magazines_of(items@.subrange(n as int, n as int)) =~= Seq::<
            MagazineView,
        >::empty());
    }
    if first {
        out.push('[');
        out.push(']');
        proof {
            assert(old(out)@ + ser_magazines(crate::entities::magazines_of(items@)) =~= out@);
        }
    } else {
        out.push(']');
        proof {
            assert(old(out)@ + ser_magazines(crate::entities::magazines_of(items@)) =~= out@);
        }
    }
}

/// Appends the borrow-pair list.
fn ser_pairs_exec(l: &Vec<(u128, u128)>, out: &mut Vec<char>)
    ensures
        final(out)@ == old(out)@ + ser_pairs(l@),
{
    let n = l.len();
    out.push('[');
    if n == 0 {
        out.push(']');
        proof {
            assert(out@ =~= old(out)@ + ser_pairs(l@));
        }
        return ;
    }
    ser_pair_exec(l[0], out);
    proof {
        assert(l@.drop_first() =~= l@.subrange(1, n as int));
        assert(old(out)@ + ser_pairs(l@) =~= out@ + ser_pairs_rest(l@.subrange(1, n as int)));
    }
    let mut k: usize = 1;
    while k < n
        invariant
            1 <= k <= n,
            n == l@.len(),
            old(out)@ + ser_pairs(l@) == out@ + ser_pairs_rest(l@.subrange(k as int, n as int)),
        decreases n - k,
    {
        proof {
            assert(l@.subrange(k as int, n as int).drop_first() =~= l@.subrange(
                k as int + 1,
                n as int,
            ));
        }
        out.push(',');
        ser_pair_exec(l[k], out);
        proof {
            assert(old(out)@ + ser_pairs(l@) =~= out@ + ser_pairs_rest(
                l@.subrange(k as int + 1, n as int),
            ));
        }
        k += 1;
    }
    out.push(']');
    proof {
        assert(l@.subrange(n as int, n as int) =~= Seq::<(u128, u128)>::empty());
        assert(out@ =~= old(out)@ + ser_pairs(l@));
    }
}

/// Appends the reader list.
fn ser_readers_exec(l: &Vec<Reader>, out: &mut Vec<char>)
    ensures
        final(out)@ == old(out)@ + ser_readers(views_readers(l@)),
{
    let ghost vs = views_readers(l@);
    let n = l.len();
    out.push('[');
    if n == 0 {
        out.push(']');
        proof {
            assert(out@ =~= old(out)@ + ser_readers(vs));
        }
        return ;
    }
    ser_reader_exec(&l[0], out);
    proof {
        assert(vs[0] == l@[0]@);
        assert(vs.drop_first() =~= vs.subrange(1, n as int));
        assert(old(out)@ + ser_readers(vs) =~= out@ + ser_readers_rest(vs.subrange(1, n as int)));
    }
    let mut k: usize = 1;
    while k < n
        invariant
            1 <= k <= n,
            n == l@.len(),
            vs == views_readers(l@),
            vs.len() == n,
            old(out)@ + ser_readers(vs) == out@ + ser_readers_rest(
                vs.subrange(k as int, n as int),
            ),
        decreases n - k,
    {
        proof {
            assert(vs.subrange(k as int, n as int).drop_first() =~= vs.subrange(
                k as int + 1,
                n as int,
            ));
            assert(vs.subrange(k as int, n as int)[0] == l@[k as int]@);
        }
        out.push(',');
        ser_reader_exec(&l[k], out);
        proof {
            assert(old(out)@ + ser_readers(vs) =~= out@ + ser_readers_rest(
                vs.subrange(k as int + 1, n as int),
            ));
        }
        k += 1;
    }
    out.push(']');
    proof {
        assert(vs.subrange(n as int, n as int) =~= Seq::<ReaderView>::empty());
        assert(out@ =~= old(out)@ + ser_readers(vs));
    }
}

/// Serializes the whole catalogue state to its persisted document.
#[verifier::rlimit(100)]
#[verifier::spinoff_prover]
pub fn serialize(c: &Catalogue) -> (out: String)
    ensures
        out@ == ser_catalogue(c@),
{
    let mut v: Vec<char> = Vec::new();
    let l1 = str_to_chars("{\"depository_books\":");
    let l2 = str_to_chars(",\"depository_magazines\":");
    let l3 = str_to_chars(",\"borrows\":");
    let l4 = str_to_chars(",\"readers\":");
    proof {
        reveal_strlit("{\"depository_books\":");
        reveal_strlit(",\"depository_magazines\":");
        reveal_strlit(",\"borrows\":");
        reveal_strlit(",\"readers\":");
        reveal(lit_doc_books);
        reveal(lit_doc_mags);
        reveal(lit_doc_borrows);
        reveal(lit_doc_readers);
        assert(l1@ =~= lit_doc_books());
        assert(l2@ =~= lit_doc_mags());
        assert(l3@ =~= lit_doc_borrows());
        assert(l4@ =~= lit_doc_readers());
    }
    push_lit(&mut v, &l1);
    ser_items_books_exec(&c.items, &mut v);
    push_lit(&mut v, &l2);
    ser_items_magazines_exec(&c.items, &mut v);
    push_lit(&mut v, &l3);
    ser_pairs_exec(&c.borrows, &mut v);
    push_lit(&mut v, &l4);
    ser_readers_exec(&c.readers, &mut v);
    v.push('}');
    proof {
        reveal(lit_close);
        assert(seq!['}'] =~= lit_close());
        assert(crate::entities::readers_view(c.readers@) =~= views_readers(c.readers@));
        assert(v@ =~= ser_catalogue(c@));
    }
    chars_to_string(&v)
}

// ---------------------------------------------------------------------------
// The executable parser.
// ---------------------------------------------------------------------------

/// Reads one book record; exactly the parse the specification describes.
pub fn parse_book_exec(s: &Vec<char>, i: usize) -> (r: Option<(Book, usize)>)
    ensures
        match r {
            Some((b, j)) => parse_book_at(s@, i as int) == Some((b@, j as int)) && j <= s@.len(),
            None => parse_book_at(s@, i as int) is None,
        },
{
    let l1 = str_to_chars("{\"uuid\":\"");
    let l2 = str_to_chars("\",\"isbn_code\":");
    let l3 = str_to_chars(",\"title\":");
    let l4 = str_to_chars(",\"year\":");
    let l5 = str_to_chars("}");
    proof {
        reveal_strlit("{\"uuid\":\"");
        reveal_strlit("\",\"isbn_code\":");
        reveal_strlit(",\"title\":");
        reveal_strlit(",\"year\":");
        reveal_strlit("}");
        reveal(lit_obj_uuid);
        reveal(lit_isbn);
        reveal(lit_title);
        reveal(lit_year);
        reveal(lit_close);
        assert(l1@ =~= lit_obj_uuid());
        assert(l2@ =~= lit_isbn());
        assert(l3@ =~= lit_title());
        assert(l4@ =~= lit_year());
        assert(l5@ =~= lit_close());
    }
    let j1 = match expect_lit(s, i, &l1) {
        Some(j) => j,
        None => {
            return None;
        },
    };
    let (u, j2) = match parse_uuid_exec(s, j1) {
        Some(x) => x,
        None => {
            return None;
        },
    };
    let j3 = match expect_lit(s, j2, &l2) {
        Some(j) => j,
        None => {
            return None;
        },
    };
    let (isbn, j4) = match parse_string_exec(s, j3) {
        Some(x) => x,
        None => {
            return None;
        },
    };
    let j5 = match expect_lit(s, j4, &l3) {
        Some(j) => j,
        None => {
            return None;
        },
    };
    let (title, j6) = match parse_string_exec(s, j5) {
        Some(x) => x,
        None => {
            return None;
        },
    };
    let j7 = match expect_lit(s, j6, &l4) {
        Some(j) => j,
        None => {
            return None;
        },
    };
    let (year, j8) = match parse_i32_exec(s, j7) {
        Some(x) => x,
        None => {
            return None;
        },
    };
    let j9 = match expect_lit(s, j8, &l5) {
        Some(j) => j,
        None => {
            return None;
        },
    };
    let b = Book {
        uuid: u,
        isbn_code: chars_to_string(&isbn),
        title: chars_to_string(&title),
        year,
    };
    Some((b, j9))
}

/// Reads one magazine record; exactly the parse the specification describes.
pub fn parse_magazine_exec(s: &Vec<char>, i: usize) -> (r: Option<(Magazine, usize)>)
    ensures
        match r {
            Some((m, j)) => parse_magazine_at(s@, i as int) == Some((m@, j as int)) && j
                <= s@.len(),
            None => parse_magazine_at(s@, i as int) is None,
        },
{
    let l1 = str_to_chars("{\"uuid\":\"");
    let l2 = str_to_chars("\",\"isbn_code\":");
    let l3 = str_to_chars(",\"title\":");
    let l4 = str_to_chars(",\"year\":");
    let l5 = str_to_chars(",\"super_hero\":");
    let l6 = str_to_chars("}");
    proof {
        reveal_strlit("{\"uuid\":\"");
        reveal_strlit("\",\"isbn_code\":");
        reveal_strlit(",\"title\":");
        reveal_strlit(",\"year\":");
        reveal_strlit(",\"super_hero\":");
        reveal_strlit("}");
        reveal(lit_obj_uuid);
        reveal(lit_isbn);
        reveal(lit_title);
        reveal(lit_year);
        reveal(lit_hero);
        reveal(lit_close);
        assert(l1@ =~= lit_obj_uuid());
        assert(l2@ =~= lit_isbn());
        assert(l3@ =~= lit_title());
        assert(l4@ =~= lit_year());
        assert(l5@ =~= lit_hero());
        assert(l6@ =~= lit_close());
    }
    let j1 = match expect_lit(s, i, &l1) {
        Some(j) => j,
        None => {
            return None;
        },
    };
    let (u, j2) = match parse_uuid_exec(s, j1) {
        Some(x) => x,
        None => {
            return None;
        },
    };
    let j3 = match expect_lit(s, j2, &l2) {
        Some(j) => j,
        None => {
            return None;
        },
    };
    let (isbn, j4) = match parse_string_exec(s, j3) {
        Some(x) => x,
        None => {
            return None;
        },
    };
    let j5 = match expect_lit(s, j4, &l3) {
        Some(j) => j,
        None => {
            return None;
        },
    };
    let (title, j6) = match parse_string_exec(s, j5) {
        Some(x) => x,
        None => {
            return None;
        },
    };
    let j7 = match expect_lit(s, j6, &l4) {
        Some(j) => j,
        None => {
            return None;
        },
    };
    let (year, j8) = match parse_i32_exec(s, j7) {
        Some(x) => x,
        None => {
            return None;
        },
    };
    let j9 = match expect_lit(s, j8, &l5) {
        Some(j) => j,
        None => {
            return None;
        },
    };
    let (hero, j10) = match parse_string_exec(s, j9) {
        Some(x) => x,
        None => {
            return None;
        },
    };
    let j11 = match expect_lit(s, j10, &l6) {
        Some(j) => j,
        None => {
            return None;
        },
    };
    let m = Magazine {
        uuid: u,
        isbn_code: chars_to_string(&isbn),
        title: chars_to_string(&title),
        year,
        super_hero: chars_to_string(&hero),
    };
    Some((m, j11))
}

/// Reads one reader record; exactly the parse the specification describes.
pub fn parse_reader_exec(s: &Vec<char>, i: usize) -> (r: Option<(Reader, usize)>)
    ensures
        match r {
            Some((rd, j)) => parse_reader_at(s@, i as int) == Some((rd@, j as int)) && j
                <= s@.len(),
            None => parse_reader_at(s@, i as int) is None,
        },
{
    let l1 = str_to_chars("{\"uuid\":\"");
    let l2 = str_to_chars("\",\"name\":");
    let l3 = str_to_chars("}");
    proof {
        reveal_strlit("{\"uuid\":\"");
        reveal_strlit("\",\"name\":");
        reveal_strlit("}");
        reveal(lit_obj_uuid);
        reveal(lit_name);
        reveal(lit_close);
        assert(l1@ =~= lit_obj_uuid());
        assert(l2@ =~= lit_name());
        assert(l3@ =~= lit_close());
    }
    let j1 = match expect_lit(s, i, &l1) {
        Some(j) => j,
        None => {
            return None;
        },
    };
    let (u, j2) = match parse_uuid_exec(s, j1) {
        Some(x) => x,
        None => {
            return None;
        },
    };
    let j3 = match expect_lit(s, j2, &l2) {
        Some(j) => j,
        None => {
            return None;
        },
    };
    let (name, j4) = match parse_string_exec(s, j3) {
        Some(x) => x,
        None => {
            return None;
        },
    };
    let j5 = match expect_lit(s, j4, &l3) {
        Some(j) => j,
        None => {
            return None;
        },
    };
    let rd = Reader { uuid: u, name: chars_to_string(&name) };
    Some((rd, j5))
}

/// Reads one borrow pair; exactly the parse the specification describes.
pub fn parse_pair_exec(s: &Vec<char>, i: usize) -> (r: Option<((u128, u128), usize)>)
    ensures
        match r {
            Some((p, j)) => parse_pair_at(s@, i as int) == Some((p, j as int)) && j <= s@.len(),
            None => parse_pair_at(s@, i as int) is None,
        },
{
    let l1 = str_to_chars("[\"");
    let l2 = str_to_chars("\",\"");
    let l3 = str_to_chars("\"]");
    proof {
        reveal_strlit("[\"");
        reveal_strlit("\",\"");
        reveal_strlit("\"]");
        reveal(lit_pair_open);
        reveal(lit_pair_mid);
        reveal(lit_pair_close);
        assert(l1@ =~= lit_pair_open());
        assert(l2@ =~= lit_pair_mid());
        assert(l3@ =~= lit_pair_close());
    }
    let j1 = match expect_lit(s, i, &l1) {
        Some(j) => j,
        None => {
            return None;
        },
    };
    let (a, j2) = match parse_uuid_exec(s, j1) {
        Some(x) => x,
        None => {
            return None;
        },
    };
    let j3 = match expect_lit(s, j2, &l2) {
        Some(j) => j,
        None => {
            return None;
        },
    };
    let (b, j4) = match parse_uuid_exec(s, j3) {
        Some(x) => x,
        None => {
            return None;
        },
    };
    let j5 = match expect_lit(s, j4, &l3) {
        Some(j) => j,
        None => {
            return None;
        },
    };
    Some(((a, b), j5))
}

fn parse_books_rest_exec(s: &Vec<char>, i: usize) -> (r: Option<(Vec<Book>, usize)>)
    requires
        i <= s@.len(),
    ensures
        match r {
            Some((v, j)) => parse_books_rest(s@, i as int) == Some((views_books(v@), j as int))
                && j <= s@.len(),
            None => parse_books_rest(s@, i as int) is None,
        },
    decreases s@.len() - i,
{
    if i >= s.len() {
        return None;
    }
    if s[i] == ']' {
        let v: Vec<Book> = Vec::new();
        proof {
            assert(views_books(v@) =~= Seq::<BookView>::empty());
        }
        return Some((v, i + 1));
    }
    if s[i] != ',' {
        return None;
    }
    let (b, j) = match parse_book_exec(s, i + 1) {
        Some(x) => x,
        None => {
            return None;
        },
    };
    if !(i + 1 < j) {
        return None;
    }
    match parse_books_rest_exec(s, j) {
        Some((mut tl, k2)) => {
            let ghost prev = tl@;
            tl.insert(0, b);
            proof {
                assert(tl@ =~= seq![b] + prev);
                assert(views_books(seq![b] + prev) =~= seq![b@] + views_books(prev));
            }
            Some((tl, k2))
        },
        None => None,
    }
}

fn parse_books_exec(s: &Vec<char>, i: usize) -> (r: Option<(Vec<Book>, usize)>)
    ensures
        match r {
            Some((v, j)) => parse_books_at(s@, i as int) == Some((views_books(v@), j as int)) && j
                <= s@.len(),
            None => parse_books_at(s@, i as int) is None,
        },
{
    if i >= s.len() || s[i] != '[' {
        return None;
    }
    if i + 1 < s.len() && s[i + 1] == ']' {
        let v: Vec<Book> = Vec::new();
        proof {
            assert(views_books(v@) =~= Seq::<BookView>::empty());
        }
        return Some((v, i + 2));
    }
    let (b, j) = match parse_book_exec(s, i + 1) {
        Some(x) => x,
        None => {
            return None;
        },
    };
    if !(i + 1 < j) {
        return None;
    }
    match parse_books_rest_exec(s, j) {
        Some((mut tl, k2)) => {
            let ghost prev = tl@;
            tl.insert(0, b);
            proof {
                assert(tl@ =~= seq![b] + prev);
                assert(views_books(seq![b] + prev) =~= seq![b@] + views_books(prev));
            }
            Some((tl, k2))
        },
        None => None,
    }
}

fn parse_magazines_rest_exec(s: &Vec<char>, i: usize) -> (r: Option<(Vec<Magazine>, usize)>)
    requires
        i <= s@.len(),
    ensures
        match r {
            Some((v, j)) => parse_magazines_rest(s@, i as int) == Some(
                (views_magazines(v@), j as int),
            ) && j <= s@.len(),
            None => parse_magazines_rest(s@, i as int) is None,
        },
    decreases s@.len() - i,
{
    if i >= s.len() {
        return None;
    }
    if s[i] == ']' {
        let v: Vec<Magazine> = Vec::new();
        proof {
            assert(views_magazines(v@) =~= Seq::<MagazineView>::empty());
        }
        return Some((v, i + 1));
    }
    if s[i] != ',' {
        return None;
    }
    let (m, j) = match parse_magazine_exec(s, i + 1) {
        Some(x) => x,
        None => {
            return None;
        },
    };
    if !(i + 1 < j) {
        return None;
    }
    match parse_magazines_rest_exec(s, j) {
        Some((mut tl, k2)) => {
            let ghost prev = tl@;
            tl.insert(0, m);
            proof {
                assert(tl@ =~= seq![m] + prev);
                assert(views_magazines(seq![m] + prev) =~= seq![m@] + views_magazines(prev));
            }
            Some((tl, k2))
        },
        None => None,
    }
}

fn parse_magazines_exec(s: &Vec<char>, i: usize) -> (r: Option<(Vec<Magazine>, usize)>)
    ensures
        match r {
            Some((v, j)) => parse_magazines_at(s@, i as int) == Some(
                (views_magazines(v@), j as int),
            ) && j <= s@.len(),
            None => parse_magazines_at(s@, i as int) is None,
        },
{
    if i >= s.len() || s[i] != '[' {
        return None;
    }
    if i + 1 < s.len() && s[i + 1] == ']' {
        let v: Vec<Magazine> = Vec::new();
        proof {
            assert(views_magazines(v@) =~= Seq::<MagazineView>::empty());
        }
        return Some((v, i + 2));
    }
    let (m, j) = match parse_magazine_exec(s, i + 1) {
        Some(x) => x,
        None => {
            return None;
        },
    };
    if !(i + 1 < j) {
        return None;
    }
    match parse_magazines_rest_exec(s, j) {
        Some((mut tl, k2)) => {
            let ghost prev = tl@;
            tl.insert(0, m);
            proof {
                assert(tl@ =~= seq![m] + prev);
                assert(views_magazines(seq![m] + prev) =~= seq![m@] + views_magazines(prev));
            }
            Some((tl, k2))
        },
        None => None,
    }
}

fn parse_pairs_rest_exec(s: &Vec<char>, i: usize) -> (r: Option<(Vec<(u128, u128)>, usize)>)
    requires
        i <= s@.len(),
    ensures
        match r {
            Some((v, j)) => parse_pairs_rest(s@, i as int) == Some((v@, j as int)) && j
                <= s@.len(),
            None => parse_pairs_rest(s@, i as int) is None,
        },
    decreases s@.len() - i,
{
    if i >= s.len() {
        return None;
    }
    if s[i] == ']' {
        let v: Vec<(u128, u128)> = Vec::new();
        proof {
            assert(v@ =~= Seq::<(u128, u128)>::empty());
        }
        return Some((v, i + 1));
    }
    if s[i] != ',' {
        return None;
    }
    let (p, j) = match parse_pair_exec(s, i + 1) {
        Some(x) => x,
        None => {
            return None;
        },
    };
    if !(i + 1 < j) {
        return None;
    }
    match parse_pairs_rest_exec(s, j) {
        Some((mut tl, k2)) => {
            let ghost prev = tl@;
            tl.insert(0, p);
            proof {
                assert(tl@ =~= seq![p] + prev);
            }
            Some((tl, k2))
        },
        None => None,
    }
}

fn parse_pairs_exec(s: &Vec<char>, i: usize) -> (r: Option<(Vec<(u128, u128)>, usize)>)
    ensures
        match r {
            Some((v, j)) => parse_pairs_at(s@, i as int) == Some((v@, j as int)) && j <= s@.len(),
            None => parse_pairs_at(s@, i as int) is None,
        },
{
    if i >= s.len() || s[i] != '[' {
        return None;
    }
    if i + 1 < s.len() && s[i + 1] == ']' {
        let v: Vec<(u128, u128)> = Vec::new();
        proof {
            assert(v@ =~= Seq::<(u128, u128)>::empty());
        }
        return Some((v, i + 2));
    }
    let (p, j) = match parse_pair_exec(s, i + 1) {
        Some(x) => x,
        None => {
            return None;
        },
    };
    if !(i + 1 < j) {
        return None;
    }
    match parse_pairs_rest_exec(s, j) {
        Some((mut tl, k2)) => {
            let ghost prev = tl@;
            tl.insert(0, p);
            proof {
                assert(tl@ =~= seq![p] + prev);
            }
            Some((tl, k2))
        },
        None => None,
    }
}

fn parse_readers_rest_exec(s: &Vec<char>, i: usize) -> (r: Option<(Vec<Reader>, usize)>)
    requires
        i <= s@.len(),
    ensures
        match r {
            Some((v, j)) => parse_readers_rest(s@, i as int) == Some(
                (views_readers(v@), j as int),
            ) && j <= s@.len(),
            None => parse_readers_rest(s@, i as int) is None,
        },
    decreases s@.len() - i,
{
    if i >= s.len() {
        return None;
    }
    if s[i] == ']' {
        let v: Vec<Reader> = Vec::new();
        proof {
            assert(views_readers(v@) =~= Seq::<ReaderView>::empty());
        }
        return Some((v, i + 1));
    }
    if s[i] != ',' {
        return None;
    }
    let (rd, j) = match parse_reader_exec(s, i + 1) {
        Some(x) => x,
        None => {
            return None;
        },
    };
    if !(i + 1 < j) {
        return None;
    }
    match parse_readers_rest_exec(s, j) {
        Some((mut tl, k2)) => {
            let ghost prev = tl@;
            tl.insert(0, rd);
            proof {
                assert(tl@ =~= seq![rd] + prev);
                assert(views_readers(seq![rd] + prev) =~= seq![rd@] + views_readers(prev));
            }
            Some((tl, k2))
        },
        None => None,
    }
}

fn parse_readers_exec(s: &Vec<char>, i: usize) -> (r: Option<(Vec<Reader>, usize)>)
    ensures
        match r {
            Some((v, j)) => parse_readers_at(s@, i as int) == Some((views_readers(v@), j as int))
                && j <= s@.len(),
            None => parse_readers_at(s@, i as int) is None,
        },
{
    if i >= s.len() || s[i] != '[' {
        return None;
    }
    if i + 1 < s.len() && s[i + 1] == ']' {
        let v: Vec<Reader> = Vec::new();
        proof {
            assert(views_readers(v@) =~= Seq::<ReaderView>::empty());
        }
        return Some((v, i + 2));
    }
    let (rd, j) = match parse_reader_exec(s, i + 1) {
        Some(x) => x,
        None => {
            return None;
        },
    };
    if !(i + 1 < j) {
        return None;
    }
    match parse_readers_rest_exec(s, j) {
        Some((mut tl, k2)) => {
            let ghost prev = tl@;
            tl.insert(0, rd);
            proof {
                assert(tl@ =~= seq![rd] + prev);
                assert(views_readers(seq![rd] + prev) =~= seq![rd@] + views_readers(prev));
            }
            Some((tl, k2))
        },
        None => None,
    }
}

// ---------------------------------------------------------------------------
// Decoding a whole document into a catalogue.
// ---------------------------------------------------------------------------

pub open spec fn view_ids(v: CatalogueView) -> Seq<u128> {
    v.books.map_values(|b: BookView| b.uuid) + v.magazines.map_values(|m: MagazineView| m.uuid)
}

pub open spec fn view_reader_ids(v: CatalogueView) -> Seq<u128> {
    v.readers.map_values(|r: ReaderView| r.uuid)
}

/// Well-formedness of a decoded state, stated over the document's image:
/// item and reader identifiers unique, borrow keys unique, every borrow
/// entry pointing at an existing item and reader.
pub open spec fn view_wf(v: CatalogueView) -> bool {
    &&& forall|i: int, j: int|
        #![trigger view_ids(v)[i], view_ids(v)[j]]
        0 <= i < j < view_ids(v).len() ==> view_ids(v)[i] != view_ids(v)[j]
    &&& forall|i: int, j: int|
        #![trigger v.readers[i], v.readers[j]]
        0 <= i < j < v.readers.len() ==> v.readers[i].uuid != v.readers[j].uuid
    &&& forall|i: int, j: int|
        #![trigger v.borrows[i], v.borrows[j]]
        0 <= i < j < v.borrows.len() ==> v.borrows[i].0 != v.borrows[j].0
    &&& forall|k: int|
        0 <= k < v.borrows.len() ==> view_ids(v).contains(#[trigger] v.borrows[k].0)
            && view_reader_ids(v).contains(v.borrows[k].1)
}

/// Assembles the unified item list: the books first, then the magazines,
/// each keeping its order.
fn items_from_lists(books: Vec<Book>, mags: Vec<Magazine>) -> (items: Vec<CatalogueItem>)
    ensures
        crate::entities::books_of(items@) == views_books(books@),
        crate::entities::magazines_of(items@) == views_magazines(mags@),
        items@.len() == books@.len() + mags@.len(),
        forall|t: int| 0 <= t < books@.len() ==> (#[trigger] items@[t].id()) == books@[t].uuid,
        forall|t: int|
            books@.len() <= t < items@.len() ==> (#[trigger] items@[t].id()) == mags@[t
                - books@.len()].uuid,
{
    let ghost origb = books@;
    let ghost origm = mags@;
    let ghost nb = books@.len() as int;
    let ghost nm = mags@.len() as int;
    let mut items: Vec<CatalogueItem> = Vec::new();
    let mut bks = books;
    proof {
        assert(bks@ =~= origb.subrange(0, nb));
        assert(crate::entities::books_of(items@) =~= views_books(origb.subrange(0, 0)));
        assert(crate::entities::magazines_of(items@) =~= Seq::<MagazineView>::empty());
    }
    while bks.len() > 0
        invariant
            items@.len() + bks@.len() == nb,
            nb == origb.len(),
            bks@ == origb.subrange(items@.len() as int, nb),
            crate::entities::books_of(items@) == views_books(
                origb.subrange(0, items@.len() as int),
            ),
            crate::entities::magazines_of(items@) == Seq::<MagazineView>::empty(),
            forall|t: int| 0 <= t < items@.len() ==> (#[trigger] items@[t].id()) == origb[t].uuid,
        decreases bks@.len(),
    {
        let ghost c = items@.len() as int;
        let b = bks.remove(0);
        let ghost prev = items@;
        proof {
            assert(b == origb[c]);
            assert(bks@ =~= origb.subrange(c + 1, nb));
        }
        items.push(CatalogueItem::Book(b));
        proof {
            crate::entities::lemma_of_push_book(prev, b);
            assert(views_books(origb.subrange(0, c)).push(origb[c]@) =~= views_books(
                origb.subrange(0, c + 1),
            ));
        }
    }
    let mut mgs = mags;
    proof {
        assert(origb.subrange(0, nb) =~= origb);
        assert(mgs@ =~= origm.subrange(0, nm));
        assert(views_magazines(origm.subrange(0, 0)) =~= Seq::<MagazineView>::empty());
    }
    while mgs.len() > 0
        invariant
            items@.len() == nb + (nm - mgs@.len()),
            mgs@.len() <= nm,
            0 <= nb,
            nb == origb.len(),
            nm == origm.len(),
            mgs@ == origm.subrange(items@.len() as int - nb, nm),
            crate::entities::books_of(items@) == views_books(origb),
            crate::entities::magazines_of(items@) == views_magazines(
                origm.subrange(0, items@.len() as int - nb),
            ),
            forall|t: int| 0 <= t < nb ==> (#[trigger] items@[t].id()) == origb[t].uuid,
            forall|t: int|
                nb <= t < items@.len() ==> (#[trigger] items@[t].id()) == origm[t - nb].uuid,
        decreases mgs@.len(),
    {
        let ghost c = items@.len() as int - nb;
        let m = mgs.remove(0);
        let ghost prev = items@;
        proof {
            assert(m == origm[c]);
            assert(mgs@ =~= origm.subrange(c + 1, nm));
        }
        items.push(CatalogueItem::Magazine(m));
        proof {
            crate::entities::lemma_of_push_magazine(prev, m);
            assert(views_magazines(origm.subrange(0, c)).push(origm[c]@) =~= views_magazines(
                origm.subrange(0, c + 1),
            ));
        }
    }
    proof {
        assert(origm.subrange(0, nm) =~= origm);
    }
    items
}

/// Decodes a persisted document. The result is a well-formed catalogue
/// exactly when the document parses and its image is well-formed; any other
/// document is rejected.
///
/// Known limitation: the parse accepts the canonical form only — the fixed
/// field order, no insignificant whitespace, and `\u` escapes below 256.
/// Every document `serialize` writes is canonical (the round-trip law rests
/// on that), but a hand-edited or pretty-printed file is rejected with
/// `StorageError` rather than read leniently.
#[verifier::rlimit(100)]
#[verifier::spinoff_prover]
pub fn deserialize(doc: &str) -> (r: Result<Catalogue, DepoError>)
    ensures
        match r {
            Ok(c) => c.wf() && parse_catalogue_full(doc@) == Some(c@),
            Err(e) => e == DepoError::StorageError && (parse_catalogue_full(doc@) is None
                || !view_wf(parse_catalogue_full(doc@).unwrap())),
        },
{
    let s = str_to_chars(doc);
    let l1 = str_to_chars("{\"depository_books\":");
    let l2 = str_to_chars(",\"depository_magazines\":");
    let l3 = str_to_chars(",\"borrows\":");
    let l4 = str_to_chars(",\"readers\":");
    let l5 = str_to_chars("}");
    proof {
        reveal_strlit("{\"depository_books\":");
        reveal_strlit(",\"depository_magazines\":");
        reveal_strlit(",\"borrows\":");
        reveal_strlit(",\"readers\":");
        reveal_strlit("}");
        reveal(lit_doc_books);
        reveal(lit_doc_mags);
        reveal(lit_doc_borrows);
        reveal(lit_doc_readers);
        reveal(lit_close);
        assert(l1@ =~= lit_doc_books());
        assert(l2@ =~= lit_doc_mags());
        assert(l3@ =~= lit_doc_borrows());
        assert(l4@ =~= lit_doc_readers());
        assert(l5@ =~= lit_close());
    }
    let j1 = match expect_lit(&s, 0, &l1) {
        Some(j) => j,
        None => {
            return Err(DepoError::StorageError);
        },
    };
    let (books, j2) = match parse_books_exec(&s, j1) {
        Some(x) => x,
        None => {
            return Err(DepoError::StorageError);
        },
    };
    let j3 = match expect_lit(&s, j2, &l2) {
        Some(j) => j,
        None => {
            return Err(DepoError::StorageError);
        },
    };
    let (mags, j4) = match parse_magazines_exec(&s, j3) {
        Some(x) => x,
        None => {
            return Err(DepoError::StorageError);
        },
    };
    let j5 = match expect_lit(&s, j4, &l3) {
        Some(j) => j,
        None => {
            return Err(DepoError::StorageError);
        },
    };
    let (pairs, j6) = match parse_pairs_exec(&s, j5) {
        Some(x) => x,
        None => {
            return Err(DepoError::StorageError);
        },
    };
    let j7 = match expect_lit(&s, j6, &l4) {
        Some(j) => j,
        None => {
            return Err(DepoError::StorageError);
        },
    };
    let (readers, j8) = match parse_readers_exec(&s, j7) {
        Some(x) => x,
        None => {
            return Err(DepoError::StorageError);
        },
    };
    let j9 = match expect_lit(&s, j8, &l5) {
        Some(j) => j,
        None => {
            return Err(DepoError::StorageError);
        },
    };
    if j9 != s.len() {
        return Err(DepoError::StorageError);
    }
    let ghost v = CatalogueView {
        books: views_books(books@),
        magazines: views_magazines(mags@),
        borrows: pairs@,
        readers: views_readers(readers@),
    };
    proof {
        assert(parse_catalogue_at(doc@, 0) == Some((v, j9 as int)));
        assert(parse_catalogue_full(doc@) == Some(v));
    }
    let ghost origb = books@;
    let ghost origm = mags@;
    let ghost nb = books@.len() as int;
    let items = items_from_lists(books, mags);
    let cat = Catalogue { items, readers, borrows: pairs };
    proof {
        assert(crate::entities::readers_view(cat.readers@) =~= views_readers(cat.readers@));
        assert(cat@ == v);
        assert(view_ids(v).len() == cat.items@.len());
        assert forall|t: int| 0 <= t < cat.items@.len() implies (#[trigger] cat.items@[t].id())
            == view_ids(v)[t] by {
            if t < nb {
                assert(view_ids(v)[t] == v.books[t].uuid);
                assert(v.books[t] == origb[t]@);
            } else {
                assert(view_ids(v)[t] == v.magazines[t - nb].uuid);
                assert(v.magazines[t - nb] == origm[t - nb]@);
            }
        }
        assert forall|t: int| 0 <= t < cat.readers@.len() implies (
        #[trigger] cat.readers@[t].uuid) == v.readers[t].uuid by {
            assert(v.readers[t] == cat.readers@[t]@);
        }
    }
    let ok = cat.check_wf();
    proof {
        lemma_wf_view_wf(cat, v);
    }
    if ok {
        Ok(cat)
    } else {
        Err(DepoError::StorageError)
    }
}

/// The item identifiers of an item list, as the document image orders them:
/// the books' first, then the magazines'.
pub open spec fn item_ids_view(items: Seq<CatalogueItem>) -> Seq<u128> {
    crate::entities::books_of(items).map_values(|b: BookView| b.uuid) + crate::entities::magazines_of(
        items,
    ).map_values(|m: MagazineView| m.uuid)
}

/// The image's identifier sequence carries exactly the items' identifiers:
/// same count, every image identifier is an item's, every item's identifier
/// occurs, and distinctness carries over.
proof fn lemma_item_ids_view(items: Seq<CatalogueItem>)
    ensures
        item_ids_view(items).len() == items.len(),
        forall|k: int|
            #![trigger item_ids_view(items)[k]]
            0 <= k < items.len() ==> exists|t: int|
                0 <= t < items.len() && items[t].id() == item_ids_view(items)[k],
        forall|t: int|
            #![trigger items[t]]
            0 <= t < items.len() ==> item_ids_view(items).contains(items[t].id()),
        (forall|i: int, j: int|
            #![trigger items[i], items[j]]
            0 <= i < j < items.len() ==> items[i].id() != items[j].id()) ==> (forall|
            i: int,
            j: int,
        |
            #![trigger item_ids_view(items)[i], item_ids_view(items)[j]]
            0 <= i < j < items.len() ==> item_ids_view(items)[i] != item_ids_view(items)[j]),
    decreases items.len(),
{
    if items.len() == 0 {
    } else {
        let rest = items.drop_first();
        lemma_item_ids_view(rest);
        assert forall|i: int, j: int|
            #![trigger rest[i], rest[j]]
            (forall|i2: int, j2: int|
                #![trigger items[i2], items[j2]]
                0 <= i2 < j2 < items.len() ==> items[i2].id() != items[j2].id()) && 0 <= i < j
            < rest.len() implies rest[i].id() != rest[j].id() by {
            assert(rest[i] == items[i + 1]);
            assert(rest[j] == items[j + 1]);
        }
        let x = items[0].id();
        let whole = item_ids_view(items);
        let tailseq = item_ids_view(rest);
        match items[0] {
            CatalogueItem::Book(b) => {
                assert(whole =~= seq![x] + tailseq);
                lemma_ids_cons_front(items, rest, x);
            },
            CatalogueItem::Magazine(m) => {
                let a = crate::entities::books_of(rest).map_values(|bv: BookView| bv.uuid);
                let bseq = crate::entities::magazines_of(rest).map_values(
                    |mv: MagazineView| mv.uuid,
                );
                assert(whole =~= a + (seq![x] + bseq));
                assert(tailseq =~= a + bseq);
                lemma_ids_insert_mid(items, rest, a, bseq, x);
            },
        }
    }
}

/// The head identifier sits in front of the tail's identifier sequence.
proof fn lemma_ids_cons_front(items: Seq<CatalogueItem>, rest: Seq<CatalogueItem>, x: u128)
    requires
        items.len() > 0,
        rest == items.drop_first(),
        x == items[0].id(),
        item_ids_view(items) == seq![x] + item_ids_view(rest),
        item_ids_view(rest).len() == rest.len(),
        forall|k: int|
            #![trigger item_ids_view(rest)[k]]
            0 <= k < rest.len() ==> exists|t: int|
                0 <= t < rest.len() && rest[t].id() == item_ids_view(rest)[k],
        forall|t: int|
            #![trigger rest[t]]
            0 <= t < rest.len() ==> item_ids_view(rest).contains(rest[t].id()),
        (forall|i: int, j: int|
            #![trigger rest[i], rest[j]]
            0 <= i < j < rest.len() ==> rest[i].id() != rest[j].id()) ==> (forall|i: int, j: int|
            #![trigger item_ids_view(rest)[i], item_ids_view(rest)[j]]
            0 <= i < j < rest.len() ==> item_ids_view(rest)[i] != item_ids_view(rest)[j]),
    ensures
        item_ids_view(items).len() == items.len(),
        forall|k: int|
            #![trigger item_ids_view(items)[k]]
            0 <= k < items.len() ==> exists|t: int|
                0 <= t < items.len() && items[t].id() == item_ids_view(items)[k],
        forall|t: int|
            #![trigger items[t]]
            0 <= t < items.len() ==> item_ids_view(items).contains(items[t].id()),
        (forall|i: int, j: int|
            #![trigger items[i], items[j]]
            0 <= i < j < items.len() ==> items[i].id() != items[j].id()) ==> (forall|
            i: int,
            j: int,
        |
            #![trigger item_ids_view(items)[i], item_ids_view(items)[j]]
            0 <= i < j < items.len() ==> item_ids_view(items)[i] != item_ids_view(items)[j]),
{
    let whole = item_ids_view(items);
    let tailseq = item_ids_view(rest);
    assert forall|k: int| 0 <= k < items.len() implies exists|t: int|
        0 <= t < items.len() && items[t].id() == #[trigger] whole[k] by {
        if k == 0 {
            assert(items[0].id() == whole[0]);
        } else {
            assert(whole[k] == tailseq[k - 1]);
            let t = choose|t: int| 0 <= t < rest.len() && rest[t].id() == tailseq[k - 1];
            assert(items[t + 1].id() == whole[k]);
        }
    }
    assert forall|t: int| 0 <= t < items.len() implies whole.contains(
        (#[trigger] items[t]).id(),
    ) by {
        if t == 0 {
            assert(whole[0] == items[0].id());
        } else {
            assert(rest[t - 1] == items[t]);
            assert(tailseq.contains(rest[t - 1].id()));
            let k = choose|k: int| 0 <= k < tailseq.len() && tailseq[k] == rest[t - 1].id();
            assert(whole[k + 1] == items[t].id());
        }
    }
    if forall|i: int, j: int|
        #![trigger items[i], items[j]]
        0 <= i < j < items.len() ==> items[i].id() != items[j].id() {
        assert forall|i: int, j: int|
            #![trigger rest[i], rest[j]]
            0 <= i < j < rest.len() implies rest[i].id() != rest[j].id() by {
            assert(rest[i] == items[i + 1]);
            assert(rest[j] == items[j + 1]);
        }
        assert forall|i: int, j: int| 0 <= i < j < items.len() implies #[trigger] whole[i]
            != #[trigger] whole[j] by {
            if i == 0 {
                assert(whole[j] == tailseq[j - 1]);
                let t = choose|t: int| 0 <= t < rest.len() && rest[t].id() == tailseq[j - 1];
                assert(items[t + 1].id() == whole[j]);
                assert(items[0].id() != items[t + 1].id());
            } else {
                assert(whole[i] == tailseq[i - 1]);
                assert(whole[j] == tailseq[j - 1]);
            }
        }
    }
}

/// The head identifier sits between the tail's book identifiers and its
/// magazine identifiers.
proof fn lemma_ids_insert_mid(
    items: Seq<CatalogueItem>,
    rest: Seq<CatalogueItem>,
    a: Seq<u128>,
    b: Seq<u128>,
    x: u128,
)
    requires
        items.len() > 0,
        rest == items.drop_first(),
        x == items[0].id(),
        item_ids_view(items) == a + (seq![x] + b),
        item_ids_view(rest) == a + b,
        item_ids_view(rest).len() == rest.len(),
        forall|k: int|
            #![trigger item_ids_view(rest)[k]]
            0 <= k < rest.len() ==> exists|t: int|
                0 <= t < rest.len() && rest[t].id() == item_ids_view(rest)[k],
        forall|t: int|
            #![trigger rest[t]]
            0 <= t < rest.len() ==> item_ids_view(rest).contains(rest[t].id()),
        (forall|i: int, j: int|
            #![trigger rest[i], rest[j]]
            0 <= i < j < rest.len() ==> rest[i].id() != rest[j].id()) ==> (forall|i: int, j: int|
            #![trigger item_ids_view(rest)[i], item_ids_view(rest)[j]]
            0 <= i < j < rest.len() ==> item_ids_view(rest)[i] != item_ids_view(rest)[j]),
    ensures
        item_ids_view(items).len() == items.len(),
        forall|k: int|
            #![trigger item_ids_view(items)[k]]
            0 <= k < items.len() ==> exists|t: int|
                0 <= t < items.len() && items[t].id() == item_ids_view(items)[k],
        forall|t: int|
            #![trigger items[t]]
            0 <= t < items.len() ==> item_ids_view(items).contains(items[t].id()),
        (forall|i: int, j: int|
            #![trigger items[i], items[j]]
            0 <= i < j < items.len() ==> items[i].id() != items[j].id()) ==> (forall|
            i: int,
            j: int,
        |
            #![trigger item_ids_view(items)[i], item_ids_view(items)[j]]
            0 <= i < j < items.len() ==> item_ids_view(items)[i] != item_ids_view(items)[j]),
{
    let whole = item_ids_view(items);
    let tailseq = item_ids_view(rest);
    let al = a.len() as int;
    assert(whole.len() == items.len());
    assert forall|k: int| 0 <= k < items.len() implies exists|t: int|
        0 <= t < items.len() && items[t].id() == #[trigger] whole[k] by {
        if k == al {
            assert(whole[k] == x);
            assert(items[0].id() == whole[k]);
        } else {
            let kr = if k < al {
                k
            } else {
                k - 1
            };
            assert(whole[k] == tailseq[kr]);
            let t = choose|t: int| 0 <= t < rest.len() && rest[t].id() == tailseq[kr];
            assert(items[t + 1].id() == whole[k]);
        }
    }
    assert forall|t: int| 0 <= t < items.len() implies whole.contains(
        (#[trigger] items[t]).id(),
    ) by {
        if t == 0 {
            assert(whole[al] == x);
        } else {
            assert(rest[t - 1] == items[t]);
            assert(tailseq.contains(rest[t - 1].id()));
            let k = choose|k: int| 0 <= k < tailseq.len() && tailseq[k] == rest[t - 1].id();
            let kw = if k < al {
                k
            } else {
                k + 1
            };
            assert(whole[kw] == items[t].id());
        }
    }
    if forall|i: int, j: int|
        #![trigger items[i], items[j]]
        0 <= i < j < items.len() ==> items[i].id() != items[j].id() {
        assert forall|i: int, j: int|
            #![trigger rest[i], rest[j]]
            0 <= i < j < rest.len() implies rest[i].id() != rest[j].id() by {
            assert(rest[i] == items[i + 1]);
            assert(rest[j] == items[j + 1]);
        }
        assert forall|i: int, j: int| 0 <= i < j < items.len() implies #[trigger] whole[i]
            != #[trigger] whole[j] by {
            if i == al || j == al {
                let k = if i == al {
                    j
                } else {
                    i
                };
                let kr = if k < al {
                    k
                } else {
                    k - 1
                };
                assert(whole[k] == tailseq[kr]);
                let t = choose|t: int| 0 <= t < rest.len() && rest[t].id() == tailseq[kr];
                assert(items[t + 1].id() == whole[k]);
                assert(items[0].id() != items[t + 1].id());
                assert(whole[al] == x);
            } else {
                let ir = if i < al {
                    i
                } else {
                    i - 1
                };
                let jr = if j < al {
                    j
                } else {
                    j - 1
                };
                assert(whole[i] == tailseq[ir]);
                assert(whole[j] == tailseq[jr]);
                assert(ir < jr);
            }
        }
    }
}

/// Law: a well-formed catalogue state has a well-formed image, so its
/// serialized form always decodes back to an equivalent state.
pub proof fn lemma_wf_implies_view_wf(c: Catalogue)
    requires
        c.wf(),
    ensures
        view_wf(c@),
        parse_catalogue_full(ser_catalogue(c@)) == Some(c@),
{
    lemma_item_ids_view(c.items@);
    assert(view_ids(c@) == item_ids_view(c.items@));
    assert forall|i: int, j: int|
        #![trigger view_ids(c@)[i], view_ids(c@)[j]]
        0 <= i < j < view_ids(c@).len() implies view_ids(c@)[i] != view_ids(c@)[j] by {
        assert(item_ids_view(c.items@)[i] != item_ids_view(c.items@)[j]);
    }
    assert forall|i: int, j: int|
        #![trigger c@.readers[i], c@.readers[j]]
        0 <= i < j < c@.readers.len() implies c@.readers[i].uuid != c@.readers[j].uuid by {
        assert(c@.readers[i] == c.readers@[i]@);
        assert(c@.readers[j] == c.readers@[j]@);
    }
    assert forall|k: int| 0 <= k < c@.borrows.len() implies view_ids(c@).contains(
        #[trigger] c@.borrows[k].0,
    ) && view_reader_ids(c@).contains(c@.borrows[k].1) by {
        assert(crate::catalogue::has_item_id(c.items@, c.borrows@[k].0));
        crate::catalogue::lemma_find_item_some_index(c.items@, c.borrows@[k].0);
        let t = choose|t: int| 0 <= t < c.items@.len() && c.items@[t].id() == c.borrows@[k].0;
        assert(item_ids_view(c.items@).contains(c.items@[t].id()));
        assert(crate::catalogue::has_reader_id(c.readers@, c.borrows@[k].1));
        crate::catalogue::lemma_find_reader_some_index(c.readers@, c.borrows@[k].1);
        let tr = choose|tr: int|
            0 <= tr < c.readers@.len() && c.readers@[tr].uuid == c.borrows@[k].1;
        assert(view_reader_ids(c@)[tr] == c@.borrows[k].1);
    }
    lemma_parse_ser_catalogue(c@);
}

/// Well-formedness of a catalogue and of its image coincide, given the
/// pointwise identifier correspondence the decoder establishes.
proof fn lemma_wf_view_wf(cat: Catalogue, v: CatalogueView)
    requires
        cat@ == v,
        v.borrows == cat.borrows@,
        view_ids(v).len() == cat.items@.len(),
        forall|t: int|
            0 <= t < cat.items@.len() ==> (#[trigger] cat.items@[t].id()) == view_ids(v)[t],
        v.readers.len() == cat.readers@.len(),
        forall|t: int|
            0 <= t < cat.readers@.len() ==> (#[trigger] cat.readers@[t].uuid) == v.readers[t].uuid,
    ensures
        cat.wf() <==> view_wf(v),
{
    if cat.wf() {
        assert forall|i: int, j: int|
            #![trigger view_ids(v)[i], view_ids(v)[j]]
            0 <= i < j < view_ids(v).len() implies view_ids(v)[i] != view_ids(v)[j] by {
            assert(cat.items@[i].id() == view_ids(v)[i]);
            assert(cat.items@[j].id() == view_ids(v)[j]);
        }
        assert forall|i: int, j: int|
            #![trigger v.readers[i], v.readers[j]]
            0 <= i < j < v.readers.len() implies v.readers[i].uuid != v.readers[j].uuid by {
            assert(cat.readers@[i].uuid == v.readers[i].uuid);
            assert(cat.readers@[j].uuid == v.readers[j].uuid);
        }
        assert forall|i: int, j: int|
            #![trigger v.borrows[i], v.borrows[j]]
            0 <= i < j < v.borrows.len() implies v.borrows[i].0 != v.borrows[j].0 by {
            assert(cat.borrows@[i].0 != cat.borrows@[j].0);
        }
        assert forall|k: int| 0 <= k < v.borrows.len() implies view_ids(v).contains(
            #[trigger] v.borrows[k].0,
        ) && view_reader_ids(v).contains(v.borrows[k].1) by {
            assert(crate::catalogue::has_item_id(cat.items@, cat.borrows@[k].0));
            crate::catalogue::lemma_find_item_some_index(cat.items@, cat.borrows@[k].0);
            let idx = choose|idx: int|
                0 <= idx < cat.items@.len() && cat.items@[idx].id() == cat.borrows@[k].0;
            assert(view_ids(v)[idx] == v.borrows[k].0);
            assert(crate::catalogue::has_reader_id(cat.readers@, cat.borrows@[k].1));
            crate::catalogue::lemma_find_reader_some_index(cat.readers@, cat.borrows@[k].1);
            let idr = choose|idr: int|
                0 <= idr < cat.readers@.len() && cat.readers@[idr].uuid == cat.borrows@[k].1;
            assert(view_reader_ids(v)[idr] == v.borrows[k].1);
        }
        assert(view_wf(v));
    }
    if view_wf(v) {
        assert forall|i: int, j: int|
            #![trigger cat.items@[i], cat.items@[j]]
            0 <= i < j < cat.items@.len() implies cat.items@[i].id() != cat.items@[j].id() by {
            assert(view_ids(v)[i] != view_ids(v)[j]);
        }
        assert forall|i: int, j: int|
            #![trigger cat.readers@[i], cat.readers@[j]]
            0 <= i < j < cat.readers@.len() implies cat.readers@[i].uuid
            != cat.readers@[j].uuid by {
            assert(v.readers[i].uuid != v.readers[j].uuid);
        }
        assert forall|i: int, j: int|
            #![trigger cat.borrows@[i], cat.borrows@[j]]
            0 <= i < j < cat.borrows@.len() implies cat.borrows@[i].0 != cat.borrows@[j].0 by {
            assert(v.borrows[i].0 != v.borrows[j].0);
        }
        assert forall|k: int| 0 <= k < cat.borrows@.len() implies crate::catalogue::has_item_id(
            cat.items@,
            #[trigger] cat.borrows@[k].0,
        ) && crate::catalogue::has_reader_id(cat.readers@, cat.borrows@[k].1) by {
            assert(view_ids(v).contains(v.borrows[k].0));
            let idx = choose|idx: int|
                0 <= idx < view_ids(v).len() && view_ids(v)[idx] == v.borrows[k].0;
            assert(cat.items@[idx].id() == cat.borrows@[k].0);
            crate::catalogue::lemma_find_item_exists(cat.items@, cat.borrows@[k].0);
            assert(view_reader_ids(v).contains(v.borrows[k].1));
            let idr = choose|idr: int|
                0 <= idr < view_reader_ids(v).len() && view_reader_ids(v)[idr] == v.borrows[k].1;
            assert(cat.readers@[idr].uuid == cat.borrows@[k].1);
            crate::catalogue::lemma_find_reader_exists(cat.readers@, cat.borrows@[k].1);
        }
        assert(forall|i: int, j: int|
            #![trigger cat.items@[i], cat.items@[j]]
            0 <= i < j < cat.items@.len() ==> cat.items@[i].id() != cat.items@[j].id());
        assert(forall|i: int, j: int|
            #![trigger cat.readers@[i], cat.readers@[j]]
            0 <= i < j < cat.readers@.len() ==> cat.readers@[i].uuid != cat.readers@[j].uuid);
        assert(forall|i: int, j: int|
            #![trigger cat.borrows@[i], cat.borrows@[j]]
            0 <= i < j < cat.borrows@.len() ==> cat.borrows@[i].0 != cat.borrows@[j].0);
        assert(forall|k: int|
            0 <= k < cat.borrows@.len() ==> crate::catalogue::has_item_id(
                cat.items@,
                #[trigger] cat.borrows@[k].0,
            ));
        assert forall|k: int| 0 <= k < cat.borrows@.len() implies crate::catalogue::has_reader_id(
            cat.readers@,
            #[trigger] cat.borrows@[k].1,
        ) by {
            assert(crate::catalogue::has_item_id(cat.items@, cat.borrows@[k].0));
        }
        assert(cat.wf());
    }
}

} // verus!
