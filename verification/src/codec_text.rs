//! String literals of the persistence codec: JSON escaping of quote,
//! backslash and control characters, with a serializer, a parser, and the
//! lemma that parsing undoes serializing.

use vstd::prelude::*;

use crate::codec_num::{
    hex_val, is_hex_digit_char,
    lemma_parse_ser_hex, lemma_pow16_values, parse_hex_at, parse_hex_exec, ser_hex,
    ser_hex_exec,
};

verus! {

/// The encoded form of one character inside a string literal: quote and
/// backslash get a backslash escape, control characters a `\u00..` escape,
/// everything else stands as itself.
pub open spec fn esc_char(c: char) -> Seq<char> {
    if c == '"' {
        seq!['\\', '"']
    } else if c == '\\' {
        seq!['\\', '\\']
    } else if (c as u32) < 32 {
        seq!['\\', 'u', '0', '0'] + ser_hex((c as u32) as nat, 2)
    } else {
        seq![c]
    }
}

pub open spec fn esc_seq(s: Seq<char>) -> Seq<char>
    decreases s.len(),
{
    if s.len() == 0 {
        Seq::empty()
    } else {
        esc_char(s[0]) + esc_seq(s.drop_first())
    }
}

/// A whole string literal: quote, escaped characters, quote.
pub open spec fn ser_string(s: Seq<char>) -> Seq<char> {
    seq!['"'] + esc_seq(s) + seq!['"']
}

/// The character a two-character escape stands for, if `c` is the letter of
/// one. The parser accepts all of them; the serializer only ever emits the
/// quote and backslash forms.
pub open spec fn esc_short(c: char) -> Option<char> {
    if c == '"' {
        Some('"')
    } else if c == '\\' {
        Some('\\')
    } else if c == '/' {
        Some('/')
    } else if c == 'n' {
        Some('\n')
    } else if c == 't' {
        Some('\t')
    } else if c == 'r' {
        Some('\r')
    } else if c == 'b' {
        Some('\u{8}')
    } else if c == 'f' {
        Some('\u{c}')
    } else {
        None
    }
}

/// The characters of a string literal body, read from `i` up to the closing
/// quote; `None` on a malformed escape or a missing closing quote.
pub open spec fn parse_string_body(s: Seq<char>, i: int) -> Option<(Seq<char>, int)>
    decreases s.len() - i,
{
    if i < 0 || i >= s.len() {
        None
    } else if s[i] == '"' {
        Some((Seq::empty(), i + 1))
    } else if s[i] == '\\' {
        if i + 1 < s.len() && esc_short(s[i + 1]) is Some {
            match parse_string_body(s, i + 2) {
                Some((tail, j)) => Some((seq![esc_short(s[i + 1]).unwrap()] + tail, j)),
                None => None,
            }
        } else if i + 1 < s.len() && s[i + 1] == 'u' {
            match parse_hex_at(s, i + 2, 4, 0) {
                Some((v, j2)) => if v < 256 && j2 == i + 6 && i + 6 <= s.len() {
                    match parse_string_body(s, i + 6) {
                        Some((tail, j)) => Some((seq![(v as char)] + tail, j)),
                        None => None,
                    }
                } else {
                    None
                },
                None => None,
            }
        } else {
            None
        }
    } else {
        match parse_string_body(s, i + 1) {
            Some((tail, j)) => Some((seq![s[i]] + tail, j)),
            None => None,
        }
    }
}

/// A whole string literal, read from the opening quote at `i`.
pub open spec fn parse_string_at(s: Seq<char>, i: int) -> Option<(Seq<char>, int)> {
    if 0 <= i < s.len() && s[i] == '"' {
        parse_string_body(s, i + 1)
    } else {
        None
    }
}

/// Escaping distributes over appending one character at the end.
pub proof fn lemma_esc_seq_push(s: Seq<char>, c: char)
    ensures
        esc_seq(s.push(c)) == esc_seq(s) + esc_char(c),
    decreases s.len(),
{
    if s.len() == 0 {
        assert(s.push(c).drop_first() =~= Seq::<char>::empty());
        assert(esc_char(c) + esc_seq(Seq::<char>::empty()) =~= esc_char(c));
        assert(esc_seq(s) + esc_char(c) =~= esc_char(c));
    } else {
        assert(s.push(c)[0] == s[0]);
        assert(s.push(c).drop_first() =~= s.drop_first().push(c));
        lemma_esc_seq_push(s.drop_first(), c);
        assert(esc_char(s[0]) + (esc_seq(s.drop_first()) + esc_char(c)) =~= (esc_char(s[0])
            + esc_seq(s.drop_first())) + esc_char(c));
    }
}

/// Parsing undoes escaping: where the document carries the escaped
/// characters of `s` followed by a closing quote, the body parse recovers
/// `s` and stops right after the quote.
pub proof fn lemma_parse_ser_string_body(doc: Seq<char>, i: int, s: Seq<char>)
    requires
        0 <= i,
        i + esc_seq(s).len() + 1 <= doc.len(),
        doc.subrange(i, i + esc_seq(s).len() + 1) == esc_seq(s) + seq!['"'],
    ensures
        parse_string_body(doc, i) == Some((s, i + esc_seq(s).len() + 1)),
    decreases s.len(),
{
    if s.len() == 0 {
        assert(doc[i] == (esc_seq(s) + seq!['"'])[0]);
    } else {
        let c = s[0];
        let e = esc_char(c);
        let el = e.len() as int;
        let tl = esc_seq(s.drop_first()).len() as int;
        assert(esc_seq(s) == e + esc_seq(s.drop_first()));
        assert forall|t: int| 0 <= t < el implies doc[i + t] == e[t] by {
            assert(doc.subrange(i, i + esc_seq(s).len() + 1)[t] == (esc_seq(s) + seq!['"'])[t]);
            assert((esc_seq(s) + seq!['"'])[t] == esc_seq(s)[t]);
            assert(esc_seq(s)[t] == e[t]);
        }
        assert(doc.subrange(i + el, i + el + tl + 1) =~= esc_seq(s.drop_first()) + seq!['"']) by {
            assert forall|t: int| 0 <= t < tl + 1 implies doc.subrange(i + el, i + el + tl + 1)[t]
                == (esc_seq(s.drop_first()) + seq!['"'])[t] by {
                assert(doc.subrange(i, i + esc_seq(s).len() + 1)[el + t] == (esc_seq(s)
                    + seq!['"'])[el + t]);
                if t < tl {
                    assert((esc_seq(s) + seq!['"'])[el + t] == esc_seq(s)[el + t]);
                    assert(esc_seq(s)[el + t] == esc_seq(s.drop_first())[t]);
                } else {
                    assert((esc_seq(s) + seq!['"'])[el + t] == '"');
                }
            }
        }
        lemma_parse_ser_string_body(doc, i + el, s.drop_first());
        if c == '"' {
            assert(doc[i + 0] == e[0] && doc[i + 1] == e[1]);
            assert(doc[i] == '\\' && doc[i + 1] == '"');
            assert(esc_short(doc[i + 1]) == Some('"'));
            assert(seq![c] + s.drop_first() =~= s);
        } else if c == '\\' {
            assert(doc[i + 0] == e[0] && doc[i + 1] == e[1]);
            assert(doc[i] == '\\' && doc[i + 1] == '\\');
            assert(esc_short(doc[i + 1]) == Some('\\'));
            assert(seq![c] + s.drop_first() =~= s);
        } else if (c as u32) < 32 {
            lemma_pow16_values();
            let cv = (c as u32) as nat;
            crate::codec_num::lemma_ser_hex_len(cv, 2);
            assert(el == 6);
            assert(doc[i + 0] == e[0] && doc[i + 1] == e[1] && doc[i + 2] == e[2] && doc[i + 3]
                == e[3] && doc[i + 4] == e[4] && doc[i + 5] == e[5]);
            assert(doc[i] == '\\' && doc[i + 1] == 'u' && doc[i + 2] == '0' && doc[i + 3] == '0');
            assert(esc_short('u') is None);
            assert(doc.subrange(i + 4, i + 6) =~= ser_hex(cv, 2)) by {
                assert(e[4] == ser_hex(cv, 2)[0]);
                assert(e[5] == ser_hex(cv, 2)[1]);
            }
            lemma_parse_ser_hex(doc, i + 4, cv, 2, 0);
            assert(is_hex_digit_char('0') && hex_val('0') == 0);
            assert(parse_hex_at(doc, i + 2, 4, 0) == parse_hex_at(doc, i + 3, 3, 0));
            assert(parse_hex_at(doc, i + 3, 3, 0) == parse_hex_at(doc, i + 4, 2, 0));
            assert(parse_hex_at(doc, i + 2, 4, 0) == Some::<(nat, int)>((cv, i + 6)));
            vstd::utf8::char_u32_cast(c, c as u32);
            assert((cv as char) == c);
            assert(seq![c] + s.drop_first() =~= s);
        } else {
            assert(doc[i + 0] == e[0]);
            assert(doc[i] == c);
            assert(seq![c] + s.drop_first() =~= s);
        }
    }
}

/// Parsing undoes serializing for a whole string literal.
pub proof fn lemma_parse_ser_string(doc: Seq<char>, i: int, s: Seq<char>)
    requires
        0 <= i,
        i + ser_string(s).len() <= doc.len(),
        doc.subrange(i, i + ser_string(s).len()) == ser_string(s),
    ensures
        parse_string_at(doc, i) == Some((s, i + ser_string(s).len())),
{
    assert(doc[i] == ser_string(s)[0]);
    assert(doc.subrange(i + 1, i + 1 + esc_seq(s).len() + 1) =~= esc_seq(s) + seq!['"']) by {
        assert forall|t: int| 0 <= t < esc_seq(s).len() + 1 implies doc.subrange(
            i + 1,
            i + 1 + esc_seq(s).len() + 1,
        )[t] == (esc_seq(s) + seq!['"'])[t] by {
            assert(doc.subrange(i, i + ser_string(s).len())[1 + t] == ser_string(s)[1 + t]);
        }
    }
    lemma_parse_ser_string_body(doc, i + 1, s);
}

/// Appends the string literal form of `s`: quote, escaped body, quote.
pub fn ser_string_exec(s: &Vec<char>, out: &mut Vec<char>)
    ensures
        final(out)@ == old(out)@ + ser_string(s@),
{
    out.push('"');
    let n = s.len();
    let mut k: usize = 0;
    proof {
        assert(esc_seq(s@.subrange(0, 0)) =~= Seq::<char>::empty());
        assert(out@ =~= old(out)@ + seq!['"'] + esc_seq(s@.subrange(0, 0)));
    }
    while k < n
        invariant
            0 <= k <= n,
            n == s@.len(),
            out@ == old(out)@ + seq!['"'] + esc_seq(s@.subrange(0, k as int)),
        decreases n - k,
    {
        let c = s[k];
        let u = c as u32;
        if c == '"' {
            out.push('\\');
            out.push('"');
        } else if c == '\\' {
            out.push('\\');
            out.push('\\');
        } else if u < 32 {
            out.push('\\');
            out.push('u');
            out.push('0');
            out.push('0');
            proof {
                lemma_pow16_values();
            }
            ser_hex_exec(u as u128, 2, out);
        } else {
            out.push(c);
        }
        proof {
            lemma_esc_seq_push(s@.subrange(0, k as int), c);
            assert(s@.subrange(0, k as int + 1) =~= s@.subrange(0, k as int).push(c));
            assert(out@ =~= old(out)@ + seq!['"'] + esc_seq(s@.subrange(0, k as int + 1)));
        }
        k += 1;
    }
    out.push('"');
    proof {
        assert(s@.subrange(0, n as int) =~= s@);
        assert(out@ =~= old(out)@ + ser_string(s@));
    }
}

fn esc_short_exec(c: char) -> (r: Option<char>)
    ensures
        r == esc_short(c),
{
    if c == '"' {
        Some('"')
    } else if c == '\\' {
        Some('\\')
    } else if c == '/' {
        Some('/')
    } else if c == 'n' {
        Some('\n')
    } else if c == 't' {
        Some('\t')
    } else if c == 'r' {
        Some('\r')
    } else if c == 'b' {
        Some('\u{8}')
    } else if c == 'f' {
        Some('\u{c}')
    } else {
        None
    }
}

/// The spec parse with a given prefix already read.
pub open spec fn prepend_parsed(prefix: Seq<char>, r: Option<(Seq<char>, int)>) -> Option<
    (Seq<char>, int),
> {
    match r {
        Some((t, j)) => Some((prefix + t, j)),
        None => None,
    }
}

/// Reads a string literal starting at `i`; exactly the parse the
/// specification describes.
pub fn parse_string_exec(s: &Vec<char>, i: usize) -> (r: Option<(Vec<char>, usize)>)
    ensures
        match r {
            Some((v, j)) => parse_string_at(s@, i as int) == Some((v@, j as int)) && j <= s@.len(),
            None => parse_string_at(s@, i as int) is None,
        },
{
    if i >= s.len() {
        return None;
    }
    if s[i] != '"' {
        return None;
    }
    let mut out: Vec<char> = Vec::new();
    let mut j: usize = i + 1;
    while j < s.len()
        invariant
            i + 1 <= j,
            j <= s@.len() + 6,
            i < s@.len(),
            s@[i as int] == '"',
            parse_string_body(s@, i as int + 1) == prepend_parsed(
                out@,
                parse_string_body(s@, j as int),
            ),
        decreases s@.len() - j,
    {
        let c = s[j];
        if c == '"' {
            proof {
                assert(out@ + Seq::<char>::empty() =~= out@);
            }
            return Some((out, j + 1));
        }
        if c == '\\' {
            if j + 1 >= s.len() {
                return None;
            }
            let c2 = s[j + 1];
            let short = esc_short_exec(c2);
            if let Some(mapped) = short {
                let ghost prev = out@;
                out.push(mapped);
                proof {
                    assert forall|t: Option<(Seq<char>, int)>| true implies prepend_parsed(
                        prev,
                        prepend_parsed(seq![mapped], t),
                    ) == prepend_parsed(out@, t) by {
                        match t {
                            Some((tt, jj)) => {
                                assert(prev + (seq![mapped] + tt) =~= out@ + tt);
                            },
                            None => {},
                        }
                    }
                }
                j += 2;
            } else if c2 == 'u' {
                let hx = parse_hex_exec(s, j + 2, 4);
                match hx {
                    Some((v, j2)) => {
                        if v < 256 && j2 <= s.len() && j2 >= 6 && j2 - 6 == j {
                            let ghost prev = out@;
                            let cv = (v as u8) as char;
                            proof {
                                assert(cv == ((v as nat) as char));
                            }
                            out.push(cv);
                            proof {
                                assert forall|t: Option<(Seq<char>, int)>| true implies
                                    prepend_parsed(prev, prepend_parsed(seq![cv], t))
                                    == prepend_parsed(out@, t) by {
                                    match t {
                                        Some((tt, jj)) => {
                                            assert(prev + (seq![cv] + tt) =~= out@ + tt);
                                        },
                                        None => {},
                                    }
                                }
                            }
                            j += 6;
                        } else {
                            return None;
                        }
                    },
                    None => {
                        return None;
                    },
                }
            } else {
                return None;
            }
        } else {
            let ghost prev = out@;
            out.push(c);
            proof {
                assert forall|t: Option<(Seq<char>, int)>| true implies prepend_parsed(
                    prev,
                    prepend_parsed(seq![c], t),
                ) == prepend_parsed(out@, t) by {
                    match t {
                        Some((tt, jj)) => {
                            assert(prev + (seq![c] + tt) =~= out@ + tt);
                        },
                        None => {},
                    }
                }
            }
            j += 1;
        }
    }
    None
}

} // verus!
