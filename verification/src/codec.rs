//! The text encoding of requests and responses: a compact object with a
//! discriminant field, `{"type":"...",...}`, with string fields escaped the
//! canonical way. Encoding is a function; parsing accepts exactly the
//! encoder's output, so a parse that succeeds pins the message down.

use vstd::prelude::*;

use crate::crypto::{hex_digit, hex_nibble};
use crate::protocol::{pairs_view, Request, RequestV, Response, ResponseV};

verus! {

/// A character that stands for itself inside a quoted string.
pub open spec fn is_plain(c: char) -> bool {
    c != '"' && c != '\\' && (c as u32) >= 32
}

/// Whether a control code has a short escape of its own.
pub open spec fn is_short_code(v: int) -> bool {
    v == 8 || v == 9 || v == 10 || v == 12 || v == 13
}

/// The character a short escape letter stands for.
pub open spec fn short_unesc(e: char) -> Option<char> {
    if e == '"' {
        Some('"')
    } else if e == '\\' {
        Some('\\')
    } else if e == 'b' {
        Some('\u{08}')
    } else if e == 't' {
        Some('\t')
    } else if e == 'n' {
        Some('\n')
    } else if e == 'f' {
        Some('\u{0C}')
    } else if e == 'r' {
        Some('\r')
    } else {
        None
    }
}

/// The control character with code `hi * 16 + lo`.
pub open spec fn ctrl_of(hi: u8, lo: u8) -> char {
    (((hi * 16 + lo) as u32) as char)
}

/// A lowercase hex digit's value; uppercase is not canonical here.
pub open spec fn lhex(c: char) -> Option<u8> {
    match hex_nibble(c) {
        Some(n) => if c == hex_digit(n) {
            Some(n)
        } else {
            None
        },
        None => None,
    }
}

/// How one character is written inside a quoted string.
pub open spec fn esc_char(c: char) -> Seq<char> {
    if c == '"' {
        seq!['\\', '"']
    } else if c == '\\' {
        seq!['\\', '\\']
    } else if c == '\u{08}' {
        seq!['\\', 'b']
    } else if c == '\t' {
        seq!['\\', 't']
    } else if c == '\n' {
        seq!['\\', 'n']
    } else if c == '\u{0C}' {
        seq!['\\', 'f']
    } else if c == '\r' {
        seq!['\\', 'r']
    } else if (c as u32) < 32 {
        seq!['\\', 'u', '0', '0', hex_digit(((c as u32) >> 4) as u8), hex_digit(
            ((c as u32) & 0xf) as u8,
        )]
    } else {
        seq![c]
    }
}

/// How a whole string is written between its quotes.
pub open spec fn esc(s: Seq<char>) -> Seq<char>
    decreases s.len(),
{
    if s.len() == 0 {
        Seq::empty()
    } else {
        esc_char(s[0]) + esc(s.drop_first())
    }
}

/// A string's written form with its closing quote.
pub open spec fn quoted(s: Seq<char>) -> Seq<char> {
    esc(s) + seq!['"']
}

/// The escape token at the front of `s` (which starts with a backslash):
/// the character it stands for and how many characters it takes.
pub open spec fn esc_token(s: Seq<char>) -> Option<(char, int)> {
    if s.len() >= 2 {
        if s[1] == 'u' {
            if s.len() >= 6 && s[2] == '0' && s[3] == '0' {
                match (lhex(s[4]), lhex(s[5])) {
                    (Some(hi), Some(lo)) => if hi < 2 && !is_short_code(hi * 16 + lo) {
                        Some((ctrl_of(hi, lo), 6))
                    } else {
                        None
                    },
                    _ => None,
                }
            } else {
                None
            }
        } else {
            match short_unesc(s[1]) {
                Some(d) => Some((d, 2)),
                None => None,
            }
        }
    } else {
        None
    }
}

/// Reads a quoted string's remainder: the decoded content up to and
/// including the closing quote, or `None` if the text is not exactly a
/// canonically escaped string.
pub open spec fn scan_str(s: Seq<char>) -> Option<(Seq<char>, int)>
    decreases s.len(),
{
    if s.len() == 0 {
        None
    } else if s[0] == '"' {
        Some((Seq::empty(), 1))
    } else if s[0] == '\\' {
        match esc_token(s) {
            Some(t) => if 0 < t.1 <= s.len() {
                match scan_str(s.skip(t.1)) {
                    Some(r) => Some((seq![t.0] + r.0, t.1 + r.1)),
                    None => None,
                }
            } else {
                None
            },
            None => None,
        }
    } else if is_plain(s[0]) {
        match scan_str(s.skip(1)) {
            Some(r) => Some((seq![s[0]] + r.0, 1 + r.1)),
            None => None,
        }
    } else {
        None
    }
}

/// A character's identity is its scalar value: the escape-relevant
/// characters are exactly the scalar values they name.
proof fn lemma_char_codes(c: char)
    ensures
        (c == '"' <==> c as u32 == 34),
        (c == '\\' <==> c as u32 == 92),
        (c == '\u{08}' <==> c as u32 == 8),
        (c == '\t' <==> c as u32 == 9),
        (c == '\n' <==> c as u32 == 10),
        (c == '\u{0C}' <==> c as u32 == 12),
        (c == '\r' <==> c as u32 == 13),
{
    vstd::utf8::char_u32_cast(c, c as u32);
    vstd::utf8::char_u32_cast('"', '"' as u32);
    vstd::utf8::char_u32_cast('\\', '\\' as u32);
    vstd::utf8::char_u32_cast('\u{08}', '\u{08}' as u32);
    vstd::utf8::char_u32_cast('\t', '\t' as u32);
    vstd::utf8::char_u32_cast('\n', '\n' as u32);
    vstd::utf8::char_u32_cast('\u{0C}', '\u{0C}' as u32);
    vstd::utf8::char_u32_cast('\r', '\r' as u32);
}

/// Scanning reads back exactly what escaping wrote: the scan of
/// `esc(v) + '"' + rest` yields `v` and stops right after the quote.
pub proof fn lemma_scan_esc(v: Seq<char>, rest: Seq<char>)
    ensures
        scan_str(esc(v) + seq!['"'] + rest) == Some((v, esc(v).len() + 1 as int)),
    decreases v.len(),
{
    let s = esc(v) + seq!['"'] + rest;
    if v.len() == 0 {
        assert(s =~= seq!['"'] + rest);
        assert(s[0] == '"');
        assert(v =~= Seq::<char>::empty());
    } else {
        let c = v[0];
        let v1 = v.drop_first();
        let e = esc_char(c);
        assert(esc(v) == e + esc(v1));
        let s1 = esc(v1) + seq!['"'] + rest;
        lemma_scan_esc(v1, rest);
        assert(s =~= e + s1);
        if c == '"' || c == '\\' || c == '\u{08}' || c == '\t' || c == '\n' || c == '\u{0C}'
            || c == '\r' {
            // a short escape: two characters, backslash then a letter
            assert(e.len() == 2 && e[0] == '\\');
            assert(s[0] == '\\' && s[1] == e[1]);
            assert(s[1] != 'u');
            assert(short_unesc(s[1]) == Some(c));
            assert(esc_token(s) == Some((c, 2int)));
            assert(s.skip(2) =~= s1);
            assert(seq![c] + v1 =~= v);
        } else if (c as u32) < 32 {
            // a unicode escape: six characters
            let u = c as u32;
            let hi = (u >> 4) as u8;
            let lo = (u & 0xf) as u8;
            assert(u < 32 ==> hi < 2 && lo < 16 && (hi as u32) * 16 + (lo as u32) == u)
                by (bit_vector)
                requires
                    hi == (u >> 4) as u8 && lo == (u & 0xf) as u8,
            ;
            assert(e.len() == 6 && e[0] == '\\' && e[1] == 'u' && e[2] == '0' && e[3] == '0'
                && e[4] == hex_digit(hi) && e[5] == hex_digit(lo));
            assert(s[0] == '\\' && s[1] == 'u' && s[2] == '0' && s[3] == '0' && s[4]
                == hex_digit(hi) && s[5] == hex_digit(lo));
            assert(hex_nibble(hex_digit(hi)) == Some(hi));
            assert(hex_nibble(hex_digit(lo)) == Some(lo));
            assert(lhex(s[4]) == Some(hi) && lhex(s[5]) == Some(lo));
            assert(!is_short_code(hi * 16 + lo)) by {
                assert(hi * 16 + lo == u);
                lemma_char_codes(c);
            }
            assert(ctrl_of(hi, lo) == c) by {
                assert(hi * 16 + lo == u);
                vstd::utf8::char_u32_cast(c, u);
            }
            assert(esc_token(s) == Some((c, 6int)));
            assert(s.skip(6) =~= s1);
            assert(seq![c] + v1 =~= v);
        } else {
            // a plain character stands for itself
            assert(e =~= seq![c]);
            assert(s[0] == c && is_plain(c));
            assert(s.skip(1) =~= s1);
            assert(seq![c] + v1 =~= v);
        }
    }
}

/// A successful scan consumed exactly the escape of what it returned,
/// quote included.
pub proof fn lemma_scan_sound(s: Seq<char>, v: Seq<char>, j: int)
    requires
        scan_str(s) == Some((v, j)),
    ensures
        0 < j <= s.len(),
        s.take(j) == esc(v) + seq!['"'],
    decreases s.len(),
{
    if s[0] == '"' {
        assert(s.take(1) =~= esc(v) + seq!['"']);
    } else if s[0] == '\\' {
        let t = esc_token(s)->0;
        let c = t.0;
        let l = t.1;
        let r = scan_str(s.skip(l))->0;
        let v1 = r.0;
        let j1 = r.1;
        lemma_scan_sound(s.skip(l), v1, j1);
        assert(v == seq![c] + v1 && j == l + j1);
        assert(v[0] == c && v.drop_first() =~= v1);
        assert(esc(v) == esc_char(c) + esc(v1));
        // the consumed token spells esc_char(c)
        if s[1] == 'u' {
            let hi = lhex(s[4])->0;
            let lo = lhex(s[5])->0;
            assert(l == 6 && c == ctrl_of(hi, lo) && hi < 2 && !is_short_code(hi * 16 + lo));
            assert(s[4] == hex_digit(hi) && s[5] == hex_digit(lo));
            let code = (hi * 16 + lo) as u32;
            assert(hi < 2 && lo < 16 ==> ((hi as u32) * 16 + (lo as u32)) < 32) by (bit_vector);
            assert(hex_nibble(s[5]) == Some(lo) && lo < 16) by {
                assert(lhex(s[5]) == Some(lo));
            }
            assert(code < 32);
            vstd::utf8::char_u32_cast((code as char), code);
            assert(c as u32 == code);
            assert((c as u32) < 32);
            lemma_char_codes(c);
            assert(c != '"' && c != '\\');
            assert(c != '\u{08}' && c != '\t' && c != '\n' && c != '\u{0C}' && c != '\r') by {
                assert(!is_short_code(code as int));
            }
            let u = c as u32;
            let hi2 = (u >> 4) as u8;
            let lo2 = (u & 0xf) as u8;
            assert(u < 32 && u == (hi as u32) * 16 + (lo as u32) && hi < 2 && lo < 16 ==> (hi2
                == hi && lo2 == lo)) by (bit_vector)
                requires
                    hi2 == (u >> 4) as u8 && lo2 == (u & 0xf) as u8,
            ;
            assert(esc_char(c) =~= seq!['\\', 'u', '0', '0', hex_digit(hi), hex_digit(lo)]);
            assert(s.take(j) =~= s.take(6) + s.skip(6).take(j1));
            assert(s.take(6) =~= esc_char(c));
            assert(s.take(j) =~= esc(v) + seq!['"']);
        } else {
            assert(l == 2 && short_unesc(s[1]) == Some(c));
            assert(esc_char(c) =~= seq!['\\', s[1]]);
            assert(s.take(j) =~= s.take(2) + s.skip(2).take(j1));
            assert(s.take(2) =~= esc_char(c));
            assert(s.take(j) =~= esc(v) + seq!['"']);
        }
    } else {
        let c = s[0];
        let r = scan_str(s.skip(1))->0;
        let v1 = r.0;
        let j1 = r.1;
        lemma_scan_sound(s.skip(1), v1, j1);
        assert(v == seq![c] + v1 && j == 1 + j1);
        assert(v[0] == c && v.drop_first() =~= v1);
        assert(esc(v) == esc_char(c) + esc(v1));
        assert(esc_char(c) =~= seq![c]);
        assert(s.take(j) =~= s.take(1) + s.skip(1).take(j1));
        assert(s.take(1) =~= seq![c]);
        assert(s.take(j) =~= esc(v) + seq!['"']);
    }
}

fn is_plain_exec(c: char) -> (r: bool)
    ensures
        r == is_plain(c),
{
    c != '"' && c != '\\' && (c as u32) >= 32
}

fn short_unesc_exec(e: char) -> (r: Option<char>)
    ensures
        r == short_unesc(e),
{
    match e {
        '"' => Some('"'),
        '\\' => Some('\\'),
        'b' => Some('\u{08}'),
        't' => Some('\t'),
        'n' => Some('\n'),
        'f' => Some('\u{0C}'),
        'r' => Some('\r'),
        _ => None,
    }
}

fn lhex_exec(c: char) -> (r: Option<u8>)
    ensures
        r == lhex(c),
        r matches Some(n) ==> n < 16,
{
    match crate::crypto::hex_nibble_exec(c) {
        Some(n) => {
            if crate::crypto::hex_digit_exec(n) == c {
                Some(n)
            } else {
                None
            }
        },
        None => None,
    }
}

/// Reads a quoted string starting right after its opening quote, at
/// position `start`: the decoded content and the position just past the
/// closing quote. Succeeds exactly when the scan model does.
pub fn scan_string(s: &Vec<char>, start: usize) -> (r: Option<(Vec<char>, usize)>)
    requires
        start <= s@.len(),
    ensures
        match r {
            Some((v, j)) => start < j <= s@.len() && scan_str(s@.skip(start as int)) == Some(
                (v@, j - start),
            ),
            None => scan_str(s@.skip(start as int)) is None,
        },
{
    let mut out: Vec<char> = Vec::new();
    let mut i: usize = start;
    loop
        invariant
            start <= i <= s@.len(),
            (match scan_str(s@.skip(i as int)) {
                Some(r) => scan_str(s@.skip(start as int)) == Some(
                    (out@ + r.0, i - start + r.1),
                ),
                None => scan_str(s@.skip(start as int)) is None,
            }),
        decreases s@.len() - i,
    {
        if i >= s.len() {
            proof {
                assert(s@.skip(i as int) =~= Seq::<char>::empty());
            }
            return None;
        }
        let c = s[i];
        proof {
            assert(s@.skip(i as int)[0] == s@[i as int]);
        }
        if c == '"' {
            proof {
                let t = s@.skip(i as int);
                assert(scan_str(t) == Some((Seq::<char>::empty(), 1int)));
                assert(out@ + Seq::<char>::empty() =~= out@);
            }
            return Some((out, i + 1));
        }
        if c == '\\' {
            if i + 1 >= s.len() {
                proof {
                    assert(s@.skip(i as int).len() < 2);
                }
                return None;
            }
            let e = s[i + 1];
            proof {
                assert(s@.skip(i as int)[1] == s@[i as int + 1]);
            }
            if e == 'u' {
                if s.len() - i < 6 {
                    proof {
                        assert(s@.skip(i as int).len() < 6);
                    }
                    return None;
                }
                proof {
                    let t = s@.skip(i as int);
                    assert(t[2] == s@[i as int + 2] && t[3] == s@[i as int + 3] && t[4]
                        == s@[i as int + 4] && t[5] == s@[i as int + 5]);
                }
                if s[i + 2] != '0' || s[i + 3] != '0' {
                    return None;
                }
                let h4 = lhex_exec(s[i + 4]);
                let h5 = lhex_exec(s[i + 5]);
                if h4.is_none() || h5.is_none() {
                    return None;
                }
                let hi = h4.unwrap();
                let lo = h5.unwrap();
                let code: u8 = hi * 16 + lo;
                if hi >= 2 || code == 8 || code == 9 || code == 10 || code == 12 || code == 13 {
                    return None;
                }
                let d = code as char;
                proof {
                    let t = s@.skip(i as int);
                    assert(esc_token(t) == Some((ctrl_of(hi, lo), 6int)));
                    assert(d == ctrl_of(hi, lo));
                    assert(t.skip(6) =~= s@.skip(i as int + 6));
                    let nxt = scan_str(s@.skip(i as int + 6));
                    if nxt is Some {
                        let p = nxt->0;
                        let v = p.0;
                        let j = p.1;
                        assert(scan_str(t) == Some((seq![d] + v, 6 + j)));
                        assert(out@ + (seq![d] + v) =~= (out@ + seq![d]) + v);
                    } else {
                        assert(scan_str(t) is None);
                    }
                }
                out.push(d);
                i = i + 6;
            } else {
                match short_unesc_exec(e) {
                    Some(d) => {
                        proof {
                            let t = s@.skip(i as int);
                            assert(esc_token(t) == Some((d, 2int)));
                            assert(t.skip(2) =~= s@.skip(i as int + 2));
                            let nxt = scan_str(s@.skip(i as int + 2));
                            if nxt is Some {
                                let p = nxt->0;
                        let v = p.0;
                                let j = p.1;
                                assert(scan_str(t) == Some((seq![d] + v, 2 + j)));
                                assert(out@ + (seq![d] + v) =~= (out@ + seq![d]) + v);
                            } else {
                                assert(scan_str(t) is None);
                            }
                        }
                        out.push(d);
                        i = i + 2;
                    },
                    None => {
                        return None;
                    },
                }
            }
        } else if is_plain_exec(c) {
            proof {
                let t = s@.skip(i as int);
                assert(t.skip(1) =~= s@.skip(i as int + 1));
                let nxt = scan_str(s@.skip(i as int + 1));
                if nxt is Some {
                    let p = nxt->0;
                        let v = p.0;
                    let j = p.1;
                    assert(scan_str(t) == Some((seq![c] + v, 1 + j)));
                    assert(out@ + (seq![c] + v) =~= (out@ + seq![c]) + v);
                } else {
                    assert(scan_str(t) is None);
                }
            }
            out.push(c);
            i = i + 1;
        } else {
            return None;
        }
    }
}

/// Escaping distributes over concatenation.
pub proof fn lemma_esc_concat(a: Seq<char>, b: Seq<char>)
    ensures
        esc(a + b) == esc(a) + esc(b),
    decreases a.len(),
{
    if a.len() == 0 {
        assert(a + b =~= b);
        assert(esc(a) + esc(b) =~= esc(b));
    } else {
        lemma_esc_concat(a.drop_first(), b);
        assert((a + b).drop_first() =~= a.drop_first() + b);
        assert((a + b)[0] == a[0]);
        assert(esc_char(a[0]) + (esc(a.drop_first()) + esc(b)) =~= (esc_char(a[0]) + esc(
        a.drop_first())) + esc(b));
    }
}

fn push_esc_char(out: &mut Vec<char>, c: char)
    ensures
        final(out)@ == old(out)@ + esc_char(c),
{
    let ghost pre = out@;
    if c == '"' {
        out.push('\\');
        out.push('"');
    } else if c == '\\' {
        out.push('\\');
        out.push('\\');
    } else if c == '\u{08}' {
        out.push('\\');
        out.push('b');
    } else if c == '\t' {
        out.push('\\');
        out.push('t');
    } else if c == '\n' {
        out.push('\\');
        out.push('n');
    } else if c == '\u{0C}' {
        out.push('\\');
        out.push('f');
    } else if c == '\r' {
        out.push('\\');
        out.push('r');
    } else if (c as u32) < 32 {
        let u = c as u32;
        proof {
            assert(u < 32 ==> (u >> 4) < 16 && (u & 0xf) < 16) by (bit_vector);
        }
        out.push('\\');
        out.push('u');
        out.push('0');
        out.push('0');
        out.push(crate::crypto::hex_digit_exec((u >> 4) as u8));
        out.push(crate::crypto::hex_digit_exec((u & 0xf) as u8));
    } else {
        out.push(c);
    }
    proof {
        assert(out@ =~= pre + esc_char(c));
    }
}

/// Appends the escaped form of `s`.
fn esc_append(out: &mut Vec<char>, s: &Vec<char>)
    ensures
        final(out)@ == old(out)@ + esc(s@),
{
    let ghost pre = out@;
    let mut i: usize = 0;
    proof {
        assert(pre + esc(s@.take(0)) =~= pre);
    }
    while i < s.len()
        invariant
            i <= s@.len(),
            out@ == pre + esc(s@.take(i as int)),
        decreases s@.len() - i,
    {
        proof {
            let t = s@.take(i as int);
            let t1 = s@.take(i as int + 1);
            lemma_esc_concat(t, seq![s@[i as int]]);
            assert(t1 =~= t + seq![s@[i as int]]);
            let one = seq![s@[i as int]];
            assert(one.drop_first() =~= Seq::<char>::empty());
            assert(esc(one) == esc_char(one[0]) + esc(one.drop_first()));
            assert(esc(one) =~= esc_char(s@[i as int]));
            assert((pre + esc(t)) + esc_char(s@[i as int]) =~= pre + esc(t1));
        }
        push_esc_char(out, s[i]);
        i = i + 1;
    }
    proof {
        assert(s@.take(s@.len() as int) =~= s@);
    }
}

/// Appends `quoted(s@)`: the escaped text and the closing quote.
fn push_quoted(out: &mut Vec<char>, s: &str)
    ensures
        final(out)@ == old(out)@ + quoted(s@),
{
    let ghost pre = out@;
    let cs = crate::text::chars_of(s);
    esc_append(out, &cs);
    out.push('"');
    proof {
        assert(out@ =~= pre + quoted(s@));
    }
}

/// Appends the characters of a literal.
fn push_lit(out: &mut Vec<char>, lit: &str)
    ensures
        final(out)@ == old(out)@ + lit@,
{
    let mut l = crate::text::chars_of(lit);
    out.append(&mut l);
}

/// Whether `lit` stands at `at` in `s`; on success, the position after it.
fn expect_lit(s: &Vec<char>, at: usize, lit: &str) -> (r: Option<usize>)
    requires
        at <= s@.len(),
    ensures
        match r {
            Some(j) => j == at + lit@.len() && j <= s@.len() && s@.subrange(at as int, j as int)
                == lit@,
            None => !(at + lit@.len() <= s@.len() && s@.subrange(
                at as int,
                at as int + lit@.len(),
            ) == lit@),
        },
{
    let lc = crate::text::chars_of(lit);
    let n = s.len();
    if lc.len() > n - at {
        return None;
    }
    let mut k: usize = 0;
    while k < lc.len()
        invariant
            n == s@.len(),
            at + lc@.len() <= n,
            lc@ == lit@,
            k <= lc@.len(),
            forall|m: int| 0 <= m < k ==> s@[at + m] == lc@[m],
        decreases lc@.len() - k,
    {
        if s[at + k] != lc[k] {
            proof {
                assert(s@.subrange(at as int, at as int + lit@.len())[k as int] != lit@[k as int]);
            }
            return None;
        }
        k = k + 1;
    }
    proof {
        assert(s@.subrange(at as int, at as int + lit@.len()) =~= lit@);
    }
    Some(at + lc.len())
}

/// Whether the collected characters are exactly the literal.
fn chars_match(v: &Vec<char>, lit: &str) -> (r: bool)
    ensures
        r == (v@ == lit@),
{
    let lc = crate::text::chars_of(lit);
    if v.len() != lc.len() {
        return false;
    }
    let mut k: usize = 0;
    while k < lc.len()
        invariant
            v@.len() == lc@.len(),
            lc@ == lit@,
            k <= lc@.len(),
            forall|m: int| 0 <= m < k ==> v@[m] == lc@[m],
        decreases lc@.len() - k,
    {
        if v[k] != lc[k] {
            return false;
        }
        k = k + 1;
    }
    proof {
        assert(v@ =~= lit@);
    }
    true
}

/// The opening of every message: brace, discriminant field name, quote.
pub open spec fn head() -> Seq<char> {
    "{\"type\":\""@
}

/// The discriminant of a request.
pub open spec fn req_tag(m: RequestV) -> Seq<char> {
    match m {
        RequestV::GetEnv { .. } => "get_env"@,
        RequestV::GetAllEnv => "get_all_env"@,
        RequestV::SetEnv { .. } => "set_env"@,
        RequestV::SendData { .. } => "send_data"@,
        RequestV::Ping => "ping"@,
    }
}

/// What follows a request's discriminant: its fields and the closing brace.
pub open spec fn req_after(m: RequestV) -> Seq<char> {
    match m {
        RequestV::GetEnv { name } => ",\"name\":\""@ + (quoted(name) + "}"@),
        RequestV::GetAllEnv => "}"@,
        RequestV::SetEnv { name, value } => ",\"name\":\""@ + (quoted(name) + (",\"value\":\""@
            + (quoted(value) + "}"@))),
        RequestV::SendData { key, data } => ",\"key\":\""@ + (quoted(key) + (",\"data\":\""@ + (
        quoted(data) + "}"@))),
        RequestV::Ping => "}"@,
    }
}

/// The wire text of a request.
pub open spec fn req_json(m: RequestV) -> Seq<char> {
    head() + (quoted(req_tag(m)) + req_after(m))
}

/// Splits `s == pre + (quoted(v) + after)` at its seams: the literal prefix,
/// the scan of the quoted text, and what follows it.
proof fn lemma_decomp(s: Seq<char>, pre: Seq<char>, v: Seq<char>, after: Seq<char>)
    requires
        s == pre + (quoted(v) + after),
    ensures
        s.len() == pre.len() + esc(v).len() + 1 + after.len(),
        s.take(pre.len() as int) == pre,
        s.subrange(0, pre.len() as int) == pre,
        s.skip(pre.len() as int) == quoted(v) + after,
        scan_str(s.skip(pre.len() as int)) == Some((v, (esc(v).len() + 1) as int)),
        s.skip((pre.len() + esc(v).len() + 1) as int) == after,
{
    lemma_scan_esc(v, after);
    assert(s.take(pre.len() as int) =~= pre);
    assert(s.subrange(0, pre.len() as int) =~= s.take(pre.len() as int));
    assert(s.skip(pre.len() as int) =~= quoted(v) + after);
    assert(quoted(v) + after =~= (esc(v) + seq!['"']) + after);
    assert((esc(v) + seq!['"']) + after =~= esc(v) + seq!['"'] + after);
    assert(s.skip((pre.len() + esc(v).len() + 1) as int) =~= after);
}

/// Splits `s == pre + (lit + after)` at its seams.
proof fn lemma_lit_at(s: Seq<char>, pre: Seq<char>, lit: Seq<char>, after: Seq<char>)
    requires
        s == pre + (lit + after),
    ensures
        s.len() == pre.len() + lit.len() + after.len(),
        s.take(pre.len() as int) == pre,
        s.subrange(pre.len() as int, (pre.len() + lit.len()) as int) == lit,
        s.skip((pre.len() + lit.len()) as int) == after,
{
    assert(s.take(pre.len() as int) =~= pre);
    assert(s.subrange(pre.len() as int, (pre.len() + lit.len()) as int) =~= lit);
    assert(s.skip((pre.len() + lit.len()) as int) =~= after);
}

/// Writes a request as wire text.
pub fn request_to_json(req: &Request) -> (r: String)
    ensures
        r@ == req_json(req@),
{
    let mut out: Vec<char> = Vec::new();
    push_lit(&mut out, "{\"type\":\"");
    match req {
        Request::GetEnv { name } => {
            push_quoted(&mut out, "get_env");
            push_lit(&mut out, ",\"name\":\"");
            push_quoted(&mut out, name.as_str());
            push_lit(&mut out, "}");
        },
        Request::GetAllEnv => {
            push_quoted(&mut out, "get_all_env");
            push_lit(&mut out, "}");
        },
        Request::SetEnv { name, value } => {
            push_quoted(&mut out, "set_env");
            push_lit(&mut out, ",\"name\":\"");
            push_quoted(&mut out, name.as_str());
            push_lit(&mut out, ",\"value\":\"");
            push_quoted(&mut out, value.as_str());
            push_lit(&mut out, "}");
        },
        Request::SendData { key, data } => {
            push_quoted(&mut out, "send_data");
            push_lit(&mut out, ",\"key\":\"");
            push_quoted(&mut out, key.as_str());
            push_lit(&mut out, ",\"data\":\"");
            push_quoted(&mut out, data.as_str());
            push_lit(&mut out, "}");
        },
        Request::Ping => {
            push_quoted(&mut out, "ping");
            push_lit(&mut out, "}");
        },
    }
    proof {
        assert(out@ =~= req_json(req@));
    }
    crate::text::string_from_chars(&out)
}

/// Reads a request out of wire text: succeeds exactly on the encoder's
/// output, and then returns the one request that produced it.
pub fn request_from_json(s: &str) -> (r: Option<Request>)
    ensures
        match r {
            Some(q) => s@ == req_json(q@),
            None => forall|m: RequestV| s@ != req_json(m),
        },
{
    let cs = crate::text::chars_of(s);
    parse_request_chars(&cs)
}

fn parse_request_chars(s: &Vec<char>) -> (r: Option<Request>)
    ensures
        match r {
            Some(q) => s@ == req_json(q@),
            None => forall|m: RequestV| s@ != req_json(m),
        },
{
    let p0 = match expect_lit(s, 0, "{\"type\":\"") {
        Some(p) => p,
        None => {
            proof {
                assert forall|m: RequestV| s@ != req_json(m) by {
                    if s@ == req_json(m) {
                        lemma_lit_at(s@, Seq::empty(), head(), quoted(req_tag(m)) + req_after(m));
                        assert(s@ =~= Seq::<char>::empty() + (head() + (quoted(req_tag(m))
                            + req_after(m))));
                        assert(s@.subrange(0, head().len() as int) == head());
                    }
                }
            }
            return None;
        },
    };
    let (tag, p1) = match scan_string(s, p0) {
        Some(t) => t,
        None => {
            proof {
                assert forall|m: RequestV| s@ != req_json(m) by {
                    if s@ == req_json(m) {
                        lemma_decomp(s@, head(), req_tag(m), req_after(m));
                    }
                }
            }
            return None;
        },
    };
    proof {
        assert forall|m: RequestV|
            s@ == req_json(m) implies req_tag(m) == tag@ && p1 - p0 == esc(tag@).len() + 1
            && s@.skip(p1 as int) == req_after(m) by {
            lemma_decomp(s@, head(), req_tag(m), req_after(m));
            assert(p0 == head().len());
        }
    }
    proof {
        lemma_scan_sound(s@.skip(p0 as int), tag@, p1 - p0);
        assert(s@.take(p0 as int) =~= s@.subrange(0, p0 as int));
        assert(s@.take(p1 as int) =~= s@.take(p0 as int) + s@.skip(p0 as int).take(p1 - p0));
        assert(s@.take(p1 as int) =~= head() + quoted(tag@));
    }
    if chars_match(&tag, "ping") {
        parse_req_end(s, p1, &tag)
    } else if chars_match(&tag, "get_all_env") {
        parse_req_end(s, p1, &tag)
    } else if chars_match(&tag, "get_env") {
        parse_req_one_field(s, p1, &tag)
    } else if chars_match(&tag, "set_env") {
        parse_req_two_fields(s, p1, &tag)
    } else if chars_match(&tag, "send_data") {
        parse_req_two_fields(s, p1, &tag)
    } else {
        proof {
            assert forall|m: RequestV| s@ != req_json(m) by {
                if s@ == req_json(m) {
                    assert(req_tag(m) == tag@);
                }
            }
        }
        None
    }
}


/// Two different request discriminants never share a spelling.
proof fn lemma_req_tag_shape(m: RequestV)
    ensures
        req_tag(m) == "ping"@ ==> m is Ping,
        req_tag(m) == "get_all_env"@ ==> m is GetAllEnv,
        req_tag(m) == "get_env"@ ==> m is GetEnv,
        req_tag(m) == "set_env"@ ==> m is SetEnv,
        req_tag(m) == "send_data"@ ==> m is SendData,
{
    reveal_strlit("ping");
    reveal_strlit("get_all_env");
    reveal_strlit("get_env");
    reveal_strlit("set_env");
    reveal_strlit("send_data");
    assert("ping"@.len() == 4 && "get_all_env"@.len() == 11 && "send_data"@.len() == 9);
    assert("get_env"@.len() == 7 && "set_env"@.len() == 7);
    assert("get_env"@[0] == 'g' && "set_env"@[0] == 's');
}

/// After a field-less tag (`ping`, `get_all_env`): only the closing brace.
fn parse_req_end(s: &Vec<char>, p1: usize, tag: &Vec<char>) -> (r: Option<Request>)
    requires
        p1 <= s@.len(),
        tag@ == "ping"@ || tag@ == "get_all_env"@,
        s@.take(p1 as int) == head() + quoted(tag@),
        forall|m: RequestV|
            s@ == req_json(m) ==> req_tag(m) == tag@ && s@.skip(p1 as int) == req_after(m),
    ensures
        match r {
            Some(q) => s@ == req_json(q@),
            None => forall|m: RequestV| s@ != req_json(m),
        },
{
    let out = if chars_match(tag, "ping") {
        Request::Ping
    } else {
        Request::GetAllEnv
    };
    proof {
        assert(req_tag(out@) == tag@ && req_after(out@) == "}"@);
    }
    match expect_lit(s, p1, "}") {
        Some(j) => {
            if j == s.len() {
                proof {
                    assert(s@.skip(p1 as int) =~= s@.subrange(p1 as int, j as int));
                    assert(s@ =~= s@.take(p1 as int) + s@.skip(p1 as int));
                    assert(s@ =~= head() + (quoted(tag@) + "}"@));
                }
                Some(out)
            } else {
                proof {
                    assert forall|m: RequestV| s@ != req_json(m) by {
                        if s@ == req_json(m) {
                            lemma_req_tag_shape(m);
                            assert(req_after(m) == "}"@);
                            assert(s@.len() == p1 + "}"@.len());
                        }
                    }
                }
                None
            }
        },
        None => {
            proof {
                assert forall|m: RequestV| s@ != req_json(m) by {
                    if s@ == req_json(m) {
                        lemma_req_tag_shape(m);
                        assert(req_after(m) == "}"@);
                        assert(s@ =~= s@.take(p1 as int) + ("}"@ + Seq::<char>::empty()));
                        lemma_lit_at(s@, s@.take(p1 as int), "}"@, Seq::empty());
                    }
                }
            }
            None
        },
    }
}

/// After the `get_env` tag: one quoted field, then the closing brace.
#[verifier::rlimit(100)]
#[verifier::spinoff_prover]
fn parse_req_one_field(s: &Vec<char>, p1: usize, tag: &Vec<char>) -> (r: Option<Request>)
    requires
        p1 <= s@.len(),
        tag@ == "get_env"@,
        s@.take(p1 as int) == head() + quoted(tag@),
        forall|m: RequestV|
            s@ == req_json(m) ==> req_tag(m) == tag@ && s@.skip(p1 as int) == req_after(m),
    ensures
        match r {
            Some(q) => s@ == req_json(q@),
            None => forall|m: RequestV| s@ != req_json(m),
        },
{
    let j1 = match expect_lit(s, p1, ",\"name\":\"") {
        Some(j) => j,
        None => {
            proof {
                assert forall|m: RequestV| s@ != req_json(m) by {
                    if s@ == req_json(m) {
                        lemma_req_tag_shape(m);
                        match m {
                            RequestV::GetEnv { name } => {
                                assert(s@ =~= s@.take(p1 as int) + (",\"name\":\""@ + (quoted(
                                name) + "}"@)));
                                lemma_lit_at(
                                    s@,
                                    s@.take(p1 as int),
                                    ",\"name\":\""@,
                                    quoted(name) + "}"@,
                                );
                            },
                            _ => {},
                        }
                    }
                }
            }
            return None;
        },
    };
    proof {
        assert forall|m: RequestV|
            s@ == req_json(m) implies (m matches RequestV::GetEnv { name } && s@.skip(
            j1 as int,
        ) == quoted(name) + "}"@) by {
            lemma_req_tag_shape(m);
            match m {
                RequestV::GetEnv { name } => {
                    assert(s@ =~= s@.take(p1 as int) + (",\"name\":\""@ + (quoted(name)
                        + "}"@)));
                    lemma_lit_at(s@, s@.take(p1 as int), ",\"name\":\""@, quoted(name) + "}"@);
                },
                _ => {},
            }
        }
    }
    let (f1, p2) = match scan_string(s, j1) {
        Some(t) => t,
        None => {
            proof {
                assert forall|m: RequestV| s@ != req_json(m) by {
                    if s@ == req_json(m) {
                        match m {
                            RequestV::GetEnv { name } => {
                                assert(s@ =~= s@.take(j1 as int) + (quoted(name) + "}"@));
                                lemma_decomp(s@, s@.take(j1 as int), name, "}"@);
                            },
                            _ => {},
                        }
                    }
                }
            }
            return None;
        },
    };
    proof {
        assert forall|m: RequestV|
            s@ == req_json(m) implies (m matches RequestV::GetEnv { name } && name == f1@
            && s@.skip(p2 as int) == "}"@ && s@.len() == p2 + "}"@.len()) by {
            match m {
                RequestV::GetEnv { name } => {
                    assert(s@ =~= s@.take(j1 as int) + (quoted(name) + "}"@));
                    lemma_decomp(s@, s@.take(j1 as int), name, "}"@);
                },
                _ => {},
            }
        }
    }
    match expect_lit(s, p2, "}") {
        Some(j2) => {
            if j2 == s.len() {
                let name = crate::text::string_from_chars(&f1);
                let out = Request::GetEnv { name };
                proof {
                    lemma_scan_sound(s@.skip(j1 as int), f1@, p2 - j1);
                    assert(s@.subrange(j1 as int, p2 as int) =~= s@.skip(j1 as int).take(
                    p2 - j1));
                    assert(s@.skip(p2 as int) =~= s@.subrange(p2 as int, j2 as int));
                    assert(s@ =~= s@.take(p1 as int) + s@.subrange(p1 as int, j1 as int)
                        + s@.subrange(j1 as int, p2 as int) + s@.skip(p2 as int));
                    assert(s@ =~= head() + (quoted(tag@) + (",\"name\":\""@ + (quoted(f1@)
                        + "}"@))));
                    assert(req_tag(out@) == tag@);
                }
                Some(out)
            } else {
                proof {
                    assert forall|m: RequestV| s@ != req_json(m) by {
                        if s@ == req_json(m) {
                            assert(s@.len() == p2 + "}"@.len());
                        }
                    }
                }
                None
            }
        },
        None => {
            proof {
                assert forall|m: RequestV| s@ != req_json(m) by {
                    if s@ == req_json(m) {
                        assert(s@ =~= s@.take(p2 as int) + ("}"@ + Seq::<char>::empty()));
                        lemma_lit_at(s@, s@.take(p2 as int), "}"@, Seq::empty());
                    }
                }
            }
            None
        },
    }
}

/// The two text fields of a two-field request.
pub open spec fn two_fields_of(m: RequestV) -> Option<(Seq<char>, Seq<char>)> {
    match m {
        RequestV::SetEnv { name, value } => Some((name, value)),
        RequestV::SendData { key, data } => Some((key, data)),
        _ => None,
    }
}

/// The first field's label for a two-field request.
pub open spec fn req_lit1(tag: Seq<char>) -> Seq<char> {
    if tag == "set_env"@ {
        ",\"name\":\""@
    } else {
        ",\"key\":\""@
    }
}

/// The second field's label for a two-field request.
pub open spec fn req_lit2(tag: Seq<char>) -> Seq<char> {
    if tag == "set_env"@ {
        ",\"value\":\""@
    } else {
        ",\"data\":\""@
    }
}

/// After the `set_env` or `send_data` tag: the first quoted field.
#[verifier::rlimit(100)]
#[verifier::spinoff_prover]
fn parse_req_two_fields(s: &Vec<char>, p1: usize, tag: &Vec<char>) -> (r: Option<Request>)
    requires
        p1 <= s@.len(),
        tag@ == "set_env"@ || tag@ == "send_data"@,
        s@.take(p1 as int) == head() + quoted(tag@),
        forall|m: RequestV|
            s@ == req_json(m) ==> req_tag(m) == tag@ && s@.skip(p1 as int) == req_after(m),
    ensures
        match r {
            Some(q) => s@ == req_json(q@),
            None => forall|m: RequestV| s@ != req_json(m),
        },
{
    let is_set = chars_match(tag, "set_env");
    proof {
        reveal_strlit("set_env");
        reveal_strlit("send_data");
        assert("set_env"@.len() == 7 && "send_data"@.len() == 9);
    }
    let lit1: &str = if is_set {
        ",\"name\":\""
    } else {
        ",\"key\":\""
    };
    proof {
        assert(lit1@ == req_lit1(tag@));
        assert forall|m: RequestV|
            s@ == req_json(m) implies (two_fields_of(m) is Some && s@.skip(p1 as int)
            == req_lit1(tag@) + (quoted((two_fields_of(m)->0).0) + (req_lit2(tag@) + (quoted(
        (two_fields_of(m)->0).1) + "}"@)))) by {
            lemma_req_tag_shape(m);
        }
    }
    let j1 = match expect_lit(s, p1, lit1) {
        Some(j) => j,
        None => {
            proof {
                assert forall|m: RequestV| s@ != req_json(m) by {
                    if s@ == req_json(m) {
                        let fs = two_fields_of(m)->0;
                        assert(s@ =~= s@.take(p1 as int) + (req_lit1(tag@) + (quoted(fs.0) + (
                        req_lit2(tag@) + (quoted(fs.1) + "}"@)))));
                        lemma_lit_at(
                            s@,
                            s@.take(p1 as int),
                            req_lit1(tag@),
                            quoted(fs.0) + (req_lit2(tag@) + (quoted(fs.1) + "}"@)),
                        );
                    }
                }
            }
            return None;
        },
    };
    proof {
        assert forall|m: RequestV|
            s@ == req_json(m) implies s@.skip(j1 as int) == quoted((two_fields_of(m)->0).0) + (
        req_lit2(tag@) + (quoted((two_fields_of(m)->0).1) + "}"@)) by {
            let fs = two_fields_of(m)->0;
            assert(s@ =~= s@.take(p1 as int) + (req_lit1(tag@) + (quoted(fs.0) + (req_lit2(
            tag@) + (quoted(fs.1) + "}"@)))));
            lemma_lit_at(
                s@,
                s@.take(p1 as int),
                req_lit1(tag@),
                quoted(fs.0) + (req_lit2(tag@) + (quoted(fs.1) + "}"@)),
            );
        }
    }
    let (f1, p2) = match scan_string(s, j1) {
        Some(t) => t,
        None => {
            proof {
                assert forall|m: RequestV| s@ != req_json(m) by {
                    if s@ == req_json(m) {
                        let fs = two_fields_of(m)->0;
                        assert(s@ =~= s@.take(j1 as int) + (quoted(fs.0) + (req_lit2(tag@) + (
                        quoted(fs.1) + "}"@))));
                        lemma_decomp(
                            s@,
                            s@.take(j1 as int),
                            fs.0,
                            req_lit2(tag@) + (quoted(fs.1) + "}"@),
                        );
                    }
                }
            }
            return None;
        },
    };
    proof {
        assert forall|m: RequestV|
            s@ == req_json(m) implies (two_fields_of(m)->0).0 == f1@ && s@.skip(p2 as int)
            == req_lit2(tag@) + (quoted((two_fields_of(m)->0).1) + "}"@) by {
            let fs = two_fields_of(m)->0;
            assert(s@ =~= s@.take(j1 as int) + (quoted(fs.0) + (req_lit2(tag@) + (quoted(fs.1)
                + "}"@))));
            lemma_decomp(s@, s@.take(j1 as int), fs.0, req_lit2(tag@) + (quoted(fs.1) + "}"@));
        }
        lemma_scan_sound(s@.skip(j1 as int), f1@, p2 - j1);
        assert(s@.subrange(j1 as int, p2 as int) =~= s@.skip(j1 as int).take(p2 - j1));
        assert(s@.take(p2 as int) =~= s@.take(p1 as int) + s@.subrange(p1 as int, j1 as int)
            + s@.subrange(j1 as int, p2 as int));
        assert(s@.take(p2 as int) =~= head() + quoted(tag@) + req_lit1(tag@) + quoted(f1@));
    }
    parse_req_second(s, p2, tag, is_set, &f1)
}

/// The second quoted field of a two-field request, and the closing brace.
#[verifier::rlimit(100)]
#[verifier::spinoff_prover]
fn parse_req_second(s: &Vec<char>, p2: usize, tag: &Vec<char>, is_set: bool, f1: &Vec<char>) -> (r:
    Option<Request>)
    requires
        p2 <= s@.len(),
        tag@ == "set_env"@ || tag@ == "send_data"@,
        is_set == (tag@ == "set_env"@),
        s@.take(p2 as int) == head() + quoted(tag@) + req_lit1(tag@) + quoted(f1@),
        forall|m: RequestV|
            s@ == req_json(m) ==> (two_fields_of(m) is Some && req_tag(m) == tag@ && (
            two_fields_of(m)->0).0 == f1@ && s@.skip(p2 as int) == req_lit2(tag@) + (quoted(
            (two_fields_of(m)->0).1) + "}"@)),
    ensures
        match r {
            Some(q) => s@ == req_json(q@),
            None => forall|m: RequestV| s@ != req_json(m),
        },
{
    let lit2: &str = if is_set {
        ",\"value\":\""
    } else {
        ",\"data\":\""
    };
    proof {
        assert(lit2@ == req_lit2(tag@));
    }
    let j2 = match expect_lit(s, p2, lit2) {
        Some(j) => j,
        None => {
            proof {
                assert forall|m: RequestV| s@ != req_json(m) by {
                    if s@ == req_json(m) {
                        let fs = two_fields_of(m)->0;
                        assert(s@ =~= s@.take(p2 as int) + (req_lit2(tag@) + (quoted(fs.1)
                            + "}"@)));
                        lemma_lit_at(s@, s@.take(p2 as int), req_lit2(tag@), quoted(fs.1) + "}"@);
                    }
                }
            }
            return None;
        },
    };
    proof {
        assert forall|m: RequestV|
            s@ == req_json(m) implies s@.skip(j2 as int) == quoted((two_fields_of(m)->0).1)
            + "}"@ by {
            let fs = two_fields_of(m)->0;
            assert(s@ =~= s@.take(p2 as int) + (req_lit2(tag@) + (quoted(fs.1) + "}"@)));
            lemma_lit_at(s@, s@.take(p2 as int), req_lit2(tag@), quoted(fs.1) + "}"@);
        }
    }
    let (f2, p3) = match scan_string(s, j2) {
        Some(t) => t,
        None => {
            proof {
                assert forall|m: RequestV| s@ != req_json(m) by {
                    if s@ == req_json(m) {
                        let fs = two_fields_of(m)->0;
                        assert(s@ =~= s@.take(j2 as int) + (quoted(fs.1) + "}"@));
                        lemma_decomp(s@, s@.take(j2 as int), fs.1, "}"@);
                    }
                }
            }
            return None;
        },
    };
    proof {
        assert forall|m: RequestV|
            s@ == req_json(m) implies (two_fields_of(m)->0).1 == f2@ && s@.skip(p3 as int)
            == "}"@ && s@.len() == p3 + "}"@.len() by {
            let fs = two_fields_of(m)->0;
            assert(s@ =~= s@.take(j2 as int) + (quoted(fs.1) + "}"@));
            lemma_decomp(s@, s@.take(j2 as int), fs.1, "}"@);
        }
    }
    match expect_lit(s, p3, "}") {
        Some(j3) => {
            if j3 == s.len() {
                let a = crate::text::string_from_chars(f1);
                let b = crate::text::string_from_chars(&f2);
                let out = if is_set {
                    Request::SetEnv { name: a, value: b }
                } else {
                    Request::SendData { key: a, data: b }
                };
                proof {
                    lemma_scan_sound(s@.skip(j2 as int), f2@, p3 - j2);
                    assert(s@.subrange(j2 as int, p3 as int) =~= s@.skip(j2 as int).take(
                    p3 - j2));
                    assert(s@.skip(p3 as int) =~= s@.subrange(p3 as int, j3 as int));
                    assert(s@ =~= s@.take(p2 as int) + s@.subrange(p2 as int, j2 as int)
                        + s@.subrange(j2 as int, p3 as int) + s@.skip(p3 as int));
                    assert(s@ =~= head() + (quoted(tag@) + (req_lit1(tag@) + (quoted(f1@) + (
                    req_lit2(tag@) + (quoted(f2@) + "}"@))))));
                    assert(req_tag(out@) == tag@);
                    assert(req_json(out@) == head() + (quoted(tag@) + (req_lit1(tag@) + (
                    quoted(f1@) + (req_lit2(tag@) + (quoted(f2@) + "}"@))))));
                }
                Some(out)
            } else {
                proof {
                    assert forall|m: RequestV| s@ != req_json(m) by {
                        if s@ == req_json(m) {
                            assert(s@.len() == p3 + "}"@.len());
                        }
                    }
                }
                None
            }
        },
        None => {
            proof {
                assert forall|m: RequestV| s@ != req_json(m) by {
                    if s@ == req_json(m) {
                        assert(s@ =~= s@.take(p3 as int) + ("}"@ + Seq::<char>::empty()));
                        lemma_lit_at(s@, s@.take(p3 as int), "}"@, Seq::empty());
                    }
                }
            }
            None
        },
    }
}

/// The discriminant of a response.
pub open spec fn resp_tag(m: ResponseV) -> Seq<char> {
    match m {
        ResponseV::Success { .. } => "success"@,
        ResponseV::EnvVars { .. } => "env_vars"@,
        ResponseV::Error { .. } => "error"@,
        ResponseV::Pong => "pong"@,
    }
}

/// One `"key":"value"` pair of a vars object.
pub open spec fn pair_json(p: (Seq<char>, Seq<char>)) -> Seq<char> {
    seq!['"'] + (quoted(p.0) + (seq![':', '"'] + quoted(p.1)))
}

/// What follows a pair in a vars object: either the closing brace, or a
/// comma and the next pair, through to the brace.
pub open spec fn pairs_rest_json(vs: Seq<(Seq<char>, Seq<char>)>) -> Seq<char>
    decreases vs.len(),
{
    if vs.len() == 0 {
        seq!['}']
    } else {
        seq![','] + (pair_json(vs[0]) + pairs_rest_json(vs.drop_first()))
    }
}

/// A vars object's text after its opening brace, closing brace included.
pub open spec fn pairs_json(vs: Seq<(Seq<char>, Seq<char>)>) -> Seq<char>
    decreases vs.len(),
{
    if vs.len() == 0 {
        seq!['}']
    } else {
        pair_json(vs[0]) + pairs_rest_json(vs.drop_first())
    }
}

/// What follows a response's discriminant: its fields and the closing brace.
pub open spec fn resp_after(m: ResponseV) -> Seq<char> {
    match m {
        ResponseV::Success { data } => ",\"data\":"@ + (match data {
            Some(d) => seq!['"'] + (quoted(d) + "}"@),
            None => "null}"@,
        }),
        ResponseV::EnvVars { vars } => ",\"vars\":{"@ + (pairs_json(vars) + "}"@),
        ResponseV::Error { message } => ",\"message\":\""@ + (quoted(message) + "}"@),
        ResponseV::Pong => "}"@,
    }
}

/// The wire text of a response.
pub open spec fn resp_json(m: ResponseV) -> Seq<char> {
    head() + (quoted(resp_tag(m)) + resp_after(m))
}

/// The pair at the front of `s`: its key, its value, and how many
/// characters it takes.
pub open spec fn scan_pair(s: Seq<char>) -> Option<((Seq<char>, Seq<char>), int)> {
    if s.len() >= 1 && s[0] == '"' {
        match scan_str(s.skip(1)) {
            Some(k) => {
                let p = 1 + k.1;
                if p + 2 <= s.len() && s[p] == ':' && s[p + 1] == '"' {
                    match scan_str(s.skip(p + 2)) {
                        Some(v) => Some(((k.0, v.0), p + 2 + v.1)),
                        None => None,
                    }
                } else {
                    None
                }
            },
            None => None,
        }
    } else {
        None
    }
}

/// Reads a vars object after one pair: the remaining pairs up to and
/// including the closing brace.
pub open spec fn scan_more(s: Seq<char>) -> Option<(Seq<(Seq<char>, Seq<char>)>, int)>
    decreases s.len(),
{
    if s.len() == 0 {
        None
    } else if s[0] == '}' {
        Some((Seq::empty(), 1))
    } else if s[0] == ',' {
        match scan_pair(s.skip(1)) {
            Some(p) => if 0 < 1 + p.1 && 1 + p.1 <= s.len() {
                match scan_more(s.skip(1 + p.1)) {
                    Some(r) => Some((seq![p.0] + r.0, 1 + p.1 + r.1)),
                    None => None,
                }
            } else {
                None
            },
            None => None,
        }
    } else {
        None
    }
}

/// Reads a whole vars object after its opening brace.
pub open spec fn scan_pairs(s: Seq<char>) -> Option<(Seq<(Seq<char>, Seq<char>)>, int)> {
    if s.len() == 0 {
        None
    } else if s[0] == '}' {
        Some((Seq::empty(), 1))
    } else {
        match scan_pair(s) {
            Some(p) => if 0 < p.1 <= s.len() {
                match scan_more(s.skip(p.1)) {
                    Some(r) => Some((seq![p.0] + r.0, p.1 + r.1)),
                    None => None,
                }
            } else {
                None
            },
            None => None,
        }
    }
}

proof fn lemma_scan_pair_complete(k: Seq<char>, v: Seq<char>, rest: Seq<char>)
    ensures
        scan_pair(pair_json((k, v)) + rest) == Some(((k, v), pair_json((k, v)).len() as int)),
{
    let s = pair_json((k, v)) + rest;
    let p = 1 + (esc(k).len() + 1 as int);
    lemma_scan_esc(k, seq![':', '"'] + (quoted(v) + rest));
    assert(s.skip(1) =~= esc(k) + seq!['"'] + (seq![':', '"'] + (quoted(v) + rest)));
    assert(s[0] == '"');
    assert(scan_str(s.skip(1)) == Some((k, (esc(k).len() + 1) as int)));
    assert(s[p] == ':' && s[p + 1] == '"');
    lemma_scan_esc(v, rest);
    assert(s.skip(p + 2) =~= esc(v) + seq!['"'] + rest);
    assert(scan_str(s.skip(p + 2)) == Some((v, (esc(v).len() + 1) as int)));
    assert(pair_json((k, v)).len() == p + 2 + (esc(v).len() + 1));
}

proof fn lemma_scan_pair_sound(s: Seq<char>, k: Seq<char>, v: Seq<char>, n: int)
    requires
        scan_pair(s) == Some(((k, v), n)),
    ensures
        0 < n <= s.len(),
        s.take(n) == pair_json((k, v)),
{
    let kk = scan_str(s.skip(1))->0;
    lemma_scan_sound(s.skip(1), kk.0, kk.1);
    let p = 1 + kk.1;
    let vv = scan_str(s.skip(p + 2))->0;
    lemma_scan_sound(s.skip(p + 2), vv.0, vv.1);
    assert(kk.0 == k && vv.0 == v && n == p + 2 + vv.1);
    assert(s.skip(1).take(kk.1) == esc(k) + seq!['"']);
    assert(s.skip(p + 2).take(vv.1) == esc(v) + seq!['"']);
    assert(s.take(n) =~= seq![s[0]] + (s.skip(1).take(kk.1) + (seq![s[p], s[p + 1]] + s.skip(
    p + 2).take(vv.1))));
    assert(s.take(n) =~= pair_json((k, v)));
}

#[verifier::rlimit(100)]
#[verifier::spinoff_prover]
proof fn lemma_scan_more_complete(vs: Seq<(Seq<char>, Seq<char>)>, rest: Seq<char>)
    ensures
        scan_more(pairs_rest_json(vs) + rest) == Some((vs, pairs_rest_json(vs).len() as int)),
    decreases vs.len(),
{
    let s = pairs_rest_json(vs) + rest;
    if vs.len() == 0 {
        assert(s =~= seq!['}'] + rest);
        assert(s[0] == '}');
        assert(vs =~= Seq::<(Seq<char>, Seq<char>)>::empty());
    } else {
        let p0 = vs[0];
        let vs1 = vs.drop_first();
        assert(s =~= seq![','] + (pair_json(p0) + (pairs_rest_json(vs1) + rest)));
        assert(s[0] == ',');
        lemma_scan_pair_complete(p0.0, p0.1, pairs_rest_json(vs1) + rest);
        assert(s.skip(1) =~= pair_json(p0) + (pairs_rest_json(vs1) + rest));
        assert(scan_pair(s.skip(1)) == Some(((p0.0, p0.1), pair_json(p0).len() as int)));
        lemma_scan_more_complete(vs1, rest);
        assert(s.skip((1 + pair_json(p0).len()) as int) =~= pairs_rest_json(vs1) + rest);
        assert((p0.0, p0.1) == p0);
        assert(seq![p0] + vs1 =~= vs);
    }
}

proof fn lemma_scan_pairs_complete(vs: Seq<(Seq<char>, Seq<char>)>, rest: Seq<char>)
    ensures
        scan_pairs(pairs_json(vs) + rest) == Some((vs, pairs_json(vs).len() as int)),
{
    let s = pairs_json(vs) + rest;
    if vs.len() == 0 {
        assert(s =~= seq!['}'] + rest);
        assert(s[0] == '}');
        assert(vs =~= Seq::<(Seq<char>, Seq<char>)>::empty());
    } else {
        let p0 = vs[0];
        let vs1 = vs.drop_first();
        assert(s =~= pair_json(p0) + (pairs_rest_json(vs1) + rest));
        assert(s[0] == '"');
        assert(s.len() >= 1 && s[0] != '}');
        lemma_scan_pair_complete(p0.0, p0.1, pairs_rest_json(vs1) + rest);
        lemma_scan_more_complete(vs1, rest);
        assert(s.skip(pair_json(p0).len() as int) =~= pairs_rest_json(vs1) + rest);
        assert((p0.0, p0.1) == p0);
        assert(seq![p0] + vs1 =~= vs);
    }
}

proof fn lemma_scan_more_sound(s: Seq<char>, vs: Seq<(Seq<char>, Seq<char>)>, n: int)
    requires
        scan_more(s) == Some((vs, n)),
    ensures
        0 < n <= s.len(),
        s.take(n) == pairs_rest_json(vs),
    decreases s.len(),
{
    if s[0] == '}' {
        assert(s.take(1) =~= pairs_rest_json(vs));
    } else {
        let p = scan_pair(s.skip(1))->0;
        lemma_scan_pair_sound(s.skip(1), p.0.0, p.0.1, p.1);
        let r = scan_more(s.skip(1 + p.1))->0;
        lemma_scan_more_sound(s.skip(1 + p.1), r.0, r.1);
        assert(vs == seq![p.0] + r.0 && n == 1 + p.1 + r.1);
        assert(vs[0] == p.0 && vs.drop_first() =~= r.0);
        assert(s.skip(1).take(p.1) == pair_json(p.0));
        assert(s.skip(1 + p.1).take(r.1) == pairs_rest_json(r.0));
        assert(s.take(n) =~= seq![s[0]] + (s.skip(1).take(p.1) + s.skip(1 + p.1).take(r.1)));
        assert(s.take(n) =~= pairs_rest_json(vs));
    }
}

proof fn lemma_scan_pairs_sound(s: Seq<char>, vs: Seq<(Seq<char>, Seq<char>)>, n: int)
    requires
        scan_pairs(s) == Some((vs, n)),
    ensures
        0 < n <= s.len(),
        s.take(n) == pairs_json(vs),
{
    if s[0] == '}' {
        assert(s.take(1) =~= pairs_json(vs));
    } else {
        let p = scan_pair(s)->0;
        lemma_scan_pair_sound(s, p.0.0, p.0.1, p.1);
        let r = scan_more(s.skip(p.1))->0;
        lemma_scan_more_sound(s.skip(p.1), r.0, r.1);
        assert(vs == seq![p.0] + r.0 && n == p.1 + r.1);
        assert(vs[0] == p.0 && vs.drop_first() =~= r.0);
        assert(s.take(n) =~= s.take(p.1) + s.skip(p.1).take(r.1));
        assert(s.take(n) =~= pairs_json(vs));
    }
}

fn push_pair(out: &mut Vec<char>, k: &String, v: &String)
    ensures
        final(out)@ == old(out)@ + pair_json((k@, v@)),
{
    let ghost pre = out@;
    out.push('"');
    push_quoted(out, k.as_str());
    out.push(':');
    out.push('"');
    push_quoted(out, v.as_str());
    proof {
        assert(out@ =~= pre + pair_json((k@, v@)));
    }
}

/// Writes a response as wire text.
pub fn response_to_json(resp: &Response) -> (r: String)
    ensures
        r@ == resp_json(resp@),
{
    let mut out: Vec<char> = Vec::new();
    push_lit(&mut out, "{\"type\":\"");
    match resp {
        Response::Pong => {
            push_quoted(&mut out, "pong");
            push_lit(&mut out, "}");
        },
        Response::Error { message } => {
            push_quoted(&mut out, "error");
            push_lit(&mut out, ",\"message\":\"");
            push_quoted(&mut out, message.as_str());
            push_lit(&mut out, "}");
        },
        Response::Success { data } => {
            push_quoted(&mut out, "success");
            push_lit(&mut out, ",\"data\":");
            match data {
                Some(d) => {
                    out.push('"');
                    push_quoted(&mut out, d.as_str());
                    push_lit(&mut out, "}");
                },
                None => {
                    push_lit(&mut out, "null}");
                },
            }
        },
        Response::EnvVars { vars } => {
            push_quoted(&mut out, "env_vars");
            push_lit(&mut out, ",\"vars\":{");
            let ghost pre = out@;
            let ghost pv = pairs_view(vars@);
            if vars.len() == 0 {
                out.push('}');
                proof {
                    assert(pairs_json(pv) =~= seq!['}']);
                    assert(out@ =~= pre + pairs_json(pv));
                }
            } else {
                let pr = &vars[0];
                push_pair(&mut out, &pr.0, &pr.1);
                proof {
                    assert(pv[0] == (vars@[0].0@, vars@[0].1@));
                    assert(pv.drop_first() =~= pv.skip(1));
                    assert(out@ + pairs_rest_json(pv.skip(1)) =~= pre + (pair_json(pv[0])
                        + pairs_rest_json(pv.drop_first())));
                    assert(out@ + pairs_rest_json(pv.skip(1)) == pre + pairs_json(pv));
                }
                let mut i: usize = 1;
                while i < vars.len()
                    invariant
                        1 <= i <= vars@.len(),
                        pv == pairs_view(vars@),
                        pv.len() == vars@.len(),
                        out@ + pairs_rest_json(pv.skip(i as int)) == pre + pairs_json(pv),
                    decreases vars@.len() - i,
                {
                    let ghost before = out@;
                    out.push(',');
                    let pr = &vars[i];
                    push_pair(&mut out, &pr.0, &pr.1);
                    proof {
                        assert(pv[i as int] == (vars@[i as int].0@, vars@[i as int].1@));
                        assert(pv.skip(i as int)[0] == pv[i as int]);
                        assert(pv.skip(i as int).drop_first() =~= pv.skip(i as int + 1));
                        assert(pairs_rest_json(pv.skip(i as int)) == seq![','] + (pair_json(
                        pv[i as int]) + pairs_rest_json(pv.skip(i as int + 1))));
                        assert(out@ =~= before + seq![','] + pair_json(pv[i as int]));
                        assert(out@ + pairs_rest_json(pv.skip(i as int + 1)) =~= before
                            + pairs_rest_json(pv.skip(i as int)));
                    }
                    i = i + 1;
                }
                out.push('}');
                proof {
                    assert(pv.skip(pv.len() as int) =~= Seq::<(Seq<char>, Seq<char>)>::empty());
                    assert(pairs_rest_json(pv.skip(pv.len() as int)) =~= seq!['}']);
                    assert(out@ =~= pre + pairs_json(pv));
                }
            }
            push_lit(&mut out, "}");
        },
    }
    proof {
        assert(out@ =~= resp_json(resp@));
    }
    crate::text::string_from_chars(&out)
}

/// Reads the pair at `at`: its key and value and the position after it.
fn parse_pair_at(s: &Vec<char>, at: usize) -> (r: Option<((String, String), usize)>)
    requires
        at <= s@.len(),
    ensures
        match r {
            Some(t) => at < t.1 <= s@.len() && scan_pair(s@.skip(at as int)) == Some(
                ((t.0.0@, t.0.1@), t.1 - at),
            ),
            None => scan_pair(s@.skip(at as int)) is None,
        },
{
    let t = Ghost(s@.skip(at as int));
    if at >= s.len() {
        return None;
    }
    proof {
        assert(t@[0] == s@[at as int]);
    }
    if s[at] != '"' {
        return None;
    }
    let (k, p) = match scan_string(s, at + 1) {
        Some(x) => x,
        None => {
            proof {
                assert(t@.skip(1) =~= s@.skip(at as int + 1));
            }
            return None;
        },
    };
    proof {
        assert(t@.skip(1) =~= s@.skip(at as int + 1));
        assert(scan_str(t@.skip(1)) == Some((k@, p - (at + 1))));
    }
    if s.len() - p < 2 {
        return None;
    }
    proof {
        assert(t@[p - at] == s@[p as int] && t@[p - at + 1] == s@[p as int + 1]);
    }
    if s[p] != ':' || s[p + 1] != '"' {
        return None;
    }
    let (v, j) = match scan_string(s, p + 2) {
        Some(x) => x,
        None => {
            proof {
                assert(t@.skip(p - at + 2) =~= s@.skip(p as int + 2));
            }
            return None;
        },
    };
    proof {
        assert(t@.skip(p - at + 2) =~= s@.skip(p as int + 2));
        assert(scan_str(t@.skip(p - at + 2)) == Some((v@, j - (p + 2))));
    }
    let a = crate::text::string_from_chars(&k);
    let b = crate::text::string_from_chars(&v);
    Some(((a, b), j))
}

/// Reads a whole vars object after its opening brace, at `at`.
#[verifier::rlimit(100)]
#[verifier::spinoff_prover]
fn parse_pairs_at(s: &Vec<char>, at: usize) -> (r: Option<(Vec<(String, String)>, usize)>)
    requires
        at <= s@.len(),
    ensures
        match r {
            Some(t) => at < t.1 <= s@.len() && scan_pairs(s@.skip(at as int)) == Some(
                (pairs_view(t.0@), t.1 - at),
            ),
            None => scan_pairs(s@.skip(at as int)) is None,
        },
{
    let t = Ghost(s@.skip(at as int));
    if at >= s.len() {
        return None;
    }
    proof {
        assert(t@[0] == s@[at as int]);
    }
    let mut vars: Vec<(String, String)> = Vec::new();
    if s[at] == '}' {
        proof {
            assert(pairs_view(vars@) =~= Seq::<(Seq<char>, Seq<char>)>::empty());
        }
        return Some((vars, at + 1));
    }
    let (p0, c0) = match parse_pair_at(s, at) {
        Some(x) => x,
        None => {
            return None;
        },
    };
    vars.push(p0);
    let mut cur: usize = c0;
    proof {
        let tt = s@.skip(at as int);
        assert(pairs_view(vars@) =~= seq![(vars@[0].0@, vars@[0].1@)]);
        assert(tt.skip(c0 - at) =~= s@.skip(c0 as int));
        let more0 = scan_more(s@.skip(c0 as int));
        if more0 is Some {
            let r0 = more0->0;
            assert(scan_pairs(tt) == Some(
                (seq![(vars@[0].0@, vars@[0].1@)] + r0.0, (c0 - at) + r0.1),
            ));
        } else {
            assert(scan_pairs(tt) is None);
        }
    }
    loop
        invariant
            at < cur <= s@.len(),
            vars@.len() >= 1,
            (match scan_more(s@.skip(cur as int)) {
                Some(r) => scan_pairs(s@.skip(at as int)) == Some(
                    (pairs_view(vars@) + r.0, cur - at + r.1),
                ),
                None => scan_pairs(s@.skip(at as int)) is None,
            }),
        decreases s@.len() - cur,
    {
        if cur >= s.len() {
            proof {
                assert(s@.skip(cur as int) =~= Seq::<char>::empty());
            }
            return None;
        }
        proof {
            assert(s@.skip(cur as int)[0] == s@[cur as int]);
        }
        if s[cur] == '}' {
            proof {
                let more = scan_more(s@.skip(cur as int));
                assert(more == Some((Seq::<(Seq<char>, Seq<char>)>::empty(), 1int)));
                assert(pairs_view(vars@) + Seq::<(Seq<char>, Seq<char>)>::empty() =~= pairs_view(
                vars@));
            }
            return Some((vars, cur + 1));
        }
        if s[cur] != ',' {
            return None;
        }
        let (pn, cn) = match parse_pair_at(s, cur + 1) {
            Some(x) => x,
            None => {
                proof {
                    assert(s@.skip(cur as int).skip(1) =~= s@.skip(cur as int + 1));
                }
                return None;
            },
        };
        proof {
            let u = s@.skip(cur as int);
            assert(u.skip(1) =~= s@.skip(cur as int + 1));
            assert(scan_pair(u.skip(1)) == Some(((pn.0@, pn.1@), cn - (cur + 1))));
            assert(u.skip(1 + (cn - (cur + 1))) =~= s@.skip(cn as int));
            let more2 = scan_more(s@.skip(cn as int));
            if more2 is Some {
                let r2 = more2->0;
                assert(scan_more(u) == Some(
                    (seq![(pn.0@, pn.1@)] + r2.0, 1 + (cn - (cur + 1)) + r2.1),
                ));
                assert(pairs_view(vars@.push(pn)) =~= pairs_view(vars@) + seq![(pn.0@, pn.1@)]);
                assert((pairs_view(vars@) + seq![(pn.0@, pn.1@)]) + r2.0 =~= pairs_view(vars@)
                    + (seq![(pn.0@, pn.1@)] + r2.0));
            } else {
                assert(scan_more(u) is None);
            }
        }
        vars.push(pn);
        cur = cn;
    }
}

/// Two different response discriminants never share a spelling.
proof fn lemma_resp_tag_shape(m: ResponseV)
    ensures
        resp_tag(m) == "pong"@ ==> m is Pong,
        resp_tag(m) == "success"@ ==> m is Success,
        resp_tag(m) == "env_vars"@ ==> m is EnvVars,
        resp_tag(m) == "error"@ ==> m is Error,
{
    reveal_strlit("pong");
    reveal_strlit("success");
    reveal_strlit("env_vars");
    reveal_strlit("error");
    assert("pong"@.len() == 4 && "success"@.len() == 7 && "env_vars"@.len() == 8 && "error"@.len()
        == 5);
}

/// Reads a response out of wire text: succeeds exactly on the encoder's
/// output, and then returns the one response that produced it.
pub fn response_from_json(s: &str) -> (r: Option<Response>)
    ensures
        match r {
            Some(q) => s@ == resp_json(q@),
            None => forall|m: ResponseV| s@ != resp_json(m),
        },
{
    let cs = crate::text::chars_of(s);
    parse_response_chars(&cs)
}

fn parse_response_chars(s: &Vec<char>) -> (r: Option<Response>)
    ensures
        match r {
            Some(q) => s@ == resp_json(q@),
            None => forall|m: ResponseV| s@ != resp_json(m),
        },
{
    let p0 = match expect_lit(s, 0, "{\"type\":\"") {
        Some(p) => p,
        None => {
            proof {
                assert forall|m: ResponseV| s@ != resp_json(m) by {
                    if s@ == resp_json(m) {
                        lemma_lit_at(s@, Seq::empty(), head(), quoted(resp_tag(m)) + resp_after(m));
                        assert(s@ =~= Seq::<char>::empty() + (head() + (quoted(resp_tag(m))
                            + resp_after(m))));
                        assert(s@.subrange(0, head().len() as int) == head());
                    }
                }
            }
            return None;
        },
    };
    let (tag, p1) = match scan_string(s, p0) {
        Some(t) => t,
        None => {
            proof {
                assert forall|m: ResponseV| s@ != resp_json(m) by {
                    if s@ == resp_json(m) {
                        lemma_decomp(s@, head(), resp_tag(m), resp_after(m));
                    }
                }
            }
            return None;
        },
    };
    proof {
        assert forall|m: ResponseV|
            s@ == resp_json(m) implies resp_tag(m) == tag@ && s@.skip(p1 as int) == resp_after(
        m) by {
            lemma_decomp(s@, head(), resp_tag(m), resp_after(m));
            assert(p0 == head().len());
        }
        lemma_scan_sound(s@.skip(p0 as int), tag@, p1 - p0);
        assert(s@.take(p0 as int) =~= s@.subrange(0, p0 as int));
        assert(s@.take(p1 as int) =~= s@.take(p0 as int) + s@.skip(p0 as int).take(p1 - p0));
        assert(s@.take(p1 as int) =~= head() + quoted(tag@));
    }
    if chars_match(&tag, "pong") {
        parse_resp_end(s, p1, &tag)
    } else if chars_match(&tag, "error") {
        parse_resp_error(s, p1, &tag)
    } else if chars_match(&tag, "success") {
        parse_resp_success(s, p1, &tag)
    } else if chars_match(&tag, "env_vars") {
        parse_resp_vars(s, p1, &tag)
    } else {
        proof {
            assert forall|m: ResponseV| s@ != resp_json(m) by {
                if s@ == resp_json(m) {
                    assert(resp_tag(m) == tag@);
                }
            }
        }
        None
    }
}

/// After the `pong` tag: only the closing brace.
fn parse_resp_end(s: &Vec<char>, p1: usize, tag: &Vec<char>) -> (r: Option<Response>)
    requires
        p1 <= s@.len(),
        tag@ == "pong"@,
        s@.take(p1 as int) == head() + quoted(tag@),
        forall|m: ResponseV|
            s@ == resp_json(m) ==> resp_tag(m) == tag@ && s@.skip(p1 as int) == resp_after(m),
    ensures
        match r {
            Some(q) => s@ == resp_json(q@),
            None => forall|m: ResponseV| s@ != resp_json(m),
        },
{
    let out = Response::Pong;
    match expect_lit(s, p1, "}") {
        Some(j) => {
            if j == s.len() {
                proof {
                    assert(s@.skip(p1 as int) =~= s@.subrange(p1 as int, j as int));
                    assert(s@ =~= s@.take(p1 as int) + s@.skip(p1 as int));
                    assert(s@ =~= head() + (quoted(tag@) + "}"@));
                }
                Some(out)
            } else {
                proof {
                    assert forall|m: ResponseV| s@ != resp_json(m) by {
                        if s@ == resp_json(m) {
                            lemma_resp_tag_shape(m);
                            assert(resp_after(m) == "}"@);
                            assert(s@.len() == p1 + "}"@.len());
                        }
                    }
                }
                None
            }
        },
        None => {
            proof {
                assert forall|m: ResponseV| s@ != resp_json(m) by {
                    if s@ == resp_json(m) {
                        lemma_resp_tag_shape(m);
                        assert(resp_after(m) == "}"@);
                        assert(s@ =~= s@.take(p1 as int) + ("}"@ + Seq::<char>::empty()));
                        lemma_lit_at(s@, s@.take(p1 as int), "}"@, Seq::empty());
                    }
                }
            }
            None
        },
    }
}

/// After the `error` tag: the message field, then the closing brace.
#[verifier::rlimit(100)]
#[verifier::spinoff_prover]
fn parse_resp_error(s: &Vec<char>, p1: usize, tag: &Vec<char>) -> (r: Option<Response>)
    requires
        p1 <= s@.len(),
        tag@ == "error"@,
        s@.take(p1 as int) == head() + quoted(tag@),
        forall|m: ResponseV|
            s@ == resp_json(m) ==> resp_tag(m) == tag@ && s@.skip(p1 as int) == resp_after(m),
    ensures
        match r {
            Some(q) => s@ == resp_json(q@),
            None => forall|m: ResponseV| s@ != resp_json(m),
        },
{
    let j1 = match expect_lit(s, p1, ",\"message\":\"") {
        Some(j) => j,
        None => {
            proof {
                assert forall|m: ResponseV| s@ != resp_json(m) by {
                    if s@ == resp_json(m) {
                        lemma_resp_tag_shape(m);
                        match m {
                            ResponseV::Error { message } => {
                                assert(s@ =~= s@.take(p1 as int) + (",\"message\":\""@ + (
                                quoted(message) + "}"@)));
                                lemma_lit_at(
                                    s@,
                                    s@.take(p1 as int),
                                    ",\"message\":\""@,
                                    quoted(message) + "}"@,
                                );
                            },
                            _ => {},
                        }
                    }
                }
            }
            return None;
        },
    };
    proof {
        assert forall|m: ResponseV|
            s@ == resp_json(m) implies (m matches ResponseV::Error { message } && s@.skip(
            j1 as int,
        ) == quoted(message) + "}"@) by {
            lemma_resp_tag_shape(m);
            match m {
                ResponseV::Error { message } => {
                    assert(s@ =~= s@.take(p1 as int) + (",\"message\":\""@ + (quoted(message)
                        + "}"@)));
                    lemma_lit_at(
                        s@,
                        s@.take(p1 as int),
                        ",\"message\":\""@,
                        quoted(message) + "}"@,
                    );
                },
                _ => {},
            }
        }
    }
    let (f1, p2) = match scan_string(s, j1) {
        Some(t) => t,
        None => {
            proof {
                assert forall|m: ResponseV| s@ != resp_json(m) by {
                    if s@ == resp_json(m) {
                        match m {
                            ResponseV::Error { message } => {
                                assert(s@ =~= s@.take(j1 as int) + (quoted(message) + "}"@));
                                lemma_decomp(s@, s@.take(j1 as int), message, "}"@);
                            },
                            _ => {},
                        }
                    }
                }
            }
            return None;
        },
    };
    proof {
        assert forall|m: ResponseV|
            s@ == resp_json(m) implies (m matches ResponseV::Error { message } && message == f1@
            && s@.skip(p2 as int) == "}"@ && s@.len() == p2 + "}"@.len()) by {
            match m {
                ResponseV::Error { message } => {
                    assert(s@ =~= s@.take(j1 as int) + (quoted(message) + "}"@));
                    lemma_decomp(s@, s@.take(j1 as int), message, "}"@);
                },
                _ => {},
            }
        }
    }
    match expect_lit(s, p2, "}") {
        Some(j2) => {
            if j2 == s.len() {
                let message = crate::text::string_from_chars(&f1);
                let out = Response::Error { message };
                proof {
                    lemma_scan_sound(s@.skip(j1 as int), f1@, p2 - j1);
                    assert(s@.subrange(j1 as int, p2 as int) =~= s@.skip(j1 as int).take(
                    p2 - j1));
                    assert(s@.skip(p2 as int) =~= s@.subrange(p2 as int, j2 as int));
                    assert(s@ =~= s@.take(p1 as int) + s@.subrange(p1 as int, j1 as int)
                        + s@.subrange(j1 as int, p2 as int) + s@.skip(p2 as int));
                    assert(s@ =~= head() + (quoted(tag@) + (",\"message\":\""@ + (quoted(f1@)
                        + "}"@))));
                }
                Some(out)
            } else {
                proof {
                    assert forall|m: ResponseV| s@ != resp_json(m) by {
                        if s@ == resp_json(m) {
                            assert(s@.len() == p2 + "}"@.len());
                        }
                    }
                }
                None
            }
        },
        None => {
            proof {
                assert forall|m: ResponseV| s@ != resp_json(m) by {
                    if s@ == resp_json(m) {
                        assert(s@ =~= s@.take(p2 as int) + ("}"@ + Seq::<char>::empty()));
                        lemma_lit_at(s@, s@.take(p2 as int), "}"@, Seq::empty());
                    }
                }
            }
            None
        },
    }
}

/// After the `success` tag: either `null` or a quoted data field.
#[verifier::rlimit(100)]
#[verifier::spinoff_prover]
fn parse_resp_success(s: &Vec<char>, p1: usize, tag: &Vec<char>) -> (r: Option<Response>)
    requires
        p1 <= s@.len(),
        tag@ == "success"@,
        s@.take(p1 as int) == head() + quoted(tag@),
        forall|m: ResponseV|
            s@ == resp_json(m) ==> resp_tag(m) == tag@ && s@.skip(p1 as int) == resp_after(m),
    ensures
        match r {
            Some(q) => s@ == resp_json(q@),
            None => forall|m: ResponseV| s@ != resp_json(m),
        },
{
    proof {
        assert forall|m: ResponseV|
            s@ == resp_json(m) implies (m matches ResponseV::Success { data } && s@.skip(
            p1 as int,
        ) == ",\"data\":"@ + (match data {
            Some(d) => seq!['"'] + (quoted(d) + "}"@),
            None => "null}"@,
        })) by {
            lemma_resp_tag_shape(m);
        }
    }
    let jd = match expect_lit(s, p1, ",\"data\":") {
        Some(j) => j,
        None => {
            proof {
                assert forall|m: ResponseV| s@ != resp_json(m) by {
                    if s@ == resp_json(m) {
                        match m {
                            ResponseV::Success { data } => {
                                let x = (match data {
                                    Some(d) => seq!['"'] + (quoted(d) + "}"@),
                                    None => "null}"@,
                                });
                                assert(s@ =~= s@.take(p1 as int) + (",\"data\":"@ + x));
                                lemma_lit_at(s@, s@.take(p1 as int), ",\"data\":"@, x);
                            },
                            _ => {},
                        }
                    }
                }
            }
            return None;
        },
    };
    proof {
        assert forall|m: ResponseV|
            s@ == resp_json(m) implies (m matches ResponseV::Success { data } && s@.skip(
            jd as int,
        ) == (match data {
            Some(d) => seq!['"'] + (quoted(d) + "}"@),
            None => "null}"@,
        })) by {
            match m {
                ResponseV::Success { data } => {
                    let x = (match data {
                        Some(d) => seq!['"'] + (quoted(d) + "}"@),
                        None => "null}"@,
                    });
                    assert(s@ =~= s@.take(p1 as int) + (",\"data\":"@ + x));
                    lemma_lit_at(s@, s@.take(p1 as int), ",\"data\":"@, x);
                },
                _ => {},
            }
        }
        assert(s@.take(jd as int) =~= s@.take(p1 as int) + s@.subrange(p1 as int, jd as int));
        assert(s@.take(jd as int) =~= head() + quoted(tag@) + ",\"data\":"@);
    }
    parse_resp_data(s, jd, tag)
}

/// The data field of a `success` response: `null` or a quoted string.
#[verifier::rlimit(100)]
#[verifier::spinoff_prover]
fn parse_resp_data(s: &Vec<char>, jd: usize, tag: &Vec<char>) -> (r: Option<Response>)
    requires
        jd <= s@.len(),
        tag@ == "success"@,
        s@.take(jd as int) == head() + quoted(tag@) + ",\"data\":"@,
        forall|m: ResponseV|
            s@ == resp_json(m) ==> (m matches ResponseV::Success { data } && s@.skip(jd as int)
                == (match data {
                Some(d) => seq!['"'] + (quoted(d) + "}"@),
                None => "null}"@,
            })),
    ensures
        match r {
            Some(q) => s@ == resp_json(q@),
            None => forall|m: ResponseV| s@ != resp_json(m),
        },
{
    proof {
        reveal_strlit("null}");
        assert("null}"@.len() == 5 && "null}"@[0] == 'n');
    }
    match expect_lit(s, jd, "null}") {
        Some(jn) => {
            if jn == s.len() {
                let out = Response::Success { data: None };
                proof {
                    assert(s@.skip(jd as int) =~= s@.subrange(jd as int, jn as int));
                    assert(s@ =~= s@.take(jd as int) + s@.skip(jd as int));
                    assert(s@ =~= head() + (quoted(tag@) + (",\"data\":"@ + "null}"@)));
                }
                return Some(out);
            } else {
                proof {
                    assert forall|m: ResponseV| s@ != resp_json(m) by {
                        if s@ == resp_json(m) {
                            match m {
                                ResponseV::Success { data } => {
                                    if data is Some {
                                        assert(s@.skip(jd as int)[0] == '"');
                                        assert(s@.subrange(jd as int, jn as int)[0] == 'n');
                                        assert(s@[jd as int] == '"' && s@[jd as int] == 'n');
                                    } else {
                                        assert(s@.len() == jd + "null}"@.len());
                                    }
                                },
                                _ => {},
                            }
                        }
                    }
                }
                return None;
            }
        },
        None => {},
    }
    let jq = match expect_lit(s, jd, "\"") {
        Some(j) => j,
        None => {
            proof {
                reveal_strlit("\"");
                assert forall|m: ResponseV| s@ != resp_json(m) by {
                    if s@ == resp_json(m) {
                        match m {
                            ResponseV::Success { data } => {
                                match data {
                                    Some(d) => {
                                        assert(s@ =~= s@.take(jd as int) + (seq!['"'] + (
                                        quoted(d) + "}"@)));
                                        lemma_lit_at(
                                            s@,
                                            s@.take(jd as int),
                                            seq!['"'],
                                            quoted(d) + "}"@,
                                        );
                                        assert("\""@ =~= seq!['"']);
                                    },
                                    None => {
                                        assert(s@ =~= s@.take(jd as int) + ("null}"@
                                            + Seq::<char>::empty()));
                                        lemma_lit_at(
                                            s@,
                                            s@.take(jd as int),
                                            "null}"@,
                                            Seq::empty(),
                                        );
                                    },
                                }
                            },
                            _ => {},
                        }
                    }
                }
            }
            return None;
        },
    };
    proof {
        reveal_strlit("\"");
        assert("\""@ =~= seq!['"']);
        assert forall|m: ResponseV|
            s@ == resp_json(m) implies (m matches ResponseV::Success { data } && data is Some
            && s@.skip(jq as int) == quoted(data->0) + "}"@) by {
            match m {
                ResponseV::Success { data } => {
                    match data {
                        Some(d) => {
                            assert(s@ =~= s@.take(jd as int) + (seq!['"'] + (quoted(d)
                                + "}"@)));
                            lemma_lit_at(s@, s@.take(jd as int), seq!['"'], quoted(d) + "}"@);
                        },
                        None => {
                            assert(s@.skip(jd as int)[0] == 'n');
                            assert(s@.subrange(jd as int, jq as int)[0] == '"');
                        },
                    }
                },
                _ => {},
            }
        }
        assert(s@.take(jq as int) =~= s@.take(jd as int) + s@.subrange(jd as int, jq as int));
        assert(s@.take(jq as int) =~= head() + quoted(tag@) + ",\"data\":"@ + seq!['"']);
    }
    parse_resp_data_some(s, jq, tag)
}

/// A quoted data field of a `success` response, and the closing brace.
#[verifier::rlimit(100)]
#[verifier::spinoff_prover]
fn parse_resp_data_some(s: &Vec<char>, jq: usize, tag: &Vec<char>) -> (r: Option<Response>)
    requires
        jq <= s@.len(),
        tag@ == "success"@,
        s@.take(jq as int) == head() + quoted(tag@) + ",\"data\":"@ + seq!['"'],
        forall|m: ResponseV|
            s@ == resp_json(m) ==> (m matches ResponseV::Success { data } && data is Some
                && s@.skip(jq as int) == quoted(data->0) + "}"@),
    ensures
        match r {
            Some(q) => s@ == resp_json(q@),
            None => forall|m: ResponseV| s@ != resp_json(m),
        },
{
    let (f1, p2) = match scan_string(s, jq) {
        Some(t) => t,
        None => {
            proof {
                assert forall|m: ResponseV| s@ != resp_json(m) by {
                    if s@ == resp_json(m) {
                        match m {
                            ResponseV::Success { data } => {
                                assert(s@ =~= s@.take(jq as int) + (quoted(data->0) + "}"@));
                                lemma_decomp(s@, s@.take(jq as int), data->0, "}"@);
                            },
                            _ => {},
                        }
                    }
                }
            }
            return None;
        },
    };
    proof {
        assert forall|m: ResponseV|
            s@ == resp_json(m) implies (m matches ResponseV::Success { data } && data is Some
            && data->0 == f1@ && s@.skip(p2 as int) == "}"@ && s@.len() == p2
            + "}"@.len()) by {
            match m {
                ResponseV::Success { data } => {
                    assert(s@ =~= s@.take(jq as int) + (quoted(data->0) + "}"@));
                    lemma_decomp(s@, s@.take(jq as int), data->0, "}"@);
                },
                _ => {},
            }
        }
    }
    match expect_lit(s, p2, "}") {
        Some(j2) => {
            if j2 == s.len() {
                let d = crate::text::string_from_chars(&f1);
                let out = Response::Success { data: Some(d) };
                proof {
                    lemma_scan_sound(s@.skip(jq as int), f1@, p2 - jq);
                    assert(s@.subrange(jq as int, p2 as int) =~= s@.skip(jq as int).take(
                    p2 - jq));
                    assert(s@.skip(p2 as int) =~= s@.subrange(p2 as int, j2 as int));
                    assert(s@ =~= s@.take(jq as int) + s@.subrange(jq as int, p2 as int)
                        + s@.skip(p2 as int));
                    assert(s@ =~= head() + (quoted(tag@) + (",\"data\":"@ + (seq!['"'] + (
                    quoted(f1@) + "}"@)))));
                }
                Some(out)
            } else {
                proof {
                    assert forall|m: ResponseV| s@ != resp_json(m) by {
                        if s@ == resp_json(m) {
                            assert(s@.len() == p2 + "}"@.len());
                        }
                    }
                }
                None
            }
        },
        None => {
            proof {
                assert forall|m: ResponseV| s@ != resp_json(m) by {
                    if s@ == resp_json(m) {
                        assert(s@ =~= s@.take(p2 as int) + ("}"@ + Seq::<char>::empty()));
                        lemma_lit_at(s@, s@.take(p2 as int), "}"@, Seq::empty());
                    }
                }
            }
            None
        },
    }
}

/// After the `env_vars` tag: the vars object, then the closing brace.
#[verifier::rlimit(100)]
#[verifier::spinoff_prover]
fn parse_resp_vars(s: &Vec<char>, p1: usize, tag: &Vec<char>) -> (r: Option<Response>)
    requires
        p1 <= s@.len(),
        tag@ == "env_vars"@,
        s@.take(p1 as int) == head() + quoted(tag@),
        forall|m: ResponseV|
            s@ == resp_json(m) ==> resp_tag(m) == tag@ && s@.skip(p1 as int) == resp_after(m),
    ensures
        match r {
            Some(q) => s@ == resp_json(q@),
            None => forall|m: ResponseV| s@ != resp_json(m),
        },
{
    let jv = match expect_lit(s, p1, ",\"vars\":{") {
        Some(j) => j,
        None => {
            proof {
                assert forall|m: ResponseV| s@ != resp_json(m) by {
                    if s@ == resp_json(m) {
                        lemma_resp_tag_shape(m);
                        match m {
                            ResponseV::EnvVars { vars } => {
                                assert(s@ =~= s@.take(p1 as int) + (",\"vars\":{"@ + (
                                pairs_json(vars) + "}"@)));
                                lemma_lit_at(
                                    s@,
                                    s@.take(p1 as int),
                                    ",\"vars\":{"@,
                                    pairs_json(vars) + "}"@,
                                );
                            },
                            _ => {},
                        }
                    }
                }
            }
            return None;
        },
    };
    proof {
        assert forall|m: ResponseV|
            s@ == resp_json(m) implies (m matches ResponseV::EnvVars { vars } && s@.skip(
            jv as int,
        ) == pairs_json(vars) + "}"@) by {
            lemma_resp_tag_shape(m);
            match m {
                ResponseV::EnvVars { vars } => {
                    assert(s@ =~= s@.take(p1 as int) + (",\"vars\":{"@ + (pairs_json(vars)
                        + "}"@)));
                    lemma_lit_at(
                        s@,
                        s@.take(p1 as int),
                        ",\"vars\":{"@,
                        pairs_json(vars) + "}"@,
                    );
                },
                _ => {},
            }
        }
        assert(s@.take(jv as int) =~= s@.take(p1 as int) + s@.subrange(p1 as int, jv as int));
        assert(s@.take(jv as int) =~= head() + quoted(tag@) + ",\"vars\":{"@);
    }
    parse_resp_vars_tail(s, jv, tag)
}

/// The pairs of a vars object, and the closing brace of the response.
#[verifier::rlimit(100)]
#[verifier::spinoff_prover]
fn parse_resp_vars_tail(s: &Vec<char>, jv: usize, tag: &Vec<char>) -> (r: Option<Response>)
    requires
        jv <= s@.len(),
        tag@ == "env_vars"@,
        s@.take(jv as int) == head() + quoted(tag@) + ",\"vars\":{"@,
        forall|m: ResponseV|
            s@ == resp_json(m) ==> (m matches ResponseV::EnvVars { vars } && s@.skip(jv as int)
                == pairs_json(vars) + "}"@),
    ensures
        match r {
            Some(q) => s@ == resp_json(q@),
            None => forall|m: ResponseV| s@ != resp_json(m),
        },
{
    let (vars, p2) = match parse_pairs_at(s, jv) {
        Some(t) => t,
        None => {
            proof {
                assert forall|m: ResponseV| s@ != resp_json(m) by {
                    if s@ == resp_json(m) {
                        match m {
                            ResponseV::EnvVars { vars } => {
                                lemma_scan_pairs_complete(vars, "}"@);
                            },
                            _ => {},
                        }
                    }
                }
            }
            return None;
        },
    };
    proof {
        assert forall|m: ResponseV|
            s@ == resp_json(m) implies (m matches ResponseV::EnvVars { vars: vs } && vs
            == pairs_view(vars@) && s@.skip(p2 as int) == "}"@ && s@.len() == p2
            + "}"@.len()) by {
            match m {
                ResponseV::EnvVars { vars: vs } => {
                    lemma_scan_pairs_complete(vs, "}"@);
                    assert(p2 - jv == pairs_json(vs).len());
                    assert(s@.skip(p2 as int) =~= s@.skip(jv as int).skip(p2 - jv));
                    assert((pairs_json(vs) + "}"@).skip(pairs_json(vs).len() as int) =~= "}"@);
                },
                _ => {},
            }
        }
    }
    match expect_lit(s, p2, "}") {
        Some(j2) => {
            if j2 == s.len() {
                let out = Response::env_vars(vars);
                proof {
                    lemma_scan_pairs_sound(s@.skip(jv as int), out@->EnvVars_vars, p2 - jv);
                    assert(s@.subrange(jv as int, p2 as int) =~= s@.skip(jv as int).take(
                    p2 - jv));
                    assert(s@.skip(p2 as int) =~= s@.subrange(p2 as int, j2 as int));
                    assert(s@ =~= s@.take(jv as int) + s@.subrange(jv as int, p2 as int)
                        + s@.skip(p2 as int));
                    assert(s@ =~= head() + (quoted(tag@) + (",\"vars\":{"@ + (pairs_json(
                    out@->EnvVars_vars) + "}"@))));
                }
                Some(out)
            } else {
                proof {
                    assert forall|m: ResponseV| s@ != resp_json(m) by {
                        if s@ == resp_json(m) {
                            assert(s@.len() == p2 + "}"@.len());
                        }
                    }
                }
                None
            }
        },
        None => {
            proof {
                assert forall|m: ResponseV| s@ != resp_json(m) by {
                    if s@ == resp_json(m) {
                        assert(s@ =~= s@.take(p2 as int) + ("}"@ + Seq::<char>::empty()));
                        lemma_lit_at(s@, s@.take(p2 as int), "}"@, Seq::empty());
                    }
                }
            }
            None
        },
    }
}

/// A quoted string determines its contents: escaping followed by the
/// closing quote never reads two ways.
pub proof fn lemma_quoted_unique(a: Seq<char>, b: Seq<char>, r1: Seq<char>, r2: Seq<char>)
    requires
        quoted(a) + r1 == quoted(b) + r2,
    ensures
        a == b,
        r1 == r2,
{
    lemma_scan_esc(a, r1);
    lemma_scan_esc(b, r2);
    assert(quoted(a) + r1 =~= esc(a) + seq!['"'] + r1);
    assert(quoted(b) + r2 =~= esc(b) + seq!['"'] + r2);
    assert((esc(a) + seq!['"'] + r1) =~= (esc(b) + seq!['"'] + r2));
    assert(a == b);
    assert(r1 =~= (quoted(a) + r1).skip(quoted(a).len() as int));
    assert(r2 =~= (quoted(b) + r2).skip(quoted(b).len() as int));
}

/// Distinct requests never share a wire text.
#[verifier::rlimit(100)]
#[verifier::spinoff_prover]
pub proof fn lemma_req_json_injective(m1: RequestV, m2: RequestV)
    requires
        req_json(m1) == req_json(m2),
    ensures
        m1 == m2,
{
    let s = req_json(m1);
    lemma_decomp(s, head(), req_tag(m1), req_after(m1));
    lemma_decomp(s, head(), req_tag(m2), req_after(m2));
    assert(req_tag(m1) == req_tag(m2));
    assert(req_after(m1) == req_after(m2));
    lemma_req_tag_shape(m1);
    lemma_req_tag_shape(m2);
    match m1 {
        RequestV::Ping => {
            assert(req_tag(m2) == "ping"@);
        },
        RequestV::GetAllEnv => {
            assert(req_tag(m2) == "get_all_env"@);
        },
        RequestV::GetEnv { name: n1 } => {
            assert(req_tag(m2) == "get_env"@);
            match m2 {
                RequestV::GetEnv { name: n2 } => {
                    let lit = ",\"name\":\""@;
                    assert((lit + (quoted(n1) + "}"@)).skip(lit.len() as int) =~= quoted(n1)
                        + "}"@);
                    assert((lit + (quoted(n2) + "}"@)).skip(lit.len() as int) =~= quoted(n2)
                        + "}"@);
                    lemma_quoted_unique(n1, n2, "}"@, "}"@);
                },
                _ => {},
            }
        },
        RequestV::SetEnv { name: n1, value: v1 } => {
            assert(req_tag(m2) == "set_env"@);
            match m2 {
                RequestV::SetEnv { name: n2, value: v2 } => {
                    let lit = ",\"name\":\""@;
                    let lit2 = ",\"value\":\""@;
                    assert((lit + (quoted(n1) + (lit2 + (quoted(v1) + "}"@)))).skip(
                        lit.len() as int,
                    ) =~= quoted(n1) + (lit2 + (quoted(v1) + "}"@)));
                    assert((lit + (quoted(n2) + (lit2 + (quoted(v2) + "}"@)))).skip(
                        lit.len() as int,
                    ) =~= quoted(n2) + (lit2 + (quoted(v2) + "}"@)));
                    lemma_quoted_unique(
                        n1,
                        n2,
                        lit2 + (quoted(v1) + "}"@),
                        lit2 + (quoted(v2) + "}"@),
                    );
                    assert((lit2 + (quoted(v1) + "}"@)).skip(lit2.len() as int) =~= quoted(v1)
                        + "}"@);
                    assert((lit2 + (quoted(v2) + "}"@)).skip(lit2.len() as int) =~= quoted(v2)
                        + "}"@);
                    lemma_quoted_unique(v1, v2, "}"@, "}"@);
                },
                _ => {},
            }
        },
        RequestV::SendData { key: n1, data: v1 } => {
            assert(req_tag(m2) == "send_data"@);
            match m2 {
                RequestV::SendData { key: n2, data: v2 } => {
                    let lit = ",\"key\":\""@;
                    let lit2 = ",\"data\":\""@;
                    assert((lit + (quoted(n1) + (lit2 + (quoted(v1) + "}"@)))).skip(
                        lit.len() as int,
                    ) =~= quoted(n1) + (lit2 + (quoted(v1) + "}"@)));
                    assert((lit + (quoted(n2) + (lit2 + (quoted(v2) + "}"@)))).skip(
                        lit.len() as int,
                    ) =~= quoted(n2) + (lit2 + (quoted(v2) + "}"@)));
                    lemma_quoted_unique(
                        n1,
                        n2,
                        lit2 + (quoted(v1) + "}"@),
                        lit2 + (quoted(v2) + "}"@),
                    );
                    assert((lit2 + (quoted(v1) + "}"@)).skip(lit2.len() as int) =~= quoted(v1)
                        + "}"@);
                    assert((lit2 + (quoted(v2) + "}"@)).skip(lit2.len() as int) =~= quoted(v2)
                        + "}"@);
                    lemma_quoted_unique(v1, v2, "}"@, "}"@);
                },
                _ => {},
            }
        },
    }
}

/// Distinct responses never share a wire text.
#[verifier::rlimit(100)]
#[verifier::spinoff_prover]
pub proof fn lemma_resp_json_injective(m1: ResponseV, m2: ResponseV)
    requires
        resp_json(m1) == resp_json(m2),
    ensures
        m1 == m2,
{
    let s = resp_json(m1);
    lemma_decomp(s, head(), resp_tag(m1), resp_after(m1));
    lemma_decomp(s, head(), resp_tag(m2), resp_after(m2));
    assert(resp_tag(m1) == resp_tag(m2));
    assert(resp_after(m1) == resp_after(m2));
    lemma_resp_tag_shape(m1);
    lemma_resp_tag_shape(m2);
    match m1 {
        ResponseV::Pong => {
            assert(resp_tag(m2) == "pong"@);
        },
        ResponseV::Error { message: n1 } => {
            assert(resp_tag(m2) == "error"@);
            match m2 {
                ResponseV::Error { message: n2 } => {
                    let lit = ",\"message\":\""@;
                    assert((lit + (quoted(n1) + "}"@)).skip(lit.len() as int) =~= quoted(n1)
                        + "}"@);
                    assert((lit + (quoted(n2) + "}"@)).skip(lit.len() as int) =~= quoted(n2)
                        + "}"@);
                    lemma_quoted_unique(n1, n2, "}"@, "}"@);
                },
                _ => {},
            }
        },
        ResponseV::Success { data: d1 } => {
            assert(resp_tag(m2) == "success"@);
            match m2 {
                ResponseV::Success { data: d2 } => {
                    let lit = ",\"data\":"@;
                    let x1 = (match d1 {
                        Some(d) => seq!['"'] + (quoted(d) + "}"@),
                        None => "null}"@,
                    });
                    let x2 = (match d2 {
                        Some(d) => seq!['"'] + (quoted(d) + "}"@),
                        None => "null}"@,
                    });
                    assert((lit + x1).skip(lit.len() as int) =~= x1);
                    assert((lit + x2).skip(lit.len() as int) =~= x2);
                    assert(x1 == x2);
                    reveal_strlit("null}");
                    match d1 {
                        Some(a) => {
                            match d2 {
                                Some(b) => {
                                    assert(x1.skip(1) =~= quoted(a) + "}"@);
                                    assert(x2.skip(1) =~= quoted(b) + "}"@);
                                    lemma_quoted_unique(a, b, "}"@, "}"@);
                                },
                                None => {
                                    assert(x1[0] == '"' && x2[0] == 'n');
                                },
                            }
                        },
                        None => {
                            match d2 {
                                Some(b) => {
                                    assert(x1[0] == 'n' && x2[0] == '"');
                                },
                                None => {},
                            }
                        },
                    }
                },
                _ => {},
            }
        },
        ResponseV::EnvVars { vars: v1 } => {
            assert(resp_tag(m2) == "env_vars"@);
            match m2 {
                ResponseV::EnvVars { vars: v2 } => {
                    let lit = ",\"vars\":{"@;
                    assert((lit + (pairs_json(v1) + "}"@)).skip(lit.len() as int) =~= pairs_json(
                    v1) + "}"@);
                    assert((lit + (pairs_json(v2) + "}"@)).skip(lit.len() as int) =~= pairs_json(
                    v2) + "}"@);
                    lemma_scan_pairs_complete(v1, "}"@);
                    lemma_scan_pairs_complete(v2, "}"@);
                },
                _ => {},
            }
        },
    }
}

} // verus!
