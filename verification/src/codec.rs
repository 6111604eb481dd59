use vstd::prelude::*;
use vstd::string::StrSliceExecFns;
use crate::outside::string_from_chars;

verus! {

// ---------------------------------------------------------------------------
// Characters of a string
// ---------------------------------------------------------------------------

/// The characters of `s`, in order.
pub fn str_chars(s: &str) -> (v: Vec<char>)
    ensures
        v@ == s@,
{
    let n: usize = s.unicode_len();
    let mut v: Vec<char> = Vec::new();
    let mut i: usize = 0;
    while i < n
        invariant
            i <= n,
            n == s@.len(),
            v@ == s@.take(i as int),
        decreases n - i,
    {
        v.push(s.get_char(i));
        proof {
            assert(s@.take(i as int + 1) =~= s@.take(i as int).push(s@[i as int]));
        }
        i = i + 1;
    }
    proof {
        assert(s@.take(n as int) =~= s@);
    }
    v
}

// ---------------------------------------------------------------------------
// Decimal rendering of version counters
// ---------------------------------------------------------------------------

/// The decimal digit character for `n < 10`.
pub open spec fn dec_digit(n: nat) -> char {
    if n == 0 { '0' }
    else if n == 1 { '1' }
    else if n == 2 { '2' }
    else if n == 3 { '3' }
    else if n == 4 { '4' }
    else if n == 5 { '5' }
    else if n == 6 { '6' }
    else if n == 7 { '7' }
    else if n == 8 { '8' }
    else { '9' }
}

/// The decimal rendering of `n`, most significant digit first, with no
/// leading zeros (a single zero for `n == 0`).
pub open spec fn dec_of(n: nat) -> Seq<char>
    decreases n,
{
    if n < 10 { seq![dec_digit(n)] } else { dec_of(n / 10).push(dec_digit(n % 10)) }
}

fn dec_digit_char(d: u64) -> (c: char)
    requires
        d < 10,
    ensures
        c == dec_digit(d as nat),
{
    if d == 0 { '0' }
    else if d == 1 { '1' }
    else if d == 2 { '2' }
    else if d == 3 { '3' }
    else if d == 4 { '4' }
    else if d == 5 { '5' }
    else if d == 6 { '6' }
    else if d == 7 { '7' }
    else if d == 8 { '8' }
    else { '9' }
}

/// The decimal rendering of `n`, as characters.
pub fn dec_chars(n: u64) -> (v: Vec<char>)
    ensures
        v@ == dec_of(n as nat),
{
    let mut v: Vec<char> = Vec::new();
    let mut m: u64 = n;
    loop
        invariant_except_break
            dec_of(n as nat) == dec_of(m as nat) + v@,
        ensures
            v@ == dec_of(n as nat),
        decreases m,
    {
        let d = dec_digit_char(m % 10);
        let ghost v0 = v@;
        v.insert(0, d);
        proof {
            assert(v@ =~= seq![d] + v0);
        }
        if m < 10 {
            proof {
                assert(dec_of(m as nat) == seq![dec_digit(m as nat)]);
                assert(dec_of(m as nat) + v0 =~= v@);
            }
            break;
        }
        proof {
            assert(dec_of(m as nat) == dec_of(m as nat / 10).push(dec_digit(m as nat % 10)));
            assert(dec_of(m as nat) + v0 =~= dec_of(m as nat / 10) + v@);
        }
        m = m / 10;
    }
    v
}

// ---------------------------------------------------------------------------
// Hexadecimal digits, for JSON control-character escapes
// ---------------------------------------------------------------------------

/// The lower-case hexadecimal digit character for `n < 16`.
pub open spec fn hex_digit(n: nat) -> char {
    if n == 0 { '0' }
    else if n == 1 { '1' }
    else if n == 2 { '2' }
    else if n == 3 { '3' }
    else if n == 4 { '4' }
    else if n == 5 { '5' }
    else if n == 6 { '6' }
    else if n == 7 { '7' }
    else if n == 8 { '8' }
    else if n == 9 { '9' }
    else if n == 10 { 'a' }
    else if n == 11 { 'b' }
    else if n == 12 { 'c' }
    else if n == 13 { 'd' }
    else if n == 14 { 'e' }
    else { 'f' }
}

/// Whether `c` is a lower-case hexadecimal digit.
pub open spec fn is_hex_digit(c: char) -> bool {
    c == '0' || c == '1' || c == '2' || c == '3' || c == '4' || c == '5' || c == '6' || c == '7'
        || c == '8' || c == '9' || c == 'a' || c == 'b' || c == 'c' || c == 'd' || c == 'e'
        || c == 'f'
}

/// The value of a lower-case hexadecimal digit character.
pub open spec fn hex_val(c: char) -> nat {
    if c == '0' { 0 }
    else if c == '1' { 1 }
    else if c == '2' { 2 }
    else if c == '3' { 3 }
    else if c == '4' { 4 }
    else if c == '5' { 5 }
    else if c == '6' { 6 }
    else if c == '7' { 7 }
    else if c == '8' { 8 }
    else if c == '9' { 9 }
    else if c == 'a' { 10 }
    else if c == 'b' { 11 }
    else if c == 'c' { 12 }
    else if c == 'd' { 13 }
    else if c == 'e' { 14 }
    else { 15 }
}

fn hex_digit_char(d: u32) -> (c: char)
    requires
        d < 16,
    ensures
        c == hex_digit(d as nat),
{
    if d == 0 { '0' }
    else if d == 1 { '1' }
    else if d == 2 { '2' }
    else if d == 3 { '3' }
    else if d == 4 { '4' }
    else if d == 5 { '5' }
    else if d == 6 { '6' }
    else if d == 7 { '7' }
    else if d == 8 { '8' }
    else if d == 9 { '9' }
    else if d == 10 { 'a' }
    else if d == 11 { 'b' }
    else if d == 12 { 'c' }
    else if d == 13 { 'd' }
    else if d == 14 { 'e' }
    else { 'f' }
}

fn hex_val_char(c: char) -> (r: Option<u32>)
    ensures
        match r {
            Some(v) => is_hex_digit(c) && v == hex_val(c) && v < 16,
            None => !is_hex_digit(c),
        },
{
    if c == '0' { Some(0) }
    else if c == '1' { Some(1) }
    else if c == '2' { Some(2) }
    else if c == '3' { Some(3) }
    else if c == '4' { Some(4) }
    else if c == '5' { Some(5) }
    else if c == '6' { Some(6) }
    else if c == '7' { Some(7) }
    else if c == '8' { Some(8) }
    else if c == '9' { Some(9) }
    else if c == 'a' { Some(10) }
    else if c == 'b' { Some(11) }
    else if c == 'c' { Some(12) }
    else if c == 'd' { Some(13) }
    else if c == 'e' { Some(14) }
    else if c == 'f' { Some(15) }
    else { None }
}

// ---------------------------------------------------------------------------
// JSON string literals: the outer half of the double encoding
// ---------------------------------------------------------------------------

/// How one character is written inside a JSON string literal: quote and
/// backslash get a backslash escape, control characters a `\u00XX` escape,
/// and every other character stands for itself.
pub open spec fn jstr_encode_char(c: char) -> Seq<char> {
    if c == '"' { seq!['\\', '"'] }
    else if c == '\\' { seq!['\\', '\\'] }
    else if (c as u32) < 0x20 {
        seq!['\\', 'u', '0', '0', hex_digit((c as u32 / 16) as nat), hex_digit((c as u32 % 16) as nat)]
    }
    else { seq![c] }
}

/// The body of the JSON string literal for `s`: its characters written
/// one after the other.
pub open spec fn jstr_encode_body(s: Seq<char>) -> Seq<char>
    decreases s.len(),
{
    if s.len() == 0 { Seq::empty() } else { jstr_encode_char(s[0]) + jstr_encode_body(s.drop_first()) }
}

/// The JSON string literal for `s`: the escaped body between two quotes.
pub open spec fn jstr_encode(s: Seq<char>) -> Seq<char> {
    seq!['"'] + jstr_encode_body(s) + seq!['"']
}

/// Prepends `p` to a decode result, keeping failure.
pub open spec fn opt_prepend(p: Seq<char>, r: Option<Seq<char>>) -> Option<Seq<char>> {
    match r {
        Some(t) => Some(p + t),
        None => None,
    }
}

/// Reads the body of a JSON string literal back: the inverse of
/// `jstr_encode_body`.  Rejects raw quotes, raw control characters and
/// any escape the encoder does not produce.
pub open spec fn jstr_decode_body(s: Seq<char>) -> Option<Seq<char>>
    decreases s.len(),
{
    if s.len() == 0 {
        Some(Seq::empty())
    } else if s[0] == '\\' {
        if s.len() >= 2 && s[1] == '"' {
            opt_prepend(seq!['"'], jstr_decode_body(s.skip(2)))
        } else if s.len() >= 2 && s[1] == '\\' {
            opt_prepend(seq!['\\'], jstr_decode_body(s.skip(2)))
        } else if s.len() >= 6 && s[1] == 'u' && s[2] == '0' && s[3] == '0' && is_hex_digit(s[4])
            && is_hex_digit(s[5]) {
            opt_prepend(
                seq![(((hex_val(s[4]) * 16 + hex_val(s[5])) as u32) as char)],
                jstr_decode_body(s.skip(6)),
            )
        } else {
            None
        }
    } else if s[0] == '"' || (s[0] as u32) < 0x20 {
        None
    } else {
        opt_prepend(seq![s[0]], jstr_decode_body(s.skip(1)))
    }
}

/// Reads a JSON string literal back: the inverse of `jstr_encode`.
pub open spec fn jstr_decode(s: Seq<char>) -> Option<Seq<char>> {
    if s.len() >= 2 && s[0] == '"' && s[s.len() - 1] == '"' {
        jstr_decode_body(s.subrange(1, s.len() - 1))
    } else {
        None
    }
}

proof fn lemma_jstr_encode_body_push(s: Seq<char>, c: char)
    ensures
        jstr_encode_body(s.push(c)) == jstr_encode_body(s) + jstr_encode_char(c),
    decreases s.len(),
{
    if s.len() == 0 {
        reveal_with_fuel(jstr_encode_body, 2);
        assert(s.push(c)[0] == c);
        assert(s.push(c).drop_first() =~= Seq::<char>::empty());
        assert(jstr_encode_char(c) + Seq::<char>::empty() =~= jstr_encode_char(c));
        assert(jstr_encode_body(s) + jstr_encode_char(c) =~= jstr_encode_char(c));
    } else {
        lemma_jstr_encode_body_push(s.drop_first(), c);
        assert(s.push(c).drop_first() =~= s.drop_first().push(c));
        assert(s.push(c)[0] == s[0]);
        assert(jstr_encode_char(s[0]) + (jstr_encode_body(s.drop_first()) + jstr_encode_char(c))
            =~= (jstr_encode_char(s[0]) + jstr_encode_body(s.drop_first())) + jstr_encode_char(c));
    }
}

/// Writes `s` as a JSON string literal.
pub fn encode_json_string(s: &str) -> (r: String)
    ensures
        r@ == jstr_encode(s@),
{
    let cs = str_chars(s);
    let mut out: Vec<char> = Vec::new();
    out.push('"');
    let mut i: usize = 0;
    while i < cs.len()
        invariant
            i <= cs@.len(),
            cs@ == s@,
            out@ == seq!['"'] + jstr_encode_body(cs@.take(i as int)),
        decreases cs@.len() - i,
    {
        let c = cs[i];
        let ghost out0 = out@;
        if c == '"' {
            out.push('\\');
            out.push('"');
        } else if c == '\\' {
            out.push('\\');
            out.push('\\');
        } else if (c as u32) < 0x20 {
            out.push('\\');
            out.push('u');
            out.push('0');
            out.push('0');
            let x: u32 = c as u32;
            out.push(hex_digit_char(x / 16));
            out.push(hex_digit_char(x % 16));
        } else {
            out.push(c);
        }
        proof {
            lemma_jstr_encode_body_push(cs@.take(i as int), c);
            assert(cs@.take(i as int + 1) =~= cs@.take(i as int).push(c));
            assert(out@ =~= out0 + jstr_encode_char(c));
            assert(out@ =~= seq!['"'] + jstr_encode_body(cs@.take(i as int + 1)));
        }
        i = i + 1;
    }
    out.push('"');
    proof {
        assert(cs@.take(cs@.len() as int) =~= cs@);
        assert(out@ =~= jstr_encode(s@));
    }
    string_from_chars(&out)
}

/// Reads a JSON string literal back; `None` when `s` is not one that
/// `encode_json_string` could have produced.
pub fn decode_json_string(s: &str) -> (r: Option<String>)
    ensures
        match r {
            Some(t) => jstr_decode(s@) == Some(t@),
            None => jstr_decode(s@) is None,
        },
{
    let cs = str_chars(s);
    let n: usize = cs.len();
    if n < 2 {
        return None;
    }
    if !(cs[0] == '"' && cs[n - 1] == '"') {
        return None;
    }
    let ghost inner = cs@.subrange(1, cs@.len() - 1);
    proof {
        assert(jstr_decode(s@) == jstr_decode_body(inner));
    }
    let end: usize = n - 1;
    let mut out: Vec<char> = Vec::new();
    let mut i: usize = 1;
    proof {
        assert(inner.skip(0) =~= inner);
        lemma_opt_prepend_empty(jstr_decode_body(inner));
    }
    while i < end
        invariant
            1 <= i <= end,
            end == cs@.len() - 1,
            cs@.len() >= 2,
            cs@ == s@,
            inner == cs@.subrange(1, cs@.len() - 1),
            jstr_decode(s@) == jstr_decode_body(inner),
            jstr_decode_body(inner) == opt_prepend(out@, jstr_decode_body(inner.skip(i as int - 1))),
        decreases end - i,
    {
        let ghost t = inner.skip(i as int - 1);
        proof {
            assert(t.len() == end - i);
            assert(t[0] == cs@[i as int]);
        }
        let c = cs[i];
        let ghost out0 = out@;
        if c == '\\' {
            if i + 1 < end {
                let c2 = cs[i + 1];
                proof {
                    assert(t[1] == cs@[i as int + 1]);
                }
                if c2 == '"' {
                    out.push('"');
                    proof {
                        assert(t.skip(2) =~= inner.skip(i as int + 1));
                        assert(out@ =~= out0 + seq!['"']);
                        assert(jstr_decode_body(t) == opt_prepend(seq!['"'], jstr_decode_body(t.skip(2))));
                        lemma_opt_prepend_assoc(out0, seq!['"'], jstr_decode_body(t.skip(2)));
                    }
                    i = i + 2;
                } else if c2 == '\\' {
                    out.push('\\');
                    proof {
                        assert(t.skip(2) =~= inner.skip(i as int + 1));
                        assert(out@ =~= out0 + seq!['\\']);
                        assert(jstr_decode_body(t) == opt_prepend(seq!['\\'], jstr_decode_body(t.skip(2))));
                        lemma_opt_prepend_assoc(out0, seq!['\\'], jstr_decode_body(t.skip(2)));
                    }
                    i = i + 2;
                } else if c2 == 'u' {
                    if end - i > 5 && cs[i + 2] == '0' && cs[i + 3] == '0' {
                        let h1 = hex_val_char(cs[i + 4]);
                        let h2 = hex_val_char(cs[i + 5]);
                        proof {
                            assert(t[2] == cs@[i as int + 2]);
                            assert(t[3] == cs@[i as int + 3]);
                            assert(t[4] == cs@[i as int + 4]);
                            assert(t[5] == cs@[i as int + 5]);
                        }
                        match (h1, h2) {
                            (Some(v1), Some(v2)) => {
                                let v: u32 = v1 * 16 + v2;
                                let b: u8 = v as u8;
                                let dc: char = b as char;
                                out.push(dc);
                                proof {
                                    assert(dc as u32 == v);
                                    assert((hex_val(t[4]) * 16 + hex_val(t[5])) as u32 == v);
                                    vstd::utf8::char_u32_cast(dc, v);
                                    assert(((hex_val(t[4]) * 16 + hex_val(t[5])) as u32) as char == dc);
                                    assert(t.skip(6) =~= inner.skip(i as int + 5));
                                    assert(out@ =~= out0 + seq![dc]);
                                    assert(jstr_decode_body(t) == opt_prepend(seq![dc], jstr_decode_body(t.skip(6))));
                                    lemma_opt_prepend_assoc(out0, seq![dc], jstr_decode_body(t.skip(6)));
                                }
                                i = i + 6;
                            },
                            _ => {
                                proof {
                                    assert(jstr_decode_body(t) is None);
                                }
                                return None;
                            },
                        }
                    } else {
                        proof {
                            if end - i > 5 {
                                assert(t[2] == cs@[i as int + 2]);
                                assert(t[3] == cs@[i as int + 3]);
                            }
                            assert(jstr_decode_body(t) is None);
                        }
                        return None;
                    }
                } else {
                    proof {
                        assert(jstr_decode_body(t) is None);
                    }
                    return None;
                }
            } else {
                proof {
                    assert(t.len() == 1);
                    assert(jstr_decode_body(t) is None);
                }
                return None;
            }
        } else if c == '"' {
            proof {
                assert(jstr_decode_body(t) is None);
            }
            return None;
        } else if (c as u32) < 0x20 {
            proof {
                assert(jstr_decode_body(t) is None);
            }
            return None;
        } else {
            out.push(c);
            proof {
                assert(t.skip(1) =~= inner.skip(i as int));
                assert(out@ =~= out0 + seq![c]);
                assert(jstr_decode_body(t) == opt_prepend(seq![c], jstr_decode_body(t.skip(1))));
                lemma_opt_prepend_assoc(out0, seq![c], jstr_decode_body(t.skip(1)));
            }
            i = i + 1;
        }
    }
    proof {
        assert(inner.skip(i as int - 1) =~= Seq::<char>::empty());
        assert(jstr_decode_body(inner) == Some(out@ + Seq::<char>::empty()));
        assert(out@ + Seq::<char>::empty() =~= out@);
    }
    Some(string_from_chars(&out))
}

proof fn lemma_opt_prepend_assoc(a: Seq<char>, b: Seq<char>, r: Option<Seq<char>>)
    ensures
        opt_prepend(a + b, r) == opt_prepend(a, opt_prepend(b, r)),
{
    match r {
        Some(t) => {
            assert((a + b) + t =~= a + (b + t));
        },
        None => {},
    }
}

proof fn lemma_opt_prepend_empty(r: Option<Seq<char>>)
    ensures
        opt_prepend(Seq::empty(), r) == r,
{
    match r {
        Some(t) => {
            assert(Seq::<char>::empty() + t =~= t);
        },
        None => {},
    }
}

/// Reading back what `jstr_encode_body` wrote yields the original text.
proof fn lemma_jstr_round_trip_body(s: Seq<char>)
    ensures
        jstr_decode_body(jstr_encode_body(s)) == Some(s),
    decreases s.len(),
{
    if s.len() == 0 {
        assert(s =~= Seq::<char>::empty());
    } else {
        let c = s[0];
        let rest = s.drop_first();
        lemma_jstr_round_trip_body(rest);
        let e = jstr_encode_body(s);
        assert(e == jstr_encode_char(c) + jstr_encode_body(rest));
        assert(seq![c] + rest =~= s);
        if c == '"' {
            assert(e.skip(2) =~= jstr_encode_body(rest));
            assert(jstr_decode_body(e) == opt_prepend(seq!['"'], jstr_decode_body(e.skip(2))));
        } else if c == '\\' {
            assert(e.skip(2) =~= jstr_encode_body(rest));
            assert(jstr_decode_body(e) == opt_prepend(seq!['\\'], jstr_decode_body(e.skip(2))));
        } else if (c as u32) < 0x20 {
            let h1 = hex_digit((c as u32 / 16) as nat);
            let h2 = hex_digit((c as u32 % 16) as nat);
            assert(is_hex_digit(h1));
            assert(is_hex_digit(h2));
            assert(hex_val(h1) == (c as u32 / 16) as nat);
            assert(hex_val(h2) == (c as u32 % 16) as nat);
            let v = hex_val(h1) * 16 + hex_val(h2);
            assert(v == c as u32) by {
                assert(c as u32 == (c as u32 / 16) * 16 + (c as u32 % 16));
            }
            assert(v < 0x20);
            assert((v as u32) == c as u32);
            vstd::utf8::char_u32_cast(c, v as u32);
            assert(((v as u32) as char) == c);
            assert(e.skip(6) =~= jstr_encode_body(rest));
            assert(jstr_decode_body(e) == opt_prepend(seq![c], jstr_decode_body(e.skip(6))));
        } else {
            assert(e.skip(1) =~= jstr_encode_body(rest));
            assert(jstr_decode_body(e) == opt_prepend(seq![c], jstr_decode_body(e.skip(1))));
        }
    }
}

/// Reading back what `jstr_encode` wrote yields the original text.
pub proof fn lemma_jstr_round_trip(s: Seq<char>)
    ensures
        jstr_decode(jstr_encode(s)) == Some(s),
{
    let e = jstr_encode(s);
    assert(e[0] == '"');
    assert(e[e.len() - 1] == '"');
    assert(e.subrange(1, e.len() - 1) =~= jstr_encode_body(s));
    lemma_jstr_round_trip_body(s);
}

// ---------------------------------------------------------------------------
// Editor quoting
// ---------------------------------------------------------------------------

/// How one character is written inside an editor-quoted string: the
/// editor's quoting delimiter is doubled, everything else stands for
/// itself.
pub open spec fn equote_char(c: char) -> Seq<char> {
    if c == '\'' { seq!['\'', '\''] } else { seq![c] }
}

/// The body of the editor-quoted form of `s`.
pub open spec fn equote_body(s: Seq<char>) -> Seq<char>
    decreases s.len(),
{
    if s.len() == 0 { Seq::empty() } else { equote_char(s[0]) + equote_body(s.drop_first()) }
}

/// The editor-quoted form of `s`: the body between two quoting
/// delimiters.
pub open spec fn equote(s: Seq<char>) -> Seq<char> {
    seq!['\''] + equote_body(s) + seq!['\'']
}

/// Reads the body of an editor-quoted string back: the inverse of
/// `equote_body`.  Rejects an undoubled delimiter.
pub open spec fn eunquote_body(s: Seq<char>) -> Option<Seq<char>>
    decreases s.len(),
{
    if s.len() == 0 {
        Some(Seq::empty())
    } else if s[0] == '\'' {
        if s.len() >= 2 && s[1] == '\'' {
            opt_prepend(seq!['\''], eunquote_body(s.skip(2)))
        } else {
            None
        }
    } else {
        opt_prepend(seq![s[0]], eunquote_body(s.skip(1)))
    }
}

/// Reads an editor-quoted string back: the inverse of `equote`.
pub open spec fn eunquote(s: Seq<char>) -> Option<Seq<char>> {
    if s.len() >= 2 && s[0] == '\'' && s[s.len() - 1] == '\'' {
        eunquote_body(s.subrange(1, s.len() - 1))
    } else {
        None
    }
}

proof fn lemma_equote_body_push(s: Seq<char>, c: char)
    ensures
        equote_body(s.push(c)) == equote_body(s) + equote_char(c),
    decreases s.len(),
{
    if s.len() == 0 {
        reveal_with_fuel(equote_body, 2);
        assert(s.push(c)[0] == c);
        assert(s.push(c).drop_first() =~= Seq::<char>::empty());
        assert(equote_char(c) + Seq::<char>::empty() =~= equote_char(c));
        assert(equote_body(s) + equote_char(c) =~= equote_char(c));
    } else {
        lemma_equote_body_push(s.drop_first(), c);
        assert(s.push(c).drop_first() =~= s.drop_first().push(c));
        assert(s.push(c)[0] == s[0]);
        assert(equote_char(s[0]) + (equote_body(s.drop_first()) + equote_char(c))
            =~= (equote_char(s[0]) + equote_body(s.drop_first())) + equote_char(c));
    }
}

/// Quotes `s` for the editor's command syntax, doubling the quoting
/// delimiter wherever it occurs in `s`.
pub fn editor_quote(s: &str) -> (r: String)
    ensures
        r@ == equote(s@),
{
    let cs = str_chars(s);
    let mut out: Vec<char> = Vec::new();
    out.push('\'');
    let mut i: usize = 0;
    while i < cs.len()
        invariant
            i <= cs@.len(),
            cs@ == s@,
            out@ == seq!['\''] + equote_body(cs@.take(i as int)),
        decreases cs@.len() - i,
    {
        let c = cs[i];
        let ghost out0 = out@;
        if c == '\'' {
            out.push('\'');
            out.push('\'');
        } else {
            out.push(c);
        }
        proof {
            lemma_equote_body_push(cs@.take(i as int), c);
            assert(cs@.take(i as int + 1) =~= cs@.take(i as int).push(c));
            assert(out@ =~= out0 + equote_char(c));
            assert(out@ =~= seq!['\''] + equote_body(cs@.take(i as int + 1)));
        }
        i = i + 1;
    }
    out.push('\'');
    proof {
        assert(cs@.take(cs@.len() as int) =~= cs@);
        assert(out@ =~= equote(s@));
    }
    string_from_chars(&out)
}

/// Reads an editor-quoted string back; `None` when `s` is not one that
/// `editor_quote` could have produced.
pub fn editor_unquote(s: &str) -> (r: Option<String>)
    ensures
        match r {
            Some(t) => eunquote(s@) == Some(t@),
            None => eunquote(s@) is None,
        },
{
    let cs = str_chars(s);
    let n: usize = cs.len();
    if n < 2 {
        return None;
    }
    if !(cs[0] == '\'' && cs[n - 1] == '\'') {
        return None;
    }
    let ghost inner = cs@.subrange(1, cs@.len() - 1);
    proof {
        assert(eunquote(s@) == eunquote_body(inner));
    }
    let end: usize = n - 1;
    let mut out: Vec<char> = Vec::new();
    let mut i: usize = 1;
    proof {
        assert(inner.skip(0) =~= inner);
        lemma_opt_prepend_empty(eunquote_body(inner));
    }
    while i < end
        invariant
            1 <= i <= end,
            end == cs@.len() - 1,
            cs@.len() >= 2,
            cs@ == s@,
            inner == cs@.subrange(1, cs@.len() - 1),
            eunquote(s@) == eunquote_body(inner),
            eunquote_body(inner) == opt_prepend(out@, eunquote_body(inner.skip(i as int - 1))),
        decreases end - i,
    {
        let ghost t = inner.skip(i as int - 1);
        proof {
            assert(t.len() == end - i);
            assert(t[0] == cs@[i as int]);
        }
        let c = cs[i];
        let ghost out0 = out@;
        if c == '\'' {
            if i + 1 < end {
                let c2 = cs[i + 1];
                proof {
                    assert(t[1] == cs@[i as int + 1]);
                }
                if c2 == '\'' {
                    out.push('\'');
                    proof {
                        assert(t.skip(2) =~= inner.skip(i as int + 1));
                        assert(out@ =~= out0 + seq!['\'']);
                        assert(eunquote_body(t) == opt_prepend(seq!['\''], eunquote_body(t.skip(2))));
                        lemma_opt_prepend_assoc(out0, seq!['\''], eunquote_body(t.skip(2)));
                    }
                    i = i + 2;
                } else {
                    proof {
                        assert(eunquote_body(t) is None);
                    }
                    return None;
                }
            } else {
                proof {
                    assert(t.len() == 1);
                    assert(eunquote_body(t) is None);
                }
                return None;
            }
        } else {
            out.push(c);
            proof {
                assert(t.skip(1) =~= inner.skip(i as int));
                assert(out@ =~= out0 + seq![c]);
                assert(eunquote_body(t) == opt_prepend(seq![c], eunquote_body(t.skip(1))));
                lemma_opt_prepend_assoc(out0, seq![c], eunquote_body(t.skip(1)));
            }
            i = i + 1;
        }
    }
    proof {
        assert(inner.skip(i as int - 1) =~= Seq::<char>::empty());
        assert(eunquote_body(inner) == Some(out@ + Seq::<char>::empty()));
        assert(out@ + Seq::<char>::empty() =~= out@);
    }
    Some(string_from_chars(&out))
}

/// Reading back what `equote_body` wrote yields the original text.
proof fn lemma_equote_round_trip_body(s: Seq<char>)
    ensures
        eunquote_body(equote_body(s)) == Some(s),
    decreases s.len(),
{
    if s.len() == 0 {
        assert(s =~= Seq::<char>::empty());
    } else {
        let c = s[0];
        let rest = s.drop_first();
        lemma_equote_round_trip_body(rest);
        let e = equote_body(s);
        assert(e == equote_char(c) + equote_body(rest));
        assert(seq![c] + rest =~= s);
        if c == '\'' {
            assert(e.skip(2) =~= equote_body(rest));
            assert(eunquote_body(e) == opt_prepend(seq!['\''], eunquote_body(e.skip(2))));
        } else {
            assert(e.skip(1) =~= equote_body(rest));
            assert(eunquote_body(e) == opt_prepend(seq![c], eunquote_body(e.skip(1))));
        }
    }
}

/// Reading back what `equote` wrote yields the original text.
pub proof fn lemma_equote_round_trip(s: Seq<char>)
    ensures
        eunquote(equote(s)) == Some(s),
{
    let e = equote(s);
    assert(e[0] == '\'');
    assert(e[e.len() - 1] == '\'');
    assert(e.subrange(1, e.len() - 1) =~= equote_body(s));
    lemma_equote_round_trip_body(s);
}

// ---------------------------------------------------------------------------
// The argument payload: quoting around the JSON string literal
// ---------------------------------------------------------------------------

/// The payload a lens invocation carries for its arguments: the JSON text
/// of the arguments, written as a JSON string literal, quoted for the
/// editor.
pub open spec fn argument_payload(json_text: Seq<char>) -> Seq<char> {
    equote(jstr_encode(json_text))
}

/// Reads an argument payload back to the JSON text it carries.
pub open spec fn argument_payload_decode(p: Seq<char>) -> Option<Seq<char>> {
    match eunquote(p) {
        Some(q) => jstr_decode(q),
        None => None,
    }
}

/// Builds the argument payload carrying `json_text`.
pub fn encode_argument_payload(json_text: &str) -> (r: String)
    ensures
        r@ == argument_payload(json_text@),
{
    let encoded = encode_json_string(json_text);
    editor_quote(encoded.as_str())
}

/// Reads an argument payload back to the JSON text it carries; `None`
/// when `p` is not a payload that `encode_argument_payload` could have
/// produced.
pub fn decode_argument_payload(p: &str) -> (r: Option<String>)
    ensures
        match r {
            Some(t) => argument_payload_decode(p@) == Some(t@),
            None => argument_payload_decode(p@) is None,
        },
{
    match editor_unquote(p) {
        Some(q) => decode_json_string(q.as_str()),
        None => None,
    }
}

/// Reading an argument payload back yields exactly the JSON text it was
/// built from: un-quoting undoes the quoting, and reading the JSON string
/// literal undoes the escaping.
pub proof fn lemma_argument_payload_round_trip(json_text: Seq<char>)
    ensures
        argument_payload_decode(argument_payload(json_text)) == Some(json_text),
{
    lemma_equote_round_trip(jstr_encode(json_text));
    lemma_jstr_round_trip(json_text);
}

// ---------------------------------------------------------------------------
// Joining invocation fragments
// ---------------------------------------------------------------------------

/// The pieces concatenated with a single space between each adjacent
/// pair.
pub open spec fn join_space_spec(parts: Seq<Seq<char>>) -> Seq<char>
    decreases parts.len(),
{
    if parts.len() == 0 { Seq::empty() }
    else if parts.len() == 1 { parts[0] }
    else { join_space_spec(parts.drop_last()) + seq![' '] + parts.last() }
}

// ---------------------------------------------------------------------------
// Doubling the display instruction's delimiter
// ---------------------------------------------------------------------------

/// How one character is written inside the display instruction's outer
/// delimiters: the delimiter is doubled, everything else stands for
/// itself.
pub open spec fn section_char(c: char) -> Seq<char> {
    if c == '§' { seq!['§', '§'] } else { seq![c] }
}

/// `s` with every occurrence of the display instruction's delimiter
/// doubled.
pub open spec fn section_doubled(s: Seq<char>) -> Seq<char>
    decreases s.len(),
{
    if s.len() == 0 { Seq::empty() } else { section_char(s[0]) + section_doubled(s.drop_first()) }
}

proof fn lemma_section_doubled_push(s: Seq<char>, c: char)
    ensures
        section_doubled(s.push(c)) == section_doubled(s) + section_char(c),
    decreases s.len(),
{
    if s.len() == 0 {
        reveal_with_fuel(section_doubled, 2);
        assert(s.push(c)[0] == c);
        assert(s.push(c).drop_first() =~= Seq::<char>::empty());
        assert(section_char(c) + Seq::<char>::empty() =~= section_char(c));
        assert(section_doubled(s) + section_char(c) =~= section_char(c));
    } else {
        lemma_section_doubled_push(s.drop_first(), c);
        assert(s.push(c).drop_first() =~= s.drop_first().push(c));
        assert(s.push(c)[0] == s[0]);
        assert(section_char(s[0]) + (section_doubled(s.drop_first()) + section_char(c))
            =~= (section_char(s[0]) + section_doubled(s.drop_first())) + section_char(c));
    }
}

/// Doubles the display instruction's delimiter wherever it occurs in `s`.
pub fn double_sections(s: &str) -> (r: String)
    ensures
        r@ == section_doubled(s@),
{
    let cs = str_chars(s);
    let mut out: Vec<char> = Vec::new();
    let mut i: usize = 0;
    while i < cs.len()
        invariant
            i <= cs@.len(),
            cs@ == s@,
            out@ == section_doubled(cs@.take(i as int)),
        decreases cs@.len() - i,
    {
        let c = cs[i];
        let ghost out0 = out@;
        if c == '§' {
            out.push('§');
            out.push('§');
        } else {
            out.push(c);
        }
        proof {
            lemma_section_doubled_push(cs@.take(i as int), c);
            assert(cs@.take(i as int + 1) =~= cs@.take(i as int).push(c));
            assert(out@ =~= out0 + section_char(c));
        }
        i = i + 1;
    }
    proof {
        assert(cs@.take(cs@.len() as int) =~= cs@);
    }
    string_from_chars(&out)
}

} // verus!
