//! Canonical JSON text for the strings that the log records and wire messages
//! carry: compact output, the short escapes for `"`, `\` and the usual control
//! characters, `\u00xx` with lower-case hex digits for the other control
//! characters, and every other byte as it is.
use vstd::prelude::*;
use vstd::utf8::*;

verus! {

/// Lower-case hexadecimal digit of a value below 16.
pub open spec fn hex_digit(n: int) -> u8 {
    if n < 10 {
        (48 + n) as u8
    } else {
        (87 + n) as u8
    }
}

/// The canonical escape of one byte inside a JSON string.
pub open spec fn escape_byte(c: u8) -> Seq<u8> {
    if c == 34 {
        seq![92u8, 34u8]
    } else if c == 92 {
        seq![92u8, 92u8]
    } else if c == 8 {
        seq![92u8, 98u8]
    } else if c == 9 {
        seq![92u8, 116u8]
    } else if c == 10 {
        seq![92u8, 110u8]
    } else if c == 12 {
        seq![92u8, 102u8]
    } else if c == 13 {
        seq![92u8, 114u8]
    } else if c < 32 {
        seq![92u8, 117u8, 48u8, 48u8, hex_digit((c / 16) as int), hex_digit((c % 16) as int)]
    } else {
        seq![c]
    }
}

/// The escaped body of a JSON string holding the bytes `b`.
pub open spec fn escape(b: Seq<u8>) -> Seq<u8>
    decreases b.len(),
{
    if b.len() == 0 {
        Seq::empty()
    } else {
        escape(b.drop_last()) + escape_byte(b.last())
    }
}

/// A JSON string literal, quotes included, holding the bytes `b`.
pub open spec fn json_str(b: Seq<u8>) -> Seq<u8> {
    seq![34u8] + escape(b) + seq![34u8]
}

/// `s` holds the literal of `b` at offset `i`.
pub open spec fn json_str_at(s: Seq<u8>, i: int, b: Seq<u8>) -> bool {
    &&& 0 <= i
    &&& i + json_str(b).len() <= s.len()
    &&& s.subrange(i, i + json_str(b).len()) == json_str(b)
}

/// `s` holds the bytes `t` at offset `i`.
pub open spec fn bytes_at(s: Seq<u8>, i: int, t: Seq<u8>) -> bool {
    &&& 0 <= i
    &&& i + t.len() <= s.len()
    &&& s.subrange(i, i + t.len()) == t
}

pub proof fn lemma_escape_concat(a: Seq<u8>, c: Seq<u8>)
    ensures
        escape(a + c) == escape(a) + escape(c),
    decreases c.len(),
{
    if c.len() == 0 {
        assert(a + c =~= a);
        assert(escape(a) + escape(c) =~= escape(a));
    } else {
        let ac = a + c;
        assert(ac.drop_last() =~= a + c.drop_last());
        assert(ac.last() == c.last());
        lemma_escape_concat(a, c.drop_last());
        assert(escape(a + c) =~= escape(a) + escape(c));
    }
}

/// The escape of `b` starting at its `k`-th byte.
pub proof fn lemma_escape_split(b: Seq<u8>, k: int)
    requires
        0 <= k < b.len(),
    ensures
        escape(b) == escape(b.subrange(0, k)) + escape_byte(b[k]) + escape(
            b.subrange(k + 1, b.len() as int),
        ),
{
    let pre = b.subrange(0, k);
    let one = seq![b[k]];
    let post = b.subrange(k + 1, b.len() as int);
    assert(b =~= pre + one + post);
    lemma_escape_concat(pre + one, post);
    lemma_escape_concat(pre, one);
    assert(one.drop_last() =~= Seq::<u8>::empty());
    assert(escape(one.drop_last()) =~= Seq::<u8>::empty());
    assert(one.last() == b[k]);
    assert(escape(one) =~= escape_byte(b[k]));
}

proof fn lemma_escape_push(b: Seq<u8>, c: u8)
    ensures
        escape(b.push(c)) == escape(b) + escape_byte(c),
{
    assert(b.push(c).drop_last() =~= b);
}

/// The first byte of an escape is never a quote nor a control character, and
/// only an escaped byte starts with a backslash.
proof fn lemma_escape_byte_first(c: u8)
    ensures
        escape_byte(c).len() >= 1,
        escape_byte(c)[0] != 34,
        escape_byte(c)[0] >= 32,
        escape_byte(c)[0] == 92 <==> (c == 34 || c == 92 || c < 32),
        escape_byte(c)[0] != 92 ==> escape_byte(c) == seq![c],
{
}

fn hex_digit_exec(n: u8) -> (r: u8)
    requires
        n < 16,
    ensures
        r == hex_digit(n as int),
{
    if n < 10 {
        48 + n
    } else {
        87 + n
    }
}

/// Value of a lower-case hexadecimal digit.
fn hex_value(c: u8) -> (r: Option<u8>)
    ensures
        r matches Some(v) ==> v < 16 && hex_digit(v as int) == c,
        forall|n: int| 0 <= n < 16 && hex_digit(n) == c ==> r == Some(n as u8),
{
    if 48 <= c && c <= 57 {
        Some(c - 48)
    } else if 97 <= c && c <= 102 {
        Some(c - 87)
    } else {
        None
    }
}

/// Appends the escape of one byte.
fn push_escaped(out: &mut Vec<u8>, c: u8)
    ensures
        final(out)@ == old(out)@ + escape_byte(c),
{
    let ghost start = out@;
    if c == 34 || c == 92 {
        out.push(92);
        out.push(c);
    } else if c == 8 {
        out.push(92);
        out.push(98);
    } else if c == 9 {
        out.push(92);
        out.push(116);
    } else if c == 10 {
        out.push(92);
        out.push(110);
    } else if c == 12 {
        out.push(92);
        out.push(102);
    } else if c == 13 {
        out.push(92);
        out.push(114);
    } else if c < 32 {
        out.push(92);
        out.push(117);
        out.push(48);
        out.push(48);
        out.push(hex_digit_exec(c / 16));
        out.push(hex_digit_exec(c % 16));
    } else {
        out.push(c);
    }
    assert(out@ =~= start + escape_byte(c));
}

/// Appends the JSON string literal that holds the bytes `b`.
pub fn write_json_str(out: &mut Vec<u8>, b: &[u8])
    ensures
        final(out)@ == old(out)@ + json_str(b@),
{
    let ghost start = out@;
    out.push(34);
    let mut i: usize = 0;
    while i < b.len()
        invariant
            i <= b@.len(),
            out@ == start + seq![34u8] + escape(b@.subrange(0, i as int)),
        decreases b@.len() - i,
    {
        proof {
            lemma_escape_push(b@.subrange(0, i as int), b@[i as int]);
            assert(b@.subrange(0, i as int).push(b@[i as int]) =~= b@.subrange(0, i + 1));
        }
        push_escaped(out, b[i]);
        i = i + 1;
    }
    out.push(34);
    assert(b@.subrange(0, i as int) =~= b@);
    assert(out@ =~= start + json_str(b@));
}

/// Reads the escape of one byte at `p`, returning that byte and the escape's
/// width.
fn decode_escape_at(s: &Vec<u8>, p: usize) -> (r: Option<(u8, usize)>)
    requires
        p < s@.len(),
    ensures
        r matches Some((c, w)) ==> w == escape_byte(c).len() && bytes_at(
            s@,
            p as int,
            escape_byte(c),
        ),
        forall|x: u8| #[trigger]
            bytes_at(s@, p as int, escape_byte(x)) ==> r == Some((x, escape_byte(x).len() as usize)),
{
    let c = s[p];
    proof {
        assert forall|x: u8| #[trigger] bytes_at(s@, p as int, escape_byte(x)) implies s@[p as int]
            == escape_byte(x)[0] && (escape_byte(x).len() >= 2 ==> s@[p + 1] == escape_byte(x)[1])
            && (escape_byte(x).len() == 6 ==> s@[p + 2] == escape_byte(x)[2] && s@[p + 3]
            == escape_byte(x)[3] && s@[p + 4] == escape_byte(x)[4] && s@[p + 5]
            == escape_byte(x)[5]) by {
            let eb = escape_byte(x);
            assert(s@.subrange(p as int, p + eb.len())[0] == eb[0]);
            if eb.len() >= 2 {
                assert(s@.subrange(p as int, p + eb.len())[1] == eb[1]);
            }
            if eb.len() == 6 {
                assert(s@.subrange(p as int, p + eb.len())[2] == eb[2]);
                assert(s@.subrange(p as int, p + eb.len())[3] == eb[3]);
                assert(s@.subrange(p as int, p + eb.len())[4] == eb[4]);
                assert(s@.subrange(p as int, p + eb.len())[5] == eb[5]);
            }
        }
    }
    if c == 34 || c < 32 {
        return None;
    }
    if c != 92 {
        assert(s@.subrange(p as int, p + 1) =~= escape_byte(c));
        return Some((c, 1));
    }
    if s.len() - p < 2 {
        return None;
    }
    let d = s[p + 1];
    let decoded: u8;
    if d == 34 || d == 92 {
        decoded = d;
    } else if d == 98 {
        decoded = 8;
    } else if d == 116 {
        decoded = 9;
    } else if d == 110 {
        decoded = 10;
    } else if d == 102 {
        decoded = 12;
    } else if d == 114 {
        decoded = 13;
    } else if d == 117 && s.len() - p > 5 && s[p + 2] == 48 && s[p + 3] == 48 {
        let hi = hex_value(s[p + 4]);
        let lo = hex_value(s[p + 5]);
        match (hi, lo) {
            (Some(h), Some(l)) => {
                if h >= 2 {
                    return None;
                }
                let v: u8 = h * 16 + l;
                if v == 8 || v == 9 || v == 10 || v == 12 || v == 13 {
                    return None;
                }
                assert(v / 16 == h && v % 16 == l);
                assert(s@.subrange(p as int, p + 6) =~= escape_byte(v));
                return Some((v, 6));
            },
            _ => {
                return None;
            },
        }
    } else {
        return None;
    }
    assert(s@.subrange(p as int, p + 2) =~= escape_byte(decoded));
    Some((decoded, 2))
}

/// Reads the JSON string literal that starts at `start`, and returns the bytes
/// it holds with the offset just past its closing quote. Only the canonical
/// form is read.
pub fn parse_json_str(s: &Vec<u8>, start: usize) -> (r: Option<(Vec<u8>, usize)>)
    ensures
        r matches Some((b, end)) ==> start < end <= s@.len() && s@.subrange(start as int, end as int)
            == json_str(b@),
        forall|b: Seq<u8>| #[trigger]
            json_str_at(s@, start as int, b) ==> (r matches Some((b2, end)) && b2@ == b && end
                == start + json_str(b).len()),
{
    if start >= s.len() || s[start] != 34 {
        assert forall|b: Seq<u8>| #[trigger] json_str_at(s@, start as int, b) implies false by {
            assert(s@.subrange(start as int, start + json_str(b).len())[0] == json_str(b)[0]);
        }
        return None;
    }
    let mut out: Vec<u8> = Vec::new();
    let mut p: usize = start + 1;
    assert(s@.subrange(start as int, p as int) =~= seq![34u8] + escape(out@));
    loop
        invariant
            start < p <= s@.len(),
            s@.subrange(start as int, p as int) == seq![34u8] + escape(out@),
            forall|b: Seq<u8>| #[trigger]
                json_str_at(s@, start as int, b) ==> out@.len() <= b.len() && out@ == b.subrange(
                    0,
                    out@.len() as int,
                ),
        decreases s@.len() - p,
    {
        let ghost k = out@.len() as int;
        // A literal of `b` that `out` begins has, at `p`, either its closing
        // quote (when `out` is all of `b`) or the escape of `b[k]`.
        assert forall|b: Seq<u8>| #[trigger] json_str_at(s@, start as int, b) implies (k == b.len()
            && p < s@.len() && s@[p as int] == 34) || (k < b.len() && bytes_at(
            s@,
            p as int,
            escape_byte(b[k]),
        )) by {
            let js = json_str(b);
            let e = escape(out@);
            assert(out@ =~= b.subrange(0, k));
            assert(s@.subrange(start as int, start + js.len()) == js);
            assert(s@.subrange(start as int, p as int).len() == 1 + e.len());
            assert(p == start + 1 + e.len());
            if k == b.len() {
                assert(out@ =~= b);
                assert(js.len() == 2 + e.len());
                assert(js[js.len() - 1] == 34);
                assert(s@[p as int] == s@.subrange(start as int, start + js.len())[js.len() - 1]);
            } else {
                lemma_escape_split(b, k);
                let eb = escape_byte(b[k]);
                let rest = escape(b.subrange(k + 1, b.len() as int));
                assert(js =~= seq![34u8] + e + eb + rest + seq![34u8]);
                assert(js.subrange(1 + e.len() as int, 1 + e.len() + eb.len() as int) =~= eb);
                assert(s@.subrange(p as int, p + eb.len()) =~= s@.subrange(
                    start as int,
                    start + js.len(),
                ).subrange(1 + e.len() as int, 1 + e.len() + eb.len() as int));
            }
        }
        if p >= s.len() {
            assert forall|b: Seq<u8>| #[trigger] json_str_at(s@, start as int, b) implies false by {
                if k < b.len() {
                    lemma_escape_byte_first(b[k]);
                }
            }
            return None;
        }
        let c = s[p];
        if c == 34 {
            assert forall|b: Seq<u8>| #[trigger] json_str_at(s@, start as int, b) implies out@ == b
                && p + 1 == start + json_str(b).len() by {
                if k < b.len() {
                    lemma_escape_byte_first(b[k]);
                    assert(s@[p as int] == escape_byte(b[k])[0]);
                }
                assert(out@ =~= b);
            }
            assert(s@.subrange(start as int, p + 1) =~= s@.subrange(start as int, p as int).push(
                34u8,
            ));
            return Some((out, p + 1));
        }
        let ghost old_out = out@;
        let (decoded, width) = match decode_escape_at(s, p) {
            Some(dw) => dw,
            None => {
                assert forall|b: Seq<u8>| #[trigger]
                    json_str_at(s@, start as int, b) implies false by {
                    if k == b.len() {
                        assert(s@[p as int] == 34);
                    }
                }
                return None;
            },
        };
        out.push(decoded);
        proof {
            lemma_escape_push(old_out, decoded);
            assert(s@.subrange(start as int, p + width) =~= s@.subrange(start as int, p as int)
                + s@.subrange(p as int, p + width));
            assert forall|b: Seq<u8>| #[trigger] json_str_at(s@, start as int, b) implies out@.len()
                <= b.len() && out@ == b.subrange(0, out@.len() as int) by {
                if k == b.len() {
                    assert(s@[p as int] == 34);
                }
                assert(bytes_at(s@, p as int, escape_byte(b[k])));
                assert(out@ =~= b.subrange(0, out@.len() as int));
            }
        }
        p = p + width;
    }
}

/// The JSON string literal of a text.
pub open spec fn text_literal(t: Seq<char>) -> Seq<u8> {
    json_str(encode_utf8(t))
}

pub proof fn lemma_bytes_at_concat(s: Seq<u8>, i: int, a: Seq<u8>, b: Seq<u8>)
    ensures
        bytes_at(s, i, a + b) <==> bytes_at(s, i, a) && bytes_at(s, i + a.len(), b),
{
    if bytes_at(s, i, a + b) {
        let w = s.subrange(i, i + (a + b).len());
        assert(w == a + b);
        assert(s.subrange(i, i + a.len()) =~= w.subrange(0, a.len() as int));
        assert(w.subrange(0, a.len() as int) =~= a);
        assert(s.subrange(i + a.len(), i + a.len() + b.len()) =~= w.subrange(
            a.len() as int,
            w.len() as int,
        ));
        assert(w.subrange(a.len() as int, w.len() as int) =~= b);
    }
    if bytes_at(s, i, a) && bytes_at(s, i + a.len(), b) {
        assert(s.subrange(i, i + (a + b).len()) =~= s.subrange(i, i + a.len()) + s.subrange(
            i + a.len(),
            i + a.len() + b.len(),
        ));
    }
}

/// Whether `s` holds the bytes `t` at offset `i`.
pub fn match_bytes(s: &Vec<u8>, i: usize, t: &[u8]) -> (r: bool)
    ensures
        r == bytes_at(s@, i as int, t@),
{
    if i > s.len() || s.len() - i < t.len() {
        return false;
    }
    let mut j: usize = 0;
    while j < t.len()
        invariant
            i + t@.len() <= s@.len(),
            s@.len() <= usize::MAX,
            j <= t@.len(),
            forall|m: int| 0 <= m < j ==> s@[i + m] == t@[m],
        decreases t@.len() - j,
    {
        if s[i + j] != t[j] {
            assert(s@.subrange(i as int, i + t@.len())[j as int] != t@[j as int]);
            return false;
        }
        j = j + 1;
    }
    assert(s@.subrange(i as int, i + t@.len()) =~= t@);
    true
}

/// Relies on `String::from_utf8`: it succeeds exactly on valid UTF-8, and the
/// text it returns is the one those bytes encode.
#[verifier::external_body]
pub(crate) fn text_from_utf8(b: Vec<u8>) -> (r: Option<String>)
    ensures
        r is Some <==> valid_utf8(b@),
        r matches Some(t) ==> t@ == decode_utf8(b@),
{
    String::from_utf8(b).ok()
}

/// Appends the JSON string literal of a text.
pub fn write_text(out: &mut Vec<u8>, t: &str)
    ensures
        final(out)@ == old(out)@ + text_literal(t@),
{
    write_json_str(out, t.as_bytes());
}

/// Reads the JSON string literal at `start` as a text, with the offset just
/// past it.
pub fn parse_text(s: &Vec<u8>, start: usize) -> (r: Option<(String, usize)>)
    ensures
        r matches Some((t, end)) ==> bytes_at(s@, start as int, text_literal(t@)) && end == start
            + text_literal(t@).len(),
        forall|t: Seq<char>| #[trigger]
            bytes_at(s@, start as int, text_literal(t)) ==> (r matches Some((t2, end)) && t2@ == t
                && end == start + text_literal(t).len()),
{
    broadcast use encode_utf8_valid_utf8, encode_utf8_decode_utf8, decode_utf8_encode_utf8;

    assert forall|t: Seq<char>| #[trigger] bytes_at(s@, start as int, text_literal(t)) implies json_str_at(
        s@,
        start as int,
        encode_utf8(t),
    ) by {}
    match parse_json_str(s, start) {
        None => None,
        Some((b, end)) => {
            let ghost bv = b@;
            match text_from_utf8(b) {
                None => {
                    assert forall|t: Seq<char>| #[trigger]
                        bytes_at(s@, start as int, text_literal(t)) implies false by {
                        assert(json_str_at(s@, start as int, encode_utf8(t)));
                    }
                    None
                },
                Some(t) => {
                    assert(encode_utf8(t@) == bv);
                    Some((t, end))
                },
            }
        },
    }
}

/// A run of ASCII bytes is valid UTF-8.
pub proof fn lemma_ascii_valid(s: Seq<u8>)
    requires
        forall|i: int| 0 <= i < s.len() ==> s[i] < 128,
    ensures
        valid_utf8(s),
{
    let chars = Seq::new(s.len(), |i: int| s[i] as char);
    assert(is_ascii_chars(chars));
    is_ascii_chars_encode_utf8(chars);
    assert(encode_utf8(chars) =~= s);
    encode_utf8_valid_utf8(chars);
}

proof fn lemma_high_bits(x: u8, h: u8)
    requires
        h >= 0x80,
    ensures
        (h | x) >= 0x80,
{
    assert((h | x) >= 0x80) by (bit_vector)
        requires
            h >= 0x80,
    ;
}

/// Escaping leaves bytes from 128 up as they are.
proof fn lemma_escape_high(s: Seq<u8>)
    requires
        forall|i: int| 0 <= i < s.len() ==> s[i] >= 128,
    ensures
        escape(s) == s,
    decreases s.len(),
{
    if s.len() > 0 {
        lemma_escape_high(s.drop_last());
        assert(s =~= s.drop_last().push(s.last()));
        assert(escape(s) =~= s);
    }
}

/// The escape of valid UTF-8 text is valid UTF-8.
pub proof fn lemma_escape_valid(t: Seq<char>)
    ensures
        valid_utf8(escape(encode_utf8(t))),
    decreases t.len(),
{
    if t.len() == 0 {
        assert(escape(encode_utf8(t)) =~= Seq::<u8>::empty());
        lemma_ascii_valid(Seq::<u8>::empty());
    } else {
        let c = t[0] as u32;
        let e = encode_scalar(c);
        let rest = encode_utf8(t.drop_first());
        assert(encode_utf8(t) == e + rest);
        lemma_escape_concat(e, rest);
        lemma_escape_valid(t.drop_first());
        char_is_scalar(t[0]);
        if has_width_1_encoding(c) {
            let b = leading_byte_width_1(c);
            assert(b < 128) by {
                assert((c & 0x7F) <= 0x7F) by (bit_vector);
            }
            assert(e =~= seq![b]);
            assert(seq![b].drop_last() =~= Seq::<u8>::empty());
            assert(escape(Seq::<u8>::empty()) =~= Seq::<u8>::empty());
            assert(seq![b].last() == b);
            assert(escape(e) == escape(seq![b].drop_last()) + escape_byte(b));
            assert(escape(e) =~= escape_byte(b));
            lemma_ascii_valid(escape_byte(b));
        } else {
            lemma_high_bits(((c >> 6) & 0x1F) as u8, 0xC0);
            lemma_high_bits(((c >> 12) & 0x0F) as u8, 0xE0);
            lemma_high_bits(((c >> 18) & 0x7) as u8, 0xF0);
            lemma_high_bits((c & 0x3F) as u8, 0x80);
            lemma_high_bits(((c >> 6) & 0x3F) as u8, 0x80);
            lemma_high_bits(((c >> 12) & 0x3F) as u8, 0x80);
            lemma_escape_high(e);
            let one = seq![t[0]];
            assert(one.drop_first() =~= Seq::<char>::empty());
            assert(one[0] == t[0]);
            assert(encode_utf8(Seq::<char>::empty()) =~= Seq::<u8>::empty());
            assert(encode_utf8(one) == e + encode_utf8(one.drop_first()));
            assert(encode_utf8(one) =~= e);
            encode_utf8_valid_utf8(one);
        }
        valid_utf8_concat(escape(e), escape(rest));
    }
}

/// A text literal is valid UTF-8.
pub proof fn lemma_text_literal_valid(t: Seq<char>)
    ensures
        valid_utf8(text_literal(t)),
{
    lemma_escape_valid(t);
    lemma_ascii_valid(seq![34u8]);
    valid_utf8_concat(seq![34u8], escape(encode_utf8(t)));
    valid_utf8_concat(seq![34u8] + escape(encode_utf8(t)), seq![34u8]);
}

} // verus!
