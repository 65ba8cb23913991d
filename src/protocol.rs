//! The wire protocol: each message is a 4-byte big-endian payload length
//! followed by that many bytes of JSON; a client sends one command and the
//! server answers with one response.
use vstd::prelude::*;
use vstd::string::*;
use vstd::utf8::*;

use crate::command::{
    decode_command_at, encode_command, value_field, value_field_bytes, Command, CommandModel,
};
use crate::error::KvError;
use crate::json::{
    bytes_at, lemma_ascii_valid, lemma_bytes_at_concat, lemma_text_literal_valid, match_bytes,
    parse_text, text_literal, write_text,
};

verus! {

/// Largest payload a frame may carry.
pub const MAX_FRAME_LEN: u32 = 16777216;

/// The server's answer to one command.
#[derive(Debug, PartialEq, Eq)]
pub struct Response {
    pub is_error: bool,
    pub error_msg: Option<String>,
    pub value: Option<String>,
}

/// What a `Response` holds.
pub struct ResponseModel {
    pub is_error: bool,
    pub error_msg: Option<Seq<char>>,
    pub value: Option<Seq<char>>,
}

pub open spec fn opt_view(o: Option<String>) -> Option<Seq<char>> {
    match o {
        Some(s) => Some(s@),
        None => None,
    }
}

impl View for Response {
    type V = ResponseModel;

    open spec fn view(&self) -> ResponseModel {
        ResponseModel {
            is_error: self.is_error,
            error_msg: opt_view(self.error_msg),
            value: opt_view(self.value),
        }
    }
}

/// `{"is_error":`
pub open spec fn response_open() -> Seq<u8> {
    seq![123u8, 34u8, 105u8, 115u8, 95u8, 101u8, 114u8, 114u8, 111u8, 114u8, 34u8, 58u8]
}

/// `,"error_msg":`
pub open spec fn error_field() -> Seq<u8> {
    seq![44u8, 34u8, 101u8, 114u8, 114u8, 111u8, 114u8, 95u8, 109u8, 115u8, 103u8, 34u8, 58u8]
}

/// `true` or `false`.
pub open spec fn bool_text(b: bool) -> Seq<u8> {
    if b {
        seq![116u8, 114u8, 117u8, 101u8]
    } else {
        seq![102u8, 97u8, 108u8, 115u8, 101u8]
    }
}

/// `null`
pub open spec fn null_text() -> Seq<u8> {
    seq![110u8, 117u8, 108u8, 108u8]
}

/// `null`, or the literal of the text.
pub open spec fn opt_text(o: Option<Seq<char>>) -> Seq<u8> {
    match o {
        None => null_text(),
        Some(t) => text_literal(t),
    }
}

/// `}`
pub open spec fn close_one() -> Seq<u8> {
    seq![125u8]
}

/// The JSON text of a response.
pub open spec fn encode_response(r: ResponseModel) -> Seq<u8> {
    response_open() + bool_text(r.is_error) + error_field() + opt_text(r.error_msg) + value_field()
        + opt_text(r.value) + close_one()
}

/// A payload length as four big-endian bytes.
pub open spec fn be32(n: u32) -> Seq<u8> {
    seq![
        (n / 16777216) as u8,
        ((n / 65536) % 256) as u8,
        ((n / 256) % 256) as u8,
        (n % 256) as u8,
    ]
}

/// The number four big-endian bytes stand for.
pub open spec fn be32_value(b: Seq<u8>) -> int {
    b[0] * 16777216 + b[1] * 65536 + b[2] * 256 + b[3]
}

/// A frame: the payload's length, then the payload.
pub open spec fn frame(payload: Seq<u8>) -> Seq<u8> {
    be32(payload.len() as u32) + payload
}

proof fn lemma_parts(s: Seq<u8>, i: int, r: ResponseModel)
    ensures
        bytes_at(s, i, encode_response(r)) <==> {
            let o1 = i + response_open().len();
            let o2 = o1 + bool_text(r.is_error).len();
            let o3 = o2 + error_field().len();
            let o4 = o3 + opt_text(r.error_msg).len();
            let o5 = o4 + value_field().len();
            let o6 = o5 + opt_text(r.value).len();
            &&& bytes_at(s, i, response_open())
            &&& bytes_at(s, o1, bool_text(r.is_error))
            &&& bytes_at(s, o2, error_field())
            &&& bytes_at(s, o3, opt_text(r.error_msg))
            &&& bytes_at(s, o4, value_field())
            &&& bytes_at(s, o5, opt_text(r.value))
            &&& bytes_at(s, o6, close_one())
        },
{
    let a = response_open();
    let b = bool_text(r.is_error);
    let c = error_field();
    let d = opt_text(r.error_msg);
    let e = value_field();
    let f = opt_text(r.value);
    lemma_bytes_at_concat(s, i, a + b + c + d + e + f, close_one());
    lemma_bytes_at_concat(s, i, a + b + c + d + e, f);
    lemma_bytes_at_concat(s, i, a + b + c + d, e);
    lemma_bytes_at_concat(s, i, a + b + c, d);
    lemma_bytes_at_concat(s, i, a + b, c);
    lemma_bytes_at_concat(s, i, a, b);
}

proof fn lemma_first_byte(s: Seq<u8>, i: int, t: Seq<u8>)
    requires
        bytes_at(s, i, t),
        t.len() > 0,
    ensures
        s[i] == t[0],
{
    assert(s.subrange(i, i + t.len())[0] == t[0]);
}

fn bool_bytes(b: bool) -> (r: Vec<u8>)
    ensures
        r@ == bool_text(b),
{
    let r: Vec<u8> = if b {
        let a: [u8; 4] = [116, 114, 117, 101];
        vstd::slice::slice_to_vec(a.as_slice())
    } else {
        let a: [u8; 5] = [102, 97, 108, 115, 101];
        vstd::slice::slice_to_vec(a.as_slice())
    };
    assert(r@ =~= bool_text(b));
    r
}

fn null_bytes() -> (r: [u8; 4])
    ensures
        r@ == null_text(),
{
    let r: [u8; 4] = [110, 117, 108, 108];
    assert(r@ =~= null_text());
    r
}

fn write_opt_text(out: &mut Vec<u8>, o: &Option<String>)
    ensures
        final(out)@ == old(out)@ + opt_text(opt_view(*o)),
{
    match o {
        None => {
            out.extend_from_slice(null_bytes().as_slice());
        },
        Some(t) => {
            write_text(out, t.as_str());
        },
    }
}

/// Reads `true` or `false` at `i`.
fn parse_bool_at(s: &Vec<u8>, i: usize) -> (r: Option<(bool, usize)>)
    ensures
        r matches Some((b, end)) ==> bytes_at(s@, i as int, bool_text(b)) && end == i + bool_text(
            b,
        ).len(),
        forall|b: bool| #[trigger]
            bytes_at(s@, i as int, bool_text(b)) ==> r == Some((b, (i + bool_text(b).len()) as usize)),
{
    let _n = s.len();
    let t = bool_bytes(true);
    let f = bool_bytes(false);
    proof {
        if bytes_at(s@, i as int, bool_text(true)) && bytes_at(s@, i as int, bool_text(false)) {
            lemma_first_byte(s@, i as int, bool_text(true));
            lemma_first_byte(s@, i as int, bool_text(false));
        }
    }
    if match_bytes(s, i, t.as_slice()) {
        Some((true, i + 4))
    } else if match_bytes(s, i, f.as_slice()) {
        Some((false, i + 5))
    } else {
        None
    }
}

/// Reads `null` or a text literal at `i`.
fn parse_opt_text_at(s: &Vec<u8>, i: usize) -> (r: Option<(Option<String>, usize)>)
    ensures
        r matches Some((o, end)) ==> bytes_at(s@, i as int, opt_text(opt_view(o))) && end == i
            + opt_text(opt_view(o)).len(),
        forall|o: Option<Seq<char>>| #[trigger]
            bytes_at(s@, i as int, opt_text(o)) ==> (r matches Some((o2, end)) && opt_view(o2) == o
                && end == i + opt_text(o).len()),
{
    let _n = s.len();
    let nb = null_bytes();
    proof {
        assert forall|t: Seq<char>| #[trigger] bytes_at(s@, i as int, text_literal(t)) implies !bytes_at(
            s@,
            i as int,
            null_text(),
        ) by {
            lemma_first_byte(s@, i as int, text_literal(t));
            if bytes_at(s@, i as int, null_text()) {
                lemma_first_byte(s@, i as int, null_text());
            }
        }
    }
    if match_bytes(s, i, nb.as_slice()) {
        proof {
            assert forall|o: Option<Seq<char>>| #[trigger] bytes_at(s@, i as int, opt_text(o)) implies o
                is None by {
                if let Some(t) = o {
                    assert(bytes_at(s@, i as int, text_literal(t)));
                }
            }
        }
        Some((None, i + 4))
    } else {
        proof {
            assert forall|o: Option<Seq<char>>| #[trigger] bytes_at(s@, i as int, opt_text(o)) implies o
                is Some && bytes_at(s@, i as int, text_literal(o->Some_0)) by {}
        }
        match parse_text(s, i) {
            Some((t, end)) => Some((Some(t), end)),
            None => None,
        }
    }
}

impl Response {
    /// A response with the given fields.
    pub fn new(is_error: bool, error_msg: Option<String>, value: Option<String>) -> (r: Response)
        ensures
            r@ == (ResponseModel {
                is_error,
                error_msg: opt_view(error_msg),
                value: opt_view(value),
            }),
    {
        Response { is_error, error_msg, value }
    }

    /// The JSON text of this response.
    pub fn encode(&self) -> (r: Vec<u8>)
        ensures
            r@ == encode_response(self@),
    {
        let ro: [u8; 12] = [123, 34, 105, 115, 95, 101, 114, 114, 111, 114, 34, 58];
        let ef: [u8; 13] = [44, 34, 101, 114, 114, 111, 114, 95, 109, 115, 103, 34, 58];
        let cl: [u8; 1] = [125];
        assert(ro@ =~= response_open());
        assert(ef@ =~= error_field());
        assert(cl@ =~= close_one());
        let mut out: Vec<u8> = Vec::new();
        out.extend_from_slice(ro.as_slice());
        let b = bool_bytes(self.is_error);
        out.extend_from_slice(b.as_slice());
        out.extend_from_slice(ef.as_slice());
        write_opt_text(&mut out, &self.error_msg);
        out.extend_from_slice(value_field_bytes().as_slice());
        write_opt_text(&mut out, &self.value);
        out.extend_from_slice(cl.as_slice());
        assert(out@ =~= encode_response(self@));
        out
    }

    /// Reads a response from its JSON text; only the canonical text is read.
    pub fn decode(s: &Vec<u8>) -> (r: Result<Response, KvError>)
        ensures
            r matches Ok(x) ==> s@ == encode_response(x@),
            forall|m: ResponseModel| #[trigger]
                encode_response(m) == s@ ==> (r matches Ok(x) && x@ == m),
            r is Err ==> r matches Err(KvError::Serialization(_)),
    {
        let n = s.len();
        let ro: [u8; 12] = [123, 34, 105, 115, 95, 101, 114, 114, 111, 114, 34, 58];
        let ef: [u8; 13] = [44, 34, 101, 114, 114, 111, 114, 95, 109, 115, 103, 34, 58];
        let cl: [u8; 1] = [125];
        assert(ro@ =~= response_open());
        assert(ef@ =~= error_field());
        assert(cl@ =~= close_one());
        proof {
            assert forall|m: ResponseModel| #[trigger] encode_response(m) == s@ implies bytes_at(
                s@,
                0,
                encode_response(m),
            ) by {
                assert(s@.subrange(0, s@.len() as int) =~= s@);
            }
            assert forall|m: ResponseModel| #[trigger]
                bytes_at(s@, 0, encode_response(m)) implies bytes_at(s@, 0, response_open()) by {
                lemma_parts(s@, 0, m);
            }
        }
        let bad = KvError::Serialization(String::from_str("not a response"));
        if !match_bytes(s, 0, ro.as_slice()) {
            return Err(bad);
        }
        proof {
            assert forall|m: ResponseModel| #[trigger]
                bytes_at(s@, 0, encode_response(m)) implies bytes_at(s@, 12, bool_text(m.is_error)) by {
                lemma_parts(s@, 0, m);
            }
        }
        let (is_error, o2) = match parse_bool_at(s, 12) {
            Some(bp) => bp,
            None => {
                return Err(bad);
            },
        };
        if !match_bytes(s, o2, ef.as_slice()) {
            proof {
                assert forall|m: ResponseModel| #[trigger]
                    bytes_at(s@, 0, encode_response(m)) implies false by {
                    lemma_parts(s@, 0, m);
                }
            }
            return Err(bad);
        }
        let o3 = o2 + 13;
        proof {
            assert forall|m: ResponseModel| #[trigger]
                bytes_at(s@, 0, encode_response(m)) implies m.is_error == is_error && bytes_at(
                s@,
                o3 as int,
                opt_text(m.error_msg),
            ) by {
                lemma_parts(s@, 0, m);
            }
        }
        let (error_msg, o4) = match parse_opt_text_at(s, o3) {
            Some(op) => op,
            None => {
                proof {
                    assert forall|m: ResponseModel| #[trigger]
                        bytes_at(s@, 0, encode_response(m)) implies false by {
                        lemma_parts(s@, 0, m);
                    }
                }
                return Err(bad);
            },
        };
        if !match_bytes(s, o4, value_field_bytes().as_slice()) {
            proof {
                assert forall|m: ResponseModel| #[trigger]
                    bytes_at(s@, 0, encode_response(m)) implies false by {
                    lemma_parts(s@, 0, m);
                }
            }
            return Err(bad);
        }
        let o5 = o4 + 9;
        proof {
            assert forall|m: ResponseModel| #[trigger]
                bytes_at(s@, 0, encode_response(m)) implies opt_view(error_msg) == m.error_msg
                && bytes_at(s@, o5 as int, opt_text(m.value)) by {
                lemma_parts(s@, 0, m);
            }
        }
        let (value, o6) = match parse_opt_text_at(s, o5) {
            Some(op) => op,
            None => {
                proof {
                    assert forall|m: ResponseModel| #[trigger]
                        bytes_at(s@, 0, encode_response(m)) implies false by {
                        lemma_parts(s@, 0, m);
                    }
                }
                return Err(bad);
            },
        };
        if !match_bytes(s, o6, cl.as_slice()) || o6 + 1 != n {
            proof {
                assert forall|m: ResponseModel| #[trigger]
                    bytes_at(s@, 0, encode_response(m)) && encode_response(m) == s@ implies false by {
                    lemma_parts(s@, 0, m);
                }
            }
            return Err(bad);
        }
        let r = Response { is_error, error_msg, value };
        proof {
            lemma_parts(s@, 0, r@);
            assert(s@.subrange(0, n as int) =~= s@);
            assert forall|m: ResponseModel| #[trigger] encode_response(m) == s@ implies r@ == m by {
                lemma_parts(s@, 0, m);
            }
        }
        Ok(r)
    }
}

/// The JSON text of a response is valid UTF-8.
pub proof fn lemma_response_utf8(r: ResponseModel)
    ensures
        valid_utf8(encode_response(r)),
{
    lemma_ascii_valid(response_open());
    lemma_ascii_valid(bool_text(r.is_error));
    lemma_ascii_valid(error_field());
    lemma_ascii_valid(value_field());
    lemma_ascii_valid(close_one());
    lemma_ascii_valid(null_text());
    if let Some(t) = r.error_msg {
        lemma_text_literal_valid(t);
    }
    if let Some(t) = r.value {
        lemma_text_literal_valid(t);
    }
    let a = response_open();
    let b = bool_text(r.is_error);
    let c = error_field();
    let d = opt_text(r.error_msg);
    let e = value_field();
    let f = opt_text(r.value);
    valid_utf8_concat(a, b);
    valid_utf8_concat(a + b, c);
    valid_utf8_concat(a + b + c, d);
    valid_utf8_concat(a + b + c + d, e);
    valid_utf8_concat(a + b + c + d + e, f);
    valid_utf8_concat(a + b + c + d + e + f, close_one());
}

impl Response {
    /// The JSON text of this response, as text.
    pub fn to_text(&self) -> (r: String)
        ensures
            encode_utf8(r@) == encode_response(self@),
    {
        let bytes = self.encode();
        proof {
            lemma_response_utf8(self@);
            decode_utf8_encode_utf8(bytes@);
        }
        match crate::json::text_from_utf8(bytes) {
            Some(t) => t,
            None => {
                assert(false);
                String::new()
            },
        }
    }
}

impl Default for Response {
    /// A success that carries no value.
    fn default() -> (r: Response)
        ensures
            r@ == (ResponseModel { is_error: false, error_msg: None, value: None }),
    {
        Response { is_error: false, error_msg: None, value: None }
    }
}

/// Reads a whole payload as one command; only the canonical text is read.
pub fn decode_command(s: &Vec<u8>) -> (r: Result<Command, KvError>)
    ensures
        r matches Ok(c) ==> s@ == encode_command(c@),
        forall|m: CommandModel| #[trigger] encode_command(m) == s@ ==> (r matches Ok(c) && c@ == m),
        r is Err ==> r matches Err(KvError::Serialization(_)),
{
    proof {
        assert forall|m: CommandModel| #[trigger] encode_command(m) == s@ implies bytes_at(
            s@,
            0,
            encode_command(m),
        ) by {
            assert(s@.subrange(0, s@.len() as int) =~= s@);
        }
    }
    match decode_command_at(s, 0) {
        Some((c, end)) => {
            if end == s.len() {
                assert(s@.subrange(0, end as int) =~= s@);
                Ok(c)
            } else {
                Err(KvError::Serialization(String::from_str("trailing bytes after the command")))
            }
        },
        None => Err(KvError::Serialization(String::from_str("not a command"))),
    }
}

/// The four big-endian bytes of `n`.
pub fn be32_bytes(n: u32) -> (r: [u8; 4])
    ensures
        r@ == be32(n),
        be32_value(r@) == n,
{
    let r: [u8; 4] = [
        (n / 16777216) as u8,
        ((n / 65536) % 256) as u8,
        ((n / 256) % 256) as u8,
        (n % 256) as u8,
    ];
    assert(r@ =~= be32(n));
    assert(be32_value(r@) == n) by (nonlinear_arith)
        requires
            r@[0] == n / 16777216,
            r@[1] == (n / 65536) % 256,
            r@[2] == (n / 256) % 256,
            r@[3] == n % 256,
            n < 4294967296,
    {}
    r
}

/// The payload length that a frame header announces; fails where it is over
/// the cap.
pub fn parse_frame_header(h: &[u8]) -> (r: Result<u32, KvError>)
    ensures
        h@.len() != 4 ==> r matches Err(KvError::Framing(_)),
        h@.len() == 4 && be32_value(h@) <= MAX_FRAME_LEN ==> r == Ok::<u32, KvError>(
            be32_value(h@) as u32,
        ),
        h@.len() == 4 && be32_value(h@) > MAX_FRAME_LEN ==> r matches Err(KvError::Framing(_)),
{
    if h.len() != 4 {
        return Err(KvError::Framing(String::from_str("a length prefix is four bytes")));
    }
    let n: u64 = (h[0] as u64) * 16777216 + (h[1] as u64) * 65536 + (h[2] as u64) * 256 + (h[3] as u64);
    if n > MAX_FRAME_LEN as u64 {
        return Err(KvError::Framing(String::from_str("frame exceeds the size cap")));
    }
    Ok(n as u32)
}

pub proof fn lemma_be32_round_trip(n: u32)
    ensures
        be32_value(be32(n)) == n,
{
    let b = be32(n);
    assert(b[0] * 16777216 + b[1] * 65536 + b[2] * 256 + b[3] == n) by (nonlinear_arith)
        requires
            b[0] == n / 16777216,
            b[1] == (n / 65536) % 256,
            b[2] == (n / 256) % 256,
            b[3] == n % 256,
            n < 4294967296,
    {}
}

/// Frames `payload`; fails where it is over the cap.
pub fn encode_frame(payload: &[u8]) -> (r: Result<Vec<u8>, KvError>)
    ensures
        payload@.len() <= MAX_FRAME_LEN ==> (r matches Ok(f) && f@ == frame(payload@)),
        payload@.len() > MAX_FRAME_LEN ==> r matches Err(KvError::Framing(_)),
{
    if payload.len() > MAX_FRAME_LEN as usize {
        return Err(KvError::Framing(String::from_str("frame exceeds the size cap")));
    }
    let h = be32_bytes(payload.len() as u32);
    let mut out: Vec<u8> = Vec::new();
    out.extend_from_slice(h.as_slice());
    out.extend_from_slice(payload);
    Ok(out)
}

/// Reads one whole frame: its payload, where the bytes are exactly a header
/// and the payload it announces.
pub fn decode_frame(s: &Vec<u8>) -> (r: Result<Vec<u8>, KvError>)
    ensures
        r matches Ok(p) ==> s@ == frame(p@) && p@.len() <= MAX_FRAME_LEN,
        forall|p: Seq<u8>| #[trigger]
            frame(p) == s@ && p.len() <= MAX_FRAME_LEN ==> (r matches Ok(q) && q@ == p),
        r is Err ==> r matches Err(KvError::Framing(_)),
{
    if s.len() < 4 {
        return Err(KvError::Framing(String::from_str("a length prefix is four bytes")));
    }
    let h: [u8; 4] = [s[0], s[1], s[2], s[3]];
    proof {
        assert forall|p: Seq<u8>| #[trigger] frame(p) == s@ && p.len() <= MAX_FRAME_LEN implies h@
            == be32(p.len() as u32) && s@.subrange(4, s@.len() as int) == p by {
            assert(h@ =~= frame(p).subrange(0, 4));
            assert(frame(p).subrange(0, 4) =~= be32(p.len() as u32));
            assert(s@.subrange(4, s@.len() as int) =~= p);
            lemma_be32_round_trip(p.len() as u32);
        }
    }
    let len = match parse_frame_header(h.as_slice()) {
        Ok(len) => len,
        Err(e) => {
            proof {
                assert forall|p: Seq<u8>| #[trigger] frame(p) == s@ && p.len() <= MAX_FRAME_LEN implies false by {
                    lemma_be32_round_trip(p.len() as u32);
                }
            }
            return Err(e);
        },
    };
    if s.len() - 4 != len as usize {
        proof {
            assert forall|p: Seq<u8>| #[trigger] frame(p) == s@ && p.len() <= MAX_FRAME_LEN implies false by {
                lemma_be32_round_trip(p.len() as u32);
            }
        }
        return Err(KvError::Framing(String::from_str("payload length differs from its prefix")));
    }
    let mut out: Vec<u8> = Vec::new();
    let mut i: usize = 4;
    while i < s.len()
        invariant
            4 <= i <= s@.len(),
            out@ == s@.subrange(4, i as int),
        decreases s@.len() - i,
    {
        out.push(s[i]);
        i = i + 1;
        assert(out@ =~= s@.subrange(4, i as int));
    }
    proof {
        lemma_be32_round_trip(len);
        assert(be32(len) =~= h@) by {
            lemma_be32_round_trip(len);
            assert(be32_value(h@) == len);
            assert(h@[0] == len / 16777216) by (nonlinear_arith)
                requires
                    be32_value(h@) == len,
                    h@[0] < 256, h@[1] < 256, h@[2] < 256, h@[3] < 256,
                    be32_value(h@) == h@[0] * 16777216 + h@[1] * 65536 + h@[2] * 256 + h@[3],
            {}
            assert(h@[1] == (len / 65536) % 256) by (nonlinear_arith)
                requires
                    h@[0] < 256, h@[1] < 256, h@[2] < 256, h@[3] < 256,
                    len == h@[0] * 16777216 + h@[1] * 65536 + h@[2] * 256 + h@[3],
            {}
            assert(h@[2] == (len / 256) % 256) by (nonlinear_arith)
                requires
                    h@[0] < 256, h@[1] < 256, h@[2] < 256, h@[3] < 256,
                    len == h@[0] * 16777216 + h@[1] * 65536 + h@[2] * 256 + h@[3],
            {}
            assert(h@[3] == len % 256) by (nonlinear_arith)
                requires
                    h@[0] < 256, h@[1] < 256, h@[2] < 256, h@[3] < 256,
                    len == h@[0] * 16777216 + h@[1] * 65536 + h@[2] * 256 + h@[3],
            {}
        }
        assert(s@ =~= frame(out@));
    }
    Ok(out)
}

/// What a payload is read as.
pub enum PayloadType {
    /// A command, sent by a client.
    Command,
    /// A response, sent back by the server.
    Response,
    /// Nothing is expected.
    Empty,
}

/// The payload of one message.
#[derive(Debug)]
pub enum Payload {
    Command(Command),
    /// The text of a response.
    Response(String),
    Empty,
}

/// The bytes of a payload.
pub open spec fn payload_bytes(p: Payload) -> Seq<u8> {
    match p {
        Payload::Command(c) => encode_command(c@),
        Payload::Response(t) => encode_utf8(t@),
        Payload::Empty => Seq::empty(),
    }
}

/// One message: a payload and its length.
#[derive(Debug)]
pub struct YakvMessage {
    pub length: u32,
    pub payload: Payload,
}

impl YakvMessage {
    /// The payload's length and the whole frame: the length as four
    /// big-endian bytes, then the payload. Fails where the payload is over
    /// the cap.
    pub fn get_len_payload_bytes(payload: Payload) -> (r: Result<(u32, Vec<u8>), KvError>)
        ensures
            payload_bytes(payload).len() <= MAX_FRAME_LEN ==> (r matches Ok((n, f)) && n
                == payload_bytes(payload).len() && f@ == frame(payload_bytes(payload))),
            payload_bytes(payload).len() > MAX_FRAME_LEN ==> r matches Err(KvError::Framing(_)),
    {
        let bytes: Vec<u8> = match payload {
            Payload::Command(c) => c.encode(),
            Payload::Response(t) => vstd::slice::slice_to_vec(t.as_str().as_bytes()),
            Payload::Empty => Vec::new(),
        };
        let n = bytes.len();
        match encode_frame(bytes.as_slice()) {
            Ok(f) => Ok((n as u32, f)),
            Err(e) => Err(e),
        }
    }

    /// The message whose payload, `length` bytes long, is `buf`, read as
    /// `ptype`.
    pub fn from_payload(length: u32, buf: Vec<u8>, ptype: PayloadType) -> (r: Result<YakvMessage, KvError>)
        ensures
            buf@.len() != length ==> r matches Err(KvError::Framing(_)),
            r matches Ok(x) ==> x.length == length && buf@.len() == length,
            (buf@.len() == length && ptype is Command) ==> (forall|m: CommandModel| #[trigger]
                encode_command(m) == buf@ ==> (r matches Ok(x) && (x.payload matches Payload::Command(
                c,
            ) && c@ == m))),
            ptype is Command ==> (r matches Ok(x) ==> (x.payload matches Payload::Command(c)
                && encode_command(c@) == buf@)),
            (buf@.len() == length && ptype is Response && length == 0) ==> (r matches Ok(x)
                && x.payload is Empty),
            (buf@.len() == length && ptype is Response && length > 0) ==> (r is Ok <==> valid_utf8(
                buf@,
            )),
            (ptype is Response && length > 0) ==> (r matches Ok(x) ==> (x.payload matches Payload::Response(
                t,
            ) && encode_utf8(t@) == buf@)),
            (buf@.len() == length && ptype is Empty) ==> (r matches Ok(x) && x.payload is Empty),
            (buf@.len() == length && !(ptype is Empty) && r is Err) ==> r matches Err(
                KvError::Serialization(_),
            ),
    {
        broadcast use decode_utf8_encode_utf8;

        if buf.len() != length as usize {
            return Err(KvError::Framing(String::from_str("payload length differs from its prefix")));
        }
        match ptype {
            PayloadType::Command => {
                match decode_command(&buf) {
                    Ok(c) => Ok(YakvMessage { length, payload: Payload::Command(c) }),
                    Err(e) => Err(e),
                }
            },
            PayloadType::Response => {
                if length == 0 {
                    Ok(YakvMessage { length, payload: Payload::Empty })
                } else {
                    match crate::json::text_from_utf8(buf) {
                        Some(t) => Ok(YakvMessage { length, payload: Payload::Response(t) }),
                        None => Err(KvError::Serialization(String::from_str("a response is not UTF-8 text"))),
                    }
                }
            },
            PayloadType::Empty => Ok(YakvMessage { length, payload: Payload::Empty }),
        }
    }
}

} // verus!
