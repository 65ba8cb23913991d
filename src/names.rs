//! Names in the data directory: segment files `<id>.log`, and the
//! `engine_<name>_...` entries that mark which engine a directory belongs to.
use vstd::prelude::*;
use vstd::string::*;

use crate::error::KvError;
use crate::json::{bytes_at, match_bytes};

verus! {

/// A storage engine that the server can run.
#[derive(PartialEq, Eq, Structural, Clone, Copy, Debug)]
pub enum Engine {
    Yakv,
    Sled,
}

/// The name of an engine, as bytes: `yakv` or `sled`.
pub open spec fn engine_name(e: Engine) -> Seq<u8> {
    match e {
        Engine::Yakv => seq![121u8, 97u8, 107u8, 118u8],
        Engine::Sled => seq![115u8, 108u8, 101u8, 100u8],
    }
}

/// How the entries that an engine keeps in the data directory begin:
/// `engine_<name>_`.
pub open spec fn marker_prefix(e: Engine) -> Seq<u8> {
    seq![101u8, 110u8, 103u8, 105u8, 110u8, 101u8, 95u8] + engine_name(e) + seq![95u8]
}

/// The entry called `name` marks the directory as `e`'s.
pub open spec fn marks(name: Seq<u8>, e: Engine) -> bool {
    bytes_at(name, 0, marker_prefix(e))
}

/// Some entry among `names` marks the directory as `e`'s.
pub open spec fn found(names: Seq<String>, e: Engine) -> bool {
    exists|i: int| 0 <= i < names.len() && #[trigger] marks(utf8_of(names[i]@), e)
}

/// The UTF-8 bytes of a text.
pub open spec fn utf8_of(t: Seq<char>) -> Seq<u8> {
    vstd::utf8::encode_utf8(t)
}

fn engine_name_bytes(e: Engine) -> (r: Vec<u8>)
    ensures
        r@ == engine_name(e),
{
    let r: Vec<u8> = match e {
        Engine::Yakv => {
            let a: [u8; 4] = [121, 97, 107, 118];
            vstd::slice::slice_to_vec(a.as_slice())
        },
        Engine::Sled => {
            let a: [u8; 4] = [115, 108, 101, 100];
            vstd::slice::slice_to_vec(a.as_slice())
        },
    };
    assert(r@ =~= engine_name(e));
    r
}

impl Engine {
    /// The engine called `s`, if any.
    pub fn from_name(s: &str) -> (r: Option<Engine>)
        ensures
            r matches Some(e) ==> s.spec_bytes() == engine_name(e),
            r is None ==> forall|e: Engine| s.spec_bytes() != #[trigger] engine_name(e),
    {
        let b = vstd::slice::slice_to_vec(s.as_bytes());
        let y = engine_name_bytes(Engine::Yakv);
        let d = engine_name_bytes(Engine::Sled);
        let n = b.len();
        if n == 4 && match_bytes(&b, 0, y.as_slice()) {
            assert(b@.subrange(0, 4) =~= b@);
            Some(Engine::Yakv)
        } else if n == 4 && match_bytes(&b, 0, d.as_slice()) {
            assert(b@.subrange(0, 4) =~= b@);
            Some(Engine::Sled)
        } else {
            proof {
                assert forall|e: Engine| s.spec_bytes() != #[trigger] engine_name(e) by {
                    if s.spec_bytes() == engine_name(e) {
                        assert(b@.subrange(0, 4) =~= b@);
                    }
                }
            }
            None
        }
    }

}

proof fn lemma_marks_exclusive(b: Seq<u8>)
    ensures
        !(marks(b, Engine::Yakv) && marks(b, Engine::Sled)),
{
    if marks(b, Engine::Yakv) && marks(b, Engine::Sled) {
        assert(b.subrange(0, 12)[7] == marker_prefix(Engine::Yakv)[7]);
        assert(b.subrange(0, 12)[7] == marker_prefix(Engine::Sled)[7]);
    }
}

/// The engine whose marker begins `name`, if any.
pub fn engine_of_entry(name: &str) -> (r: Option<Engine>)
    ensures
        r matches Some(e) ==> marks(name.spec_bytes(), e),
        r is None ==> forall|e: Engine| !#[trigger] marks(name.spec_bytes(), e),
{
    let b = vstd::slice::slice_to_vec(name.as_bytes());
    let head: [u8; 7] = [101, 110, 103, 105, 110, 101, 95];
    let mut y = vstd::slice::slice_to_vec(head.as_slice());
    let mut d = vstd::slice::slice_to_vec(head.as_slice());
    let mut yn = engine_name_bytes(Engine::Yakv);
    let mut dn = engine_name_bytes(Engine::Sled);
    y.append(&mut yn);
    d.append(&mut dn);
    y.push(95);
    d.push(95);
    assert(y@ =~= marker_prefix(Engine::Yakv));
    assert(d@ =~= marker_prefix(Engine::Sled));
    if match_bytes(&b, 0, y.as_slice()) {
        Some(Engine::Yakv)
    } else if match_bytes(&b, 0, d.as_slice()) {
        Some(Engine::Sled)
    } else {
        proof {
            assert forall|e: Engine| !#[trigger] marks(name.spec_bytes(), e) by {
                match e {
                    Engine::Yakv => {},
                    Engine::Sled => {},
                }
            }
        }
        None
    }
}

/// Checks the entries of the data directory against the engine asked for:
/// `EngineMismatch` where some entry marks the directory as an engine's but
/// none marks it as the one asked for.
pub fn check_engine(requested: Engine, entries: &Vec<String>) -> (r: Result<(), KvError>)
    ensures
        r is Err <==> ((found(entries@, Engine::Yakv) || found(entries@, Engine::Sled)) && !found(
            entries@,
            requested,
        )),
        r is Err ==> r matches Err(KvError::EngineMismatch),
{
    let mut fy = false;
    let mut fs = false;
    let mut i: usize = 0;
    while i < entries.len()
        invariant
            i <= entries@.len(),
            fy <==> exists|t: int| 0 <= t < i && #[trigger] marks(utf8_of(entries@[t]@), Engine::Yakv),
            fs <==> exists|t: int| 0 <= t < i && #[trigger] marks(utf8_of(entries@[t]@), Engine::Sled),
        decreases entries@.len() - i,
    {
        let nm = entries[i].as_str();
        let e = engine_of_entry(nm);
        let ghost b = utf8_of(entries@[i as int]@);
        assert(nm.spec_bytes() == b);
        proof {
            lemma_marks_exclusive(b);
        }
        match e {
            Some(Engine::Yakv) => {
                fy = true;
            },
            Some(Engine::Sled) => {
                fs = true;
            },
            None => {},
        }
        proof {
            if marks(b, Engine::Yakv) {
                assert(exists|t: int| 0 <= t < i + 1 && #[trigger] marks(utf8_of(entries@[t]@), Engine::Yakv));
            }
            if marks(b, Engine::Sled) {
                assert(exists|t: int| 0 <= t < i + 1 && #[trigger] marks(utf8_of(entries@[t]@), Engine::Sled));
            }
        }
        i = i + 1;
    }
    let seen = match requested {
        Engine::Yakv => fy,
        Engine::Sled => fs,
    };
    if (fy || fs) && !seen {
        Err(KvError::EngineMismatch)
    } else {
        Ok(())
    }
}

/// The decimal digit `d`, below ten.
pub open spec fn digit_char(d: int) -> char {
    seq!['0', '1', '2', '3', '4', '5', '6', '7', '8', '9'][d]
}

/// The decimal numeral of `n`, without leading zeros.
pub open spec fn decimal(n: nat) -> Seq<char>
    decreases n,
{
    if n < 10 {
        seq![digit_char(n as int)]
    } else {
        decimal(n / 10).push(digit_char((n % 10) as int))
    }
}

fn digit_str(d: u64) -> (r: &'static str)
    requires
        d < 10,
    ensures
        r@ == seq![digit_char(d as int)],
{
    proof {
        reveal_strlit("0");
        reveal_strlit("1");
        reveal_strlit("2");
        reveal_strlit("3");
        reveal_strlit("4");
        reveal_strlit("5");
        reveal_strlit("6");
        reveal_strlit("7");
        reveal_strlit("8");
        reveal_strlit("9");
    }
    let r = if d == 0 {
        "0"
    } else if d == 1 {
        "1"
    } else if d == 2 {
        "2"
    } else if d == 3 {
        "3"
    } else if d == 4 {
        "4"
    } else if d == 5 {
        "5"
    } else if d == 6 {
        "6"
    } else if d == 7 {
        "7"
    } else if d == 8 {
        "8"
    } else {
        "9"
    };
    assert(r@ =~= seq![digit_char(d as int)]);
    r
}

fn push_decimal(out: &mut String, n: u64)
    ensures
        final(out)@ == old(out)@ + decimal(n as nat),
    decreases n,
{
    if n >= 10 {
        push_decimal(out, n / 10);
    }
    out.append(digit_str(n % 10));
    assert(final(out)@ =~= old(out)@ + decimal(n as nat)) by {
        if n >= 10 {
            assert(decimal(n as nat) == decimal((n / 10) as nat).push(digit_char((n % 10) as int)));
        }
    }
}

/// What goes between a directory and a name in it: nothing after an empty
/// directory or one that already ends in `/`, and `/` otherwise.
pub open spec fn separator(dir: Seq<char>) -> Seq<char> {
    if dir.len() == 0 || dir.last() == '/' {
        Seq::empty()
    } else {
        seq!['/']
    }
}

/// The path of segment `id` in the directory `dir`: `<dir>/<id>.log`, with
/// no separator added after an empty directory or a trailing `/`.
pub fn log_path(dir: &str, id: u64) -> (r: String)
    ensures
        r@ == dir@ + separator(dir@) + decimal(id as nat) + seq!['.', 'l', 'o', 'g'],
{
    let mut s = String::from_str(dir);
    proof {
        reveal_strlit("/");
        reveal_strlit(".log");
    }
    let n = dir.unicode_len();
    if n > 0 && dir.get_char(n - 1) != '/' {
        s.append("/");
    }
    push_decimal(&mut s, id);
    s.append(".log");
    assert(s@ =~= dir@ + separator(dir@) + decimal(id as nat) + seq!['.', 'l', 'o', 'g']);
    s
}

/// `.log`
pub open spec fn log_suffix() -> Seq<u8> {
    seq![46u8, 108u8, 111u8, 103u8]
}

pub open spec fn is_digit(b: u8) -> bool {
    48 <= b <= 57
}

/// The number that the decimal digits `d` stand for.
pub open spec fn digits_value(d: Seq<u8>) -> nat
    decreases d.len(),
{
    if d.len() == 0 {
        0
    } else {
        digits_value(d.drop_last()) * 10 + (d.last() - 48) as nat
    }
}

/// The digits of a file-name stem: the stem without one leading `+`.
pub open spec fn stem_digits(stem: Seq<u8>) -> Seq<u8> {
    if stem.len() > 0 && stem[0] == 43 {
        stem.drop_first()
    } else {
        stem
    }
}

/// The id of a segment file called `b`: a stem that reads as a `u64` the
/// way `str::parse::<u64>` reads it (an optional `+`, then one or more
/// decimal digits, leading zeros allowed, standing for a number that fits in
/// 64 bits), then `.log`.
pub open spec fn log_name_id(b: Seq<u8>) -> Option<u64> {
    let digits = stem_digits(b.subrange(0, b.len() - 4));
    if b.len() > 4 && b.subrange(b.len() - 4, b.len() as int) == log_suffix() && digits.len() > 0
        && (forall|i: int| 0 <= i < digits.len() ==> is_digit(#[trigger] digits[i]))
        && digits_value(digits) <= u64::MAX {
        Some(digits_value(digits) as u64)
    } else {
        None
    }
}

proof fn lemma_digits_grow(d: Seq<u8>, i: int)
    requires
        0 <= i <= d.len(),
        forall|t: int| 0 <= t < d.len() ==> is_digit(#[trigger] d[t]),
    ensures
        digits_value(d) >= digits_value(d.subrange(0, i)),
    decreases d.len() - i,
{
    if i < d.len() {
        lemma_digits_grow(d, i + 1);
        let p = d.subrange(0, i + 1);
        assert(p.drop_last() =~= d.subrange(0, i));
        assert(digits_value(p) >= digits_value(d.subrange(0, i))) by (nonlinear_arith)
            requires
                digits_value(p) == digits_value(d.subrange(0, i)) * 10 + (p.last() - 48) as nat,
        {}
    } else {
        assert(d.subrange(0, i) =~= d);
    }
}

/// The id of the segment file called `name`, if it is one.
pub fn parse_log_name(name: &str) -> (r: Option<u64>)
    ensures
        r == log_name_id(name.spec_bytes()),
{
    let b = vstd::slice::slice_to_vec(name.as_bytes());
    let n = b.len();
    let suffix: [u8; 4] = [46, 108, 111, 103];
    assert(suffix@ =~= log_suffix());
    if n <= 4 {
        return None;
    }
    if !match_bytes(&b, n - 4, suffix.as_slice()) {
        return None;
    }
    let ghost stem = b@.subrange(0, n - 4);
    let first: usize = if b[0] == 43 { 1 } else { 0 };
    let ghost digits = b@.subrange(first as int, n - 4);
    assert(stem_digits(stem) =~= digits);
    if n - 4 <= first {
        assert(digits.len() == 0);
        return None;
    }
    let mut v: u64 = 0;
    let mut i: usize = first;
    assert(digits.subrange(0, 0) =~= Seq::<u8>::empty());
    while i < n - 4
        invariant
            n == b@.len(),
            b@ == name.spec_bytes(),
            bytes_at(b@, n - 4, log_suffix()),
            n > 4,
            first <= i <= n - 4,
            first < n - 4,
            digits == b@.subrange(first as int, n - 4),
            digits == stem_digits(b@.subrange(0, n - 4)),
            v == digits_value(digits.subrange(0, i - first)),
            forall|t: int| 0 <= t < i - first ==> is_digit(#[trigger] digits[t]),
        decreases n - 4 - i,
    {
        let c = b[i];
        assert(digits[i - first] == c);
        if c < 48 || c > 57 {
            assert(!is_digit(digits[i - first]));
            assert(log_name_id(name.spec_bytes()) is None);
            return None;
        }
        let d = (c - 48) as u64;
        proof {
            let p = digits.subrange(0, i - first + 1);
            assert(p.drop_last() =~= digits.subrange(0, i - first));
            assert(p.last() == c);
            assert(digits_value(p) == v * 10 + d);
        }
        match v.checked_mul(10) {
            None => {
                proof {
                    if forall|t: int| 0 <= t < digits.len() ==> is_digit(#[trigger] digits[t]) {
                        lemma_digits_grow(digits, i - first + 1);
                    }
                    assert(log_name_id(name.spec_bytes()) is None);
                }
                return None;
            },
            Some(x) => match x.checked_add(d) {
                None => {
                    proof {
                        if forall|t: int| 0 <= t < digits.len() ==> is_digit(#[trigger] digits[t]) {
                            lemma_digits_grow(digits, i - first + 1);
                        }
                        assert(log_name_id(name.spec_bytes()) is None);
                    }
                    return None;
                },
                Some(y) => {
                    v = y;
                },
            },
        }
        i = i + 1;
    }
    assert(digits.subrange(0, i - first) =~= digits);
    Some(v)
}

/// Inserts `x` into the strictly increasing `v`, unless it is there already.
fn insert_sorted(v: &mut Vec<u64>, x: u64)
    requires
        forall|a: int, b: int| 0 <= a < b < old(v)@.len() ==> old(v)@[a] < old(v)@[b],
    ensures
        forall|a: int, b: int| 0 <= a < b < final(v)@.len() ==> final(v)@[a] < final(v)@[b],
        forall|y: u64| final(v)@.contains(y) <==> (old(v)@.contains(y) || y == x),
{
    let mut p: usize = 0;
    while p < v.len() && v[p] < x
        invariant
            p <= v@.len(),
            v@ == old(v)@,
            forall|t: int| 0 <= t < p ==> v@[t] < x,
        decreases v@.len() - p,
    {
        p = p + 1;
    }
    if p < v.len() && v[p] == x {
        return;
    }
    v.insert(p, x);
    proof {
        let o = old(v)@;
        assert(v@ == o.insert(p as int, x));
        assert forall|t: int| 0 <= t < p implies #[trigger] v@[t] == o[t] by {}
        assert forall|t: int| p < t < v@.len() implies #[trigger] v@[t] == o[t - 1] by {}
        assert(v@[p as int] == x);
        assert forall|a: int, b: int| 0 <= a < b < v@.len() implies v@[a] < v@[b] by {
            if b < p {
            } else if b == p {
            } else if a < p {
                assert(o[b - 1] >= x || b - 1 >= p);
                if b - 1 > p {
                    assert(o[p as int] < o[b - 1]);
                }
            } else if a == p {
                if b - 1 > p {
                    assert(o[p as int] < o[b - 1]);
                }
            }
        }
        assert forall|y: u64| v@.contains(y) <==> (o.contains(y) || y == x) by {
            if o.contains(y) {
                let t = choose|t: int| 0 <= t < o.len() && o[t] == y;
                if t < p {
                    assert(v@[t] == y);
                } else {
                    assert(v@[t + 1] == y);
                }
            }
            if y == x {
                assert(v@[p as int] == x);
            }
            if v@.contains(y) {
                let t = choose|t: int| 0 <= t < v@.len() && v@[t] == y;
                if t < p {
                    assert(o[t] == y);
                } else if t > p {
                    assert(o[t - 1] == y);
                }
            }
        }
    }
}

/// The ids of the segment files among the directory entries `names`, in
/// increasing order.
pub fn sorted_ids(names: &Vec<String>) -> (r: Vec<u64>)
    ensures
        forall|a: int, b: int| 0 <= a < b < r@.len() ==> r@[a] < r@[b],
        forall|id: u64| #[trigger] r@.contains(id) <==> exists|i: int|
            0 <= i < names@.len() && log_name_id(utf8_of(names@[i]@)) == Some(id),
{
    let mut out: Vec<u64> = Vec::new();
    let mut i: usize = 0;
    while i < names.len()
        invariant
            i <= names@.len(),
            forall|a: int, b: int| 0 <= a < b < out@.len() ==> out@[a] < out@[b],
            forall|id: u64| #[trigger] out@.contains(id) <==> exists|t: int|
                0 <= t < i && log_name_id(utf8_of(names@[t]@)) == Some(id),
        decreases names@.len() - i,
    {
        let parsed = parse_log_name(names[i].as_str());
        let ghost before = out@;
        match parsed {
            Some(id) => {
                insert_sorted(&mut out, id);
            },
            None => {},
        }
        proof {
            assert forall|id: u64| #[trigger] out@.contains(id) <==> exists|t: int|
                0 <= t < i + 1 && log_name_id(utf8_of(names@[t]@)) == Some(id) by {
                if out@.contains(id) && !before.contains(id) {
                    assert(log_name_id(utf8_of(names@[i as int]@)) == Some(id));
                }
                if exists|t: int| 0 <= t < i + 1 && log_name_id(utf8_of(names@[t]@)) == Some(id) {
                    let t = choose|t: int| 0 <= t < i + 1 && log_name_id(utf8_of(names@[t]@)) == Some(id);
                    if t < i {
                        assert(before.contains(id));
                    }
                }
            }
        }
        i = i + 1;
    }
    out
}

/// Two of the entries `names` name the same segment.
pub open spec fn ids_collide(names: Seq<String>) -> bool {
    exists|a: int, b: int|
        0 <= a < names.len() && 0 <= b < names.len() && a != b && #[trigger] log_name_id(
            utf8_of(names[a]@),
        ) is Some && log_name_id(utf8_of(names[a]@)) == #[trigger] log_name_id(utf8_of(names[b]@))
}

/// The segment files among the directory entries `names`: each id with the
/// index of the entry that names it, in increasing id order. Fails where two
/// entries name the same segment (`1.log` and `01.log`).
pub fn segment_files(names: &Vec<String>) -> (r: Result<Vec<(u64, usize)>, KvError>)
    ensures
        r is Err <==> ids_collide(names@),
        r is Err ==> r matches Err(KvError::Other(_)),
        r matches Ok(v) ==> {
            &&& forall|a: int, b: int| 0 <= a < b < v@.len() ==> v@[a].0 < v@[b].0
            &&& forall|j: int|
                0 <= j < v@.len() ==> (v@[j].1 < names@.len() && log_name_id(
                    utf8_of(names@[#[trigger] v@[j].1 as int]@),
                ) == Some(v@[j].0))
            &&& forall|t: int|
                0 <= t < names@.len() && #[trigger] log_name_id(utf8_of(names@[t]@)) is Some ==> exists|j: int|
                    0 <= j < v@.len() && v@[j] == (log_name_id(utf8_of(names@[t]@))->Some_0, t as usize)
        },
{
    let mut out: Vec<(u64, usize)> = Vec::new();
    let mut i: usize = 0;
    while i < names.len()
        invariant
            i <= names@.len(),
            forall|a: int, b: int| 0 <= a < b < out@.len() ==> out@[a].0 < out@[b].0,
            forall|j: int|
                0 <= j < out@.len() ==> (out@[j].1 < i && log_name_id(
                    utf8_of(names@[#[trigger] out@[j].1 as int]@),
                ) == Some(out@[j].0)),
            forall|t: int|
                0 <= t < i && #[trigger] log_name_id(utf8_of(names@[t]@)) is Some ==> exists|j: int|
                    0 <= j < out@.len() && out@[j] == (log_name_id(utf8_of(names@[t]@))->Some_0, t as usize),
            forall|a: int, b: int|
                0 <= a < i && 0 <= b < i && a != b && #[trigger] log_name_id(utf8_of(names@[a]@)) is Some
                    ==> log_name_id(utf8_of(names@[a]@)) != #[trigger] log_name_id(utf8_of(names@[b]@)),
        decreases names@.len() - i,
    {
        let parsed = parse_log_name(names[i].as_str());
        if let Some(id) = parsed {
            let mut p: usize = 0;
            while p < out.len() && out[p].0 < id
                invariant
                    p <= out@.len(),
                    forall|t: int| 0 <= t < p ==> out@[t].0 < id,
                decreases out@.len() - p,
            {
                p = p + 1;
            }
            if p < out.len() && out[p].0 == id {
                proof {
                    let t = out@[p as int].1 as int;
                    assert(log_name_id(utf8_of(names@[t]@)) == Some(id));
                    assert(ids_collide(names@)) by {
                        assert(log_name_id(utf8_of(names@[i as int]@)) == Some(id));
                    }
                }
                return Err(KvError::Other(String::from_str("two files name the same segment")));
            }
            let ghost o = out@;
            out.insert(p, (id, i));
            proof {
                assert forall|t: int| 0 <= t < p implies #[trigger] out@[t] == o[t] by {}
                assert forall|t: int| p < t < out@.len() implies #[trigger] out@[t] == o[t - 1] by {}
                assert(out@[p as int] == (id, i));
                assert forall|a: int, b: int| 0 <= a < b < out@.len() implies out@[a].0 < out@[b].0 by {
                    if a < p && b > p && b - 1 > p {
                        assert(o[p as int].0 < o[b - 1].0);
                    }
                    if a == p && b - 1 > p {
                        assert(o[p as int].0 < o[b - 1].0);
                    }
                }
                assert forall|j: int| 0 <= j < out@.len() implies (out@[j].1 < i + 1 && log_name_id(
                    utf8_of(names@[#[trigger] out@[j].1 as int]@),
                ) == Some(out@[j].0)) by {
                    if j < p {
                        assert(out@[j] == o[j]);
                    } else if j > p {
                        assert(out@[j] == o[j - 1]);
                    }
                }
                assert forall|t: int|
                    0 <= t < i + 1 && #[trigger] log_name_id(utf8_of(names@[t]@)) is Some implies exists|j: int|
                    0 <= j < out@.len() && out@[j] == (log_name_id(utf8_of(names@[t]@))->Some_0, t as usize) by {
                    if t < i {
                        let j = choose|j: int| 0 <= j < o.len() && o[j] == (log_name_id(utf8_of(names@[t]@))->Some_0, t as usize);
                        if j < p {
                            assert(out@[j] == o[j]);
                        } else {
                            assert(out@[j + 1] == o[j]);
                        }
                    } else {
                        assert(out@[p as int] == (id, i));
                    }
                }
                assert forall|a: int, b: int|
                    0 <= a < i + 1 && 0 <= b < i + 1 && a != b && #[trigger] log_name_id(utf8_of(names@[a]@)) is Some
                    implies log_name_id(utf8_of(names@[a]@)) != #[trigger] log_name_id(utf8_of(names@[b]@)) by {
                    let other = if a == i { b } else { a };
                    if (a == i || b == i) && log_name_id(utf8_of(names@[other]@)) == Some(id) {
                        let j = choose|j: int| 0 <= j < o.len() && o[j] == (id, other as usize);
                        if j < p {
                            assert(o[j].0 < id);
                        } else {
                            if j > p {
                                assert(o[p as int].0 < o[j].0);
                            }
                            assert(o[p as int].0 != id);
                        }
                    }
                }
            }
        }
        i = i + 1;
    }
    proof {
        assert(!ids_collide(names@)) by {
            if ids_collide(names@) {
                let (a, b) = choose|a: int, b: int|
                    0 <= a < names@.len() && 0 <= b < names@.len() && a != b && #[trigger] log_name_id(
                        utf8_of(names@[a]@),
                    ) is Some && log_name_id(utf8_of(names@[a]@)) == #[trigger] log_name_id(utf8_of(names@[b]@));
                assert(log_name_id(utf8_of(names@[a]@)) != log_name_id(utf8_of(names@[b]@)));
            }
        }
    }
    Ok(out)
}

} // verus!
