//! Commands and their canonical, self-delimiting encoding:
//! `{"Set":{"key":K,"value":V}}`, `{"Get":{"key":K}}` or `{"Remove":{"key":K}}`.
//! The log holds `Put` and `Remove` records; a client sends any of the three.
use vstd::prelude::*;

use crate::json::{bytes_at, lemma_bytes_at_concat, match_bytes, parse_text, text_literal, write_text};

verus! {

/// A command: a mutation written to the log, or a request for a value.
#[derive(Debug, PartialEq, Eq)]
pub enum Command {
    Put { key: String, value: String },
    Get { key: String },
    Remove { key: String },
}

/// What a `Command` holds.
pub enum CommandModel {
    Put { key: Seq<char>, value: Seq<char> },
    Get { key: Seq<char> },
    Remove { key: Seq<char> },
}

impl View for Command {
    type V = CommandModel;

    open spec fn view(&self) -> CommandModel {
        match self {
            Command::Put { key, value } => CommandModel::Put { key: key@, value: value@ },
            Command::Get { key } => CommandModel::Get { key: key@ },
            Command::Remove { key } => CommandModel::Remove { key: key@ },
        }
    }
}

impl CommandModel {
    pub open spec fn key(self) -> Seq<char> {
        match self {
            CommandModel::Put { key, .. } => key,
            CommandModel::Get { key } => key,
            CommandModel::Remove { key } => key,
        }
    }
}

/// `{"Set":{"key":`
pub open spec fn set_open() -> Seq<u8> {
    seq![123u8, 34u8, 83u8, 101u8, 116u8, 34u8, 58u8, 123u8, 34u8, 107u8, 101u8, 121u8, 34u8, 58u8]
}

/// `{"Remove":{"key":`
pub open spec fn remove_open() -> Seq<u8> {
    seq![
        123u8,
        34u8,
        82u8,
        101u8,
        109u8,
        111u8,
        118u8,
        101u8,
        34u8,
        58u8,
        123u8,
        34u8,
        107u8,
        101u8,
        121u8,
        34u8,
        58u8,
    ]
}

/// `{"Get":{"key":`
pub open spec fn get_open() -> Seq<u8> {
    seq![123u8, 34u8, 71u8, 101u8, 116u8, 34u8, 58u8, 123u8, 34u8, 107u8, 101u8, 121u8, 34u8, 58u8]
}

/// `,"value":`
pub open spec fn value_field() -> Seq<u8> {
    seq![44u8, 34u8, 118u8, 97u8, 108u8, 117u8, 101u8, 34u8, 58u8]
}

/// `}}`
pub open spec fn close_two() -> Seq<u8> {
    seq![125u8, 125u8]
}

/// The canonical encoding of a record.
pub open spec fn encode_command(c: CommandModel) -> Seq<u8> {
    match c {
        CommandModel::Put { key, value } => set_open() + text_literal(key) + value_field()
            + text_literal(value) + close_two(),
        CommandModel::Get { key } => get_open() + text_literal(key) + close_two(),
        CommandModel::Remove { key } => remove_open() + text_literal(key) + close_two(),
    }
}

pub(crate) fn set_open_bytes() -> (r: [u8; 14])
    ensures
        r@ == set_open(),
{
    let r: [u8; 14] = [123, 34, 83, 101, 116, 34, 58, 123, 34, 107, 101, 121, 34, 58];
    assert(r@ =~= set_open());
    r
}

pub(crate) fn remove_open_bytes() -> (r: [u8; 17])
    ensures
        r@ == remove_open(),
{
    let r: [u8; 17] = [123, 34, 82, 101, 109, 111, 118, 101, 34, 58, 123, 34, 107, 101, 121, 34, 58];
    assert(r@ =~= remove_open());
    r
}

pub(crate) fn get_open_bytes() -> (r: [u8; 14])
    ensures
        r@ == get_open(),
{
    let r: [u8; 14] = [123, 34, 71, 101, 116, 34, 58, 123, 34, 107, 101, 121, 34, 58];
    assert(r@ =~= get_open());
    r
}

pub(crate) fn value_field_bytes() -> (r: [u8; 9])
    ensures
        r@ == value_field(),
{
    let r: [u8; 9] = [44, 34, 118, 97, 108, 117, 101, 34, 58];
    assert(r@ =~= value_field());
    r
}

pub(crate) fn close_two_bytes() -> (r: [u8; 2])
    ensures
        r@ == close_two(),
{
    let r: [u8; 2] = [125, 125];
    assert(r@ =~= close_two());
    r
}

/// The parts of a `Put` record at `i`.
pub proof fn lemma_set_at(s: Seq<u8>, i: int, key: Seq<char>, value: Seq<char>)
    ensures
        bytes_at(s, i, encode_command(CommandModel::Put { key, value })) <==> {
            let o1 = i + set_open().len();
            let o2 = o1 + text_literal(key).len();
            let o3 = o2 + value_field().len();
            let o4 = o3 + text_literal(value).len();
            &&& bytes_at(s, i, set_open())
            &&& bytes_at(s, o1, text_literal(key))
            &&& bytes_at(s, o2, value_field())
            &&& bytes_at(s, o3, text_literal(value))
            &&& bytes_at(s, o4, close_two())
        },
{
    let a = set_open();
    let b = text_literal(key);
    let c = value_field();
    let d = text_literal(value);
    lemma_bytes_at_concat(s, i, a + b + c + d, close_two());
    lemma_bytes_at_concat(s, i, a + b + c, d);
    lemma_bytes_at_concat(s, i, a + b, c);
    lemma_bytes_at_concat(s, i, a, b);
}

/// The parts of a `Remove` record at `i`.
pub proof fn lemma_remove_at(s: Seq<u8>, i: int, key: Seq<char>)
    ensures
        bytes_at(s, i, encode_command(CommandModel::Remove { key })) <==> {
            let o1 = i + remove_open().len();
            let o2 = o1 + text_literal(key).len();
            &&& bytes_at(s, i, remove_open())
            &&& bytes_at(s, o1, text_literal(key))
            &&& bytes_at(s, o2, close_two())
        },
{
    lemma_bytes_at_concat(s, i, remove_open() + text_literal(key), close_two());
    lemma_bytes_at_concat(s, i, remove_open(), text_literal(key));
}

/// The parts of a `Get` command at `i`.
pub proof fn lemma_get_at(s: Seq<u8>, i: int, key: Seq<char>)
    ensures
        bytes_at(s, i, encode_command(CommandModel::Get { key })) <==> {
            let o1 = i + get_open().len();
            let o2 = o1 + text_literal(key).len();
            &&& bytes_at(s, i, get_open())
            &&& bytes_at(s, o1, text_literal(key))
            &&& bytes_at(s, o2, close_two())
        },
{
    lemma_bytes_at_concat(s, i, get_open() + text_literal(key), close_two());
    lemma_bytes_at_concat(s, i, get_open(), text_literal(key));
}

proof fn lemma_opens_differ(s: Seq<u8>, i: int)
    ensures
        !(bytes_at(s, i, set_open()) && bytes_at(s, i, remove_open())),
        !(bytes_at(s, i, set_open()) && bytes_at(s, i, get_open())),
        !(bytes_at(s, i, get_open()) && bytes_at(s, i, remove_open())),
{
    if bytes_at(s, i, set_open()) && bytes_at(s, i, remove_open()) {
        assert(s.subrange(i, i + 14)[2] == s.subrange(i, i + 17)[2]);
    }
    if bytes_at(s, i, set_open()) && bytes_at(s, i, get_open()) {
        assert(s.subrange(i, i + 14)[2] == set_open()[2]);
    }
    if bytes_at(s, i, get_open()) && bytes_at(s, i, remove_open()) {
        assert(s.subrange(i, i + 14)[2] == s.subrange(i, i + 17)[2]);
    }
}

impl Command {
    /// A `Put` record.
    pub fn set(key: String, value: String) -> (r: Command)
        ensures
            r@ == (CommandModel::Put { key: key@, value: value@ }),
    {
        Command::Put { key, value }
    }

    /// A request for the value of `key`.
    pub fn get(key: String) -> (r: Command)
        ensures
            r@ == (CommandModel::Get { key: key@ }),
    {
        Command::Get { key }
    }

    /// A `Remove` record.
    pub fn remove(key: String) -> (r: Command)
        ensures
            r@ == (CommandModel::Remove { key: key@ }),
    {
        Command::Remove { key }
    }

    /// Appends the canonical encoding of this record.
    pub fn write_to(&self, out: &mut Vec<u8>)
        ensures
            final(out)@ == old(out)@ + encode_command(self@),
    {
        let ghost start = out@;
        match self {
            Command::Put { key, value } => {
                out.extend_from_slice(set_open_bytes().as_slice());
                write_text(out, key.as_str());
                out.extend_from_slice(value_field_bytes().as_slice());
                write_text(out, value.as_str());
                out.extend_from_slice(close_two_bytes().as_slice());
            },
            Command::Get { key } => {
                out.extend_from_slice(get_open_bytes().as_slice());
                write_text(out, key.as_str());
                out.extend_from_slice(close_two_bytes().as_slice());
            },
            Command::Remove { key } => {
                out.extend_from_slice(remove_open_bytes().as_slice());
                write_text(out, key.as_str());
                out.extend_from_slice(close_two_bytes().as_slice());
            },
        }
        assert(out@ =~= start + encode_command(self@));
    }

    /// The canonical encoding of this record.
    pub fn encode(&self) -> (r: Vec<u8>)
        ensures
            r@ == encode_command(self@),
    {
        let mut out: Vec<u8> = Vec::new();
        self.write_to(&mut out);
        assert(out@ =~= encode_command(self@));
        out
    }
}

/// Reads the record that starts at offset `i`, with the offset just past it.
pub fn decode_command_at(s: &Vec<u8>, i: usize) -> (r: Option<(Command, usize)>)
    ensures
        r matches Some((c, end)) ==> bytes_at(s@, i as int, encode_command(c@)) && end == i
            + encode_command(c@).len(),
        forall|m: CommandModel| #[trigger]
            bytes_at(s@, i as int, encode_command(m)) ==> (r matches Some((c, end)) && c@ == m
                && end == i + encode_command(m).len()),
{
    let so = set_open_bytes();
    let ro = remove_open_bytes();
    let go = get_open_bytes();
    let vf = value_field_bytes();
    let c2 = close_two_bytes();
    let _n = s.len();
    proof {
        assert forall|m: CommandModel| #[trigger] bytes_at(s@, i as int, encode_command(m)) implies (
        m is Put ==> bytes_at(s@, i as int, set_open())) && (m is Remove ==> bytes_at(
            s@,
            i as int,
            remove_open(),
        )) && (m is Get ==> bytes_at(s@, i as int, get_open())) by {
            match m {
                CommandModel::Put { key, value } => lemma_set_at(s@, i as int, key, value),
                CommandModel::Get { key } => lemma_get_at(s@, i as int, key),
                CommandModel::Remove { key } => lemma_remove_at(s@, i as int, key),
            }
        }
        lemma_opens_differ(s@, i as int);
    }
    if match_bytes(s, i, so.as_slice()) {
        proof {
            lemma_opens_differ(s@, i as int);
            assert forall|key: Seq<char>, value: Seq<char>|
                #![trigger encode_command(CommandModel::Put { key, value })]
                bytes_at(s@, i as int, encode_command(CommandModel::Put { key, value })) implies bytes_at(
                s@,
                i + 14,
                text_literal(key),
            ) by {
                lemma_set_at(s@, i as int, key, value);
            }
        }
        let o1 = i + 14;
        let (key, o2) = match parse_text(s, o1) {
            Some(kp) => kp,
            None => {
                return None;
            },
        };
        if !match_bytes(s, o2, vf.as_slice()) {
            proof {
                assert forall|m: CommandModel| #[trigger]
                    bytes_at(s@, i as int, encode_command(m)) implies false by {
                    if let CommandModel::Put { key: k, value: v } = m {
                        lemma_set_at(s@, i as int, k, v);
                    }
                }
            }
            return None;
        }
        let o3 = o2 + 9;
        proof {
            assert forall|k: Seq<char>, v: Seq<char>|
                #![trigger encode_command(CommandModel::Put { key: k, value: v })]
                bytes_at(s@, i as int, encode_command(CommandModel::Put { key: k, value: v })) implies k
                == key@ && bytes_at(s@, o3 as int, text_literal(v)) by {
                lemma_set_at(s@, i as int, k, v);
            }
        }
        let (value, o4) = match parse_text(s, o3) {
            Some(vp) => vp,
            None => {
                proof {
                    assert forall|m: CommandModel| #[trigger]
                        bytes_at(s@, i as int, encode_command(m)) implies false by {
                        if let CommandModel::Put { key: k, value: v } = m {
                            lemma_set_at(s@, i as int, k, v);
                        }
                    }
                }
                return None;
            },
        };
        if !match_bytes(s, o4, c2.as_slice()) {
            proof {
                assert forall|m: CommandModel| #[trigger]
                    bytes_at(s@, i as int, encode_command(m)) implies false by {
                    if let CommandModel::Put { key: k, value: v } = m {
                        lemma_set_at(s@, i as int, k, v);
                    }
                }
            }
            return None;
        }
        let c = Command::Put { key, value };
        proof {
            lemma_set_at(s@, i as int, key@, value@);
            assert forall|m: CommandModel| #[trigger]
                bytes_at(s@, i as int, encode_command(m)) implies c@ == m && o4 + 2 == i
                + encode_command(m).len() by {
                if let CommandModel::Put { key: k, value: v } = m {
                    lemma_set_at(s@, i as int, k, v);
                }
            }
        }
        Some((c, o4 + 2))
    } else if match_bytes(s, i, go.as_slice()) {
        proof {
            assert forall|key: Seq<char>|
                #![trigger encode_command(CommandModel::Get { key })]
                bytes_at(s@, i as int, encode_command(CommandModel::Get { key })) implies bytes_at(
                s@,
                i + 14,
                text_literal(key),
            ) by {
                lemma_get_at(s@, i as int, key);
            }
        }
        let o1 = i + 14;
        let (key, o2) = match parse_text(s, o1) {
            Some(kp) => kp,
            None => {
                return None;
            },
        };
        if !match_bytes(s, o2, c2.as_slice()) {
            proof {
                assert forall|m: CommandModel| #[trigger]
                    bytes_at(s@, i as int, encode_command(m)) implies false by {
                    if let CommandModel::Get { key: k } = m {
                        lemma_get_at(s@, i as int, k);
                    }
                }
            }
            return None;
        }
        let c = Command::Get { key };
        proof {
            lemma_get_at(s@, i as int, key@);
            assert forall|m: CommandModel| #[trigger]
                bytes_at(s@, i as int, encode_command(m)) implies c@ == m && o2 + 2 == i
                + encode_command(m).len() by {
                if let CommandModel::Get { key: k } = m {
                    lemma_get_at(s@, i as int, k);
                }
            }
        }
        Some((c, o2 + 2))
    } else if match_bytes(s, i, ro.as_slice()) {
        proof {
            assert forall|key: Seq<char>|
                #![trigger encode_command(CommandModel::Remove { key })]
                bytes_at(s@, i as int, encode_command(CommandModel::Remove { key })) implies bytes_at(
                s@,
                i + 17,
                text_literal(key),
            ) by {
                lemma_remove_at(s@, i as int, key);
            }
        }
        let o1 = i + 17;
        let (key, o2) = match parse_text(s, o1) {
            Some(kp) => kp,
            None => {
                return None;
            },
        };
        if !match_bytes(s, o2, c2.as_slice()) {
            proof {
                assert forall|m: CommandModel| #[trigger]
                    bytes_at(s@, i as int, encode_command(m)) implies false by {
                    if let CommandModel::Remove { key: k } = m {
                        lemma_remove_at(s@, i as int, k);
                    }
                }
            }
            return None;
        }
        let c = Command::Remove { key };
        proof {
            lemma_remove_at(s@, i as int, key@);
            assert forall|m: CommandModel| #[trigger]
                bytes_at(s@, i as int, encode_command(m)) implies c@ == m && o2 + 2 == i
                + encode_command(m).len() by {
                if let CommandModel::Remove { key: k } = m {
                    lemma_remove_at(s@, i as int, k);
                }
            }
        }
        Some((c, o2 + 2))
    } else {
        None
    }
}

} // verus!
