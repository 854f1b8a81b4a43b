//! The command dispatcher: interprets one decoded request and drives the
//! storage engine.
//!
//! A request is an array of bulk strings: the command name, then its
//! arguments.  The table knows `ping`, `echo`, `set` (with an optional
//! `px <milliseconds>` time-to-live) and `get`, each name matched without
//! regard to ASCII case.  Every ill-formed request is reported as an error
//! value rather than ending the process.

use vstd::prelude::*;

use crate::resp::{value_models, Value, ValueModel};
use crate::storage::{expired, ItemModel, Storage};

verus! {

/// A request that could not be served, by reason.
#[derive(Clone, Copy, Debug, PartialEq, Eq, Structural)]
pub enum CommandError {
    /// The decoded value was not a well-formed command array.
    Format,
    /// The command name is not in the table.
    Unrecognized,
    /// Wrong arity, or the wrong kind of value for an argument.
    Argument,
}

/// ASCII upper-case letters fold to lower case; all else is untouched.
pub open spec fn lower_char(c: char) -> char {
    if 'A' <= c && c <= 'Z' {
        (((c as u8) + 32) as char)
    } else {
        c
    }
}

/// Character-wise ASCII case folding.
pub open spec fn lower(s: Seq<char>) -> Seq<char> {
    s.map_values(|c: char| lower_char(c))
}

/// Relies on String::push: it appends exactly the one character.
#[verifier::external_body]
fn push_char(s: &mut String, c: char)
    ensures
        final(s)@ == old(s)@.push(c),
{
    s.push(c);
}

/// ASCII-folds a string to lower case, character by character.
pub fn ascii_lowercase(s: &str) -> (r: String)
    ensures
        r@ == lower(s@),
{
    let n = s.unicode_len();
    let mut out = String::new();
    proof {
        assert(s@.subrange(0, 0) =~= Seq::<char>::empty());
        assert(out@ =~= lower(s@.subrange(0, 0)));
    }
    for i in 0..n
        invariant
            n == s@.len(),
            out@ == lower(s@.subrange(0, i as int)),
    {
        let c = s.get_char(i);
        let lc: char = if 'A' <= c && c <= 'Z' {
            ((c as u8) + 32) as char
        } else {
            c
        };
        push_char(&mut out, lc);
        proof {
            let pre = s@.subrange(0, i as int);
            let cur = s@.subrange(0, i + 1int);
            assert(cur.drop_last() =~= pre);
            assert(cur.last() == s@[i as int]);
            assert(out@ =~= lower(cur));
        }
    }
    proof {
        assert(s@.subrange(0, n as int) =~= s@);
    }
    out
}

pub open spec fn is_digit_char(c: char) -> bool {
    48 <= c as u32 <= 57
}

/// Every character is a decimal digit.
pub open spec fn digits_only(s: Seq<char>) -> bool {
    forall|i: int| 0 <= i < s.len() ==> is_digit_char(#[trigger] s[i])
}

/// The decimal value of a digit string, most significant digit first.
pub open spec fn dec_char_val(s: Seq<char>) -> int
    decreases s.len(),
{
    if s.len() == 0 {
        0
    } else {
        dec_char_val(s.drop_last()) * 10 + (s.last() as u32 - 48)
    }
}

proof fn lemma_dec_char_val_nonneg(s: Seq<char>)
    requires
        digits_only(s),
    ensures
        dec_char_val(s) >= 0,
    decreases s.len(),
{
    if s.len() > 0 {
        assert(digits_only(s.drop_last())) by {
            assert(forall|i: int|
                0 <= i < s.len() - 1 ==> #[trigger] s.drop_last()[i] == s[i]);
        }
        lemma_dec_char_val_nonneg(s.drop_last());
    }
}

proof fn lemma_dec_char_val_prefix_le(s: Seq<char>, i: int)
    requires
        digits_only(s),
        0 <= i <= s.len(),
    ensures
        dec_char_val(s.subrange(0, i)) <= dec_char_val(s),
    decreases s.len() - i,
{
    if i < s.len() {
        let pre = s.subrange(0, i);
        let cur = s.subrange(0, i + 1);
        assert(cur.drop_last() =~= pre);
        assert(cur.last() == s[i]);
        assert(digits_only(pre)) by {
            assert(forall|t: int| 0 <= t < i ==> #[trigger] pre[t] == s[t]);
        }
        lemma_dec_char_val_nonneg(pre);
        assert(dec_char_val(pre) <= dec_char_val(cur));
        lemma_dec_char_val_prefix_le(s, i + 1);
    } else {
        assert(s.subrange(0, i) =~= s);
    }
}

/// Parses a decimal milliseconds count.  Succeeds exactly on a nonempty
/// all-digit string whose value fits a `u64`.
pub fn parse_millis(s: &str) -> (r: Option<u64>)
    ensures
        match r {
            Some(n) => s@.len() >= 1 && digits_only(s@) && n as int == dec_char_val(s@),
            None => s@.len() == 0 || !digits_only(s@) || dec_char_val(s@) > u64::MAX as int,
        },
{
    let n = s.unicode_len();
    if n == 0 {
        return None;
    }
    let mut acc: u64 = 0;
    proof {
        assert(s@.subrange(0, 0) =~= Seq::<char>::empty());
    }
    for i in 0..n
        invariant
            n == s@.len(),
            digits_only(s@.subrange(0, i as int)),
            acc as int == dec_char_val(s@.subrange(0, i as int)),
    {
        let c = s.get_char(i);
        let cu = c as u32;
        if cu < 48 || cu > 57 {
            return None;
        }
        let d: u64 = (cu - 48) as u64;
        let ghost pre = s@.subrange(0, i as int);
        let ghost cur = s@.subrange(0, i + 1int);
        proof {
            assert(cur.drop_last() =~= pre);
            assert(cur.last() == s@[i as int]);
            assert(digits_only(cur));
        }
        let step = match acc.checked_mul(10) {
            Some(t) => t.checked_add(d),
            None => None,
        };
        match step {
            Some(acc2) => {
                acc = acc2;
            },
            None => {
                proof {
                    assert(dec_char_val(cur) > u64::MAX as int);
                    if digits_only(s@) {
                        lemma_dec_char_val_prefix_le(s@, i + 1);
                    }
                }
                return None;
            },
        }
    }
    proof {
        assert(s@.subrange(0, n as int) =~= s@);
    }
    Some(acc)
}

/// The command of a request: the lowercased name and the arguments.  Only
/// a nonempty array whose first element is a bulk string has one.
pub open spec fn command_of(m: ValueModel) -> Option<(Seq<char>, Seq<ValueModel>)> {
    match m {
        ValueModel::Array(ms) => if ms.len() >= 1 {
            match ms[0] {
                ValueModel::BulkString(name) => Some(
                    (lower(name), ms.subrange(1, ms.len() as int)),
                ),
                _ => None,
            }
        } else {
            None
        },
        _ => None,
    }
}

/// Splits a request into its lowercased command name and its arguments.
pub fn extract_command(v: Value) -> (r: Result<(String, Vec<Value>), CommandError>)
    ensures
        match r {
            Ok(p) => command_of(v@) == Some((p.0@, value_models(p.1@))),
            Err(e) => command_of(v@) is None && e == CommandError::Format,
        },
{
    match v {
        Value::Array(mut vs) => {
            if vs.len() == 0 {
                return Err(CommandError::Format);
            }
            let ghost all = vs@;
            let first = vs.remove(0);
            proof {
                crate::resp::lemma_value_models_index(all, 0);
            }
            match first {
                Value::BulkString(name) => {
                    let lname = ascii_lowercase(name.as_str());
                    proof {
                        let ms = value_models(all);
                        let tail = value_models(vs@);
                        crate::resp::lemma_value_models_len(all);
                        crate::resp::lemma_value_models_len(vs@);
                        assert(tail =~= ms.subrange(1, ms.len() as int)) by {
                            assert forall|t: int| 0 <= t < tail.len() implies tail[t] == ms[t
                                + 1] by {
                                crate::resp::lemma_value_models_index(vs@, t);
                                crate::resp::lemma_value_models_index(all, t + 1);
                                assert(vs@[t] == all[t + 1]);
                            }
                        }
                    }
                    Ok((lname, vs))
                },
                _ => Err(CommandError::Format),
            }
        },
        _ => Err(CommandError::Format),
    }
}

/// The text of a bulk string; any other kind of value fails.
pub fn unpack_bulk_str(v: Value) -> (r: Result<String, CommandError>)
    ensures
        match r {
            Ok(s) => v@ == ValueModel::BulkString(s@),
            Err(e) => !(v@ is BulkString) && e == CommandError::Argument,
        },
{
    match v {
        Value::BulkString(s) => Ok(s),
        _ => Err(CommandError::Argument),
    }
}

/// What SET does: replace the item and reply `OK`.
pub open spec fn set_model(
    st: Map<Seq<char>, ItemModel>,
    k: Seq<char>,
    v: Seq<char>,
    exp: Option<u64>,
    now: u64,
) -> (ValueModel, Map<Seq<char>, ItemModel>) {
    (
        ValueModel::SimpleString("OK"@),
        st.insert(k, (ItemModel { value: v, created: now, expires: exp })),
    )
}

/// What GET does: null for a missing key, the text of a live entry, and
/// null with eviction for an expired one.
pub open spec fn get_model(st: Map<Seq<char>, ItemModel>, k: Seq<char>, now: u64) -> (
    ValueModel,
    Map<Seq<char>, ItemModel>,
) {
    if !st.contains_key(k) {
        (ValueModel::Null, st)
    } else if expired(st[k], now) {
        (ValueModel::Null, st.remove(k))
    } else {
        (ValueModel::BulkString(st[k].value), st)
    }
}

/// The whole command table: the reply and the storage state that one
/// request produces at time `now`.
pub open spec fn dispatch_model(
    m: ValueModel,
    st: Map<Seq<char>, ItemModel>,
    now: u64,
) -> (Result<ValueModel, CommandError>, Map<Seq<char>, ItemModel>) {
    match command_of(m) {
        None => (Err(CommandError::Format), st),
        Some((name, args)) => {
            if name == "ping"@ {
                if args.len() == 0 {
                    (Ok(ValueModel::SimpleString("PONG"@)), st)
                } else {
                    (Err(CommandError::Argument), st)
                }
            } else if name == "echo"@ {
                if args.len() == 1 {
                    (Ok(args[0]), st)
                } else {
                    (Err(CommandError::Argument), st)
                }
            } else if name == "get"@ {
                if args.len() == 1 {
                    match args[0] {
                        ValueModel::BulkString(k) => {
                            let (reply, st2) = get_model(st, k, now);
                            (Ok(reply), st2)
                        },
                        _ => (Err(CommandError::Argument), st),
                    }
                } else {
                    (Err(CommandError::Argument), st)
                }
            } else if name == "set"@ {
                if args.len() < 2 {
                    (Err(CommandError::Argument), st)
                } else {
                    match (args[0], args[1]) {
                        (ValueModel::BulkString(k), ValueModel::BulkString(v)) => {
                            if args.len() >= 4 && args[2] is BulkString && lower(
                                args[2]->BulkString_0,
                            ) == "px"@ && args[3] is BulkString {
                                let d = args[3]->BulkString_0;
                                if d.len() >= 1 && digits_only(d) && dec_char_val(d)
                                    <= u64::MAX as int {
                                    let (reply, st2) = set_model(
                                        st,
                                        k,
                                        v,
                                        Some(dec_char_val(d) as u64),
                                        now,
                                    );
                                    (Ok(reply), st2)
                                } else {
                                    (Err(CommandError::Argument), st)
                                }
                            } else {
                                let (reply, st2) = set_model(st, k, v, None, now);
                                (Ok(reply), st2)
                            }
                        },
                        _ => (Err(CommandError::Argument), st),
                    }
                }
            } else {
                (Err(CommandError::Unrecognized), st)
            }
        },
    }
}

/// Interprets one decoded request: validates its shape and arity, runs the
/// storage engine for SET and GET, and builds the reply.
pub fn dispatch(v: Value, storage: &mut Storage, now: u64) -> (r: Result<Value, CommandError>)
    ensures
        ({
            let (res, st2) = dispatch_model(v@, old(storage)@, now);
            final(storage)@ == st2 && (match (r, res) {
                (Ok(reply), Ok(mv)) => reply@ == mv,
                (Err(e1), Err(e2)) => e1 == e2,
                _ => false,
            })
        }),
{
    let ghost m = v@;
    let (name, mut args) = match extract_command(v) {
        Ok(p) => p,
        Err(e) => {
            return Err(e);
        },
    };
    let ghost argms = value_models(args@);
    proof {
        crate::resp::lemma_value_models_len(args@);
    }
    if name == "ping".to_owned() {
        if args.len() == 0 {
            Ok(Value::SimpleString("PONG".to_owned()))
        } else {
            Err(CommandError::Argument)
        }
    } else if name == "echo".to_owned() {
        if args.len() == 1 {
            let ghost pre = args@;
            let a = args.remove(0);
            proof {
                crate::resp::lemma_value_models_index(pre, 0);
            }
            Ok(a)
        } else {
            Err(CommandError::Argument)
        }
    } else if name == "get".to_owned() {
        if args.len() == 1 {
            let ghost pre = args@;
            let a = args.remove(0);
            proof {
                crate::resp::lemma_value_models_index(pre, 0);
            }
            match unpack_bulk_str(a) {
                Ok(key) => Ok(storage.get(key, now)),
                Err(e) => Err(e),
            }
        } else {
            Err(CommandError::Argument)
        }
    } else if name == "set".to_owned() {
        if args.len() < 2 {
            return Err(CommandError::Argument);
        }
        proof {
            crate::resp::lemma_value_models_index(args@, 0);
            crate::resp::lemma_value_models_index(args@, 1);
        }
        let mut expires: Option<u64> = None;
        if args.len() >= 4 {
            proof {
                crate::resp::lemma_value_models_index(args@, 2);
                crate::resp::lemma_value_models_index(args@, 3);
            }
            match (&args[2], &args[3]) {
                (Value::BulkString(p), Value::BulkString(d)) => {
                    let pl = ascii_lowercase(p.as_str());
                    if pl == "px".to_owned() {
                        match parse_millis(d.as_str()) {
                            Some(msec) => {
                                expires = Some(msec);
                            },
                            None => {
                                return Err(CommandError::Argument);
                            },
                        }
                    }
                },
                _ => {},
            }
        }
        let ghost before = args@;
        let a0 = args.remove(0);
        let a1 = args.remove(0);
        proof {
            assert(a1 == before[1]);
        }
        let key = match unpack_bulk_str(a0) {
            Ok(k) => k,
            Err(e) => {
                return Err(e);
            },
        };
        let value = match unpack_bulk_str(a1) {
            Ok(x) => x,
            Err(e) => {
                return Err(e);
            },
        };
        Ok(storage.set(key, value, expires, now))
    } else {
        Err(CommandError::Unrecognized)
    }
}

/// Own writes are observed: when two clients set distinct keys, in either
/// order, each then reads back exactly the value it wrote.  With the store
/// behind one lock, every interleaving is some such order, so no update is
/// lost.
pub proof fn lemma_own_write_read(
    st: Map<Seq<char>, ItemModel>,
    k1: Seq<char>,
    v1: Seq<char>,
    k2: Seq<char>,
    v2: Seq<char>,
    t1: u64,
    t2: u64,
    now: u64,
)
    requires
        k1 != k2,
    ensures
        ({
            let st2 = set_model(set_model(st, k1, v1, None, t1).1, k2, v2, None, t2).1;
            get_model(st2, k1, now).0 == ValueModel::BulkString(v1) && get_model(st2, k2, now).0
                == ValueModel::BulkString(v2)
        }),
{
}

/// PING replies PONG, whatever the case the client wrote the name in, and
/// leaves the store untouched.
pub proof fn lemma_ping(name: Seq<char>, st: Map<Seq<char>, ItemModel>, now: u64)
    requires
        lower(name) == "ping"@,
    ensures
        dispatch_model(ValueModel::Array(seq![ValueModel::BulkString(name)]), st, now) == (
            Ok::<ValueModel, CommandError>(ValueModel::SimpleString("PONG"@)),
            st,
        ),
{
    let ms = seq![ValueModel::BulkString(name)];
    assert(ms.subrange(1, 1) =~= Seq::<ValueModel>::empty());
}

/// ECHO replies its argument unchanged, whatever the value, and leaves the
/// store untouched.
pub proof fn lemma_echo(
    name: Seq<char>,
    arg: ValueModel,
    st: Map<Seq<char>, ItemModel>,
    now: u64,
)
    requires
        lower(name) == "echo"@,
    ensures
        dispatch_model(
            ValueModel::Array(seq![ValueModel::BulkString(name), arg]),
            st,
            now,
        ) == (Ok::<ValueModel, CommandError>(arg), st),
{
    let ms = seq![ValueModel::BulkString(name), arg];
    let tail = ms.subrange(1, 2);
    assert(tail.len() == 1 && tail[0] == arg);
    assert("echo"@ != "ping"@) by {
        reveal_strlit("echo");
        reveal_strlit("ping");
        assert("echo"@[0] == 'e' && "ping"@[0] == 'p');
    }
}

} // verus!
