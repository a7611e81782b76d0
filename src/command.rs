use vstd::prelude::*;

use crate::codec::{digits_value, int_ok, parse_int};
use crate::storage::{lookup, Entry, Storage};
use crate::value::decimal;
use crate::frame_laws::lemma_decimal;
use crate::value::{Frame, Value};

verus! {

/// Why a request could not be carried out.
#[derive(Debug)]
pub enum CommandError {
    /// The request is not an array.
    InvalidFormat,
    /// The request is an empty array.
    EmptyCommand,
    /// A command name or argument that must be a bulk string is not one.
    ExpectedBulkString,
    /// No command of this name exists.
    UnknownCommand(Vec<u8>),
    /// The command lacks an argument that it needs.
    MissingArgument,
    /// The time to live of `SET ... PX` is not a number of milliseconds.
    InvalidExpiry,
}

/// The mathematical model of a [`CommandError`].
pub enum Failure {
    InvalidFormat,
    EmptyCommand,
    ExpectedBulkString,
    UnknownCommand(Seq<u8>),
    MissingArgument,
    InvalidExpiry,
}

impl View for CommandError {
    type V = Failure;

    open spec fn view(&self) -> Failure {
        match self {
            CommandError::InvalidFormat => Failure::InvalidFormat,
            CommandError::EmptyCommand => Failure::EmptyCommand,
            CommandError::ExpectedBulkString => Failure::ExpectedBulkString,
            CommandError::UnknownCommand(name) => Failure::UnknownCommand(name@),
            CommandError::MissingArgument => Failure::MissingArgument,
            CommandError::InvalidExpiry => Failure::InvalidExpiry,
        }
    }
}

pub open spec fn views(vs: Seq<Value>) -> Seq<Frame> {
    vs.map_values(|v: Value| v@)
}

/// The payload of a bulk string.
pub open spec fn bulk_of(f: Frame) -> Option<Seq<u8>> {
    match f {
        Frame::Bulk(s) => Some(s),
        _ => None,
    }
}

pub open spec fn ping_name() -> Seq<u8> {
    seq![80u8, 73u8, 78u8, 71u8]
}

pub open spec fn echo_name() -> Seq<u8> {
    seq![69u8, 67u8, 72u8, 79u8]
}

pub open spec fn set_name() -> Seq<u8> {
    seq![83u8, 69u8, 84u8]
}

pub open spec fn get_name() -> Seq<u8> {
    seq![71u8, 69u8, 84u8]
}

pub open spec fn pong() -> Seq<u8> {
    seq![80u8, 79u8, 78u8, 71u8]
}

pub open spec fn ok() -> Seq<u8> {
    seq![79u8, 75u8]
}

/// The expiry option `px`, in either case.
pub open spec fn is_px(s: Seq<u8>) -> bool {
    s.len() == 2 && (s[0] == 112 || s[0] == 80) && (s[1] == 120 || s[1] == 88)
}

/// The time to live that the arguments of `SET` ask for.
pub open spec fn set_ttl(args: Seq<Frame>) -> Result<nat, Failure> {
    if args.len() > 3 {
        match bulk_of(args[2]) {
            None => Err(Failure::ExpectedBulkString),
            Some(opt) => if !is_px(opt) {
                Ok(0)
            } else {
                match bulk_of(args[3]) {
                    None => Err(Failure::ExpectedBulkString),
                    Some(ms) => if int_ok(ms) && digits_value(ms) <= usize::MAX {
                        Ok(digits_value(ms))
                    } else {
                        Err(Failure::InvalidExpiry)
                    },
                }
            },
        }
    } else {
        Ok(0)
    }
}

/// The reply to the command `name` with `args`, on a store holding `m` at time `now`.
pub open spec fn command_reply(
    m: Map<Seq<u8>, Entry>,
    name: Seq<u8>,
    args: Seq<Frame>,
    now: u128,
) -> Result<Frame, Failure> {
    if name == ping_name() {
        Ok(Frame::Simple(pong()))
    } else if name == echo_name() {
        if args.len() == 0 {
            Err(Failure::MissingArgument)
        } else {
            Ok(args[0])
        }
    } else if name == set_name() {
        if args.len() < 2 {
            Err(Failure::MissingArgument)
        } else if bulk_of(args[0]) is None || bulk_of(args[1]) is None {
            Err(Failure::ExpectedBulkString)
        } else {
            match set_ttl(args) {
                Ok(_) => Ok(Frame::Simple(ok())),
                Err(e) => Err(e),
            }
        }
    } else if name == get_name() {
        if args.len() == 0 {
            Err(Failure::MissingArgument)
        } else {
            match bulk_of(args[0]) {
                None => Err(Failure::ExpectedBulkString),
                Some(key) => match lookup(m, key, now) {
                    Some(e) => Ok(Frame::Bulk(e.value)),
                    None => Ok(Frame::Null),
                },
            }
        }
    } else {
        Err(Failure::UnknownCommand(name))
    }
}

/// The store's contents after the command `name` with `args` at time `now`.
pub open spec fn command_store(
    m: Map<Seq<u8>, Entry>,
    name: Seq<u8>,
    args: Seq<Frame>,
    now: u128,
) -> Map<Seq<u8>, Entry> {
    if name == set_name() && command_reply(m, name, args, now) is Ok {
        m.insert(
            bulk_of(args[0])->Some_0,
            Entry { value: bulk_of(args[1])->Some_0, created: now, expires: set_ttl(args)->Ok_0 },
        )
    } else {
        m
    }
}

/// The command name and the arguments of a request.
pub open spec fn request_parts(f: Frame) -> Result<(Seq<u8>, Seq<Frame>), Failure> {
    match f {
        Frame::Array(items) => if items.len() == 0 {
            Err(Failure::EmptyCommand)
        } else {
            match bulk_of(items[0]) {
                Some(name) => Ok((name, items.drop_first())),
                None => Err(Failure::ExpectedBulkString),
            }
        },
        _ => Err(Failure::InvalidFormat),
    }
}

/// The reply to `request` on a store holding `m` at time `now`.
pub open spec fn request_reply(m: Map<Seq<u8>, Entry>, request: Frame, now: u128) -> Result<Frame, Failure> {
    match request_parts(request) {
        Ok((name, args)) => command_reply(m, name, args, now),
        Err(e) => Err(e),
    }
}

/// The store's contents after `request` at time `now`.
pub open spec fn request_store(m: Map<Seq<u8>, Entry>, request: Frame, now: u128) -> Map<Seq<u8>, Entry> {
    match request_parts(request) {
        Ok((name, args)) => command_store(m, name, args, now),
        Err(_) => m,
    }
}

/// `r` is the executable form of `o`.
pub open spec fn replied_as(r: Result<Value, CommandError>, o: Result<Frame, Failure>) -> bool {
    match r {
        Ok(v) => o == Ok::<Frame, Failure>(v@),
        Err(e) => o == Err::<Frame, Failure>(e@),
    }
}

/// The payload of a bulk string, or an error.
pub fn unpack_bulk_str(value: Value) -> (r: Result<Vec<u8>, CommandError>)
    ensures
        match bulk_of(value@) {
            Some(s) => r is Ok && r->Ok_0@ == s,
            None => r matches Err(CommandError::ExpectedBulkString),
        },
{
    match value {
        Value::BulkString(s) => Ok(s),
        _ => Err(CommandError::ExpectedBulkString),
    }
}

fn bulk_ref(value: &Value) -> (r: Option<&Vec<u8>>)
    ensures
        match bulk_of(value@) {
            Some(s) => r is Some && r->Some_0@ == s,
            None => r is None,
        },
{
    match value {
        Value::BulkString(s) => Some(s),
        _ => None,
    }
}

/// Splits a request into its command name and its arguments.
pub fn extract_command(value: Value) -> (r: Result<(Vec<u8>, Vec<Value>), CommandError>)
    ensures
        match request_parts(value@) {
            Ok((name, args)) => r is Ok && r->Ok_0.0@ == name && views(r->Ok_0.1@) == args,
            Err(e) => r is Err && r->Err_0@ == e,
        },
{
    match value {
        Value::Array(a) => {
            let ghost items = Value::Array(a)@->Array_0;
            if a.len() == 0 {
                return Err(CommandError::EmptyCommand);
            }
            let mut a = a;
            let first = a.remove(0);
            assert(first@ == items[0]);
            let name = unpack_bulk_str(first)?;
            assert(views(a@) =~= items.drop_first());
            Ok((name, a))
        },
        _ => Err(CommandError::InvalidFormat),
    }
}


fn is_ping(n: &Vec<u8>) -> (r: bool)
    ensures
        r == (n@ == ping_name()),
{
    let r = n.len() == 4 && n[0] == 80u8 && n[1] == 73u8 && n[2] == 78u8 && n[3] == 71u8;
    assert(r ==> n@ =~= ping_name());
    r
}

fn is_echo(n: &Vec<u8>) -> (r: bool)
    ensures
        r == (n@ == echo_name()),
{
    let r = n.len() == 4 && n[0] == 69u8 && n[1] == 67u8 && n[2] == 72u8 && n[3] == 79u8;
    assert(r ==> n@ =~= echo_name());
    r
}

fn is_set(n: &Vec<u8>) -> (r: bool)
    ensures
        r == (n@ == set_name()),
{
    let r = n.len() == 3 && n[0] == 83u8 && n[1] == 69u8 && n[2] == 84u8;
    assert(r ==> n@ =~= set_name());
    r
}

fn is_get(n: &Vec<u8>) -> (r: bool)
    ensures
        r == (n@ == get_name()),
{
    let r = n.len() == 3 && n[0] == 71u8 && n[1] == 69u8 && n[2] == 84u8;
    assert(r ==> n@ =~= get_name());
    r
}

fn is_px_option(s: &Vec<u8>) -> (r: bool)
    ensures
        r == is_px(s@),
{
    s.len() == 2 && (s[0] == 112u8 || s[0] == 80u8) && (s[1] == 120u8 || s[1] == 88u8)
}

/// The time to live that the arguments of `SET` ask for.
fn ttl_of(args: &Vec<Value>) -> (r: Result<usize, CommandError>)
    ensures
        match set_ttl(views(args@)) {
            Ok(t) => r is Ok && r->Ok_0 == t,
            Err(e) => r is Err && r->Err_0@ == e,
        },
{
    if args.len() <= 3 {
        return Ok(0);
    }
    let opt = match bulk_ref(&args[2]) {
        None => {
            return Err(CommandError::ExpectedBulkString);
        },
        Some(o) => o,
    };
    if !is_px_option(opt) {
        return Ok(0);
    }
    let ms = match bulk_ref(&args[3]) {
        None => {
            return Err(CommandError::ExpectedBulkString);
        },
        Some(m) => m,
    };
    match parse_int(ms.as_slice()) {
        Ok(n) => {
            if n as u64 > usize::MAX as u64 {
                Err(CommandError::InvalidExpiry)
            } else {
                Ok(n as usize)
            }
        },
        Err(_) => Err(CommandError::InvalidExpiry),
    }
}

/// Carries out the command `name` with `args` on `stg` at time `now`.
pub fn execute(stg: &mut Storage, name: &Vec<u8>, args: Vec<Value>, now: u128) -> (r: Result<Value, CommandError>)
    requires
        old(stg).wf(),
    ensures
        final(stg).wf(),
        replied_as(r, command_reply(old(stg)@, name@, views(args@), now)),
        final(stg)@ == command_store(old(stg)@, name@, views(args@), now),
{
    if is_ping(name) {
        let r = Value::SimpleString(vec![80u8, 79u8, 78u8, 71u8]);
        assert(r@->Simple_0 =~= pong());
        Ok(r)
    } else if is_echo(name) {
        if args.len() == 0 {
            Err(CommandError::MissingArgument)
        } else {
            let mut args = args;
            Ok(args.remove(0))
        }
    } else if is_set(name) {
        if args.len() < 2 {
            return Err(CommandError::MissingArgument);
        }
        let key = match bulk_ref(&args[0]) {
            None => {
                return Err(CommandError::ExpectedBulkString);
            },
            Some(k) => k,
        };
        let value = match bulk_ref(&args[1]) {
            None => {
                return Err(CommandError::ExpectedBulkString);
            },
            Some(v) => v,
        };
        let ttl = ttl_of(&args)?;
        stg.set_at(key.as_slice(), value.as_slice(), ttl, now);
        let r = Value::SimpleString(vec![79u8, 75u8]);
        assert(r@->Simple_0 =~= ok());
        Ok(r)
    } else if is_get(name) {
        if args.len() == 0 {
            return Err(CommandError::MissingArgument);
        }
        let key = match bulk_ref(&args[0]) {
            None => {
                return Err(CommandError::ExpectedBulkString);
            },
            Some(k) => k,
        };
        match stg.get_at(key.as_slice(), now) {
            Some(item) => Ok(Value::BulkString(copy_bytes(&item.value))),
            None => Ok(Value::Null),
        }
    } else {
        Err(CommandError::UnknownCommand(copy_bytes(name)))
    }
}

fn copy_bytes(b: &Vec<u8>) -> (r: Vec<u8>)
    ensures
        r@ == b@,
{
    let mut r: Vec<u8> = Vec::new();
    let mut i: usize = 0;
    while i < b.len()
        invariant
            i <= b@.len(),
            r@ == b@.take(i as int),
        decreases b.len() - i,
    {
        r.push(b[i]);
        i = i + 1;
        assert(r@ =~= b@.take(i as int));
    }
    assert(b@.take(i as int) =~= b@);
    r
}

/// Carries out one request on `stg` at time `now`, and gives its reply.
pub fn respond(stg: &mut Storage, request: Value, now: u128) -> (r: Result<Value, CommandError>)
    requires
        old(stg).wf(),
    ensures
        final(stg).wf(),
        replied_as(r, request_reply(old(stg)@, request@, now)),
        final(stg)@ == request_store(old(stg)@, request@, now),
{
    let (name, args) = extract_command(request)?;
    execute(stg, &name, args, now)
}


/// `GET` of a key that was never written replies null and changes nothing.
pub proof fn law_get_unwritten(m: Map<Seq<u8>, Entry>, key: Seq<u8>, now: u128)
    requires
        !m.contains_key(key),
    ensures
        command_reply(m, get_name(), seq![Frame::Bulk(key)], now) == Ok::<Frame, Failure>(Frame::Null),
        command_store(m, get_name(), seq![Frame::Bulk(key)], now) == m,
{
    lemma_names_differ();
}

proof fn lemma_names_differ()
    ensures
        set_name() != ping_name(),
        set_name() != echo_name(),
        get_name() != ping_name(),
        get_name() != echo_name(),
        get_name() != set_name(),
{
    assert(set_name().len() != ping_name().len());
    assert(set_name().len() != echo_name().len());
    assert(get_name().len() != ping_name().len());
    assert(get_name().len() != echo_name().len());
    assert(get_name()[0] != set_name()[0]);
}

/// `SET key v1`, then `SET key v2`, then `GET key` replies `v2`.
pub proof fn law_last_write_wins(
    m: Map<Seq<u8>, Entry>,
    key: Seq<u8>,
    v1: Seq<u8>,
    v2: Seq<u8>,
    t1: u128,
    t2: u128,
    t3: u128,
)
    ensures
        ({
            let m1 = command_store(m, set_name(), seq![Frame::Bulk(key), Frame::Bulk(v1)], t1);
            let m2 = command_store(m1, set_name(), seq![Frame::Bulk(key), Frame::Bulk(v2)], t2);
            command_reply(m2, get_name(), seq![Frame::Bulk(key)], t3) == Ok::<Frame, Failure>(Frame::Bulk(v2))
        }),
{
    lemma_names_differ();
}

/// `SET key v PX ttl` at `t0`: a `GET key` at `t` replies `v` while no more
/// than `ttl` milliseconds have passed, and null once more have.
pub proof fn law_expiry(m: Map<Seq<u8>, Entry>, key: Seq<u8>, v: Seq<u8>, ttl: nat, t0: u128, t: u128)
    requires
        0 < ttl <= i64::MAX,
        ttl <= usize::MAX,
        t0 <= t,
    ensures
        ({
            let args = seq![Frame::Bulk(key), Frame::Bulk(v), Frame::Bulk(seq![80u8, 88u8]), Frame::Bulk(decimal(ttl))];
            let m1 = command_store(m, set_name(), args, t0);
            &&& command_reply(m, set_name(), args, t0) == Ok::<Frame, Failure>(Frame::Simple(ok()))
            &&& t - t0 <= ttl ==> command_reply(m1, get_name(), seq![Frame::Bulk(key)], t) == Ok::<Frame, Failure>(Frame::Bulk(v))
            &&& t - t0 > ttl ==> command_reply(m1, get_name(), seq![Frame::Bulk(key)], t) == Ok::<Frame, Failure>(Frame::Null)
        }),
{
    lemma_names_differ();
    lemma_decimal(ttl);
    let args = seq![Frame::Bulk(key), Frame::Bulk(v), Frame::Bulk(seq![80u8, 88u8]), Frame::Bulk(decimal(ttl))];
    assert(bulk_of(args[2]) == Some(seq![80u8, 88u8]));
    assert(is_px(seq![80u8, 88u8]));
    assert(bulk_of(args[3]) == Some(decimal(ttl)));
    assert(set_ttl(args) == Ok::<nat, Failure>(ttl));
}

/// A `SET` of one key leaves what `GET` of another key replies unchanged.
pub proof fn law_disjoint_keys(
    m: Map<Seq<u8>, Entry>,
    k1: Seq<u8>,
    args: Seq<Frame>,
    k2: Seq<u8>,
    t1: u128,
    t2: u128,
)
    requires
        args.len() >= 1,
        args[0] == Frame::Bulk(k1),
        k1 != k2,
    ensures
        command_reply(command_store(m, set_name(), args, t1), get_name(), seq![Frame::Bulk(k2)], t2)
            == command_reply(m, get_name(), seq![Frame::Bulk(k2)], t2),
{
    lemma_names_differ();
    let m1 = command_store(m, set_name(), args, t1);
    assert(m1.contains_key(k2) == m.contains_key(k2));
    assert(lookup(m1, k2, t2) == lookup(m, k2, t2));
}

/// `PING` with no arguments replies `PONG`; `ECHO x` replies `x`; neither
/// changes the store.
pub proof fn law_ping_echo(m: Map<Seq<u8>, Entry>, x: Frame, now: u128)
    ensures
        command_reply(m, ping_name(), Seq::empty(), now) == Ok::<Frame, Failure>(Frame::Simple(pong())),
        command_reply(m, echo_name(), seq![x], now) == Ok::<Frame, Failure>(x),
        command_store(m, ping_name(), Seq::empty(), now) == m,
        command_store(m, echo_name(), seq![x], now) == m,
{
    assert(echo_name() != ping_name()) by {
        assert(echo_name()[0] != ping_name()[0]);
    }
    lemma_names_differ();
}

} // verus!
