use crate::cache::{read_outcome, read_result, word_set, write_outcome, Cache, CacheEntry};
use crate::resp::{
    decimal, deserialized, encode, frames_of, lemma_frames_of, text_of, CommandError, Frame,
    RESPMessage, command_of,
};
use vstd::prelude::*;
use vstd::string::{StrSliceExecFns, StringExecFns};

verus! {

/// `c` is the lower-case letter `l`, or `l` itself.
pub open spec fn same_letter(c: char, l: char) -> bool {
    c == l || ('A' <= c <= 'Z' && c as u32 + 32 == l as u32)
}

/// `s` spells `name`, a lower-case word, in any case.
pub open spec fn names(s: Seq<char>, name: Seq<char>) -> bool {
    s.len() == name.len() && forall|i: int| 0 <= i < s.len() ==> same_letter(s[i], #[trigger] name[i])
}

/// Compares `s` with the lower-case word `name`, ignoring the case of ASCII letters.
pub fn is_named(s: &str, name: &str) -> (r: bool)
    ensures
        r == names(s@, name@),
{
    let n = s.unicode_len();
    if n != name.unicode_len() {
        return false;
    }
    let mut i: usize = 0;
    while i < n
        invariant
            n == s@.len(),
            n == name@.len(),
            i <= n,
            forall|j: int| 0 <= j < i ==> same_letter(s@[j], #[trigger] name@[j]),
        decreases n - i,
    {
        let c = s.get_char(i);
        let l = name.get_char(i);
        if !(c == l || ('A' <= c && c <= 'Z' && c as u32 + 32 == l as u32)) {
            return false;
        }
        i += 1;
    }
    true
}

/// The decimal digits of `n` as text.
pub open spec fn decimal_text(n: nat) -> Seq<char> {
    decimal(n).map_values(|b: u8| b as char)
}

fn digit_text(d: u64) -> (r: &'static str)
    requires
        d < 10,
    ensures
        r@ == seq![(48 + d) as u8 as char],
{
    proof {
        reveal_strlit("0");
        reveal_strlit("1");
        reveal_strlit("2");
        reveal_strlit("3");
        reveal_strlit("4");
        reveal_strlit("5");
        reveal_strlit("6");
        reveal_strlit("7");
        reveal_strlit("8");
        reveal_strlit("9");
    }
    let r = if d == 0 {
        "0"
    } else if d == 1 {
        "1"
    } else if d == 2 {
        "2"
    } else if d == 3 {
        "3"
    } else if d == 4 {
        "4"
    } else if d == 5 {
        "5"
    } else if d == 6 {
        "6"
    } else if d == 7 {
        "7"
    } else if d == 8 {
        "8"
    } else {
        "9"
    };
    assert(r@ =~= seq![(48 + d) as u8 as char]);
    r
}

/// `n` written in decimal.
pub fn decimal_string(n: u64) -> (r: String)
    ensures
        r@ == decimal_text(n as nat),
    decreases n,
{
    let mut s = if n >= 10 {
        decimal_string(n / 10)
    } else {
        String::new()
    };
    s.append(digit_text(n % 10));
    proof {
        if n >= 10 {
            assert(decimal(n as nat) == decimal((n / 10) as nat) + seq![(48 + n % 10) as u8]);
        }
        assert(s@ =~= decimal_text(n as nat));
    }
    s
}

/// The texts of `ws` with one space between each two.
pub open spec fn joined(ws: Seq<Seq<char>>) -> Seq<char>
    decreases ws.len(),
{
    if ws.len() == 0 {
        seq![]
    } else if ws.len() == 1 {
        ws[0]
    } else {
        joined(ws.drop_last()) + seq![' '] + ws.last()
    }
}

/// Joins texts with one space between each two.
#[verifier::rlimit(30)]
pub fn join_words(ws: &Vec<String>) -> (r: String)
    ensures
        r@ == joined(ws@.map_values(|w: String| w@)),
{
    let ghost views = ws@.map_values(|w: String| w@);
    let mut out = String::new();
    let mut i: usize = 0;
    while i < ws.len()
        invariant
            i <= ws@.len(),
            views == ws@.map_values(|w: String| w@),
            out@ == joined(views.take(i as int)),
        decreases ws.len() - i,
    {
        let ghost before = out@;
        proof {
            reveal_strlit(" ");
        }
        if i > 0 {
            out.append(" ");
        }
        assert(i > 0 ==> out@ =~= before + seq![' ']);
        out.append(ws[i].as_str());
        proof {
            assert(views.take(i + 1).drop_last() =~= views.take(i as int));
            if i == 0 {
                assert(out@ =~= joined(views.take(1)));
            } else {
                assert(views.take(i + 1).last() == ws@[i as int]@);
                assert(joined(views.take(i + 1)) == joined(views.take(i as int)) + seq![' ']
                    + ws@[i as int]@);
                assert(out@ =~= joined(views.take(i + 1)));
            }
        }
        i += 1;
    }
    proof {
        assert(views.take(i as int) =~= views);
    }
    out
}

/// The number that a text of decimal digits writes.
pub open spec fn text_value(t: Seq<char>) -> nat
    decreases t.len(),
{
    if t.len() == 0 {
        0
    } else {
        text_value(t.drop_last()) * 10 + (t.last() as u32 - 48) as nat
    }
}

/// `t` is one or more decimal digits.
pub open spec fn all_digits(t: Seq<char>) -> bool {
    t.len() > 0 && forall|i: int| 0 <= i < t.len() ==> '0' <= #[trigger] t[i] <= '9'
}

/// `t` without one leading plus sign, if it has one.
pub open spec fn unsigned_part(t: Seq<char>) -> Seq<char> {
    if t.len() > 0 && t[0] == '+' {
        t.drop_first()
    } else {
        t
    }
}

/// The number that `t` writes, when it is decimal digits after at most one plus sign
/// and the number fits.
pub open spec fn number_of(t: Seq<char>) -> Option<u64> {
    let d = unsigned_part(t);
    if all_digits(d) && text_value(d) <= u64::MAX {
        Some(text_value(d) as u64)
    } else {
        None
    }
}

proof fn lemma_text_value_monotone(t: Seq<char>, k: int)
    requires
        0 <= k <= t.len(),
    ensures
        text_value(t.take(k)) <= text_value(t),
    decreases t.len(),
{
    if k < t.len() {
        assert(t.take(k) =~= t.drop_last().take(k));
        lemma_text_value_monotone(t.drop_last(), k);
    } else {
        assert(t.take(k) =~= t);
    }
}

/// Reads a number written in decimal digits, after at most one plus sign.
pub fn parse_number(t: &str) -> (r: Option<u64>)
    ensures
        r == number_of(t@),
{
    let n = t.unicode_len();
    if n > 0 && t.get_char(0) == '+' {
        let d = t.substring_char(1, n);
        proof {
            assert(d@ =~= unsigned_part(t@));
        }
        parse_digits(d)
    } else {
        parse_digits(t)
    }
}

fn parse_digits(t: &str) -> (r: Option<u64>)
    ensures
        r == (if all_digits(t@) && text_value(t@) <= u64::MAX {
            Some(text_value(t@) as u64)
        } else {
            None
        }),
{
    let n = t.unicode_len();
    if n == 0 {
        return None;
    }
    let mut acc: u64 = 0;
    let mut i: usize = 0;
    while i < n
        invariant
            n == t@.len(),
            i <= n,
            forall|j: int| 0 <= j < i ==> '0' <= #[trigger] t@[j] <= '9',
            acc == text_value(t@.take(i as int)),
        decreases n - i,
    {
        let c = t.get_char(i);
        if c < '0' || c > '9' {
            return None;
        }
        let d = (c as u32 - 48) as u64;
        proof {
            assert(t@.take(i + 1).drop_last() =~= t@.take(i as int));
        }
        if acc > 1844674407370955161 || (acc == 1844674407370955161 && d > 5) {
            proof {
                lemma_text_value_monotone(t@, i + 1);
            }
            return None;
        }
        acc = acc * 10 + d;
        i += 1;
    }
    proof {
        assert(t@.take(n as int) =~= t@);
    }
    Some(acc)
}

/// The text of argument `i`, when it is a simple or bulk string.
pub open spec fn arg_text(args: Seq<Frame>, i: int) -> Option<Seq<char>> {
    if 0 <= i < args.len() {
        text_of(args[i])
    } else {
        None
    }
}

/// The time-to-live that a `SET` asks for: the number of milliseconds in its fourth
/// argument, after the key, the value and `PX`.
pub open spec fn requested_ttl(args: Seq<Frame>) -> Option<u64> {
    match arg_text(args, 3) {
        Some(t) => number_of(t),
        None => None,
    }
}

/// `ks` and `vs` list the keys of `m` once each, and their values at the same places.
pub open spec fn lists(m: Map<Seq<char>, CacheEntry>, ks: Seq<Seq<char>>, vs: Seq<Seq<char>>) -> bool {
    &&& ks.len() == vs.len()
    &&& ks.len() == m.len()
    &&& forall|i: int| 0 <= i < ks.len() ==> m.contains_key(#[trigger] ks[i]) && m[ks[i]].value == vs[i]
    &&& ks.no_duplicates()
}

/// The answer to the command `name` with arguments `args`, on a cache that holds `m`
/// with capacity `cap`, at time `now`, on the server `id`: the cache then holds `m2`,
/// the reply is `reply`, and `promote` says whether the server is to become the leader.
pub open spec fn command_answer(
    m: Map<Seq<char>, CacheEntry>,
    cap: nat,
    name: Seq<char>,
    args: Seq<Frame>,
    now: u64,
    id: u32,
    m2: Map<Seq<char>, CacheEntry>,
    reply: Frame,
    promote: bool,
) -> bool {
    if names(name, "ping"@) {
        reply == Frame::Simple("PONG"@) && m2 == m && !promote
    } else if names(name, "echo"@) {
        &&& m2 == m
        &&& !promote
        &&& reply == if args.len() > 0 {
            args[0]
        } else {
            Frame::Failure("Invalid argument"@)
        }
    } else if names(name, "get"@) {
        &&& !promote
        &&& match arg_text(args, 0) {
            Some(k) => read_outcome(m, k, now, m2, read_result(m, k, now)) && reply == match read_result(
                m,
                k,
                now,
            ) {
                Some(v) => Frame::Bulk(v),
                None => Frame::Nil,
            },
            None => reply == Frame::Failure("Invalid key"@) && m2 == m,
        }
    } else if names(name, "set"@) {
        &&& !promote
        &&& match (arg_text(args, 0), arg_text(args, 1)) {
            (Some(k), Some(v)) => write_outcome(m, cap, k, v, requested_ttl(args), now, m2)
                && reply == Frame::Simple("OK"@),
            _ => reply == Frame::Failure("Invalid key or value"@) && m2 == m,
        }
    } else if names(name, "del"@) {
        &&& !promote
        &&& match arg_text(args, 0) {
            Some(k) => m2 == m.remove_keys(word_set(k)) && reply == Frame::Bulk(
                decimal_text(m.dom().intersect(word_set(k)).len()),
            ),
            None => reply == Frame::Failure("Invalid Request"@) && m2 == m,
        }
    } else if names(name, "getserverid"@) {
        reply == Frame::Simple(decimal_text(id as nat)) && m2 == m && !promote
    } else if names(name, "setleader"@) {
        reply == Frame::Simple("OK"@) && m2 == m && promote
    } else if names(name, "sync"@) {
        &&& m2 == m
        &&& !promote
        &&& exists|ks: Seq<Seq<char>>, vs: Seq<Seq<char>>| #[trigger]
            lists(m, ks, vs) && reply == Frame::Bulk(joined(ks + vs))
    } else {
        reply == Frame::Failure("Error"@) && m2 == m && !promote
    }
}

/// The answer to the message `msg`: a command, or an error when it is none.
pub open spec fn message_answer(
    m: Map<Seq<char>, CacheEntry>,
    cap: nat,
    msg: Frame,
    now: u64,
    id: u32,
    m2: Map<Seq<char>, CacheEntry>,
    reply: Frame,
    promote: bool,
) -> bool {
    match command_of(msg) {
        Ok((name, args)) => command_answer(m, cap, name, args, now, id, m2, reply, promote),
        Err(CommandError::NotAnArray) => reply == Frame::Failure("Message is not an array"@) && m2
            == m && !promote,
        Err(CommandError::NotACommand) => reply == Frame::Failure(
            "First element of array must be a bulk string"@,
        ) && m2 == m && !promote,
    }
}

/// The text of argument `i`, when it is a simple or bulk string.
fn arg_str(args: &Vec<RESPMessage>, i: usize) -> (r: Option<&str>)
    ensures
        r matches Some(t) ==> arg_text(frames_of(args@, args@.len()), i as int) == Some(t@),
        r is None ==> arg_text(frames_of(args@, args@.len()), i as int) is None,
{
    proof {
        lemma_frames_of(args@, args@.len());
    }
    if i < args.len() {
        args[i].pack_string()
    } else {
        None
    }
}

/// Answers the command `command` with arguments `args` at time `now`, on the server
/// `server_id`; the flag says whether the server is to become the leader.
#[verifier::rlimit(30)]
pub fn dispatch(
    cache: &mut Cache,
    command: &str,
    args: &Vec<RESPMessage>,
    now: u64,
    server_id: u32,
) -> (r: (RESPMessage, bool))
    requires
        old(cache).wf(),
    ensures
        final(cache).wf(),
        final(cache).capacity() == old(cache).capacity(),
        command_answer(
            old(cache)@,
            old(cache).capacity(),
            command@,
            frames_of(args@, args@.len()),
            now,
            server_id,
            final(cache)@,
            r.0@,
            r.1,
        ),
{
    proof {
        lemma_frames_of(args@, args@.len());
    }
    if is_named(command, "ping") {
        (RESPMessage::SimpleString(String::from_str("PONG")), false)
    } else if is_named(command, "echo") {
        if args.len() > 0 {
            (args[0].duplicate(), false)
        } else {
            (RESPMessage::Error(String::from_str("Invalid argument")), false)
        }
    } else if is_named(command, "get") {
        match arg_str(args, 0) {
            Some(k) => {
                let found = cache.get(k, now);
                match found {
                    Some(v) => (RESPMessage::BulkString(v), false),
                    None => (RESPMessage::Null, false),
                }
            },
            None => (RESPMessage::Error(String::from_str("Invalid key")), false),
        }
    } else if is_named(command, "set") {
        match (arg_str(args, 0), arg_str(args, 1)) {
            (Some(k), Some(v)) => {
                let ttl = match arg_str(args, 3) {
                    Some(t) => parse_number(t),
                    None => None,
                };
                cache.set(String::from_str(k), String::from_str(v), ttl, now);
                (RESPMessage::SimpleString(String::from_str("OK")), false)
            },
            _ => (RESPMessage::Error(String::from_str("Invalid key or value")), false),
        }
    } else if is_named(command, "del") {
        match arg_str(args, 0) {
            Some(k) => {
                let count = cache.remove(k);
                (RESPMessage::BulkString(decimal_string(count as u64)), false)
            },
            None => (RESPMessage::Error(String::from_str("Invalid Request")), false),
        }
    } else if is_named(command, "getserverid") {
        (RESPMessage::SimpleString(decimal_string(server_id as u64)), false)
    } else if is_named(command, "setleader") {
        (RESPMessage::SimpleString(String::from_str("OK")), true)
    } else if is_named(command, "sync") {
        let (mut keys, mut values) = cache.snapshot();
        let ghost ks = keys@.map_values(|w: String| w@);
        let ghost vs = values@.map_values(|w: String| w@);
        proof {
            assert(ks.no_duplicates()) by {
                assert forall|i: int, j: int| 0 <= i < ks.len() && 0 <= j < ks.len() && i != j implies ks[i]
                    != ks[j] by {
                    assert(ks[i] == keys@[i]@);
                    assert(ks[j] == keys@[j]@);
                }
            }
            assert forall|i: int| 0 <= i < ks.len() implies cache@.contains_key(#[trigger] ks[i])
                && cache@[ks[i]].value == vs[i] by {
                assert(ks[i] == keys@[i]@);
            }
            assert(lists(cache@, ks, vs));
        }
        keys.append(&mut values);
        let text = join_words(&keys);
        proof {
            assert(keys@.map_values(|w: String| w@) =~= ks + vs);
        }
        (RESPMessage::BulkString(text), false)
    } else {
        (RESPMessage::Error(String::from_str("Error")), false)
    }
}

/// Answers one message at time `now`, on the server `server_id`; the flag says whether
/// the server is to become the leader.
pub fn respond(cache: &mut Cache, message: &RESPMessage, now: u64, server_id: u32) -> (r: (
    RESPMessage,
    bool,
))
    requires
        old(cache).wf(),
    ensures
        final(cache).wf(),
        final(cache).capacity() == old(cache).capacity(),
        message_answer(
            old(cache)@,
            old(cache).capacity(),
            message@,
            now,
            server_id,
            final(cache)@,
            r.0@,
            r.1,
        ),
{
    match message.to_command() {
        Ok((command, args)) => {
            proof {
                lemma_frames_of(args@, args@.len());
                let (name, model) = command_of(message@)->Ok_0;
                assert(frames_of(args@, args@.len()) =~= model);
            }
            dispatch(cache, command.as_str(), &args, now, server_id)
        },
        Err(CommandError::NotAnArray) => (
            RESPMessage::Error(String::from_str("Message is not an array")),
            false,
        ),
        Err(CommandError::NotACommand) => (
            RESPMessage::Error(String::from_str("First element of array must be a bulk string")),
            false,
        ),
    }
}

/// The answer to the request at the start of `req`: its wire form is `bytes`. When
/// the request is no well-formed message, the answer is the decoding error.
pub open spec fn request_answer(
    m: Map<Seq<char>, CacheEntry>,
    cap: nat,
    req: Seq<u8>,
    now: u64,
    id: u32,
    m2: Map<Seq<char>, CacheEntry>,
    bytes: Seq<u8>,
    promote: bool,
) -> bool {
    exists|msg: Frame, n: nat|
        #[trigger] deserialized(req, msg, n) && (n == 0 ==> bytes == encode(msg) && m2 == m
            && !promote) && (n > 0 ==> exists|reply: Frame|
            #[trigger] message_answer(m, cap, msg, now, id, m2, reply, promote) && bytes == encode(
                reply,
            ))
}

/// Answers the request at the start of `request` at time `now`, on the server
/// `server_id`: the reply's wire form, and whether the server is to become the leader.
/// Bytes that start no well-formed message are answered with the decoding error.
#[verifier::rlimit(30)]
pub fn handle_request(cache: &mut Cache, request: &[u8], now: u64, server_id: u32) -> (r: (
    Vec<u8>,
    bool,
))
    requires
        old(cache).wf(),
    ensures
        final(cache).wf(),
        final(cache).capacity() == old(cache).capacity(),
        request_answer(
            old(cache)@,
            old(cache).capacity(),
            request@,
            now,
            server_id,
            final(cache)@,
            r.0@,
            r.1,
        ),
{
    let (message, used) = RESPMessage::deserialize(request);
    if used == 0 {
        let bytes = message.serialize();
        assert(deserialized(request@, message@, used as nat));
        assert(request_answer(
            old(cache)@,
            old(cache).capacity(),
            request@,
            now,
            server_id,
            cache@,
            bytes@,
            false,
        ));
        return (bytes, false);
    }
    let (reply, promote) = respond(cache, &message, now, server_id);
    let bytes = reply.serialize();
    proof {
        assert(message_answer(
            old(cache)@,
            old(cache).capacity(),
            message@,
            now,
            server_id,
            cache@,
            reply@,
            promote,
        ));
        assert(deserialized(request@, message@, used as nat));
        let ghost m1 = message@;
        let ghost n1 = used as nat;
        assert(n1 > 0 ==> exists|reply: Frame|
            #[trigger] message_answer(
                old(cache)@,
                old(cache).capacity(),
                m1,
                now,
                server_id,
                cache@,
                reply,
                promote,
            ) && bytes@ == encode(reply));
        assert(request_answer(
            old(cache)@,
            old(cache).capacity(),
            request@,
            now,
            server_id,
            cache@,
            bytes@,
            promote,
        ));
    }
    (bytes, promote)
}

/// The port a server is started on: a decimal number below 65536.
pub fn parse_port(t: &str) -> (r: Option<u16>)
    ensures
        r matches Some(p) ==> number_of(t@) == Some(p as u64),
        r is None ==> number_of(t@) is None || number_of(t@)->0 > u16::MAX,
{
    match parse_number(t) {
        Some(n) => if n <= 65535 {
            Some(n as u16)
        } else {
            None
        },
        None => None,
    }
}

/// The key/value pairs given after the port on the command line (`args` holds the
/// program name first, then the port): the keys stand at the even places from the
/// third on, each value just after its key.
pub fn startup_pairs(args: &Vec<String>) -> (r: (Vec<String>, Vec<String>))
    ensures
        r.0@.len() == if args@.len() > 2 {
            (args@.len() - 1) / 2
        } else {
            0
        },
        r.1@.len() == if args@.len() > 3 {
            (args@.len() - 2) / 2
        } else {
            0
        },
        forall|i: int| 0 <= i < r.0@.len() ==> #[trigger] r.0@[i] == args@[2 + 2 * i],
        forall|i: int| 0 <= i < r.1@.len() ==> #[trigger] r.1@[i] == args@[3 + 2 * i],
{
    let n = args.len();
    let nk: usize = if n > 2 {
        (n - 1) / 2
    } else {
        0
    };
    let nv: usize = if n > 3 {
        (n - 2) / 2
    } else {
        0
    };
    let mut keys: Vec<String> = Vec::new();
    let mut k: usize = 0;
    while k < nk
        invariant
            n == args@.len(),
            nk == if n > 2 {
                (n - 1) / 2
            } else {
                0
            },
            k <= nk,
            keys@.len() == k,
            forall|j: int| 0 <= j < keys@.len() ==> #[trigger] keys@[j] == args@[2 + 2 * j],
        decreases nk - k,
    {
        keys.push(args[2 + 2 * k].clone());
        k += 1;
    }
    let mut values: Vec<String> = Vec::new();
    let mut v: usize = 0;
    while v < nv
        invariant
            n == args@.len(),
            nv == if n > 3 {
                (n - 2) / 2
            } else {
                0
            },
            v <= nv,
            values@.len() == v,
            forall|j: int| 0 <= j < values@.len() ==> #[trigger] values@[j] == args@[3 + 2 * j],
        decreases nv - v,
    {
        values.push(args[3 + 2 * v].clone());
        v += 1;
    }
    (keys, values)
}

} // verus!
