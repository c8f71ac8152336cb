use crate::resp::{encode, Frame, RESPMessage};
use crate::server::number_of;
use vstd::prelude::*;
use vstd::string::{StrSliceExecFns, StringExecFns};

verus! {

/// The port the leader listens on.
pub const LEADER_PORT: u16 = 6379;

/// The first port a replica may listen on.
pub const FIRST_PEER_PORT: u16 = 6380;

/// The last port a replica may listen on.
pub const LAST_PEER_PORT: u16 = 6389;

/// What a live server answers to `GETSERVERID`: a plus sign, digits, CRLF.
pub const SERVER_ID_PATTERN: &'static str = "^\\+\\d+\\r\\n";

/// Whether `pattern` compiles, and if so whether it matches somewhere in `text`.
pub uninterp spec fn regex_match(pattern: Seq<char>, text: Seq<char>) -> Option<bool>;

/// Relies on regex::Regex::new to compile `pattern` (None when it fails) and on
/// Regex::is_match to test `text`: the outcome depends on the two texts alone.
#[verifier::external_body]
fn pattern_matches(pattern: &str, text: &str) -> (r: Option<bool>)
    ensures
        r == regex_match(pattern@, text@),
{
    match regex::Regex::new(pattern) {
        Ok(re) => Some(re.is_match(text)),
        Err(_) => None,
    }
}

/// The ports the replicas may listen on.
pub fn peer_ports() -> (r: Vec<u16>)
    ensures
        r@.len() == LAST_PEER_PORT - FIRST_PEER_PORT + 1,
        forall|i: int| 0 <= i < r@.len() ==> #[trigger] r@[i] == FIRST_PEER_PORT + i,
{
    let mut r: Vec<u16> = Vec::new();
    let mut p: u16 = FIRST_PEER_PORT;
    while p <= LAST_PEER_PORT
        invariant
            FIRST_PEER_PORT <= p <= LAST_PEER_PORT + 1,
            r@.len() == p - FIRST_PEER_PORT,
            forall|i: int| 0 <= i < r@.len() ==> #[trigger] r@[i] == FIRST_PEER_PORT + i,
        decreases LAST_PEER_PORT + 1 - p,
    {
        r.push(p);
        p += 1;
    }
    r
}

/// The wire form of the command `name` sent without arguments.
pub fn command_bytes(name: &str) -> (r: Vec<u8>)
    ensures
        r@ == encode(Frame::Arr(seq![Frame::Bulk(name@)])),
{
    let mut parts: Vec<RESPMessage> = Vec::new();
    parts.push(RESPMessage::BulkString(String::from_str(name)));
    let m = RESPMessage::Array(parts);
    proof {
        crate::resp::lemma_array_view(parts);
        assert(m@ == Frame::Arr(seq![Frame::Bulk(name@)])) by {
            assert(m@->Arr_0 =~= seq![Frame::Bulk(name@)]);
        }
    }
    m.serialize()
}

/// `c` is white space as Unicode defines it (the `White_Space` property): tab, line
/// and page breaks, the space, next line, the no-break spaces, the Ogham space mark,
/// the typographic spaces, the line and paragraph separators, and the ideographic
/// space.
pub open spec fn is_space(c: char) -> bool {
    ||| '\t' <= c <= '\r'
    ||| c == ' '
    ||| c == '\u{85}'
    ||| c == '\u{a0}'
    ||| c == '\u{1680}'
    ||| '\u{2000}' <= c <= '\u{200a}'
    ||| c == '\u{2028}'
    ||| c == '\u{2029}'
    ||| c == '\u{202f}'
    ||| c == '\u{205f}'
    ||| c == '\u{3000}'
}

fn space_char(c: char) -> (r: bool)
    ensures
        r == is_space(c),
{
    ('\t' <= c && c <= '\r') || c == ' ' || c == '\u{85}' || c == '\u{a0}' || c == '\u{1680}'
        || ('\u{2000}' <= c && c <= '\u{200a}') || c == '\u{2028}' || c == '\u{2029}' || c
        == '\u{202f}' || c == '\u{205f}' || c == '\u{3000}'
}

/// The number of leading characters of `s` that are `c`.
pub open spec fn leading(s: Seq<char>, c: char) -> nat
    decreases s.len(),
{
    if s.len() > 0 && s[0] == c {
        1 + leading(s.drop_first(), c)
    } else {
        0
    }
}

/// The number of leading white-space characters of `s`.
pub open spec fn leading_space(s: Seq<char>) -> nat
    decreases s.len(),
{
    if s.len() > 0 && is_space(s[0]) {
        1 + leading_space(s.drop_first())
    } else {
        0
    }
}

/// The number of trailing white-space characters of `s`.
pub open spec fn trailing_space(s: Seq<char>) -> nat
    decreases s.len(),
{
    if s.len() > 0 && is_space(s.last()) {
        1 + trailing_space(s.drop_last())
    } else {
        0
    }
}

/// `s` without its leading plus signs, then without white space at either end.
pub open spec fn reply_core(s: Seq<char>) -> Seq<char> {
    let t = s.skip(leading(s, '+') as int);
    let u = t.skip(leading_space(t) as int);
    u.take(u.len() - trailing_space(u))
}

proof fn lemma_leading(s: Seq<char>, c: char, k: int)
    requires
        0 <= k <= s.len(),
        forall|j: int| 0 <= j < k ==> s[j] == c,
        k == s.len() || s[k] != c,
    ensures
        leading(s, c) == k,
    decreases k,
{
    if k > 0 {
        lemma_leading(s.drop_first(), c, k - 1);
    }
}

proof fn lemma_leading_space(s: Seq<char>, k: int)
    requires
        0 <= k <= s.len(),
        forall|j: int| 0 <= j < k ==> is_space(s[j]),
        k == s.len() || !is_space(s[k]),
    ensures
        leading_space(s) == k,
    decreases k,
{
    if k > 0 {
        lemma_leading_space(s.drop_first(), k - 1);
    }
}

proof fn lemma_trailing_space(s: Seq<char>, k: int)
    requires
        0 <= k <= s.len(),
        forall|j: int| s.len() - k <= j < s.len() ==> is_space(s[j]),
        k == s.len() || !is_space(s[s.len() - k - 1]),
    ensures
        trailing_space(s) == k,
    decreases k,
{
    if k > 0 {
        lemma_trailing_space(s.drop_last(), k - 1);
    }
}

/// The text of a reply without its leading plus signs and surrounding white space.
pub fn core_of_reply(s: &str) -> (r: String)
    ensures
        r@ == reply_core(s@),
{
    let n = s.unicode_len();
    let mut a: usize = 0;
    while a < n && s.get_char(a) == '+'
        invariant
            n == s@.len(),
            a <= n,
            forall|j: int| 0 <= j < a ==> s@[j] == '+',
        decreases n - a,
    {
        a += 1;
    }
    let mut b: usize = a;
    while b < n && space_char(s.get_char(b))
        invariant
            n == s@.len(),
            a <= b <= n,
            forall|j: int| a <= j < b ==> is_space(s@[j]),
        decreases n - b,
    {
        b += 1;
    }
    let mut e: usize = n;
    while e > b && space_char(s.get_char(e - 1))
        invariant
            n == s@.len(),
            b <= e <= n,
            forall|j: int| e <= j < n ==> is_space(s@[j]),
        decreases e - b,
    {
        e -= 1;
    }
    let r = s.substring_char(b, e).to_owned();
    proof {
        lemma_leading(s@, '+', a as int);
        let t = s@.skip(a as int);
        lemma_leading_space(t, b - a);
        let u = t.skip(b - a);
        assert(u =~= s@.skip(b as int));
        lemma_trailing_space(u, n - e);
        assert(r@ =~= reply_core(s@));
    }
    r
}

/// The reply of the leader to `PING` says that it is alive.
pub open spec fn leader_alive(reply: Seq<char>) -> bool {
    reply_core(reply) == "PONG"@
}

/// Whether the leader's reply to `PING` says that it is alive.
pub fn leader_answered(reply: &str) -> (r: bool)
    ensures
        r == leader_alive(reply@),
{
    let core = core_of_reply(reply);
    core == String::from_str("PONG")
}

/// The identity that a reply to `GETSERVERID` gives.
pub open spec fn reply_id(reply: Seq<char>) -> Option<u64> {
    number_of(reply_core(reply))
}

/// Reads the identity in a reply to `GETSERVERID`.
pub fn server_id_of(reply: &str) -> (r: Option<u64>)
    ensures
        r == reply_id(reply@),
{
    let core = core_of_reply(reply);
    crate::server::parse_number(core.as_str())
}

/// What an election decides.
#[derive(Clone, Copy, Debug, PartialEq, Eq, Structural)]
pub enum Decision {
    /// This server has the largest identity: it becomes the leader.
    Promote,
    /// The server on this port has the largest identity: it is told to lead.
    Notify(u16),
}

/// The largest identity among `own` and those of the candidates.
pub open spec fn max_id(own: u64, cs: Seq<(u64, u16)>) -> u64
    decreases cs.len(),
{
    if cs.len() == 0 {
        own
    } else {
        let m = max_id(own, cs.drop_last());
        if cs.last().0 > m {
            cs.last().0
        } else {
            m
        }
    }
}

/// The port of the last candidate with identity `id`.
pub open spec fn port_of(cs: Seq<(u64, u16)>, id: u64) -> Option<u16>
    decreases cs.len(),
{
    if cs.len() == 0 {
        None
    } else if cs.last().0 == id {
        Some(cs.last().1)
    } else {
        port_of(cs.drop_last(), id)
    }
}

/// The outcome of an election among this server, of identity `own`, and the
/// candidates, each an identity and a port: the largest identity wins; a candidate
/// with it, the last one listed, is told to lead; otherwise this server leads.
pub open spec fn decision(own: u64, cs: Seq<(u64, u16)>) -> Decision {
    match port_of(cs, max_id(own, cs)) {
        Some(p) => Decision::Notify(p),
        None => Decision::Promote,
    }
}

/// Decides an election among this server, of identity `own`, and the candidates.
pub fn choose_leader(own: u64, candidates: &Vec<(u64, u16)>) -> (r: Decision)
    ensures
        r == decision(own, candidates@),
{
    let mut best: u64 = own;
    let mut i: usize = 0;
    while i < candidates.len()
        invariant
            i <= candidates@.len(),
            best == max_id(own, candidates@.take(i as int)),
        decreases candidates.len() - i,
    {
        proof {
            assert(candidates@.take(i + 1).drop_last() =~= candidates@.take(i as int));
        }
        if candidates[i].0 > best {
            best = candidates[i].0;
        }
        i += 1;
    }
    proof {
        assert(candidates@.take(i as int) =~= candidates@);
    }
    let mut j: usize = candidates.len();
    while j > 0
        invariant
            j <= candidates@.len(),
            best == max_id(own, candidates@),
            port_of(candidates@, best) == port_of(candidates@.take(j as int), best),
        decreases j,
    {
        proof {
            assert(candidates@.take(j as int).drop_last() =~= candidates@.take(j - 1));
        }
        if candidates[j - 1].0 == best {
            return Decision::Notify(candidates[j - 1].1);
        }
        j -= 1;
    }
    Decision::Promote
}

/// For each reply, whether the server identity pattern matches it.
pub open spec fn matches_of(replies: Seq<(u16, String)>) -> Seq<bool>
    decreases replies.len(),
{
    if replies.len() == 0 {
        seq![]
    } else {
        matches_of(replies.drop_last()).push(
            regex_match(SERVER_ID_PATTERN@, replies.last().1@) == Some(true),
        )
    }
}

/// The candidates that replies to `GETSERVERID` name, given for each reply whether the
/// server identity pattern matches it: each matching reply that holds a number gives
/// its number and its port.
pub open spec fn candidates_from(replies: Seq<(u16, String)>, matched: Seq<bool>) -> Seq<
    (u64, u16),
>
    decreases replies.len(),
{
    if replies.len() == 0 || matched.len() == 0 {
        seq![]
    } else {
        let rest = candidates_from(replies.drop_last(), matched.drop_last());
        let (port, reply) = replies.last();
        if matched.last() && reply_id(reply@) is Some {
            rest.push((reply_id(reply@)->0, port))
        } else {
            rest
        }
    }
}

/// The candidates that replies to `GETSERVERID` name.
pub open spec fn candidates_of(replies: Seq<(u16, String)>) -> Seq<(u64, u16)> {
    candidates_from(replies, matches_of(replies))
}

/// The candidates that the replies name, each an identity and a port, given for each
/// reply whether the server identity pattern matches it.
pub fn candidates(replies: &Vec<(u16, String)>, matched: &Vec<bool>) -> (r: Vec<(u64, u16)>)
    requires
        matched@.len() == replies@.len(),
    ensures
        r@ == candidates_from(replies@, matched@),
{
    let mut out: Vec<(u64, u16)> = Vec::new();
    let mut i: usize = 0;
    while i < replies.len()
        invariant
            matched@.len() == replies@.len(),
            i <= replies@.len(),
            out@ == candidates_from(replies@.take(i as int), matched@.take(i as int)),
        decreases replies.len() - i,
    {
        proof {
            assert(replies@.take(i + 1).drop_last() =~= replies@.take(i as int));
            assert(matched@.take(i + 1).drop_last() =~= matched@.take(i as int));
        }
        if matched[i] {
            match server_id_of(replies[i].1.as_str()) {
                Some(id) => {
                    out.push((id, replies[i].0));
                },
                None => {},
            }
        }
        i += 1;
    }
    proof {
        assert(replies@.take(i as int) =~= replies@);
        assert(matched@.take(i as int) =~= matched@);
    }
    out
}

proof fn lemma_matches_len(replies: Seq<(u16, String)>)
    ensures
        matches_of(replies).len() == replies.len(),
    decreases replies.len(),
{
    if replies.len() > 0 {
        lemma_matches_len(replies.drop_last());
    }
}

/// Decides an election from the replies to `GETSERVERID`, each with the port it came
/// from, on the server of identity `own`.
pub fn elect(own: u32, replies: &Vec<(u16, String)>) -> (r: Decision)
    ensures
        r == decision(own as u64, candidates_of(replies@)),
{
    let mut matched: Vec<bool> = Vec::new();
    let mut i: usize = 0;
    while i < replies.len()
        invariant
            i <= replies@.len(),
            matched@ == matches_of(replies@.take(i as int)),
        decreases replies.len() - i,
    {
        proof {
            assert(replies@.take(i + 1).drop_last() =~= replies@.take(i as int));
        }
        let m = pattern_matches(SERVER_ID_PATTERN, replies[i].1.as_str());
        matched.push(m == Some(true));
        i += 1;
    }
    proof {
        assert(replies@.take(i as int) =~= replies@);
        lemma_matches_len(replies@);
    }
    let cs = candidates(replies, &matched);
    choose_leader(own as u64, &cs)
}

} // verus!
