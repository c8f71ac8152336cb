use vstd::prelude::*;
use vstd::slice::slice_subrange;
use vstd::string::StringExecFns;
use vstd::utf8::*;

verus! {

broadcast use vstd::std_specs::vec::group_vec_axioms;

/// A protocol message.
#[derive(Debug, PartialEq, Eq)]
pub enum RESPMessage {
    SimpleString(String),
    Error(String),
    Integer(u64),
    BulkString(String),
    Array(Vec<RESPMessage>),
    Null,
}

/// The mathematical model of a message: text as characters.
pub enum Frame {
    /// A simple string.
    Simple(Seq<char>),
    /// An error.
    Failure(Seq<char>),
    /// An integer.
    Int(u64),
    /// A bulk string.
    Bulk(Seq<char>),
    /// An array of messages.
    Arr(Seq<Frame>),
    /// The null bulk string.
    Nil,
}

impl View for RESPMessage {
    type V = Frame;

    open spec fn view(&self) -> Frame {
        frame_of(*self)
    }
}

/// The model of a message.
pub open spec fn frame_of(m: RESPMessage) -> Frame
    decreases m,
{
    match m {
        RESPMessage::SimpleString(s) => Frame::Simple(s@),
        RESPMessage::Error(s) => Frame::Failure(s@),
        RESPMessage::Integer(n) => Frame::Int(n),
        RESPMessage::BulkString(s) => Frame::Bulk(s@),
        RESPMessage::Array(v) => Frame::Arr(frames_of(v@, v@.len())),
        RESPMessage::Null => Frame::Nil,
    }
}

/// The models of the first `k` messages of `s`.
pub open spec fn frames_of(s: Seq<RESPMessage>, k: nat) -> Seq<Frame>
    decreases s, k,
{
    if k == 0 || k > s.len() {
        Seq::empty()
    } else {
        frames_of(s, (k - 1) as nat).push(frame_of(s[k - 1]))
    }
}

pub(crate) proof fn lemma_frames_of(s: Seq<RESPMessage>, k: nat)
    requires
        k <= s.len(),
    ensures
        frames_of(s, k).len() == k,
        forall|i: int| 0 <= i < k ==> #[trigger] frames_of(s, k)[i] == frame_of(s[i]),
    decreases k,
{
    if k > 0 {
        lemma_frames_of(s, (k - 1) as nat);
    }
}

/// The models of the elements of an array message.
pub(crate) proof fn lemma_array_view(v: Vec<RESPMessage>)
    ensures
        RESPMessage::Array(v)@->Arr_0.len() == v.len(),
        forall|i: int| 0 <= i < v.len() ==> #[trigger] RESPMessage::Array(v)@->Arr_0[i] == v[i]@,
{
    lemma_frames_of(v@, v@.len());
}

/// The line terminator.
pub open spec fn crlf() -> Seq<u8> {
    seq![13u8, 10u8]
}

/// The decimal digits of `n`, most significant first, without leading zeros.
pub open spec fn decimal(n: nat) -> Seq<u8>
    decreases n,
{
    if n < 10 {
        seq![(48 + n) as u8]
    } else {
        decimal(n / 10) + seq![(48 + n % 10) as u8]
    }
}

/// The bytes of a UTF-8 text.
pub open spec fn utf8(s: Seq<char>) -> Seq<u8> {
    encode_utf8(s)
}

/// The wire form of a message.
pub open spec fn encode(f: Frame) -> Seq<u8>
    decreases f,
{
    match f {
        Frame::Simple(s) => seq![43u8] + utf8(s) + crlf(),
        Frame::Failure(s) => seq![45u8] + utf8(s) + crlf(),
        Frame::Int(n) => seq![58u8] + decimal(n as nat) + crlf(),
        Frame::Bulk(s) => seq![36u8] + decimal(utf8(s).len()) + crlf() + utf8(s) + crlf(),
        Frame::Arr(xs) => seq![42u8] + decimal(xs.len()) + crlf() + encode_prefix(xs, xs.len()),
        Frame::Nil => seq![36u8, 45u8, 49u8, 13u8, 10u8],
    }
}

/// The wire forms of the first `k` messages of `xs`, one after another.
pub open spec fn encode_prefix(xs: Seq<Frame>, k: nat) -> Seq<u8>
    decreases xs, k,
{
    if k == 0 || k > xs.len() {
        Seq::empty()
    } else {
        encode_prefix(xs, (k - 1) as nat) + encode(xs[k - 1])
    }
}

/// A message can travel on the wire and come back unchanged: line texts hold no
/// carriage return.
pub open spec fn well_formed(f: Frame) -> bool
    decreases f,
{
    match f {
        Frame::Simple(s) => !s.contains('\r'),
        Frame::Failure(s) => !s.contains('\r'),
        Frame::Arr(xs) => all_well_formed(xs, xs.len()),
        _ => true,
    }
}

/// The first `k` messages of `xs` are well formed.
pub open spec fn all_well_formed(xs: Seq<Frame>, k: nat) -> bool
    decreases xs, k,
{
    if k == 0 || k > xs.len() {
        true
    } else {
        all_well_formed(xs, (k - 1) as nat) && well_formed(xs[k - 1])
    }
}

proof fn lemma_all_well_formed(xs: Seq<Frame>, k: nat)
    requires
        k <= xs.len(),
    ensures
        all_well_formed(xs, k) <==> forall|i: int| 0 <= i < k ==> #[trigger] well_formed(xs[i]),
    decreases k,
{
    if k > 0 {
        lemma_all_well_formed(xs, (k - 1) as nat);
        if forall|i: int| 0 <= i < k ==> #[trigger] well_formed(xs[i]) {
            assert(well_formed(xs[k - 1]));
            assert(all_well_formed(xs, (k - 1) as nat));
        }
        if all_well_formed(xs, k) {
            assert forall|i: int| 0 <= i < k implies #[trigger] well_formed(xs[i]) by {
                if i < k - 1 {
                    assert(all_well_formed(xs, (k - 1) as nat));
                }
            }
        }
    }
}

/// Writes the decimal digits of `n` at the end of `out`.
fn push_decimal(out: &mut Vec<u8>, n: u64)
    ensures
        final(out)@ == old(out)@ + decimal(n as nat),
    decreases n,
{
    if n >= 10 {
        push_decimal(out, n / 10);
    }
    out.push(48 + (n % 10) as u8);
    proof {
        assert(final(out)@ =~= old(out)@ + decimal(n as nat));
    }
}

fn push_crlf(out: &mut Vec<u8>)
    ensures
        final(out)@ == old(out)@ + crlf(),
{
    out.push(13);
    out.push(10);
    assert(final(out)@ =~= old(out)@ + crlf());
}

fn push_text(out: &mut Vec<u8>, s: &String)
    ensures
        final(out)@ == old(out)@ + utf8(s@),
{
    let b = s.as_str().as_bytes();
    let mut i: usize = 0;
    while i < b.len()
        invariant
            i <= b@.len(),
            b@ == utf8(s@),
            out@ == old(out)@ + b@.take(i as int),
        decreases b.len() - i,
    {
        out.push(b[i]);
        i += 1;
        assert(out@ =~= old(out)@ + b@.take(i as int));
    }
    assert(b@.take(i as int) =~= b@);
}

impl RESPMessage {
    /// The wire form of this message.
    pub fn serialize(&self) -> (r: Vec<u8>)
        ensures
            r@ == encode(self@),
        decreases self@,
    {
        let mut result: Vec<u8> = Vec::new();
        match self {
            RESPMessage::SimpleString(s) => {
                result.push(43);
                push_text(&mut result, s);
                push_crlf(&mut result);
                assert(result@ =~= encode(self@));
            },
            RESPMessage::Error(s) => {
                result.push(45);
                push_text(&mut result, s);
                push_crlf(&mut result);
                assert(result@ =~= encode(self@));
            },
            RESPMessage::Integer(n) => {
                result.push(58);
                push_decimal(&mut result, *n);
                push_crlf(&mut result);
                assert(self@ == Frame::Int(*n));
                assert(result@ =~= seq![58u8] + decimal(*n as nat) + crlf());
            },
            RESPMessage::BulkString(s) => {
                result.push(36);
                let len = s.as_str().as_bytes().len();
                push_decimal(&mut result, len as u64);
                push_crlf(&mut result);
                push_text(&mut result, s);
                push_crlf(&mut result);
                assert(result@ =~= encode(self@));
            },
            RESPMessage::Array(a) => {
                result.push(42);
                push_decimal(&mut result, a.len() as u64);
                push_crlf(&mut result);
                let ghost head = result@;
                let ghost xs = self@->Arr_0;
                proof {
                    lemma_array_view(*a);
                }
                let mut i: usize = 0;
                while i < a.len()
                    invariant
                        i <= a@.len(),
                        self@ == Frame::Arr(xs),
                        xs.len() == a@.len(),
                        forall|j: int| 0 <= j < a@.len() ==> xs[j] == (#[trigger] a@[j])@,
                        result@ == head + encode_prefix(xs, i as nat),
                    decreases a.len() - i,
                {
                    proof {
                        let ghost f: Frame = self@;
                        assert(decreases_to!(f => f->Arr_0));
                        assert(decreases_to!(f->Arr_0 => a[i as int]@));
                    }
                    let mut part = a[i].serialize();
                    result.append(&mut part);
                    i += 1;
                }
                assert(result@ =~= encode(self@));
            },
            RESPMessage::Null => {
                result.push(36);
                result.push(45);
                result.push(49);
                push_crlf(&mut result);
                assert(result@ =~= encode(self@));
            },
        }
        assert(result@ == encode(self@));
        result
    }
}

/// The first byte of each message's wire form.
pub open spec fn tag_of(f: Frame) -> u8 {
    match f {
        Frame::Simple(_) => 43,
        Frame::Failure(_) => 45,
        Frame::Int(_) => 58,
        Frame::Bulk(_) => 36,
        Frame::Arr(_) => 42,
        Frame::Nil => 36,
    }
}

/// `b` is an ASCII decimal digit.
pub open spec fn is_digit_byte(b: u8) -> bool {
    48 <= b <= 57
}

/// The number written by a sequence of decimal digits.
pub open spec fn digits_value(s: Seq<u8>) -> nat
    decreases s.len(),
{
    if s.len() == 0 {
        0
    } else {
        digits_value(s.drop_last()) * 10 + (s.last() - 48) as nat
    }
}

/// Decimal digits as `decimal` writes them: at least one, and no leading zero.
pub open spec fn canonical_digits(s: Seq<u8>) -> bool {
    &&& s.len() >= 1
    &&& forall|i: int| 0 <= i < s.len() ==> is_digit_byte(#[trigger] s[i])
    &&& (s.len() == 1 || s[0] != 48)
}

proof fn lemma_decimal(n: nat)
    ensures
        canonical_digits(decimal(n)),
        digits_value(decimal(n)) == n,
    decreases n,
{
    let d = decimal(n);
    if n >= 10 {
        lemma_decimal(n / 10);
        let h = decimal(n / 10);
        assert(d.drop_last() =~= h);
        assert(d[0] == h[0]);
        assert(n == (n / 10) * 10 + n % 10 && n % 10 < 10) by (nonlinear_arith);
        assert(d.last() == (48 + n % 10) as u8);
        if h.len() == 1 {
            assert(h.drop_last().len() == 0);
            assert(digits_value(h.drop_last()) == 0);
            assert(h[0] != 48);
        }
        assert(d[0] != 48);
        assert forall|i: int| 0 <= i < d.len() implies is_digit_byte(#[trigger] d[i]) by {
            if i < h.len() {
                assert(d[i] == h[i]);
            }
        }
    } else {
        assert(d.drop_last().len() == 0);
        assert(digits_value(d.drop_last()) == 0);
        assert(is_digit_byte(d[0]));
    }
}

proof fn lemma_canonical_digits(s: Seq<u8>)
    requires
        canonical_digits(s),
    ensures
        decimal(digits_value(s)) == s,
    decreases s.len(),
{
    if s.len() == 1 {
        assert(s.drop_last().len() == 0);
        assert(digits_value(s.drop_last()) == 0);
        assert(digits_value(s) == (s[0] - 48) as nat);
        assert(decimal(digits_value(s)) =~= s);
    } else {
        let t = s.drop_last();
        assert(t[0] == s[0]);
        assert(canonical_digits(t));
        lemma_canonical_digits(t);
        if t.len() == 1 {
            assert(digits_value(t) >= 1) by {
                assert(t.drop_last().len() == 0);
            }
        } else {
            lemma_digits_positive(t);
        }
        let v = digits_value(s);
        let d = (s.last() - 48) as nat;
        assert(v == digits_value(t) * 10 + d);
        assert(v / 10 == digits_value(t) && v % 10 == d) by (nonlinear_arith)
            requires
                v == digits_value(t) * 10 + d,
                d < 10,
        ;
        assert(decimal(v) =~= s);
    }
}

proof fn lemma_digits_positive(s: Seq<u8>)
    requires
        s.len() >= 1,
        s[0] != 48,
        forall|i: int| 0 <= i < s.len() ==> is_digit_byte(#[trigger] s[i]),
    ensures
        digits_value(s) >= 1,
    decreases s.len(),
{
    if s.len() > 1 {
        let t = s.drop_last();
        assert(t[0] == s[0]);
        lemma_digits_positive(t);
    } else {
        assert(s.drop_last().len() == 0);
    }
}

proof fn lemma_digits_monotone(s: Seq<u8>, k: int)
    requires
        0 <= k <= s.len(),
        forall|i: int| 0 <= i < s.len() ==> is_digit_byte(#[trigger] s[i]),
    ensures
        digits_value(s.take(k)) <= digits_value(s),
    decreases s.len(),
{
    if k < s.len() {
        let t = s.drop_last();
        assert(s.take(k) =~= t.take(k));
        lemma_digits_monotone(t, k);
    } else {
        assert(s.take(k) =~= s);
    }
}

proof fn lemma_char_no_cr(c: char)
    ensures
        encode_scalar(c as u32).contains(13u8) <==> c == '\r',
{
    let v = c as u32;
    char_is_scalar(c);
    if has_width_1_encoding(v) {
        assert((v & 0x7F) as u8 == 13u8 <==> v == 13u32) by (bit_vector)
            requires
                v <= 0x7F,
        ;
        let e = encode_scalar(v);
        assert(e =~= seq![(v & 0x7F) as u8]);
        char_u32_cast(c, v);
        assert(c == '\r' <==> v == 13u32);
        if c == '\r' {
            assert(e[0] == 13u8);
        }
    } else {
        assert(0xC0u8 | ((v >> 6) & 0x1F) as u8 >= 0x80u8) by (bit_vector);
        assert(0xE0u8 | ((v >> 12) & 0x0F) as u8 >= 0x80u8) by (bit_vector);
        assert(0xF0u8 | ((v >> 18) & 0x7) as u8 >= 0x80u8) by (bit_vector);
        assert(0x80u8 | (v & 0x3F) as u8 >= 0x80u8) by (bit_vector);
        assert(0x80u8 | ((v >> 6) & 0x3F) as u8 >= 0x80u8) by (bit_vector);
        assert(0x80u8 | ((v >> 12) & 0x3F) as u8 >= 0x80u8) by (bit_vector);
        assert(c != '\r');
        let e = encode_scalar(v);
        assert forall|i: int| 0 <= i < e.len() implies e[i] >= 0x80u8 by {}
    }
}

/// A text holds a carriage return exactly when its bytes hold one.
#[verifier::rlimit(30)]
proof fn lemma_utf8_no_cr(s: Seq<char>)
    ensures
        utf8(s).contains(13u8) <==> s.contains('\r'),
    decreases s.len(),
{
    if s.len() > 0 {
        lemma_utf8_no_cr(s.drop_first());
        lemma_char_no_cr(s[0]);
        let a = encode_scalar(s[0] as u32);
        let b = utf8(s.drop_first());
        assert(utf8(s) == a + b);
        if (a + b).contains(13u8) {
            let i = choose|i: int| 0 <= i < (a + b).len() && (a + b)[i] == 13u8;
            if i < a.len() {
                assert(a[i] == 13u8);
            } else {
                assert(b[i - a.len()] == 13u8);
                let j = choose|j: int| 0 <= j < s.drop_first().len() && s.drop_first()[j] == '\r';
                assert(s[j + 1] == '\r');
            }
        }
        if s.contains('\r') {
            let j = choose|j: int| 0 <= j < s.len() && s[j] == '\r';
            if j == 0 {
                let i = choose|i: int| 0 <= i < a.len() && a[i] == 13u8;
                assert((a + b)[i] == 13u8);
            } else {
                assert(s.drop_first()[j - 1] == '\r');
                let i = choose|i: int| 0 <= i < b.len() && b[i] == 13u8;
                assert((a + b)[i + a.len()] == 13u8);
            }
        }
    } else {
        assert(utf8(s) =~= Seq::<u8>::empty());
    }
}

/// Texts with the same bytes are the same text.
proof fn lemma_utf8_injective(s: Seq<char>, t: Seq<char>)
    requires
        utf8(s) == utf8(t),
    ensures
        s == t,
{
    encode_utf8_decode_utf8(s);
    encode_utf8_decode_utf8(t);
}

proof fn lemma_encode_tag(f: Frame)
    ensures
        encode(f).len() >= 3,
        encode(f)[0] == tag_of(f),
{
    match f {
        Frame::Int(n) => {
            lemma_decimal(n as nat);
        },
        Frame::Bulk(s) => {
            lemma_decimal(utf8(s).len());
        },
        Frame::Arr(xs) => {
            lemma_decimal(xs.len());
        },
        _ => {},
    }
}

proof fn lemma_encode_prefix_grows(xs: Seq<Frame>, i: nat, k: nat)
    requires
        i < k <= xs.len(),
    ensures
        (encode_prefix(xs, i) + encode(xs[i as int])).is_prefix_of(encode_prefix(xs, k)),
    decreases k,
{
    if k == i + 1 {
    } else {
        lemma_encode_prefix_grows(xs, i, (k - 1) as nat);
        assert(encode_prefix(xs, k) == encode_prefix(xs, (k - 1) as nat) + encode(xs[k - 1]));
    }
}

/// The number of bytes before the first carriage return, or the whole length when
/// there is none.
pub fn start_to_cflf(bytes: &[u8]) -> (r: usize)
    ensures
        r <= bytes@.len(),
        forall|j: int| 0 <= j < r ==> bytes@[j] != 13u8,
        r < bytes@.len() ==> bytes@[r as int] == 13u8,
{
    let mut index: usize = 0;
    while index < bytes.len() && bytes[index] != 13
        invariant
            index <= bytes@.len(),
            forall|j: int| 0 <= j < index ==> bytes@[j] != 13u8,
        decreases bytes.len() - index,
    {
        index += 1;
    }
    index
}

/// The first carriage return of `c` stands just after `seg` when `c` starts with
/// `seg` and a carriage return, and `seg` holds none.
proof fn lemma_first_cr(c: Seq<u8>, k: int, seg: Seq<u8>)
    requires
        0 <= k <= c.len(),
        forall|j: int| 0 <= j < k ==> c[j] != 13u8,
        k < c.len() ==> c[k] == 13u8,
        !seg.contains(13u8),
        seg.len() < c.len(),
        c.take(seg.len() as int) == seg,
        c[seg.len() as int] == 13u8,
    ensures
        k == seg.len(),
{
    if k < seg.len() {
        assert(seg[k] == c[k]);
    } else if k > seg.len() {
        assert(c[seg.len() as int] != 13u8);
    }
}

/// The number that the canonical decimal digits `bytes[from..to]` write, when it fits.
fn parse_decimal(bytes: &[u8], from: usize, to: usize) -> (r: Option<u64>)
    requires
        from <= to <= bytes@.len(),
    ensures
        r matches Some(v) ==> canonical_digits(bytes@.subrange(from as int, to as int))
            && v == digits_value(bytes@.subrange(from as int, to as int)),
        canonical_digits(bytes@.subrange(from as int, to as int)) && digits_value(
            bytes@.subrange(from as int, to as int),
        ) <= u64::MAX ==> r == Some(digits_value(bytes@.subrange(from as int, to as int)) as u64),
{
    let ghost sub = bytes@.subrange(from as int, to as int);
    if from == to {
        return None;
    }
    if to - from > 1 && bytes[from] == 48 {
        return None;
    }
    let mut acc: u64 = 0;
    let mut i: usize = from;
    while i < to
        invariant
            from <= i <= to <= bytes@.len(),
            sub == bytes@.subrange(from as int, to as int),
            forall|j: int| 0 <= j < i - from ==> is_digit_byte(#[trigger] sub[j]),
            acc == digits_value(sub.take(i - from)),
        decreases to - i,
    {
        let d = bytes[i];
        if d < 48 || d > 57 {
            assert(sub[i - from] == d);
            return None;
        }
        let v = (d - 48) as u64;
        proof {
            assert(sub.take(i + 1 - from).drop_last() =~= sub.take(i - from));
        }
        if acc > 1844674407370955161 || (acc == 1844674407370955161 && v > 5) {
            proof {
                assert forall|j: int| 0 <= j < i + 1 - from implies is_digit_byte(
                    #[trigger] sub.take(i + 1 - from)[j],
                ) by {}
                if canonical_digits(sub) {
                    lemma_digits_monotone(sub, i + 1 - from);
                }
            }
            return None;
        }
        acc = acc * 10 + v;
        i += 1;
    }
    proof {
        assert(sub.take(to - from) =~= sub);
    }
    Some(acc)
}

/// Relies on std::str::from_utf8: it accepts exactly the valid UTF-8 byte sequences,
/// and the text it gives back is made of those bytes.
#[verifier::external_body]
fn utf8_text(bytes: &[u8]) -> (r: Option<String>)
    ensures
        r is Some <==> valid_utf8(bytes@),
        r matches Some(s) ==> utf8(s@) == bytes@,
{
    match std::str::from_utf8(bytes) {
        Ok(s) => Some(s.to_string()),
        Err(_) => None,
    }
}

/// The header of a message's wire form: what stands between its tag and the first CRLF.
pub open spec fn head_of(f: Frame) -> Seq<u8> {
    match f {
        Frame::Simple(s) => utf8(s),
        Frame::Failure(s) => utf8(s),
        Frame::Int(n) => decimal(n as nat),
        Frame::Bulk(s) => decimal(utf8(s).len()),
        Frame::Arr(xs) => decimal(xs.len()),
        Frame::Nil => seq![45u8, 49u8],
    }
}

/// What follows the first CRLF of a message's wire form.
pub open spec fn body_of(f: Frame) -> Seq<u8> {
    match f {
        Frame::Bulk(s) => utf8(s) + crlf(),
        Frame::Arr(xs) => encode_prefix(xs, xs.len()),
        _ => Seq::empty(),
    }
}

/// `f` is well formed and its wire form starts `c`.
pub open spec fn decodes_as(c: Seq<u8>, f: Frame) -> bool {
    well_formed(f) && encode(f).is_prefix_of(c)
}

proof fn lemma_digits_no_cr(d: Seq<u8>)
    requires
        forall|i: int| 0 <= i < d.len() ==> is_digit_byte(#[trigger] d[i]),
    ensures
        !d.contains(13u8),
{
    if d.contains(13u8) {
        let i = choose|i: int| 0 <= i < d.len() && d[i] == 13u8;
        assert(is_digit_byte(d[i]));
    }
}

proof fn lemma_encode_split(f: Frame)
    requires
        well_formed(f),
    ensures
        encode(f) == seq![tag_of(f)] + head_of(f) + crlf() + body_of(f),
        !head_of(f).contains(13u8),
        head_of(f).len() >= 1 || f is Simple || f is Failure,
{
    match f {
        Frame::Simple(s) => {
            lemma_utf8_no_cr(s);
        },
        Frame::Failure(s) => {
            lemma_utf8_no_cr(s);
        },
        Frame::Int(n) => {
            lemma_decimal(n as nat);
            lemma_digits_no_cr(decimal(n as nat));
        },
        Frame::Bulk(s) => {
            lemma_decimal(utf8(s).len());
            lemma_digits_no_cr(decimal(utf8(s).len()));
        },
        Frame::Arr(xs) => {
            lemma_decimal(xs.len());
            lemma_digits_no_cr(decimal(xs.len()));
        },
        Frame::Nil => {
            if seq![45u8, 49u8].contains(13u8) {
                let i = choose|i: int| 0 <= i < 2 && seq![45u8, 49u8][i] == 13u8;
            }
        },
    }
    assert(encode(f) =~= seq![tag_of(f)] + head_of(f) + crlf() + body_of(f));
}

/// What the scan for the first carriage return finds at the start of `c`, when `c`
/// starts with the wire form of `f`: the header of `f`, then CRLF, then its body.
pub open spec fn scanned(c: Seq<u8>, f: Frame, k: int) -> bool {
    &&& k == head_of(f).len()
    &&& k + 2 < c.len()
    &&& c[0] == tag_of(f)
    &&& c[k + 1] == 13u8
    &&& c[k + 2] == 10u8
    &&& c.subrange(1, k + 1) == head_of(f)
    &&& body_of(f).is_prefix_of(c.subrange(k + 3, c.len() as int))
    &&& encode(f).len() == k + 3 + body_of(f).len()
    &&& encode(f) == seq![tag_of(f)] + head_of(f) + crlf() + body_of(f)
}

/// What the scan for the first carriage return finds in the wire form of `f`.
#[verifier::rlimit(30)]
proof fn lemma_decodes_head(c: Seq<u8>, f: Frame, k: int)
    requires
        decodes_as(c, f),
        0 <= k <= c.len() - 1,
        forall|j: int| 0 <= j < k ==> c.subrange(1, c.len() as int)[j] != 13u8,
        k < c.len() - 1 ==> c.subrange(1, c.len() as int)[k] == 13u8,
    ensures
        scanned(c, f, k),
{
    lemma_encode_split(f);
    let e = encode(f);
    let h = head_of(f);
    let rest = c.subrange(1, c.len() as int);
    assert(e[0] == c[0]);
    assert(rest.take(h.len() as int) =~= h) by {
        assert forall|j: int| 0 <= j < h.len() implies rest[j] == h[j] by {
            assert(e[1 + j] == h[j]);
            assert(c[1 + j] == e[1 + j]);
        }
    }
    assert(e[1 + h.len() as int] == 13u8);
    assert(e[2 + h.len() as int] == 10u8);
    assert(rest[h.len() as int] == c[1 + h.len() as int]);
    lemma_first_cr(rest, k, h);
    assert(c.subrange(1, k + 1) =~= h);
    let bd = body_of(f);
    assert(bd =~= c.subrange(k + 3, c.len() as int).subrange(0, bd.len() as int)) by {
        assert forall|j: int| 0 <= j < bd.len() implies bd[j] == c[k + 3 + j] by {
            assert(e[k + 3 + j] == bd[j]);
        }
    }
}

proof fn lemma_encode_prefix_agree(xs: Seq<Frame>, ys: Seq<Frame>, k: nat)
    requires
        k <= xs.len(),
        k <= ys.len(),
        forall|j: int| 0 <= j < k ==> xs[j] == ys[j],
    ensures
        encode_prefix(xs, k) == encode_prefix(ys, k),
    decreases k,
{
    if k > 0 {
        lemma_encode_prefix_agree(xs, ys, (k - 1) as nat);
    }
}

proof fn lemma_encode_prefix_len(xs: Seq<Frame>, k: nat)
    requires
        k <= xs.len(),
    ensures
        encode_prefix(xs, k).len() >= k,
    decreases k,
{
    if k > 0 {
        lemma_encode_prefix_len(xs, (k - 1) as nat);
        lemma_encode_tag(xs[k - 1]);
    }
}

/// What decoding at `start` owes: the bytes it consumes are the wire form of the
/// message it returns, and whenever a well-formed message's wire form starts there,
/// that message is returned.
pub open spec fn decode_result(b: Seq<u8>, start: int, r: Option<(RESPMessage, usize)>) -> bool {
    &&& r matches Some((m, n)) ==> well_formed(m@) && start + n <= b.len() && b.subrange(
        start,
        start + n,
    ) == encode(m@)
    &&& forall|f: Frame| #[trigger]
        decodes_as(b.subrange(start, b.len() as int), f) ==> (r matches Some((m, n)) && m@ == f
            && n == encode(f).len())
}

/// The header of the message at `start` has been scanned: `k` bytes, then CRLF.
pub open spec fn header_scanned(b: Seq<u8>, start: int, k: int) -> bool {
    &&& 0 <= start
    &&& 0 <= k
    &&& start + k + 2 < b.len()
    &&& !b.subrange(start + 1, start + 1 + k).contains(13u8)
    &&& b[start + 1 + k] == 13u8
    &&& b[start + 2 + k] == 10u8
    &&& forall|f: Frame| #[trigger]
        decodes_as(b.subrange(start, b.len() as int), f) ==> scanned(
            b.subrange(start, b.len() as int),
            f,
            k,
        )
}

/// Decodes the message that starts at `start`.
#[verifier::rlimit(30)]
fn decode_at(bytes: &[u8], start: usize) -> (r: Option<(RESPMessage, usize)>)
    requires
        start <= bytes@.len(),
    ensures
        decode_result(bytes@, start as int, r),
    decreases bytes@.len() - start, 1nat,
{
    let len = bytes.len();
    let ghost c = bytes@.subrange(start as int, len as int);
    if start >= len {
        proof {
            assert forall|f: Frame| decodes_as(c, f) implies false by {
                lemma_encode_tag(f);
            }
        }
        return None;
    }
    let tag = bytes[start];
    if tag != 43 && tag != 45 && tag != 58 && tag != 36 && tag != 42 {
        proof {
            assert forall|f: Frame| decodes_as(c, f) implies false by {
                lemma_encode_tag(f);
                assert(c[0] == encode(f)[0]);
            }
        }
        return None;
    }
    let rest = slice_subrange(bytes, start + 1, len);
    let k = start_to_cflf(rest);
    let cr = start + 1 + k;
    proof {
        assert(rest@ =~= c.subrange(1, c.len() as int));
        assert forall|f: Frame| decodes_as(c, f) implies scanned(c, f, k as int) by {
            lemma_decodes_head(c, f, k as int);
        }
    }
    if cr >= len - 1 || bytes[cr + 1] != 10 {
        proof {
            assert forall|f: Frame| decodes_as(c, f) implies false by {
                assert(scanned(c, f, k as int));
            }
        }
        return None;
    }
    proof {
        let head = bytes@.subrange(start + 1, cr as int);
        if head.contains(13u8) {
            let j = choose|j: int| 0 <= j < head.len() && head[j] == 13u8;
            assert(rest@[j] == 13u8);
        }
        assert(header_scanned(bytes@, start as int, k as int));
    }
    if tag == 43 || tag == 45 {
        decode_line(bytes, start, k)
    } else if tag == 58 {
        decode_integer(bytes, start, k)
    } else if tag == 36 {
        decode_bulk(bytes, start, k)
    } else {
        decode_array(bytes, start, k)
    }
}

#[verifier::rlimit(30)]
fn decode_line(bytes: &[u8], start: usize, k: usize) -> (r: Option<(RESPMessage, usize)>)
    requires
        header_scanned(bytes@, start as int, k as int),
        bytes@[start as int] == 43u8 || bytes@[start as int] == 45u8,
    ensures
        decode_result(bytes@, start as int, r),
{
    let ghost c = bytes@.subrange(start as int, bytes@.len() as int);
    assert(start + k + 2 < bytes@.len());
    let tag = bytes[start];
    let cr = start + 1 + k;
    let seg = slice_subrange(bytes, start + 1, cr);
    match utf8_text(seg) {
        None => {
            proof {
                assert forall|f: Frame| decodes_as(c, f) implies false by {
                    assert(scanned(c, f, k as int));
                    assert(c.subrange(1, k + 1) =~= seg@);
                    encode_utf8_valid_utf8(f->Simple_0);
                    encode_utf8_valid_utf8(f->Failure_0);
                }
            }
            None
        },
        Some(t) => {
            proof {
                lemma_utf8_no_cr(t@);
            }
            let m = if tag == 43 {
                RESPMessage::SimpleString(t)
            } else {
                RESPMessage::Error(t)
            };
            proof {
                assert(bytes@.subrange(start as int, cr + 2) =~= encode(m@));
                assert forall|f: Frame| decodes_as(c, f) implies m@ == f && cr + 2 - start == encode(
                    f,
                ).len() by {
                    assert(scanned(c, f, k as int));
                    assert(c.subrange(1, k + 1) =~= seg@);
                    if tag == 43 {
                        lemma_utf8_injective(f->Simple_0, t@);
                    } else {
                        lemma_utf8_injective(f->Failure_0, t@);
                    }
                }
            }
            Some((m, cr + 2 - start))
        },
    }
}

#[verifier::rlimit(30)]
fn decode_integer(bytes: &[u8], start: usize, k: usize) -> (r: Option<(RESPMessage, usize)>)
    requires
        header_scanned(bytes@, start as int, k as int),
        bytes@[start as int] == 58u8,
    ensures
        decode_result(bytes@, start as int, r),
{
    let ghost c = bytes@.subrange(start as int, bytes@.len() as int);
    let len = bytes.len();
    assert(start + k + 2 < len);
    let cr = start + 1 + k;
    let ghost head = bytes@.subrange(start + 1, cr as int);
    match parse_decimal(bytes, start + 1, cr) {
        None => {
            proof {
                assert forall|f: Frame| decodes_as(c, f) implies false by {
                    assert(scanned(c, f, k as int));
                    assert(c.subrange(1, k + 1) =~= head);
                    lemma_decimal(f->Int_0 as nat);
                }
            }
            None
        },
        Some(v) => {
            let m = RESPMessage::Integer(v);
            proof {
                lemma_canonical_digits(head);
                assert(bytes@.subrange(start as int, cr + 2) =~= encode(m@));
                assert forall|f: Frame| decodes_as(c, f) implies m@ == f && cr + 2 - start == encode(
                    f,
                ).len() by {
                    assert(scanned(c, f, k as int));
                    assert(c.subrange(1, k + 1) =~= head);
                    lemma_decimal(f->Int_0 as nat);
                }
            }
            Some((m, cr + 2 - start))
        },
    }
}

#[verifier::rlimit(30)]
fn decode_bulk(bytes: &[u8], start: usize, k: usize) -> (r: Option<(RESPMessage, usize)>)
    requires
        header_scanned(bytes@, start as int, k as int),
        bytes@[start as int] == 36u8,
    ensures
        decode_result(bytes@, start as int, r),
{
    let len = bytes.len();
    let ghost c = bytes@.subrange(start as int, len as int);
    let cr = start + 1 + k;
    let ghost head = bytes@.subrange(start + 1, cr as int);
    if k == 2 && bytes[start + 1] == 45 && bytes[start + 2] == 49 {
        proof {
            assert(bytes@.subrange(start as int, start + 5) =~= encode(Frame::Nil));
            assert forall|f: Frame| decodes_as(c, f) implies f == Frame::Nil && 5 == encode(
                f,
            ).len() by {
                assert(scanned(c, f, k as int));
                if f is Bulk {
                    lemma_decimal(utf8(f->Bulk_0).len());
                    assert(head_of(f)[0] == c[1]);
                }
            }
        }
        return Some((RESPMessage::Null, 5));
    }
    let n = match parse_decimal(bytes, start + 1, cr) {
        None => {
            proof {
                assert forall|f: Frame| decodes_as(c, f) implies false by {
                    assert(scanned(c, f, k as int));
                    assert(c.subrange(1, k + 1) =~= head);
                    if f is Bulk {
                        lemma_decimal(utf8(f->Bulk_0).len());
                    } else {
                        assert(head[0] == 45u8 && head[1] == 49u8);
                    }
                }
            }
            return None;
        },
        Some(n) => n,
    };
    proof {
        assert forall|f: Frame| decodes_as(c, f) implies f is Bulk && n == utf8(f->Bulk_0).len() by {
            assert(scanned(c, f, k as int));
            assert(c.subrange(1, k + 1) =~= head);
            if f is Bulk {
                lemma_decimal(utf8(f->Bulk_0).len());
            } else {
                assert(head[0] == 45u8);
            }
        }
    }
    decode_payload(bytes, start, k, n)
}

/// The payload of a bulk string whose header, `n` in decimal, has been read.
#[verifier::rlimit(30)]
fn decode_payload(bytes: &[u8], start: usize, k: usize, n: u64) -> (r: Option<(RESPMessage, usize)>)
    requires
        header_scanned(bytes@, start as int, k as int),
        bytes@[start as int] == 36u8,
        canonical_digits(bytes@.subrange(start + 1, start + 1 + k)),
        n == digits_value(bytes@.subrange(start + 1, start + 1 + k)),
        forall|f: Frame| #[trigger]
            decodes_as(bytes@.subrange(start as int, bytes@.len() as int), f) ==> f is Bulk && n
                == utf8(f->Bulk_0).len(),
    ensures
        decode_result(bytes@, start as int, r),
{
    let len = bytes.len();
    let ghost c = bytes@.subrange(start as int, len as int);
    assert(start + k + 2 < len);
    let cr = start + 1 + k;
    let ghost head = bytes@.subrange(start + 1, cr as int);
    let body = cr + 2;
    if len - body < 2 || n > (len - body - 2) as u64 {
        proof {
            assert forall|f: Frame| decodes_as(c, f) implies false by {
                assert(scanned(c, f, k as int));
            }
        }
        return None;
    }
    let pend = body + n as usize;
    let seg = slice_subrange(bytes, body, pend);
    proof {
        assert forall|f: Frame| decodes_as(c, f) implies utf8(f->Bulk_0) == seg@ && bytes@[pend as int]
            == 13u8 && bytes@[pend + 1] == 10u8 by {
            assert(scanned(c, f, k as int));
            let bd = body_of(f);
            let tail = c.subrange(k + 3, c.len() as int);
            assert(bd =~= tail.subrange(0, bd.len() as int));
            assert forall|j: int| 0 <= j < n implies utf8(f->Bulk_0)[j] == seg@[j] by {
                assert(bd[j] == tail[j]);
            }
            assert(bd[n as int] == tail[n as int]);
            assert(bd[n + 1] == tail[n + 1]);
            assert(utf8(f->Bulk_0) =~= seg@);
        }
    }
    if bytes[pend] != 13 || bytes[pend + 1] != 10 {
        return None;
    }
    match utf8_text(seg) {
        None => {
            proof {
                assert forall|f: Frame| decodes_as(c, f) implies false by {
                    encode_utf8_valid_utf8(f->Bulk_0);
                }
            }
            None
        },
        Some(t) => {
            let m = RESPMessage::BulkString(t);
            proof {
                lemma_canonical_digits(head);
                assert(bytes@.subrange(start as int, pend + 2) =~= encode(m@));
                assert forall|f: Frame| decodes_as(c, f) implies m@ == f && pend + 2 - start
                    == encode(f).len() by {
                    assert(scanned(c, f, k as int));
                    lemma_utf8_injective(f->Bulk_0, t@);
                }
            }
            Some((m, pend + 2 - start))
        },
    }
}

#[verifier::rlimit(30)]
fn decode_array(bytes: &[u8], start: usize, k: usize) -> (r: Option<(RESPMessage, usize)>)
    requires
        header_scanned(bytes@, start as int, k as int),
        bytes@[start as int] == 42u8,
    ensures
        decode_result(bytes@, start as int, r),
    decreases bytes@.len() - start, 0nat,
{
    let len = bytes.len();
    let ghost c = bytes@.subrange(start as int, len as int);
    let cr = start + 1 + k;
    let ghost head = bytes@.subrange(start + 1, cr as int);
    let count = match parse_decimal(bytes, start + 1, cr) {
        None => {
            proof {
                assert forall|f: Frame| decodes_as(c, f) implies false by {
                    assert(scanned(c, f, k as int));
                    assert(c.subrange(1, k + 1) =~= head);
                    lemma_decimal(f->Arr_0.len());
                    lemma_encode_prefix_len(f->Arr_0, f->Arr_0.len());
                }
            }
            return None;
        },
        Some(v) => v,
    };
    proof {
        assert forall|f: Frame| decodes_as(c, f) implies f is Arr && count == f->Arr_0.len() by {
            assert(scanned(c, f, k as int));
            assert(c.subrange(1, k + 1) =~= head);
            lemma_decimal(f->Arr_0.len());
        }
    }
    let mut elems: Vec<RESPMessage> = Vec::new();
    let ghost mut ys: Seq<Frame> = Seq::empty();
    let mut pos: usize = cr + 2;
    let mut i: u64 = 0;
    while i < count
        invariant
            start < cr + 2 <= pos <= len,
            len == bytes@.len(),
            c == bytes@.subrange(start as int, len as int),
            cr == start + 1 + k,
            i <= count,
            ys.len() == i,
            elems@.len() == i,
            forall|j: int| 0 <= j < i ==> ys[j] == (#[trigger] elems@[j])@,
            forall|j: int| 0 <= j < i ==> #[trigger] well_formed(ys[j]),
            bytes@.subrange(cr + 2, pos as int) == encode_prefix(ys, i as nat),
            forall|f: Frame| #[trigger]
                decodes_as(c, f) ==> scanned(c, f, k as int) && f is Arr && count == f->Arr_0.len()
                    && ys == f->Arr_0.take(i as int),
        decreases count - i,
    {
        proof {
            assert forall|f: Frame| decodes_as(c, f) implies decodes_as(
                bytes@.subrange(pos as int, len as int),
                f->Arr_0[i as int],
            ) by {
                assert(c.subrange(k + 3, pos - start) =~= bytes@.subrange(cr + 2, pos as int));
                lemma_element_at(c, f, k as int, ys, i as nat, pos - start);
            }
        }
        let res = decode_at(bytes, pos);
        match res {
            None => {
                proof {
                    assert forall|f: Frame| decodes_as(c, f) implies false by {
                        assert(decodes_as(
                            bytes@.subrange(pos as int, len as int),
                            f->Arr_0[i as int],
                        ));
                    }
                }
                return None;
            },
            Some((m, n)) => {
                proof {
                    assert(encode_prefix(ys.push(m@), (i + 1) as nat) == encode_prefix(
                        ys.push(m@),
                        i as nat,
                    ) + encode(m@));
                    lemma_encode_prefix_agree(ys, ys.push(m@), i as nat);
                    assert(bytes@.subrange(cr + 2, pos + n) =~= bytes@.subrange(cr + 2, pos as int)
                        + bytes@.subrange(pos as int, pos + n));
                    assert forall|f: Frame| decodes_as(c, f) implies ys.push(m@) == f->Arr_0.take(
                        i + 1,
                    ) by {
                        assert(decodes_as(
                            bytes@.subrange(pos as int, len as int),
                            f->Arr_0[i as int],
                        ));
                        assert(ys.push(m@) =~= f->Arr_0.take(i + 1));
                    }
                }
                elems.push(m);
                proof {
                    ys = ys.push(m@);
                }
                pos = pos + n;
                i = i + 1;
            },
        }
    }
    let m = RESPMessage::Array(elems);
    proof {
        lemma_array_view(elems);
        assert(m@->Arr_0 =~= ys);
        assert(m@ == Frame::Arr(ys));
        lemma_all_well_formed(ys, ys.len());
        assert(well_formed(m@));
        lemma_canonical_digits(head);
        lemma_encode_split(m@);
        assert(bytes@.subrange(start as int, pos as int) =~= encode(m@));
        assert forall|f: Frame| decodes_as(c, f) implies m@ == f && pos - start == encode(f).len()
            by {
            assert(f->Arr_0.take(count as int) =~= f->Arr_0);
        }
    }
    Some((m, pos - start))
}

/// In an array's wire form, the element after the first `i` starts where their
/// wire forms end.
#[verifier::rlimit(30)]
proof fn lemma_element_at(c: Seq<u8>, f: Frame, k: int, ys: Seq<Frame>, i: nat, off: int)
    requires
        decodes_as(c, f),
        scanned(c, f, k),
        f is Arr,
        i < f->Arr_0.len(),
        ys == f->Arr_0.take(i as int),
        k + 3 <= off <= c.len(),
        c.subrange(k + 3, off) == encode_prefix(ys, i),
    ensures
        decodes_as(c.subrange(off, c.len() as int), f->Arr_0[i as int]),
{
    let xs = f->Arr_0;
    assert forall|j: int| 0 <= j < i implies xs[j] == ys[j] by {
        assert(xs.take(i as int)[j] == xs[j]);
    }
    lemma_encode_prefix_grows(xs, i, xs.len());
    lemma_encode_prefix_agree(xs, ys, i);
    let p = encode_prefix(xs, i);
    let e = encode(xs[i as int]);
    let bd = body_of(f);
    let tail = c.subrange(k + 3, c.len() as int);
    assert(bd =~= tail.subrange(0, bd.len() as int));
    assert(p.len() == off - k - 3);
    assert(f == Frame::Arr(xs));
    lemma_all_well_formed(xs, xs.len());
    assert(well_formed(xs[i as int]));
    let rest = c.subrange(off, c.len() as int);
    assert forall|j: int| 0 <= j < e.len() implies e[j] == rest[j] by {
        assert((p + e)[p.len() + j] == bd[p.len() + j]);
        assert(bd[p.len() + j] == tail[p.len() + j]);
    }
    assert(e =~= rest.subrange(0, e.len() as int));
}

/// `b` starts a message of a known type.
pub open spec fn is_tag(b: u8) -> bool {
    b == 43 || b == 45 || b == 58 || b == 36 || b == 42
}

/// The error text given for bytes that start no well-formed message.
pub open spec fn invalid_text(b: Seq<u8>) -> Seq<char> {
    if b.len() > 0 && is_tag(b[0]) {
        "Invalid RESP message"@
    } else {
        "Invalid RESP message type"@
    }
}

/// What `deserialize` gives for `b`: the message `m` whose wire form is the first `n`
/// bytes; when no well-formed message starts `b`, an error and no bytes used.
pub open spec fn deserialized(b: Seq<u8>, m: Frame, n: nat) -> bool {
    &&& n > 0 ==> well_formed(m) && n <= b.len() && b.take(n as int) == encode(m)
    &&& n == 0 ==> m == Frame::Failure(invalid_text(b))
    &&& forall|f: Frame|
        well_formed(f) && #[trigger] encode(f).is_prefix_of(b) ==> m == f && n == encode(f).len()
}

impl RESPMessage {
    /// Decodes the message at the start of `bytes`, with the number of bytes it takes.
    pub fn deserialize(bytes: &[u8]) -> (r: (RESPMessage, usize))
        ensures
            deserialized(bytes@, r.0@, r.1 as nat),
    {
        let res = decode_at(bytes, 0);
        proof {
            assert(bytes@.subrange(0, bytes@.len() as int) =~= bytes@);
            assert forall|f: Frame| well_formed(f) && #[trigger] encode(f).is_prefix_of(
                bytes@,
            ) implies decodes_as(bytes@.subrange(0, bytes@.len() as int), f) by {}
        }
        match res {
            Some((m, n)) => {
                proof {
                    assert(bytes@.take(n as int) =~= bytes@.subrange(0, n as int));
                    lemma_encode_tag(m@);
                }
                (m, n)
            },
            None => {
                let text = if bytes.len() > 0 && (bytes[0] == 43 || bytes[0] == 45 || bytes[0] == 58
                    || bytes[0] == 36 || bytes[0] == 42) {
                    String::from_str("Invalid RESP message")
                } else {
                    String::from_str("Invalid RESP message type")
                };
                proof {
                    assert forall|f: Frame| well_formed(f) && #[trigger] encode(f).is_prefix_of(
                        bytes@,
                    ) implies false by {
                        assert(decodes_as(bytes@.subrange(0, bytes@.len() as int), f));
                    }
                }
                (RESPMessage::Error(text), 0)
            },
        }
    }
}

/// Decoding the wire form of a well-formed message gives that message back, and
/// uses all of the wire form: also when more bytes follow it.
pub proof fn lemma_round_trip(m: Frame, rest: Seq<u8>, r: Frame, n: nat)
    requires
        well_formed(m),
        deserialized(encode(m) + rest, r, n),
    ensures
        r == m,
        n == encode(m).len(),
{
    let b = encode(m) + rest;
    assert(encode(m).is_prefix_of(b)) by {
        assert(encode(m) =~= b.subrange(0, encode(m).len() as int));
    }
}

/// Why a message is not a command.
#[derive(Clone, Copy, Debug, PartialEq, Eq)]
pub enum CommandError {
    /// The message is not an array.
    NotAnArray,
    /// The array does not start with a bulk string.
    NotACommand,
}

impl RESPMessage {
    /// A copy of this message.
    pub fn duplicate(&self) -> (r: RESPMessage)
        ensures
            r@ == self@,
        decreases self@,
    {
        match self {
            RESPMessage::SimpleString(s) => RESPMessage::SimpleString(s.clone()),
            RESPMessage::Error(s) => RESPMessage::Error(s.clone()),
            RESPMessage::Integer(n) => RESPMessage::Integer(*n),
            RESPMessage::BulkString(s) => RESPMessage::BulkString(s.clone()),
            RESPMessage::Array(a) => {
                proof {
                    lemma_array_view(*a);
                }
                let copies = copy_range(a, 0, Ghost(self));
                proof {
                    lemma_array_view(copies);
                    assert(RESPMessage::Array(copies)@->Arr_0 =~= self@->Arr_0);
                }
                RESPMessage::Array(copies)
            },
            RESPMessage::Null => RESPMessage::Null,
        }
    }

    /// The text of a simple or bulk string.
    pub fn pack_string(&self) -> (r: Option<&str>)
        ensures
            r matches Some(s) ==> s@ == text_of(self@)->0,
            r is Some <==> text_of(self@) is Some,
    {
        match self {
            RESPMessage::SimpleString(s) => Some(s.as_str()),
            RESPMessage::BulkString(s) => Some(s.as_str()),
            _ => None,
        }
    }

    /// Splits a command into its name and its arguments.
    pub fn to_command(&self) -> (r: Result<(String, Vec<RESPMessage>), CommandError>)
        ensures
            match command_of(self@) {
                Ok((name, args)) => r matches Ok((n, a)) && n@ == name && a@.len() == args.len()
                    && forall|i: int| 0 <= i < args.len() ==> (#[trigger] a@[i])@ == args[i],
                Err(e) => r == Err::<(String, Vec<RESPMessage>), CommandError>(e),
            },
    {
        match self {
            RESPMessage::Array(elements) => {
                proof {
                    lemma_array_view(*elements);
                }
                if elements.len() == 0 {
                    return Err(CommandError::NotACommand);
                }
                match &elements[0] {
                    RESPMessage::BulkString(command) => {
                        let args = copy_range(elements, 1, Ghost(self));
                        Ok((command.clone(), args))
                    },
                    _ => Err(CommandError::NotACommand),
                }
            },
            _ => Err(CommandError::NotAnArray),
        }
    }
}

/// Copies of the elements of `a` from `from` on.
fn copy_range(a: &Vec<RESPMessage>, from: usize, Ghost(whole): Ghost<&RESPMessage>) -> (r: Vec<RESPMessage>)
    requires
        *whole == RESPMessage::Array(*a),
        from <= a@.len(),
    ensures
        r@.len() == a@.len() - from,
        forall|i: int| 0 <= i < r@.len() ==> (#[trigger] r@[i])@ == a@[from + i]@,
    decreases whole@, 0nat,
{
    proof {
        lemma_array_view(*a);
    }
    let mut out: Vec<RESPMessage> = Vec::new();
    let mut i: usize = from;
    while i < a.len()
        invariant
            from <= i <= a@.len(),
            *whole == RESPMessage::Array(*a),
            whole@->Arr_0.len() == a@.len(),
            forall|j: int| 0 <= j < a@.len() ==> (#[trigger] a@[j])@ == whole@->Arr_0[j],
            out@.len() == i - from,
            forall|j: int| 0 <= j < out@.len() ==> (#[trigger] out@[j])@ == a@[from + j]@,
        decreases a.len() - i,
    {
        proof {
            let ghost f: Frame = whole@;
            assert(f is Arr);
            assert(decreases_to!(f => f->Arr_0));
            assert(decreases_to!(f->Arr_0 => f->Arr_0[i as int]));
        }
        let c = a[i].duplicate();
        out.push(c);
        i += 1;
    }
    out
}

/// The text of a simple or bulk string.
pub open spec fn text_of(f: Frame) -> Option<Seq<char>> {
    match f {
        Frame::Simple(s) => Some(s),
        Frame::Bulk(s) => Some(s),
        _ => None,
    }
}

/// A command's name and arguments: an array that starts with a bulk string.
pub open spec fn command_of(f: Frame) -> Result<(Seq<char>, Seq<Frame>), CommandError> {
    match f {
        Frame::Arr(xs) => if xs.len() > 0 && xs[0] is Bulk {
            Ok((xs[0]->Bulk_0, xs.drop_first()))
        } else {
            Err(CommandError::NotACommand)
        },
        _ => Err(CommandError::NotAnArray),
    }
}

} // verus!
