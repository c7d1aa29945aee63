//! The Payload message: an ordered list of `(path, value)` line reports,
//! encoded in the protocol-buffer wire format of
//! `message Line { string path = 1; string value = 2; }` and
//! `message Payload { repeated Line lines = 1; }`.
use vstd::prelude::*;
use vstd::utf8::*;
use crate::framing::copy_range;

verus! {

broadcast use {encode_utf8_valid_utf8, encode_utf8_decode_utf8};

/// Tag of field 1 with the length-delimited wire type.
pub const TAG_FIELD_1: u8 = 0x0A;

/// Tag of field 2 with the length-delimited wire type.
pub const TAG_FIELD_2: u8 = 0x12;

/// Most bytes a length prefix may take: enough for every length below 2^35.
pub const VARINT_MAX_BYTES: usize = 5;

/// One reported line: the logical path it was read from, and its content.
pub struct Line {
    pub path: String,
    pub value: String,
}

/// A batch of reported lines, in the order they are to be checked.
pub struct Payload {
    pub lines: Vec<Line>,
}

/// A line as a pair of texts: path, then value.
pub type LineView = (Seq<char>, Seq<char>);

impl View for Line {
    type V = LineView;

    open spec fn view(&self) -> LineView {
        (self.path@, self.value@)
    }
}

impl View for Payload {
    type V = Seq<LineView>;

    open spec fn view(&self) -> Seq<LineView> {
        self.lines@.map_values(|l: Line| l@)
    }
}

impl Line {
    pub fn new(path: String, value: String) -> (r: Line)
        ensures
            r@ == (path@, value@),
    {
        Line { path, value }
    }
}

impl Payload {
    pub fn new(lines: Vec<Line>) -> (r: Payload)
        ensures
            r.lines@ == lines@,
    {
        Payload { lines }
    }
}

/// 128 raised to the power `k`.
pub open spec fn pow128(k: nat) -> nat
    decreases k,
{
    if k == 0 {
        1
    } else {
        128 * pow128((k - 1) as nat)
    }
}

/// Base-128 varint encoding, least significant group first.
pub open spec fn varint(n: nat) -> Seq<u8>
    decreases n,
{
    if n < 128 {
        seq![n as u8]
    } else {
        seq![(n % 128 + 128) as u8] + varint(n / 128)
    }
}

/// Reads a varint of at most `budget` bytes from the front of `b`: its
/// value and the number of bytes it took.
pub open spec fn parse_varint(b: Seq<u8>, budget: nat) -> Option<(nat, nat)>
    decreases budget,
{
    if budget == 0 || b.len() == 0 {
        None
    } else if b[0] < 128 {
        Some((b[0] as nat, 1))
    } else {
        match parse_varint(b.drop_first(), (budget - 1) as nat) {
            Some((v, k)) => Some(((b[0] - 128) as nat + 128 * v, k + 1)),
            None => None,
        }
    }
}

/// A length-delimited field: tag, length, then the bytes.
pub open spec fn field(tag: u8, body: Seq<u8>) -> Seq<u8> {
    seq![tag] + varint(body.len()) + body
}

/// The encoding of one line message.
pub open spec fn line_bytes(l: LineView) -> Seq<u8> {
    field(TAG_FIELD_1, encode_utf8(l.0)) + field(TAG_FIELD_2, encode_utf8(l.1))
}

/// The encoding of a payload message.
pub open spec fn payload_bytes(ls: Seq<LineView>) -> Seq<u8>
    decreases ls.len(),
{
    if ls.len() == 0 {
        seq![]
    } else {
        field(TAG_FIELD_1, line_bytes(ls[0])) + payload_bytes(ls.drop_first())
    }
}

/// Reads the length-delimited field that starts `b`, given that it has the
/// given tag: its bytes and the number of bytes it took.
pub open spec fn parse_field(b: Seq<u8>, tag: u8) -> Option<(Seq<u8>, nat)> {
    if b.len() == 0 || b[0] != tag {
        None
    } else {
        match parse_varint(b.drop_first(), VARINT_MAX_BYTES as nat) {
            Some((n, k)) => if 1 + k + n <= b.len() {
                Some((b.subrange(1 + k as int, 1 + k + n as int), 1 + k + n))
            } else {
                None
            },
            None => None,
        }
    }
}

/// Reads an optional text field with the given tag from the front of `b`:
/// an absent field is the empty text and takes no bytes.
pub open spec fn parse_text(b: Seq<u8>, tag: u8) -> Option<(Seq<char>, nat)> {
    if b.len() > 0 && b[0] == tag {
        match parse_field(b, tag) {
            Some((bytes, used)) => if valid_utf8(bytes) {
                Some((decode_utf8(bytes), used))
            } else {
                None
            },
            None => None,
        }
    } else {
        Some((seq![], 0))
    }
}

/// Reads a whole line message: an optional path field, then an optional
/// value field, and nothing after them.
pub open spec fn parse_line(b: Seq<u8>) -> Option<LineView> {
    match parse_text(b, TAG_FIELD_1) {
        Some((p, i)) => match parse_text(b.skip(i as int), TAG_FIELD_2) {
            Some((v, j)) => if i + j == b.len() {
                Some((p, v))
            } else {
                None
            },
            None => None,
        },
        None => None,
    }
}

/// Reads a whole payload message: a run of line fields and nothing else.
pub open spec fn parse_lines(b: Seq<u8>) -> Option<Seq<LineView>>
    decreases b.len(),
{
    if b.len() == 0 {
        Some(seq![])
    } else if b[0] != TAG_FIELD_1 {
        None
    } else {
        match parse_varint(b.drop_first(), VARINT_MAX_BYTES as nat) {
            Some((n, k)) => if 1 + k + n <= b.len() {
                match parse_line(b.subrange(1 + k as int, 1 + k + n as int)) {
                    Some(l) => match parse_lines(b.skip(1 + k + n as int)) {
                        Some(rest) => Some(seq![l] + rest),
                        None => None,
                    },
                    None => None,
                }
            } else {
                None
            },
            None => None,
        }
    }
}

/// Appends the varint encoding of `n`.
fn push_varint(out: &mut Vec<u8>, n: u64)
    ensures
        final(out)@ == old(out)@ + varint(n as nat),
{
    let ghost start = out@;
    let mut m: u64 = n;
    while m >= 128
        invariant
            out@ + varint(m as nat) == start + varint(n as nat),
        decreases m,
    {
        let ghost before = out@;
        let ghost old_m = m;
        out.push((m % 128 + 128) as u8);
        m = m / 128;
        assert(varint(old_m as nat) == seq![(old_m % 128 + 128) as u8] + varint(m as nat));
        assert(out@ + varint(m as nat) =~= before + varint(old_m as nat));
    }
    let ghost before = out@;
    out.push(m as u8);
    assert(out@ =~= before + varint(m as nat));
}

/// Appends a length-delimited field holding `body`.
fn push_field(out: &mut Vec<u8>, tag: u8, body: &[u8])
    ensures
        final(out)@ == old(out)@ + field(tag, body@),
{
    let ghost start = out@;
    out.push(tag);
    push_varint(out, body.len() as u64);
    let ghost head = out@;
    assert(head =~= start + seq![tag] + varint(body@.len()));
    let mut i: usize = 0;
    while i < body.len()
        invariant
            i <= body@.len(),
            out@ == head + body@.subrange(0, i as int),
        decreases body@.len() - i,
    {
        out.push(body[i]);
        i += 1;
        assert(out@ =~= head + body@.subrange(0, i as int));
    }
    assert(body@.subrange(0, body@.len() as int) =~= body@);
    assert(out@ =~= start + field(tag, body@));
}

/// Encodes one line message.
pub fn encode_line(l: &Line) -> (r: Vec<u8>)
    ensures
        r@ == line_bytes(l@),
{
    let mut out: Vec<u8> = Vec::new();
    push_field(&mut out, TAG_FIELD_1, l.path.as_str().as_bytes());
    push_field(&mut out, TAG_FIELD_2, l.value.as_str().as_bytes());
    assert(out@ =~= line_bytes(l@));
    out
}

/// Encodes a payload message (the body of one frame).
pub fn encode_payload(p: &Payload) -> (r: Vec<u8>)
    ensures
        r@ == payload_bytes(p@),
{
    let mut out: Vec<u8> = Vec::new();
    let mut i: usize = 0;
    assert(p@.skip(0) =~= p@);
    assert(out@ + payload_bytes(p@) =~= payload_bytes(p@));
    while i < p.lines.len()
        invariant
            i <= p.lines@.len(),
            out@ + payload_bytes(p@.skip(i as int)) == payload_bytes(p@),
        decreases p.lines@.len() - i,
    {
        let ghost before = out@;
        let line = encode_line(&p.lines[i]);
        push_field(&mut out, TAG_FIELD_1, line.as_slice());
        let ghost rest = p@.skip(i as int);
        assert(rest[0] == p.lines@[i as int]@);
        assert(rest.drop_first() =~= p@.skip(i + 1));
        i += 1;
        assert(out@ + payload_bytes(p@.skip(i as int)) =~= before + payload_bytes(rest));
    }
    assert(p@.skip(i as int) =~= Seq::<LineView>::empty());
    assert(out@ =~= out@ + payload_bytes(p@.skip(i as int)));
    out
}

/// Relies on `String::from_utf8`: it succeeds exactly on valid UTF-8 and
/// then holds the characters that the bytes encode.
#[verifier::external_body]
fn text_from_utf8(b: Vec<u8>) -> (r: Option<String>)
    ensures
        r is Some <==> valid_utf8(b@),
        r matches Some(s) ==> s@ == decode_utf8(b@),
{
    String::from_utf8(b).ok()
}

proof fn lemma_pow128_small(k: nat)
    requires
        k <= 4,
    ensures
        pow128(k) <= 268435456,
{
    reveal_with_fuel(pow128, 5);
}

proof fn lemma_pow128_positive(k: nat)
    ensures
        pow128(k) >= 1,
    decreases k,
{
    if k > 0 {
        lemma_pow128_positive((k - 1) as nat);
    }
}

/// A varint read within `budget` bytes is below `128^budget` and takes
/// between one and `budget` bytes of the input.
pub proof fn lemma_parse_varint_bounds(b: Seq<u8>, budget: nat)
    ensures
        parse_varint(b, budget) matches Some((v, k)) ==> {
            &&& v < pow128(budget)
            &&& 1 <= k <= budget
            &&& k <= b.len()
        },
    decreases budget,
{
    if budget > 0 {
        lemma_pow128_positive((budget - 1) as nat);
    }
    if budget > 0 && b.len() > 0 && b[0] >= 128 {
        lemma_parse_varint_bounds(b.drop_first(), (budget - 1) as nat);
        if let Some((v, k)) = parse_varint(b.drop_first(), (budget - 1) as nat) {
            let x = (b[0] - 128) as nat;
            assert(x + 128 * v < 128 * pow128((budget - 1) as nat)) by (nonlinear_arith)
                requires
                    x < 128,
                    v < pow128((budget - 1) as nat),
            ;
        }
    }
}

/// Reads a varint of at most `budget` bytes from `b[pos..hi]`.
fn read_varint(b: &[u8], pos: usize, hi: usize, budget: usize) -> (r: Option<(u64, usize)>)
    requires
        pos <= hi <= b@.len(),
        budget <= VARINT_MAX_BYTES,
    ensures
        r is None <==> parse_varint(b@.subrange(pos as int, hi as int), budget as nat) is None,
        r matches Some((v, k)) ==> parse_varint(b@.subrange(pos as int, hi as int), budget as nat)
            == Some((v as nat, k as nat)),
    decreases budget,
{
    if budget == 0 || pos >= hi {
        return None;
    }
    let x = b[pos];
    let ghost sub = b@.subrange(pos as int, hi as int);
    if x < 128 {
        return Some((x as u64, 1));
    }
    assert(sub.drop_first() =~= b@.subrange(pos + 1, hi as int));
    match read_varint(b, pos + 1, hi, budget - 1) {
        Some((v, k)) => {
            proof {
                lemma_parse_varint_bounds(sub.drop_first(), (budget - 1) as nat);
                lemma_pow128_small((budget - 1) as nat);
            }
            Some(((x - 128) as u64 + 128 * v, k + 1))
        },
        None => None,
    }
}

/// Locates the length-delimited field with the given tag at the front of
/// `b[lo..hi]`: where its bytes start and end.
fn read_field(b: &[u8], lo: usize, hi: usize, tag: u8) -> (r: Option<(usize, usize)>)
    requires
        lo <= hi <= b@.len(),
    ensures
        r is None <==> parse_field(b@.subrange(lo as int, hi as int), tag) is None,
        r matches Some((s, e)) ==> {
            &&& lo < s <= e <= hi
            &&& parse_field(b@.subrange(lo as int, hi as int), tag) == Some(
                (b@.subrange(s as int, e as int), (e - lo) as nat),
            )
        },
{
    let ghost sub = b@.subrange(lo as int, hi as int);
    if lo >= hi || b[lo] != tag {
        return None;
    }
    assert(sub.drop_first() =~= b@.subrange(lo + 1, hi as int));
    match read_varint(b, lo + 1, hi, VARINT_MAX_BYTES) {
        Some((n, k)) => {
            proof {
                lemma_parse_varint_bounds(sub.drop_first(), VARINT_MAX_BYTES as nat);
            }
            let start = lo + 1 + k;
            if n > (hi - start) as u64 {
                return None;
            }
            let end = start + n as usize;
            assert(sub.subrange(1 + k as int, 1 + k + n as int) =~= b@.subrange(
                start as int,
                end as int,
            ));
            Some((start, end))
        },
        None => None,
    }
}

/// Reads the optional text field with the given tag at the front of
/// `b[lo..hi]`: the text and the number of bytes it took.
fn read_text(b: &[u8], lo: usize, hi: usize, tag: u8) -> (r: Option<(String, usize)>)
    requires
        lo <= hi <= b@.len(),
    ensures
        r is None <==> parse_text(b@.subrange(lo as int, hi as int), tag) is None,
        r matches Some((t, used)) ==> {
            &&& used <= hi - lo
            &&& parse_text(b@.subrange(lo as int, hi as int), tag) == Some((t@, used as nat))
        },
{
    if lo < hi && b[lo] == tag {
        match read_field(b, lo, hi, tag) {
            Some((s, e)) => {
                let bytes = copy_range(b, s, e);
                match text_from_utf8(bytes) {
                    Some(t) => Some((t, e - lo)),
                    None => None,
                }
            },
            None => None,
        }
    } else {
        let t = String::new();
        assert(t@ =~= Seq::<char>::empty());
        Some((t, 0))
    }
}

/// Decodes the line message in `b[lo..hi]`.
fn decode_line_in(b: &[u8], lo: usize, hi: usize) -> (r: Option<Line>)
    requires
        lo <= hi <= b@.len(),
    ensures
        r is None <==> parse_line(b@.subrange(lo as int, hi as int)) is None,
        r matches Some(l) ==> parse_line(b@.subrange(lo as int, hi as int)) == Some(l@),
{
    let ghost sub = b@.subrange(lo as int, hi as int);
    match read_text(b, lo, hi, TAG_FIELD_1) {
        Some((path, i)) => {
            assert(sub.skip(i as int) =~= b@.subrange(lo + i, hi as int));
            match read_text(b, lo + i, hi, TAG_FIELD_2) {
                Some((value, j)) => {
                    if i + j == hi - lo {
                        Some(Line { path, value })
                    } else {
                        None
                    }
                },
                None => None,
            }
        },
        None => None,
    }
}

/// Decodes one line message.
pub fn decode_line(b: &[u8]) -> (r: Option<Line>)
    ensures
        r is None <==> parse_line(b@) is None,
        r matches Some(l) ==> parse_line(b@) == Some(l@),
{
    assert(b@.subrange(0, b@.len() as int) =~= b@);
    decode_line_in(b, 0, b.len())
}

/// `pre` followed by what `rest` holds, if it holds anything.
pub open spec fn prefixed(pre: Seq<LineView>, rest: Option<Seq<LineView>>) -> Option<Seq<LineView>> {
    match rest {
        Some(r) => Some(pre + r),
        None => None,
    }
}

/// One step of reading a payload: its first line field, then the rest.
proof fn lemma_parse_lines_step(rest: Seq<u8>)
    requires
        rest.len() > 0,
    ensures
        parse_lines(rest) == match parse_field(rest, TAG_FIELD_1) {
            Some((body, used)) => match parse_line(body) {
                Some(l) => prefixed(seq![l], parse_lines(rest.skip(used as int))),
                None => None,
            },
            None => None,
        },
{
}

proof fn lemma_prefixed_assoc(a: Seq<LineView>, l: LineView, r: Option<Seq<LineView>>)
    ensures
        prefixed(a, prefixed(seq![l], r)) == prefixed(a.push(l), r),
{
    if let Some(t) = r {
        assert(a + (seq![l] + t) =~= a.push(l) + t);
    }
}

/// Decodes a payload message (the body of one frame): `None` exactly when
/// the bytes are not a well-formed payload.
pub fn decode_payload(b: &[u8]) -> (r: Option<Payload>)
    ensures
        r is None <==> parse_lines(b@) is None,
        r matches Some(p) ==> parse_lines(b@) == Some(p@),
{
    let mut lines: Vec<Line> = Vec::new();
    let mut pos: usize = 0;
    let ghost mut seen: Seq<LineView> = Seq::empty();
    assert(b@.skip(0) =~= b@);
    proof {
        if let Some(t) = parse_lines(b@) {
            assert(Seq::<LineView>::empty() + t =~= t);
        }
    }
    while pos < b.len()
        invariant
            pos <= b@.len(),
            seen == lines@.map_values(|l: Line| l@),
            parse_lines(b@) == prefixed(seen, parse_lines(b@.skip(pos as int))),
        decreases b@.len() - pos,
    {
        let ghost rest = b@.skip(pos as int);
        assert(b@.subrange(pos as int, b@.len() as int) =~= rest);
        proof {
            lemma_parse_lines_step(rest);
        }
        match read_field(b, pos, b.len(), TAG_FIELD_1) {
            Some((s, e)) => {
                match decode_line_in(b, s, e) {
                    Some(l) => {
                        proof {
                            lemma_prefixed_assoc(seen, l@, parse_lines(b@.skip(e as int)));
                            assert(rest.skip(e - pos) =~= b@.skip(e as int));
                            seen = seen.push(l@);
                        }
                        lines.push(l);
                        assert(seen =~= lines@.map_values(|l: Line| l@));
                        pos = e;
                    },
                    None => {
                        return None;
                    },
                }
            },
            None => {
                return None;
            },
        }
    }
    assert(b@.skip(pos as int) =~= Seq::<u8>::empty());
    let p = Payload { lines };
    assert(seen + Seq::<LineView>::empty() =~= seen);
    Some(p)
}

proof fn lemma_varint_round_trip(n: nat, rest: Seq<u8>, budget: nat)
    requires
        budget >= 1,
        n < pow128(budget),
    ensures
        parse_varint(varint(n) + rest, budget) == Some((n, varint(n).len())),
    decreases n,
{
    let b = varint(n) + rest;
    if n >= 128 {
        reveal_with_fuel(pow128, 2);
        assert(budget >= 2);
        let p = pow128((budget - 1) as nat);
        assert(n / 128 < p) by (nonlinear_arith)
            requires
                n < 128 * p,
        ;
        lemma_varint_round_trip(n / 128, rest, (budget - 1) as nat);
        assert(b.drop_first() =~= varint(n / 128) + rest);
        assert(b[0] == (n % 128 + 128) as u8);
    }
}

proof fn lemma_field_round_trip(tag: u8, body: Seq<u8>, rest: Seq<u8>)
    requires
        body.len() <= u32::MAX,
    ensures
        parse_field(field(tag, body) + rest, tag) == Some((body, field(tag, body).len())),
{
    reveal_with_fuel(pow128, 6);
    let b = field(tag, body) + rest;
    let v = varint(body.len());
    assert(b.drop_first() =~= v + (body + rest));
    lemma_varint_round_trip(body.len(), body + rest, VARINT_MAX_BYTES as nat);
    assert(b.subrange(1 + v.len() as int, 1 + v.len() + body.len() as int) =~= body);
}

proof fn lemma_text_round_trip(tag: u8, t: Seq<char>, rest: Seq<u8>)
    requires
        encode_utf8(t).len() <= u32::MAX,
    ensures
        parse_text(field(tag, encode_utf8(t)) + rest, tag) == Some(
            (t, field(tag, encode_utf8(t)).len()),
        ),
{
    lemma_field_round_trip(tag, encode_utf8(t), rest);
}

proof fn lemma_line_round_trip(l: LineView)
    requires
        line_bytes(l).len() <= u32::MAX,
    ensures
        parse_line(line_bytes(l)) == Some(l),
{
    let f1 = field(TAG_FIELD_1, encode_utf8(l.0));
    let f2 = field(TAG_FIELD_2, encode_utf8(l.1));
    let b = line_bytes(l);
    lemma_text_round_trip(TAG_FIELD_1, l.0, f2);
    assert(b.skip(f1.len() as int) =~= f2 + Seq::<u8>::empty());
    lemma_text_round_trip(TAG_FIELD_2, l.1, Seq::<u8>::empty());
    assert(f2 + Seq::<u8>::empty() =~= f2);
}

/// Round trip: decoding the encoding of a list of lines gives back the same
/// lines, with the same paths and values, in the same order (for every list
/// whose encoding fits the length prefix of one frame).
pub proof fn lemma_payload_round_trip(ls: Seq<LineView>)
    requires
        payload_bytes(ls).len() <= u32::MAX,
    ensures
        parse_lines(payload_bytes(ls)) == Some(ls),
    decreases ls.len(),
{
    if ls.len() > 0 {
        let lb = line_bytes(ls[0]);
        let tail = payload_bytes(ls.drop_first());
        let b = payload_bytes(ls);
        assert(b == field(TAG_FIELD_1, lb) + tail);
        lemma_field_round_trip(TAG_FIELD_1, lb, tail);
        lemma_line_round_trip(ls[0]);
        lemma_parse_lines_step(b);
        assert(b.skip(field(TAG_FIELD_1, lb).len() as int) =~= tail);
        lemma_payload_round_trip(ls.drop_first());
        assert(seq![ls[0]] + ls.drop_first() =~= ls);
    } else {
        assert(payload_bytes(ls) =~= Seq::<u8>::empty());
    }
}

} // verus!
