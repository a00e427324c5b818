//! The line codec: the wire format of the broker.
//!
//! A frame is the JSON text of one message followed by a single `\n` (0x0A).
//! The codec emits the canonical form below and parses it back:
//!
//! - `PubMessage`:  `{"channel":"<escaped>","payload":"<escaped>"}`
//! - `Subscribe`:   `{"channel":"<escaped>"}`
//! - `AckMessage`:  `{"ack":true}` / `{"ack":false}`
//!
//! String contents are escaped JSON-style: `"` and `\` get a backslash, the
//! control bytes 0x0A, 0x0D, 0x09 become `\n`, `\r`, `\t`, every other byte
//! below 0x20 becomes `\u00xy`, and all other bytes stand for themselves.
//! The parser also accepts any `\u00xy` escape for a byte, so every frame the
//! codec emits parses back to the value it came from.

use vstd::prelude::*;
use crate::messages::{PubMessage, PubMessageView, Subscribe, AckMessage};
use crate::bytebuf::{bm_contents, bm_len, bm_byte_at, bm_split_to, bm_reserve, bm_to_vec};

verus! {

// ---------------------------------------------------------------------------
// Escaping
// ---------------------------------------------------------------------------

/// Hex digit (lower case) for a value below 16.
pub open spec fn hex_digit(v: u8) -> u8 {
    if v < 10 { (48 + v) as u8 } else { (87 + v) as u8 }
}

/// How one byte of string content appears inside a JSON string.
pub open spec fn escape_byte(b: u8) -> Seq<u8> {
    if b == 34 { seq![92u8, 34u8]          // \"
    } else if b == 92 { seq![92u8, 92u8]   // double backslash
    } else if b == 10 { seq![92u8, 110u8]  // \n
    } else if b == 13 { seq![92u8, 114u8]  // \r
    } else if b == 9 { seq![92u8, 116u8]   // \t
    } else if b < 32 {
        seq![92u8, 117u8, 48u8, 48u8, hex_digit(b / 16), hex_digit(b % 16)]
    } else {
        seq![b]
    }
}

/// A whole byte string, escaped.
pub open spec fn escaped(s: Seq<u8>) -> Seq<u8>
    decreases s.len(),
{
    if s.len() == 0 {
        Seq::<u8>::empty()
    } else {
        escape_byte(s[0]) + escaped(s.skip(1))
    }
}

/// No escaped string contains a raw newline byte.
pub proof fn lemma_escaped_no_nl(s: Seq<u8>)
    ensures
        forall|i: int| 0 <= i < escaped(s).len() ==> escaped(s)[i] != 10u8,
    decreases s.len(),
{
    if s.len() != 0 {
        lemma_escaped_no_nl(s.skip(1));
        assert forall|i: int| 0 <= i < escaped(s).len() implies escaped(s)[i] != 10u8 by {
            let e = escape_byte(s[0]);
            if i < e.len() {
                assert(escaped(s)[i] == e[i]);
            } else {
                assert(escaped(s)[i] == escaped(s.skip(1))[i - e.len()]);
            }
        }
    }
}

// ---------------------------------------------------------------------------
// Frame shapes
// ---------------------------------------------------------------------------

/// The bytes of `{"channel":"`.
pub open spec fn obj_open() -> Seq<u8> {
    seq![123u8, 34u8, 99u8, 104u8, 97u8, 110u8, 110u8, 101u8, 108u8, 34u8, 58u8, 34u8]
}

/// The bytes of `,"payload":"`.
pub open spec fn obj_mid() -> Seq<u8> {
    seq![44u8, 34u8, 112u8, 97u8, 121u8, 108u8, 111u8, 97u8, 100u8, 34u8, 58u8, 34u8]
}

/// JSON text of a `PubMessage` (no trailing newline).
pub open spec fn pub_obj(m: PubMessageView) -> Seq<u8> {
    obj_open() + escaped(m.channel) + seq![34u8] + obj_mid() + escaped(m.payload)
        + seq![34u8, 125u8]
}

/// A full `PubMessage` frame.
pub open spec fn pub_frame(m: PubMessageView) -> Seq<u8> {
    pub_obj(m) + seq![10u8]
}

/// JSON text of a `Subscribe` (no trailing newline).
pub open spec fn sub_obj(channel: Seq<u8>) -> Seq<u8> {
    obj_open() + escaped(channel) + seq![34u8, 125u8]
}

/// A full `Subscribe` frame.
pub open spec fn sub_frame(channel: Seq<u8>) -> Seq<u8> {
    sub_obj(channel) + seq![10u8]
}

/// JSON text of an `AckMessage` (no trailing newline): `{"ack":true}`.
pub open spec fn ack_obj(ack: bool) -> Seq<u8> {
    seq![123u8, 34u8, 97u8, 99u8, 107u8, 34u8, 58u8]
        + (if ack { seq![116u8, 114u8, 117u8, 101u8] } else { seq![102u8, 97u8, 108u8, 115u8, 101u8] })
        + seq![125u8]
}

/// A full acknowledgement frame.
pub open spec fn ack_frame(ack: bool) -> Seq<u8> {
    ack_obj(ack) + seq![10u8]
}

/// A frame body never contains a raw newline.
pub proof fn lemma_pub_obj_no_nl(m: PubMessageView)
    ensures
        forall|i: int| 0 <= i < pub_obj(m).len() ==> pub_obj(m)[i] != 10u8,
{
    lemma_escaped_no_nl(m.channel);
    lemma_escaped_no_nl(m.payload);
    assert forall|i: int| 0 <= i < pub_obj(m).len() implies pub_obj(m)[i] != 10u8 by {
        let s = pub_obj(m);
        let a = obj_open();
        let ec = escaped(m.channel);
        let ep = escaped(m.payload);
        if i < a.len() {
            assert(s[i] == a[i]);
        } else if i < a.len() + ec.len() {
            assert(s[i] == ec[i - a.len()]);
        } else if i < a.len() + ec.len() + 1 {
            assert(s[i] == 34u8);
        } else if i < a.len() + ec.len() + 1 + obj_mid().len() {
            assert(s[i] == obj_mid()[i - (a.len() + ec.len() + 1)]);
        } else if i < a.len() + ec.len() + 1 + obj_mid().len() + ep.len() {
            assert(s[i] == ep[i - (a.len() + ec.len() + 1 + obj_mid().len())]);
        } else {
            assert(s[i] == seq![34u8, 125u8][i - (a.len() + ec.len() + 1 + obj_mid().len() + ep.len())]);
        }
    }
}

/// A `Subscribe` body never contains a raw newline either.
pub proof fn lemma_sub_obj_no_nl(channel: Seq<u8>)
    ensures
        forall|i: int| 0 <= i < sub_obj(channel).len() ==> sub_obj(channel)[i] != 10u8,
{
    lemma_escaped_no_nl(channel);
    assert forall|i: int| 0 <= i < sub_obj(channel).len() implies sub_obj(channel)[i]
        != 10u8 by {
        let s = sub_obj(channel);
        let a = obj_open();
        let ec = escaped(channel);
        if i < a.len() {
            assert(s[i] == a[i]);
        } else if i < a.len() + ec.len() {
            assert(s[i] == ec[i - a.len()]);
        } else {
            assert(s[i] == seq![34u8, 125u8][i - (a.len() + ec.len())]);
        }
    }
}

// ---------------------------------------------------------------------------
// Parsing (specification)
// ---------------------------------------------------------------------------

/// Is `d` a lower-case hex digit?
pub open spec fn is_hex(d: u8) -> bool {
    (48 <= d && d <= 57) || (97 <= d && d <= 102)
}

/// Value of a lower-case hex digit.
pub open spec fn hex_val(d: u8) -> u8 {
    if d <= 57 { (d - 48) as u8 } else { (d - 87) as u8 }
}

/// What a single-character escape stands for, if valid.
pub open spec fn unescape1(e: u8) -> Option<u8> {
    if e == 34 { Some(34u8) }
    else if e == 92 { Some(92u8) }
    else if e == 110 { Some(10u8) }
    else if e == 114 { Some(13u8) }
    else if e == 116 { Some(9u8) }
    else { None }
}

/// Parse a JSON string body that starts right after the opening quote.
/// Returns the unescaped content and the number of bytes consumed, the
/// closing quote included.
pub open spec fn parse_str(s: Seq<u8>) -> Option<(Seq<u8>, int)>
    decreases s.len(),
{
    if s.len() == 0 {
        None
    } else if s[0] == 34 {
        Some((Seq::<u8>::empty(), 1))
    } else if s[0] == 92 {
        if s.len() < 2 {
            None
        } else if s[1] == 117 {
            if s.len() >= 6 && s[2] == 48 && s[3] == 48 && is_hex(s[4]) && is_hex(s[5]) {
                match parse_str(s.skip(6)) {
                    Some(cn) => Some(
                        (seq![(16 * hex_val(s[4]) + hex_val(s[5])) as u8] + cn.0, 6 + cn.1),
                    ),
                    None => None,
                }
            } else {
                None
            }
        } else {
            match unescape1(s[1]) {
                Some(b) => match parse_str(s.skip(2)) {
                    Some(cn) => Some((seq![b] + cn.0, 2 + cn.1)),
                    None => None,
                },
                None => None,
            }
        }
    } else {
        match parse_str(s.skip(1)) {
            Some(cn) => Some((seq![s[0]] + cn.0, 1 + cn.1)),
            None => None,
        }
    }
}

/// Parse the JSON text of a `PubMessage` (a frame body, without the newline).
pub open spec fn parse_pub(s: Seq<u8>) -> Option<PubMessageView> {
    if s.len() >= 12 && s.take(12) == obj_open() {
        match parse_str(s.skip(12)) {
            Some(cn) => {
                let rest = s.skip(12 + cn.1);
                if rest.len() >= 12 && rest.take(12) == obj_mid() {
                    match parse_str(rest.skip(12)) {
                        Some(pn) => {
                            if rest.skip(12 + pn.1) == seq![125u8] {
                                Some(PubMessageView { channel: cn.0, payload: pn.0 })
                            } else {
                                None
                            }
                        },
                        None => None,
                    }
                } else {
                    None
                }
            },
            None => None,
        }
    } else {
        None
    }
}

/// Parse the JSON text of a `Subscribe`.
pub open spec fn parse_sub(s: Seq<u8>) -> Option<Seq<u8>> {
    if s.len() >= 12 && s.take(12) == obj_open() {
        match parse_str(s.skip(12)) {
            Some(cn) => {
                if s.skip(12 + cn.1) == seq![125u8] {
                    Some(cn.0)
                } else {
                    None
                }
            },
            None => None,
        }
    } else {
        None
    }
}

/// Parse the JSON text of an `AckMessage`.
pub open spec fn parse_ack(s: Seq<u8>) -> Option<bool> {
    if s == ack_obj(true) { Some(true) }
    else if s == ack_obj(false) { Some(false) }
    else { None }
}

// ---------------------------------------------------------------------------
// Round trips
// ---------------------------------------------------------------------------

/// Parsing an escaped string recovers it exactly, whatever follows the
/// closing quote.
pub proof fn lemma_parse_str_escaped(c: Seq<u8>, rest: Seq<u8>)
    ensures
        parse_str(escaped(c) + seq![34u8] + rest)
            == Some((c, escaped(c).len() + 1 as int)),
    decreases c.len(),
{
    let s = escaped(c) + seq![34u8] + rest;
    if c.len() == 0 {
        assert(s =~= seq![34u8] + rest);
        assert(s[0] == 34);
        assert(parse_str(s) == Some((Seq::<u8>::empty(), 1int)));
        assert(c =~= Seq::<u8>::empty());
    } else {
        let b = c[0];
        let e = escape_byte(b);
        let tail = escaped(c.skip(1)) + seq![34u8] + rest;
        assert(escaped(c) == e + escaped(c.skip(1)));
        assert(s =~= e + tail);
        assert(forall|i: int| 0 <= i < e.len() ==> s[i] == e[i]);
        assert(s.skip(e.len() as int) =~= tail);
        lemma_parse_str_escaped(c.skip(1), rest);
        assert(parse_str(tail) == Some((c.skip(1), escaped(c.skip(1)).len() + 1 as int)));
        if b == 34 || b == 92 || b == 10 || b == 13 || b == 9 {
            // two-byte escape: backslash then a marker that unescape1 inverts
            assert(e.len() == 2);
            assert(s[0] == 92);
            assert(s[1] == e[1]);
            assert(s[1] != 117);
            assert(unescape1(s[1]) == Some(b));
            assert(s.skip(2) =~= tail);
            assert(seq![b] + c.skip(1) =~= c);
            assert(parse_str(s) == Some((c, escaped(c).len() + 1 as int)));
        } else if b < 32 {
            // \u00xy escape
            assert(e.len() == 6);
            assert(s[0] == 92 && s[1] == 117 && s[2] == 48 && s[3] == 48);
            assert(s[4] == hex_digit(b / 16) && s[5] == hex_digit(b % 16));
            assert(b / 16 < 16 && b % 16 < 16);
            assert(is_hex(hex_digit(b / 16)));
            assert(is_hex(hex_digit(b % 16)));
            assert(hex_val(hex_digit(b / 16)) == b / 16);
            assert(hex_val(hex_digit(b % 16)) == b % 16);
            assert(16 * (b / 16) + (b % 16) == b) by (nonlinear_arith);
            assert(s.skip(6) =~= tail);
            assert(seq![b] + c.skip(1) =~= c);
            assert(parse_str(s) == Some((c, escaped(c).len() + 1 as int)));
        } else {
            assert(e.len() == 1);
            assert(s[0] == b);
            assert(b != 34 && b != 92);
            assert(s.skip(1) =~= tail);
            assert(seq![b] + c.skip(1) =~= c);
            assert(parse_str(s) == Some((c, escaped(c).len() + 1 as int)));
        }
    }
}

/// Decoding an encoded `PubMessage` yields the message back.
pub proof fn lemma_pub_round_trip(m: PubMessageView)
    ensures
        parse_pub(pub_obj(m)) == Some(m),
{
    let s = pub_obj(m);
    let ec = escaped(m.channel);
    let ep = escaped(m.payload);
    assert(s.take(12) =~= obj_open());
    let after_open = ec + seq![34u8] + (obj_mid() + ep + seq![34u8, 125u8]);
    assert(s.skip(12) =~= after_open);
    lemma_parse_str_escaped(m.channel, obj_mid() + ep + seq![34u8, 125u8]);
    let n1 = ec.len() + 1 as int;
    assert(parse_str(s.skip(12)) == Some((m.channel, n1)));
    let rest = s.skip(12 + n1);
    assert(rest =~= obj_mid() + ep + seq![34u8, 125u8]);
    assert(rest.take(12) =~= obj_mid());
    assert(rest.skip(12) =~= ep + seq![34u8] + seq![125u8]);
    lemma_parse_str_escaped(m.payload, seq![125u8]);
    let n2 = ep.len() + 1 as int;
    assert(parse_str(rest.skip(12)) == Some((m.payload, n2)));
    assert(rest.skip(12 + n2) =~= seq![125u8]);
    assert(parse_pub(s) == Some(PubMessageView { channel: m.channel, payload: m.payload }));
    assert(PubMessageView { channel: m.channel, payload: m.payload } == m);
}

/// Decoding an encoded `Subscribe` yields the channel back.
pub proof fn lemma_sub_round_trip(channel: Seq<u8>)
    ensures
        parse_sub(sub_obj(channel)) == Some(channel),
{
    let s = sub_obj(channel);
    let ec = escaped(channel);
    assert(s.take(12) =~= obj_open());
    assert(s.skip(12) =~= ec + seq![34u8] + seq![125u8]);
    lemma_parse_str_escaped(channel, seq![125u8]);
    let n1 = ec.len() + 1 as int;
    assert(parse_str(s.skip(12)) == Some((channel, n1)));
    assert(s.skip(12 + n1) =~= seq![125u8]);
}

/// Decoding an encoded `AckMessage` yields the flag back.
pub proof fn lemma_ack_round_trip(ack: bool)
    ensures
        parse_ack(ack_obj(ack)) == Some(ack),
{
    assert(ack_obj(true).len() == 12);
    assert(ack_obj(false).len() == 13);
    assert(ack_obj(true)[7] == 116u8);
    assert(ack_obj(false)[7] == 102u8);
    if ack {
        assert(ack_obj(true) != ack_obj(false));
    } else {
        assert(ack_obj(false) != ack_obj(true));
    }
}

// ---------------------------------------------------------------------------
// Encoding (executable)
// ---------------------------------------------------------------------------

/// Escaping one more byte appends its escape.
proof fn lemma_escaped_snoc(s: Seq<u8>, b: u8)
    ensures
        escaped(s.push(b)) == escaped(s) + escape_byte(b),
    decreases s.len(),
{
    if s.len() == 0 {
        assert(s.push(b).len() == 1);
        assert(s.push(b)[0] == b);
        assert(s.push(b).skip(1) =~= Seq::<u8>::empty());
        assert(escaped(Seq::<u8>::empty()) == Seq::<u8>::empty());
        assert(escaped(s.push(b)) == escape_byte(b) + Seq::<u8>::empty());
        assert(escape_byte(b) + Seq::<u8>::empty() =~= escape_byte(b));
        assert(escaped(s) + escape_byte(b) =~= escape_byte(b));
    } else {
        assert(s.push(b)[0] == s[0]);
        assert(s.push(b).skip(1) =~= s.skip(1).push(b));
        lemma_escaped_snoc(s.skip(1), b);
        assert(escaped(s.push(b)) =~= escaped(s) + escape_byte(b));
    }
}

/// Appends `escaped(s)` to `out`.
#[verifier::rlimit(30)]
fn push_escaped(out: &mut Vec<u8>, s: &Vec<u8>)
    ensures
        final(out)@ == old(out)@ + escaped(s@),
{
    let mut i: usize = 0;
    while i < s.len()
        invariant
            i <= s@.len(),
            out@ == old(out)@ + escaped(s@.take(i as int)),
        decreases s@.len() - i,
    {
        let b = s[i];
        proof {
            assert(s@.take(i + 1) =~= s@.take(i as int).push(b));
            lemma_escaped_snoc(s@.take(i as int), b);
        }
        if b == 34 {
            out.push(92); out.push(34);
        } else if b == 92 {
            out.push(92); out.push(92);
        } else if b == 10 {
            out.push(92); out.push(110);
        } else if b == 13 {
            out.push(92); out.push(114);
        } else if b == 9 {
            out.push(92); out.push(116);
        } else if b < 32 {
            let hi: u8 = b / 16;
            let lo: u8 = b % 16;
            out.push(92); out.push(117); out.push(48); out.push(48);
            out.push(if hi < 10 { 48 + hi } else { 87 + hi });
            out.push(if lo < 10 { 48 + lo } else { 87 + lo });
        } else {
            out.push(b);
        }
        proof {
            assert(out@ =~= old(out)@ + escaped(s@.take(i + 1)));
        }
        i += 1;
    }
    proof {
        assert(s@.take(s@.len() as int) =~= s@);
    }
}

/// Appends the bytes of `{"channel":"` to `out`.
fn push_obj_open(out: &mut Vec<u8>)
    ensures
        final(out)@ == old(out)@ + obj_open(),
{
    out.push(123); out.push(34); out.push(99); out.push(104); out.push(97);
    out.push(110); out.push(110); out.push(101); out.push(108); out.push(34);
    out.push(58); out.push(34);
    proof {
        assert(out@ =~= old(out)@ + obj_open());
    }
}

/// Appends the bytes of `,"payload":"` to `out`.
fn push_obj_mid(out: &mut Vec<u8>)
    ensures
        final(out)@ == old(out)@ + obj_mid(),
{
    out.push(44); out.push(34); out.push(112); out.push(97); out.push(121);
    out.push(108); out.push(111); out.push(97); out.push(100); out.push(34);
    out.push(58); out.push(34);
    proof {
        assert(out@ =~= old(out)@ + obj_mid());
    }
}

// ---------------------------------------------------------------------------
// Parsing (executable)
// ---------------------------------------------------------------------------

/// Glues a parsed prefix onto the result of parsing the remaining input.
pub open spec fn glue(acc: Seq<u8>, k: int, r: Option<(Seq<u8>, int)>) -> Option<(Seq<u8>, int)> {
    match r {
        Some(cn) => Some((acc + cn.0, k + cn.1)),
        None => None,
    }
}

proof fn lemma_glue_assoc(acc: Seq<u8>, k: int, x: Seq<u8>, d: int, r: Option<(Seq<u8>, int)>)
    ensures
        glue(acc, k, glue(x, d, r)) == glue(acc + x, k + d, r),
{
    match r {
        Some(cn) => {
            assert(acc + (x + cn.0) =~= (acc + x) + cn.0);
        },
        None => {},
    }
}

/// Parses a JSON string body of `s` starting at `start` (just past the
/// opening quote); returns the content and the count of bytes consumed,
/// closing quote included.
fn parse_str_ex(s: &Vec<u8>, start: usize) -> (r: Option<(Vec<u8>, usize)>)
    requires
        start <= s@.len(),
    ensures
        (match r {
            Some(cn) => parse_str(s@.skip(start as int)) == Some((cn.0@, cn.1 as int))
                && start + cn.1 <= s@.len(),
            None => parse_str(s@.skip(start as int)) is None,
        }),
{
    let ghost t = s@.skip(start as int);
    let avail: usize = s.len() - start;
    let mut acc: Vec<u8> = Vec::new();
    let mut k: usize = 0;
    proof {
        assert(t.skip(0) =~= t);
        if parse_str(t) is Some {
            let cn = parse_str(t).unwrap();
            assert(Seq::<u8>::empty() + cn.0 =~= cn.0);
        }
    }
    loop
        invariant
            k <= avail,
            avail == s@.len() - start,
            start + avail == s@.len(),
            s@.len() <= usize::MAX,
            t == s@.skip(start as int),
            glue(acc@, k as int, parse_str(t.skip(k as int))) == parse_str(t),
        decreases avail - k,
    {
        let ghost tk = t.skip(k as int);
        proof {
            assert(forall|j: int| 0 <= j < tk.len() ==> tk[j] == s@[start + k + j]);
        }
        if k >= avail {
            proof {
                assert(tk =~= Seq::<u8>::empty());
            }
            return None;
        }
        let b = s[start + k];
        proof {
            assert(tk[0] == b);
        }
        if b == 34 {
            proof {
                assert(parse_str(tk) == Some((Seq::<u8>::empty(), 1int)));
                assert(acc@ + Seq::<u8>::empty() =~= acc@);
            }
            return Some((acc, k + 1));
        } else if b == 92 {
            if avail - k < 2 {
                proof {
                    assert(tk.len() < 2);
                    assert(parse_str(tk) is None);
                }
                return None;
            }
            let e = s[start + k + 1];
            proof {
                assert(tk[1] == e);
            }
            if e == 117 {
                if avail - k < 6 {
                    proof {
                        assert(tk.len() < 6);
                        assert(parse_str(tk) is None);
                    }
                    return None;
                }
                let d2 = s[start + k + 2];
                let d3 = s[start + k + 3];
                let d4 = s[start + k + 4];
                let d5 = s[start + k + 5];
                proof {
                    assert(tk[2] == d2 && tk[3] == d3 && tk[4] == d4 && tk[5] == d5);
                }
                let hex4 = (48 <= d4 && d4 <= 57) || (97 <= d4 && d4 <= 102);
                let hex5 = (48 <= d5 && d5 <= 57) || (97 <= d5 && d5 <= 102);
                if d2 == 48 && d3 == 48 && hex4 && hex5 {
                    let v4: u8 = if d4 <= 57 { d4 - 48 } else { d4 - 87 };
                    let v5: u8 = if d5 <= 57 { d5 - 48 } else { d5 - 87 };
                    let v: u8 = 16 * v4 + v5;
                    proof {
                        assert(v == 16 * hex_val(tk[4]) + hex_val(tk[5]));
                        assert(parse_str(tk) == glue(seq![v], 6, parse_str(tk.skip(6))));
                        assert(tk.skip(6) =~= t.skip(k + 6));
                        lemma_glue_assoc(acc@, k as int, seq![v], 6, parse_str(t.skip(k + 6)));
                        assert(acc@.push(v) =~= acc@ + seq![v]);
                    }
                    acc.push(v);
                    k += 6;
                } else {
                    proof {
                        assert(parse_str(tk) is None);
                    }
                    return None;
                }
            } else {
                let u: u8 = if e == 34 { 34 } else if e == 92 { 92 } else if e == 110 { 10 }
                    else if e == 114 { 13 } else if e == 116 { 9 } else { 0 };
                if e == 34 || e == 92 || e == 110 || e == 114 || e == 116 {
                    proof {
                        assert(unescape1(tk[1]) == Some(u));
                        assert(parse_str(tk) == glue(seq![u], 2, parse_str(tk.skip(2))));
                        assert(tk.skip(2) =~= t.skip(k + 2));
                        lemma_glue_assoc(acc@, k as int, seq![u], 2, parse_str(t.skip(k + 2)));
                        assert(acc@.push(u) =~= acc@ + seq![u]);
                    }
                    acc.push(u);
                    k += 2;
                } else {
                    proof {
                        assert(unescape1(tk[1]) is None);
                        assert(parse_str(tk) is None);
                    }
                    return None;
                }
            }
        } else {
            proof {
                assert(parse_str(tk) == glue(seq![b], 1, parse_str(tk.skip(1))));
                assert(tk.skip(1) =~= t.skip(k + 1));
                lemma_glue_assoc(acc@, k as int, seq![b], 1, parse_str(t.skip(k + 1)));
                assert(acc@.push(b) =~= acc@ + seq![b]);
            }
            acc.push(b);
            k += 1;
        }
    }
}

/// Does `s` hold exactly `lit` starting at `at`?
fn match_lit(s: &Vec<u8>, at: usize, lit: &Vec<u8>) -> (b: bool)
    requires
        at <= s@.len(),
    ensures
        b == (at + lit@.len() <= s@.len() && s@.subrange(at as int, at + lit@.len()) == lit@),
{
    if lit.len() > s.len() - at {
        return false;
    }
    let mut i: usize = 0;
    while i < lit.len()
        invariant
            i <= lit@.len(),
            at + lit@.len() <= s@.len(),
            s@.len() <= usize::MAX,
            forall|j: int| 0 <= j < i ==> s@[at + j] == lit@[j],
        decreases lit@.len() - i,
    {
        if s[at + i] != lit[i] {
            proof {
                assert(s@.subrange(at as int, at + lit@.len())[i as int] == s@[at + i]);
            }
            return false;
        }
        i += 1;
    }
    proof {
        assert(s@.subrange(at as int, at + lit@.len()) =~= lit@);
    }
    true
}

/// The bytes of `{"channel":"` as a vector.
fn obj_open_vec() -> (r: Vec<u8>)
    ensures
        r@ == obj_open(),
{
    let mut v: Vec<u8> = Vec::new();
    push_obj_open(&mut v);
    proof {
        assert(v@ =~= obj_open());
    }
    v
}

/// The bytes of `,"payload":"` as a vector.
fn obj_mid_vec() -> (r: Vec<u8>)
    ensures
        r@ == obj_mid(),
{
    let mut v: Vec<u8> = Vec::new();
    push_obj_mid(&mut v);
    proof {
        assert(v@ =~= obj_mid());
    }
    v
}

// ---------------------------------------------------------------------------
// Newline search and the decode step
// ---------------------------------------------------------------------------

/// Index of the first newline byte, or the length when there is none.
pub open spec fn first_nl(s: Seq<u8>) -> nat
    decreases s.len(),
{
    if s.len() == 0 {
        0
    } else if s[0] == 10 {
        0
    } else {
        1 + first_nl(s.skip(1))
    }
}

/// What `first_nl` finds: the first newline, or none at all.
pub proof fn lemma_first_nl(s: Seq<u8>)
    ensures
        first_nl(s) <= s.len(),
        first_nl(s) < s.len() ==> s[first_nl(s) as int] == 10u8,
        forall|j: int| 0 <= j < first_nl(s) ==> s[j] != 10u8,
    decreases s.len(),
{
    if s.len() > 0 && s[0] != 10 {
        lemma_first_nl(s.skip(1));
        assert(forall|j: int| 0 <= j < first_nl(s.skip(1)) ==> s.skip(1)[j] != 10u8);
        assert forall|j: int| 0 <= j < first_nl(s) implies s[j] != 10u8 by {
            if j > 0 {
                assert(s.skip(1)[j - 1] == s[j]);
            }
        }
    }
}

/// A position with no newline before it, and a newline (or the end) at it,
/// is where `first_nl` points.
pub proof fn lemma_first_nl_is(s: Seq<u8>, n: nat)
    requires
        n <= s.len(),
        forall|j: int| 0 <= j < n ==> s[j] != 10u8,
        n < s.len() ==> s[n as int] == 10u8,
    ensures
        first_nl(s) == n,
    decreases s.len(),
{
    if s.len() == 0 {
    } else if s[0] == 10 {
        assert(n == 0);
    } else {
        assert(n >= 1);
        assert(forall|j: int| 0 <= j < n - 1 ==> s.skip(1)[j] == s[j + 1]);
        if n - 1 < s.skip(1).len() {
            assert(s.skip(1)[n - 1] == s[n as int]);
        }
        lemma_first_nl_is(s.skip(1), (n - 1) as nat);
    }
}

/// One decode step over a buffer that held `s0` and now holds `s1`: nothing
/// happens without a newline; otherwise the first line is consumed and parsed.
pub open spec fn decode_step<T>(
    s0: Seq<u8>,
    s1: Seq<u8>,
    r: Option<T>,
    parsed: Option<T>,
) -> bool {
    if first_nl(s0) == s0.len() {
        s1 == s0 && r is None
    } else {
        s1 == s0.skip(first_nl(s0) + 1int) && r == parsed
    }
}

// ---------------------------------------------------------------------------
// The codec itself
// ---------------------------------------------------------------------------

/// Frames outbound messages and splits inbound bytes on `\n`.
pub struct LineCodec;

impl LineCodec {
    /// Encodes a `PubMessage` as one canonical frame.
    pub fn encode_pub(m: &PubMessage) -> (r: Vec<u8>)
        ensures
            r@ == pub_frame(m@),
    {
        let mut out: Vec<u8> = Vec::new();
        push_obj_open(&mut out);
        push_escaped(&mut out, &m.channel);
        out.push(34);
        push_obj_mid(&mut out);
        push_escaped(&mut out, &m.payload);
        out.push(34);
        out.push(125);
        out.push(10);
        proof {
            assert(out@ =~= pub_frame(m@));
        }
        out
    }

    /// Encodes a `Subscribe` as one canonical frame.
    pub fn encode_sub(m: &Subscribe) -> (r: Vec<u8>)
        ensures
            r@ == sub_frame(m@),
    {
        let mut out: Vec<u8> = Vec::new();
        push_obj_open(&mut out);
        push_escaped(&mut out, &m.channel);
        out.push(34);
        out.push(125);
        out.push(10);
        proof {
            assert(out@ =~= sub_frame(m@));
        }
        out
    }

    /// Encodes an `AckMessage` as one canonical frame.
    pub fn encode_ack(m: &AckMessage) -> (r: Vec<u8>)
        ensures
            r@ == ack_frame(m.ack),
    {
        let mut out: Vec<u8> = Vec::new();
        out.push(123); out.push(34); out.push(97); out.push(99); out.push(107);
        out.push(34); out.push(58);
        if m.ack {
            out.push(116); out.push(114); out.push(117); out.push(101);
        } else {
            out.push(102); out.push(97); out.push(108); out.push(115); out.push(101);
        }
        out.push(125);
        out.push(10);
        proof {
            assert(out@ =~= ack_frame(m.ack));
        }
        out
    }

    /// Parses one frame body as a `PubMessage`.
    pub fn parse_pub_body(body: &Vec<u8>) -> (r: Option<PubMessage>)
        ensures
            (match r {
                Some(m) => parse_pub(body@) == Some(m@),
                None => parse_pub(body@) is None,
            }),
    {
        let blen: usize = body.len();
        let open = obj_open_vec();
        if !match_lit(body, 0, &open) {
            proof {
                if body@.len() >= 12 {
                    assert(body@.subrange(0, 12) =~= body@.take(12));
                }
            }
            return None;
        }
        proof {
            assert(body@.subrange(0, 12) =~= body@.take(12));
        }
        let cn = match parse_str_ex(body, 12) {
            Some(cn) => cn,
            None => { return None; },
        };
        let after: usize = 12 + cn.1;
        let ghost rest = body@.skip(12 + cn.1 as int);
        proof {
            assert(forall|j: int| 0 <= j < rest.len() ==> rest[j] == body@[after + j]);
        }
        let mid = obj_mid_vec();
        if !match_lit(body, after, &mid) {
            proof {
                if rest.len() >= 12 {
                    assert(rest.take(12) =~= body@.subrange(after as int, after + 12));
                }
            }
            return None;
        }
        proof {
            assert(rest.take(12) =~= body@.subrange(after as int, after + 12));
            assert(rest.skip(12) =~= body@.skip(after + 12));
        }
        let pn = match parse_str_ex(body, after + 12) {
            Some(pn) => pn,
            None => { return None; },
        };
        let end: usize = after + 12 + pn.1;
        let ghost tail = rest.skip(12 + pn.1 as int);
        proof {
            assert(tail =~= body@.skip(end as int));
        }
        if end < blen && blen - end == 1 && body[end] == 125 {
            proof {
                assert(tail =~= seq![125u8]);
            }
            Some(PubMessage { channel: cn.0, payload: pn.0 })
        } else {
            proof {
                if tail == seq![125u8] {
                    assert(tail.len() == 1);
                    assert(tail[0] == body@[end as int]);
                }
            }
            None
        }
    }

    /// Parses one frame body as a `Subscribe`.
    pub fn parse_sub_body(body: &Vec<u8>) -> (r: Option<Subscribe>)
        ensures
            (match r {
                Some(m) => parse_sub(body@) == Some(m@),
                None => parse_sub(body@) is None,
            }),
    {
        let blen: usize = body.len();
        let open = obj_open_vec();
        if !match_lit(body, 0, &open) {
            proof {
                if body@.len() >= 12 {
                    assert(body@.subrange(0, 12) =~= body@.take(12));
                }
            }
            return None;
        }
        proof {
            assert(body@.subrange(0, 12) =~= body@.take(12));
        }
        let cn = match parse_str_ex(body, 12) {
            Some(cn) => cn,
            None => { return None; },
        };
        let end: usize = 12 + cn.1;
        let ghost tail = body@.skip(12 + cn.1 as int);
        if end < blen && blen - end == 1 && body[end] == 125 {
            proof {
                assert(tail =~= seq![125u8]);
            }
            Some(Subscribe { channel: cn.0 })
        } else {
            proof {
                if tail == seq![125u8] {
                    assert(tail.len() == 1);
                    assert(tail[0] == body@[end as int]);
                }
            }
            None
        }
    }

    /// Parses one frame body as an `AckMessage`.
    pub fn parse_ack_body(body: &Vec<u8>) -> (r: Option<AckMessage>)
        ensures
            (match r {
                Some(m) => parse_ack(body@) == Some(m.ack),
                None => parse_ack(body@) is None,
            }),
    {
        let mut tru: Vec<u8> = Vec::new();
        tru.push(123); tru.push(34); tru.push(97); tru.push(99); tru.push(107);
        tru.push(34); tru.push(58); tru.push(116); tru.push(114); tru.push(117);
        tru.push(101); tru.push(125);
        proof {
            assert(tru@ =~= ack_obj(true));
        }
        let mut fal: Vec<u8> = Vec::new();
        fal.push(123); fal.push(34); fal.push(97); fal.push(99); fal.push(107);
        fal.push(34); fal.push(58); fal.push(102); fal.push(97); fal.push(108);
        fal.push(115); fal.push(101); fal.push(125);
        proof {
            assert(fal@ =~= ack_obj(false));
        }
        if body.len() == 12 && match_lit(body, 0, &tru) {
            proof {
                assert(body@ =~= body@.subrange(0, 12));
            }
            Some(AckMessage { ack: true })
        } else if body.len() == 13 && match_lit(body, 0, &fal) {
            proof {
                assert(body@ =~= body@.subrange(0, 13));
            }
            Some(AckMessage { ack: false })
        } else {
            proof {
                if body@ == ack_obj(true) {
                    assert(body@.len() == 12);
                    assert(body@.subrange(0, 12) =~= body@);
                }
                if body@ == ack_obj(false) {
                    assert(body@.len() == 13);
                    assert(body@.subrange(0, 13) =~= body@);
                }
            }
            None
        }
    }

    /// Splits the first `\n`-terminated line off `buf`, returning its body.
    /// Without a newline the buffer is left as it is.
    pub fn split_frame(buf: &mut bytes::BytesMut) -> (r: Option<Vec<u8>>)
        ensures
            (match r {
                Some(body) => {
                    &&& first_nl(bm_contents(*old(buf))) < bm_contents(*old(buf)).len()
                    &&& body@ == bm_contents(*old(buf)).take(first_nl(bm_contents(*old(buf))) as int)
                    &&& bm_contents(*final(buf)) == bm_contents(*old(buf)).skip(
                        first_nl(bm_contents(*old(buf))) + 1int,
                    )
                },
                None => {
                    &&& first_nl(bm_contents(*old(buf))) == bm_contents(*old(buf)).len()
                    &&& bm_contents(*final(buf)) == bm_contents(*old(buf))
                },
            }),
    {
        let ghost s0 = bm_contents(*buf);
        let n = bm_len(buf);
        let mut i: usize = 0;
        let mut found: bool = false;
        while i < n && !found
            invariant
                i <= n,
                n == s0.len(),
                bm_contents(*buf) == s0,
                forall|j: int| 0 <= j < i ==> s0[j] != 10u8,
                found ==> i < n && s0[i as int] == 10u8,
            decreases n - i + (if found { 0int } else { 1int }),
        {
            if bm_byte_at(buf, i) == 10 {
                found = true;
            } else {
                i += 1;
            }
        }
        if !found {
            proof {
                lemma_first_nl_is(s0, s0.len());
            }
            return None;
        }
        proof {
            lemma_first_nl_is(s0, i as nat);
        }
        let chunk = bm_split_to(buf, i);
        let _nl = bm_split_to(buf, 1);
        proof {
            assert(bm_contents(*buf) =~= s0.skip(i + 1));
        }
        bm_reserve(buf, crate::BUFFER_SIZE);
        let body = bm_to_vec(&chunk);
        Some(body)
    }

    /// Decodes one `PubMessage` frame from the front of `buf`; consumes the
    /// line (newline included) even when its body does not parse.
    pub fn decode_pub(buf: &mut bytes::BytesMut) -> (r: Option<PubMessage>)
        ensures
            (match r {
                Some(m) => decode_step(
                    bm_contents(*old(buf)),
                    bm_contents(*final(buf)),
                    Some(m@),
                    parse_pub(bm_contents(*old(buf)).take(first_nl(bm_contents(*old(buf))) as int)),
                ),
                None => decode_step(
                    bm_contents(*old(buf)),
                    bm_contents(*final(buf)),
                    None::<PubMessageView>,
                    (if first_nl(bm_contents(*old(buf))) == bm_contents(*old(buf)).len() {
                        None
                    } else {
                        parse_pub(
                            bm_contents(*old(buf)).take(first_nl(bm_contents(*old(buf))) as int),
                        )
                    }),
                ),
            }),
    {
        match Self::split_frame(buf) {
            Some(body) => Self::parse_pub_body(&body),
            None => None,
        }
    }

    /// Decodes one `Subscribe` frame from the front of `buf`.
    pub fn decode_sub(buf: &mut bytes::BytesMut) -> (r: Option<Subscribe>)
        ensures
            (match r {
                Some(m) => decode_step(
                    bm_contents(*old(buf)),
                    bm_contents(*final(buf)),
                    Some(m@),
                    parse_sub(bm_contents(*old(buf)).take(first_nl(bm_contents(*old(buf))) as int)),
                ),
                None => decode_step(
                    bm_contents(*old(buf)),
                    bm_contents(*final(buf)),
                    None::<Seq<u8>>,
                    (if first_nl(bm_contents(*old(buf))) == bm_contents(*old(buf)).len() {
                        None
                    } else {
                        parse_sub(
                            bm_contents(*old(buf)).take(first_nl(bm_contents(*old(buf))) as int),
                        )
                    }),
                ),
            }),
    {
        match Self::split_frame(buf) {
            Some(body) => Self::parse_sub_body(&body),
            None => None,
        }
    }
}

} // verus!
