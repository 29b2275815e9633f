//! The framed message codec.
//!
//! A message is serialized as self-describing JSON text in one canonical
//! form, and a frame is that text in UTF-8 followed by a single zero byte.
//! The terminator is the only framing device, which is sound because the
//! canonical text never contains a control character, hence never a zero
//! byte ([`lemma_framing_safety`]).  Decoding accepts exactly the canonical
//! forms, so every message round-trips ([`lemma_parse_msg_chars`]).

use vstd::prelude::*;
use vstd::string::StrSliceExecFns;
use vstd::string::StringExecFns;
use crate::digits::int_chars;
use crate::digits::is_dec_digit;
use crate::digits::parse_int;
use crate::digits::lemma_dec_digits;
use crate::digits::lemma_parse_int_chars;
use crate::digits::scan_int;
use crate::digits::push_int;
use crate::escape::esc_seq;
use crate::escape::parse_str_body;
use crate::escape::lemma_esc_seq_visible;
use crate::escape::lemma_parse_escaped;
use crate::escape::lemma_parse_sound;
use crate::escape::push_escaped;
use crate::escape::scan_string;
use crate::protocol::LoginStatus;
use crate::protocol::Message;
use crate::protocol::MessageModel;

verus! {

/// Why a frame failed to decode.
#[derive(Clone, Copy, Debug, PartialEq, Eq, Structural)]
pub enum DecodeError {
    /// The payload bytes are not valid UTF-8.
    InvalidUtf8,
    /// The payload text is not a canonical encoding of any message.
    Malformed,
}

pub open spec fn starts_with(s: Seq<char>, p: Seq<char>) -> bool {
    s.len() >= p.len() && s.subrange(0, p.len() as int) == p
}

/// The canonical text encoding of a message.
pub open spec fn msg_chars(m: MessageModel) -> Seq<char> {
    match m {
        MessageModel::LoginRequest { username, password } => "{\"LoginRequest\":{\"username\":\""@
            + esc_seq(username) + "\",\"password\":\""@ + esc_seq(password) + "\"}}"@,
        MessageModel::LoginReply { status } => match status {
            LoginStatus::Accepted { id } => "{\"LoginReply\":{\"Accepted\":{\"id\":"@ + int_chars(
                id as int,
            ) + "}}}"@,
            LoginStatus::BadUser => "{\"LoginReply\":\"BadUser\"}"@,
            LoginStatus::BadPass => "{\"LoginReply\":\"BadPass\"}"@,
        },
        MessageModel::BadRequest => "\"BadRequest\""@,
        MessageModel::InternalError => "\"InternalError\""@,
    }
}

/// Parse one message out of its canonical text encoding.  Yields a message
/// exactly on the texts [`msg_chars`] produces.
pub open spec fn parse_msg(s: Seq<char>) -> Option<MessageModel> {
    if s == "\"BadRequest\""@ {
        Some(MessageModel::BadRequest)
    } else if s == "\"InternalError\""@ {
        Some(MessageModel::InternalError)
    } else if s == "{\"LoginReply\":\"BadUser\"}"@ {
        Some(MessageModel::LoginReply { status: LoginStatus::BadUser })
    } else if s == "{\"LoginReply\":\"BadPass\"}"@ {
        Some(MessageModel::LoginReply { status: LoginStatus::BadPass })
    } else if starts_with(s, "{\"LoginReply\":{\"Accepted\":{\"id\":"@) {
        let rest = s.skip("{\"LoginReply\":{\"Accepted\":{\"id\":"@.len() as int);
        match parse_int(rest) {
            Some(t) => if rest.skip(t.1) == "}}}"@ {
                Some(
                    MessageModel::LoginReply {
                        status: LoginStatus::Accepted { id: t.0 as i32 },
                    },
                )
            } else {
                None
            },
            None => None,
        }
    } else if starts_with(s, "{\"LoginRequest\":{\"username\":\""@) {
        let r0 = s.skip("{\"LoginRequest\":{\"username\":\""@.len() as int);
        match parse_str_body(r0) {
            Some(t1) => {
                let r1 = r0.skip(t1.1);
                if starts_with(r1, ",\"password\":\""@) {
                    let r2 = r1.skip(",\"password\":\""@.len() as int);
                    match parse_str_body(r2) {
                        Some(t2) => if r2.skip(t2.1) == "}}"@ {
                            Some(MessageModel::LoginRequest { username: t1.0, password: t2.0 })
                        } else {
                            None
                        },
                        None => None,
                    }
                } else {
                    None
                }
            },
            None => None,
        }
    } else {
        None
    }
}

/// The bytes of one frame: the message text in UTF-8, then the terminator.
pub open spec fn frame_bytes(m: MessageModel) -> Seq<u8> {
    vstd::utf8::encode_utf8(msg_chars(m)) + seq![0u8]
}

// ---------------------------------------------------------------------------
// Laws.
// ---------------------------------------------------------------------------

/// Round trip: every message parses back from its canonical text, so at the
/// exec level `decode(encode(m))` returns `m` for every constructible message.
pub proof fn lemma_parse_msg_chars(m: MessageModel)
    ensures
        parse_msg(msg_chars(m)) == Some(m),
{
    reveal_strlit("\"BadRequest\"");
    reveal_strlit("\"InternalError\"");
    reveal_strlit("{\"LoginReply\":\"BadUser\"}");
    reveal_strlit("{\"LoginReply\":\"BadPass\"}");
    let s = msg_chars(m);
    match m {
        MessageModel::BadRequest => {
        },
        MessageModel::InternalError => {
            assert(s != "\"BadRequest\""@);
        },
        MessageModel::LoginReply { status } => {
            match status {
                LoginStatus::BadUser => {
                    assert(s != "\"BadRequest\""@);
                    assert(s != "\"InternalError\""@);
                },
                LoginStatus::BadPass => {
                    assert(s != "\"BadRequest\""@);
                    assert(s != "\"InternalError\""@);
                    assert(s != "{\"LoginReply\":\"BadUser\"}"@) by {
                        assert("{\"LoginReply\":\"BadPass\"}"@[18] != "{\"LoginReply\":\"BadUser\"}"@[18]);
                    }
                },
                LoginStatus::Accepted { id } => {
                    reveal_strlit("{\"LoginReply\":{\"Accepted\":{\"id\":");
                    reveal_strlit("}}}");
                    let pre = "{\"LoginReply\":{\"Accepted\":{\"id\":"@;
                    let num = int_chars(id as int);
                    let end = "}}}"@;
                    lemma_dec_digits(if id < 0 {
                        (-(id as int)) as nat
                    } else {
                        id as nat
                    });
                    assert(num.len() >= 1);
                    assert(s == pre + num + end);
                    assert(s.len() == pre.len() + num.len() + end.len());
                    assert(s.len() >= 36);
                    assert(s != "\"BadRequest\""@);
                    assert(s != "\"InternalError\""@);
                    assert(s != "{\"LoginReply\":\"BadUser\"}"@);
                    assert(s != "{\"LoginReply\":\"BadPass\"}"@);
                    assert(s.subrange(0, pre.len() as int) =~= pre);
                    assert(starts_with(s, pre));
                    let rest = s.skip(pre.len() as int);
                    assert(rest =~= num + end);
                    assert(!is_dec_digit('}'));
                    lemma_parse_int_chars(id as int, end);
                    assert(parse_int(rest) == Some((id as int, num.len() as int)));
                    assert(rest.skip(num.len() as int) =~= end);
                    assert((id as int) as i32 == id);
                },
            }
        },
        MessageModel::LoginRequest { username, password } => {
            reveal_strlit("{\"LoginRequest\":{\"username\":\"");
            reveal_strlit("{\"LoginReply\":{\"Accepted\":{\"id\":");
            reveal_strlit("\",\"password\":\"");
            reveal_strlit(",\"password\":\"");
            reveal_strlit("\"}}");
            reveal_strlit("}}");
            let pre = "{\"LoginRequest\":{\"username\":\""@;
            let mid = "\",\"password\":\""@;
            let endq = "\"}}"@;
            let eu = esc_seq(username);
            let ep = esc_seq(password);
            assert(s == pre + eu + mid + ep + endq);
            assert(s.subrange(0, pre.len() as int) =~= pre);
            assert(s.len() >= pre.len());
            assert(s[0] == pre[0]);
            assert(s[9] == pre[9]);
            assert(s != "\"BadRequest\""@);
            assert(s != "\"InternalError\""@);
            assert(s != "{\"LoginReply\":\"BadUser\"}"@) by {
                assert("{\"LoginReply\":\"BadUser\"}"@[9] == 'p');
                assert(s[9] == 'q');
            }
            assert(s != "{\"LoginReply\":\"BadPass\"}"@) by {
                assert("{\"LoginReply\":\"BadPass\"}"@[9] == 'p');
                assert(s[9] == 'q');
            }
            assert(!starts_with(s, "{\"LoginReply\":{\"Accepted\":{\"id\":"@)) by {
                if starts_with(s, "{\"LoginReply\":{\"Accepted\":{\"id\":"@) {
                    let pa = "{\"LoginReply\":{\"Accepted\":{\"id\":"@;
                    assert(s.subrange(0, pa.len() as int)[9] == s[9]);
                    assert(pa[9] == 'p');
                }
            }
            assert(starts_with(s, pre));
            // The text after the username's opening quote: the escaped
            // username, its closing quote, and everything that follows.
            let tail1 = ",\"password\":\""@ + ep + seq!['"'] + "}}"@;
            assert(mid =~= seq!['"'] + ",\"password\":\""@);
            assert(endq =~= seq!['"'] + "}}"@);
            let r0 = s.skip(pre.len() as int);
            assert(r0 =~= eu + seq!['"'] + tail1);
            lemma_parse_escaped(username, tail1);
            assert(parse_str_body(r0) == Some((username, eu.len() + 1int)));
            let r1 = r0.skip(eu.len() + 1int);
            assert(r1 =~= tail1);
            assert(r1.subrange(0, ",\"password\":\""@.len() as int) =~= ",\"password\":\""@);
            assert(starts_with(r1, ",\"password\":\""@));
            let r2 = r1.skip(",\"password\":\""@.len() as int);
            assert(r2 =~= ep + seq!['"'] + "}}"@);
            lemma_parse_escaped(password, "}}"@);
            assert(parse_str_body(r2) == Some((password, ep.len() + 1int)));
            assert(r2.skip(ep.len() + 1int) =~= "}}"@);
        },
    }
}

/// No two distinct messages share a wire text.
pub proof fn lemma_msg_chars_injective(a: MessageModel, b: MessageModel)
    requires
        msg_chars(a) == msg_chars(b),
    ensures
        a == b,
{
    lemma_parse_msg_chars(a);
    lemma_parse_msg_chars(b);
}

/// Parsing is sound, the converse of the round trip: a text that parses at
/// all is the canonical text of the message it parses to.  Together the two
/// laws make the codec a bijection between messages and accepted texts.
#[verifier::rlimit(60)]
pub proof fn lemma_parse_msg_sound(s: Seq<char>, m: MessageModel)
    requires
        parse_msg(s) == Some(m),
    ensures
        s == msg_chars(m),
{
    if s == "\"BadRequest\""@ || s == "\"InternalError\""@ || s == "{\"LoginReply\":\"BadUser\"}"@
        || s == "{\"LoginReply\":\"BadPass\"}"@ {
    } else if starts_with(s, "{\"LoginReply\":{\"Accepted\":{\"id\":"@) {
        let pre = "{\"LoginReply\":{\"Accepted\":{\"id\":"@;
        let rest = s.skip(pre.len() as int);
        let t = parse_int(rest).unwrap();
        crate::digits::lemma_parse_int_sound(rest);
        assert(rest.take(t.1) == int_chars(t.0));
        assert((t.0 as i32) as int == t.0);
        assert(s =~= s.subrange(0, pre.len() as int) + rest);
        assert(rest =~= rest.take(t.1) + rest.skip(t.1));
        assert(s =~= pre + (int_chars(t.0) + "}}}"@));
        assert(msg_chars(m) == pre + int_chars(t.0) + "}}}"@);
        assert(s =~= msg_chars(m));
    } else {
        let pre = "{\"LoginRequest\":{\"username\":\""@;
        let midp = ",\"password\":\""@;
        let r0 = s.skip(pre.len() as int);
        let t1 = parse_str_body(r0).unwrap();
        lemma_parse_sound(r0);
        let r1 = r0.skip(t1.1);
        let r2 = r1.skip(midp.len() as int);
        let t2 = parse_str_body(r2).unwrap();
        lemma_parse_sound(r2);
        assert(r2 =~= r2.take(t2.1) + r2.skip(t2.1));
        assert(r2 =~= (esc_seq(t2.0) + seq!['"']) + "}}"@);
        assert(r1 =~= r1.subrange(0, midp.len() as int) + r2);
        assert(r1 =~= midp + ((esc_seq(t2.0) + seq!['"']) + "}}"@));
        assert(r0 =~= r0.take(t1.1) + r1);
        assert(r0 =~= (esc_seq(t1.0) + seq!['"']) + (midp + ((esc_seq(t2.0) + seq!['"'])
            + "}}"@)));
        assert(s =~= s.subrange(0, pre.len() as int) + r0);
        reveal_strlit("\",\"password\":\"");
        reveal_strlit(",\"password\":\"");
        reveal_strlit("\"}}");
        reveal_strlit("}}");
        assert("\",\"password\":\""@ =~= seq!['"'] + midp);
        assert("\"}}"@ =~= seq!['"'] + "}}"@);
        assert(msg_chars(m) == pre + esc_seq(t1.0) + "\",\"password\":\""@ + esc_seq(t2.0)
            + "\"}}"@);
        assert(s =~= msg_chars(m));
    }
}

/// Framing safety: the canonical text holds no control character, so the
/// payload bytes of a frame never contain the zero terminator, which appears
/// exactly once, at the end.
pub proof fn lemma_framing_safety(m: MessageModel)
    ensures
        crate::escape::all_visible(msg_chars(m)),
        forall|i: int| 0 <= i < frame_bytes(m).len() - 1 ==> frame_bytes(m)[i] != 0u8,
        frame_bytes(m).len() >= 1,
        frame_bytes(m).last() == 0u8,
{
    lemma_msg_chars_visible(m);
    lemma_no_zero_byte(msg_chars(m));
    let payload = vstd::utf8::encode_utf8(msg_chars(m));
    assert forall|i: int| 0 <= i < frame_bytes(m).len() - 1 implies frame_bytes(m)[i] != 0u8 by {
        assert(frame_bytes(m)[i] == payload[i]);
    }
}

/// Round trip through the wire bytes: the payload of a frame is valid UTF-8
/// and decodes back to the framed message.
pub proof fn lemma_frame_round_trip(m: MessageModel)
    ensures
        frame_bytes(m).len() >= 1,
        vstd::utf8::valid_utf8(frame_bytes(m).take(frame_bytes(m).len() - 1)),
        parse_msg(
            vstd::utf8::decode_utf8(frame_bytes(m).take(frame_bytes(m).len() - 1)),
        ) == Some(m),
{
    let payload = vstd::utf8::encode_utf8(msg_chars(m));
    assert(frame_bytes(m).take(frame_bytes(m).len() - 1) =~= payload);
    vstd::utf8::encode_utf8_valid_utf8(msg_chars(m));
    vstd::utf8::encode_utf8_decode_utf8(msg_chars(m));
    lemma_parse_msg_chars(m);
}

/// The canonical text of any message consists of visible characters.
proof fn lemma_msg_chars_visible(m: MessageModel)
    ensures
        crate::escape::all_visible(msg_chars(m)),
{
    match m {
        MessageModel::BadRequest => {
            reveal_strlit("\"BadRequest\"");
            assert(crate::escape::all_visible("\"BadRequest\""@));
        },
        MessageModel::InternalError => {
            reveal_strlit("\"InternalError\"");
            assert(crate::escape::all_visible("\"InternalError\""@));
        },
        MessageModel::LoginReply { status } => {
            match status {
                LoginStatus::BadUser => {
                    reveal_strlit("{\"LoginReply\":\"BadUser\"}");
                    assert(crate::escape::all_visible("{\"LoginReply\":\"BadUser\"}"@));
                },
                LoginStatus::BadPass => {
                    reveal_strlit("{\"LoginReply\":\"BadPass\"}");
                    assert(crate::escape::all_visible("{\"LoginReply\":\"BadPass\"}"@));
                },
                LoginStatus::Accepted { id } => {
                    reveal_strlit("{\"LoginReply\":{\"Accepted\":{\"id\":");
                    reveal_strlit("}}}");
                    assert(crate::escape::all_visible("{\"LoginReply\":{\"Accepted\":{\"id\":"@));
                    assert(crate::escape::all_visible("}}}"@));
                    crate::digits::lemma_int_chars_visible(id as int);
                    crate::escape::lemma_visible_concat(
                        "{\"LoginReply\":{\"Accepted\":{\"id\":"@,
                        int_chars(id as int),
                    );
                    crate::escape::lemma_visible_concat(
                        "{\"LoginReply\":{\"Accepted\":{\"id\":"@ + int_chars(id as int),
                        "}}}"@,
                    );
                },
            }
        },
        MessageModel::LoginRequest { username, password } => {
            reveal_strlit("{\"LoginRequest\":{\"username\":\"");
            reveal_strlit("\",\"password\":\"");
            reveal_strlit("\"}}");
            assert(crate::escape::all_visible("{\"LoginRequest\":{\"username\":\""@));
            assert(crate::escape::all_visible("\",\"password\":\""@));
            assert(crate::escape::all_visible("\"}}"@));
            lemma_esc_seq_visible(username);
            lemma_esc_seq_visible(password);
            let a = "{\"LoginRequest\":{\"username\":\""@;
            let b = esc_seq(username);
            let c = "\",\"password\":\""@;
            let d = esc_seq(password);
            let e = "\"}}"@;
            crate::escape::lemma_visible_concat(a, b);
            crate::escape::lemma_visible_concat(a + b, c);
            crate::escape::lemma_visible_concat(a + b + c, d);
            crate::escape::lemma_visible_concat(a + b + c + d, e);
        },
    }
}

/// A sequence of visible characters encodes in UTF-8 without zero bytes.
proof fn lemma_no_zero_byte(s: Seq<char>)
    requires
        crate::escape::all_visible(s),
    ensures
        forall|i: int|
            0 <= i < vstd::utf8::encode_utf8(s).len() ==> #[trigger] vstd::utf8::encode_utf8(
                s,
            )[i] != 0u8,
    decreases s.len(),
{
    if s.len() == 0 {
    } else {
        let c = s[0];
        assert(0x20 <= (c as u32));
        let e = vstd::utf8::encode_scalar(c as u32);
        lemma_encode_scalar_no_zero(c as u32);
        assert(crate::escape::all_visible(s.drop_first())) by {
            assert(forall|i: int|
                0 <= i < s.drop_first().len() ==> #[trigger] s.drop_first()[i] == s[i + 1]);
        }
        lemma_no_zero_byte(s.drop_first());
        let rest = vstd::utf8::encode_utf8(s.drop_first());
        assert(vstd::utf8::encode_utf8(s) == e + rest);
        assert forall|i: int|
            0 <= i < vstd::utf8::encode_utf8(s).len() implies #[trigger] vstd::utf8::encode_utf8(
            s,
        )[i] != 0u8 by {
            if i < e.len() {
                assert(vstd::utf8::encode_utf8(s)[i] == e[i]);
            } else {
                assert(vstd::utf8::encode_utf8(s)[i] == rest[i - e.len()]);
            }
        }
    }
}

proof fn lemma_encode_scalar_no_zero(v: u32)
    requires
        v >= 1,
    ensures
        forall|i: int|
            0 <= i < vstd::utf8::encode_scalar(v).len() ==> #[trigger] vstd::utf8::encode_scalar(
                v,
            )[i] != 0u8,
{
    let e = vstd::utf8::encode_scalar(v);
    if vstd::utf8::has_width_1_encoding(v) {
        assert((v & 0x7F) as u8 != 0u8) by (bit_vector)
            requires
                1 <= v <= 0x7F,
        ;
        assert(e[0] != 0u8);
    } else if vstd::utf8::has_width_2_encoding(v) {
        let y1: u8 = ((v >> 6) & 0x1F) as u8;
        let y2: u8 = (v & 0x3F) as u8;
        assert(0xC0u8 | y1 != 0u8) by (bit_vector);
        assert(0x80u8 | y2 != 0u8) by (bit_vector);
        assert(e[0] != 0u8);
        assert(e[1] != 0u8);
    } else if vstd::utf8::has_width_3_encoding(v) {
        let y1: u8 = ((v >> 12) & 0x0F) as u8;
        let y2: u8 = ((v >> 6) & 0x3F) as u8;
        let y3: u8 = (v & 0x3F) as u8;
        assert(0xE0u8 | y1 != 0u8) by (bit_vector);
        assert(0x80u8 | y2 != 0u8) by (bit_vector);
        assert(0x80u8 | y3 != 0u8) by (bit_vector);
        assert(e[0] != 0u8);
        assert(e[1] != 0u8);
        assert(e[2] != 0u8);
    } else {
        let y1: u8 = ((v >> 18) & 0x7) as u8;
        let y2: u8 = ((v >> 12) & 0x3F) as u8;
        let y3: u8 = ((v >> 6) & 0x3F) as u8;
        let y4: u8 = (v & 0x3F) as u8;
        assert(0xF0u8 | y1 != 0u8) by (bit_vector);
        assert(0x80u8 | y2 != 0u8) by (bit_vector);
        assert(0x80u8 | y3 != 0u8) by (bit_vector);
        assert(0x80u8 | y4 != 0u8) by (bit_vector);
        assert(e[0] != 0u8);
        assert(e[1] != 0u8);
        assert(e[2] != 0u8);
        assert(e[3] != 0u8);
    }
}

// ---------------------------------------------------------------------------
// Encoding.
// ---------------------------------------------------------------------------

/// Serialize a message to its canonical text.
pub fn encode(m: &Message) -> (out: String)
    ensures
        out@ == msg_chars(m@),
{
    let mut out = String::new();
    match m {
        Message::LoginRequest { username, password } => {
            out.append("{\"LoginRequest\":{\"username\":\"");
            push_escaped(&mut out, username.as_str());
            out.append("\",\"password\":\"");
            push_escaped(&mut out, password.as_str());
            out.append("\"}}");
            proof {
                assert(out@ =~= msg_chars(m@));
            }
        },
        Message::LoginReply(status) => match status {
            LoginStatus::Accepted { id } => {
                out.append("{\"LoginReply\":{\"Accepted\":{\"id\":");
                push_int(&mut out, *id);
                out.append("}}}");
                proof {
                    assert(out@ =~= msg_chars(m@));
                }
            },
            LoginStatus::BadUser => {
                out.append("{\"LoginReply\":\"BadUser\"}");
            },
            LoginStatus::BadPass => {
                out.append("{\"LoginReply\":\"BadPass\"}");
            },
        },
        Message::BadRequest => {
            out.append("\"BadRequest\"");
        },
        Message::InternalError => {
            out.append("\"InternalError\"");
        },
    }
    out
}

/// Serialize a message and append the zero-byte terminator: one whole frame,
/// ready to be written to a stream.
pub fn encode_frame(m: &Message) -> (v: Vec<u8>)
    ensures
        v@ == frame_bytes(m@),
{
    let s = encode(m);
    let mut v = s.as_str().as_bytes_vec();
    v.push(0u8);
    v
}

// ---------------------------------------------------------------------------
// Decoding.
// ---------------------------------------------------------------------------

pub(crate) fn chars_of(s: &str) -> (v: Vec<char>)
    ensures
        v@ == s@,
{
    let n = s.unicode_len();
    let mut v: Vec<char> = Vec::new();
    let mut i: usize = 0;
    while i < n
        invariant
            i <= n,
            n == s@.len(),
            v@ == s@.take(i as int),
        decreases n - i,
    {
        v.push(s.get_char(i));
        proof {
            assert(s@.take(i + 1) =~= s@.take(i as int).push(s@[i as int]));
        }
        i = i + 1;
    }
    proof {
        assert(s@.take(n as int) =~= s@);
    }
    v
}

/// Does `v` hold the characters of `lit` beginning at `pos`?
fn match_lit(v: &Vec<char>, pos: usize, lit: &str) -> (r: bool)
    requires
        pos <= v@.len(),
    ensures
        r == (pos + lit@.len() <= v@.len() && v@.subrange(pos as int, pos + lit@.len()) == lit@),
{
    let n = lit.unicode_len();
    let vn = v.len();
    if vn - pos < n {
        return false;
    }
    let mut i: usize = 0;
    while i < n
        invariant
            i <= n,
            n == lit@.len(),
            vn == v@.len(),
            pos + n <= vn,
            forall|j: int| 0 <= j < i ==> v@[pos + j] == lit@[j],
        decreases n - i,
    {
        if v[pos + i] != lit.get_char(i) {
            proof {
                assert(v@.subrange(pos as int, pos + lit@.len())[i as int] == v@[pos + i]);
            }
            return false;
        }
        i = i + 1;
    }
    proof {
        assert(v@.subrange(pos as int, pos + lit@.len()) =~= lit@);
    }
    true
}

/// Is `v` exactly the characters of `lit`?
fn eq_lit(v: &Vec<char>, lit: &str) -> (r: bool)
    ensures
        r == (v@ == lit@),
{
    let n = lit.unicode_len();
    if v.len() != n {
        proof {
            assert(v@.len() != lit@.len());
        }
        return false;
    }
    let r = match_lit(v, 0, lit);
    proof {
        if r {
            assert(v@.subrange(0, v@.len() as int) =~= v@);
        } else {
            assert(v@.subrange(0, lit@.len() as int) =~= v@);
        }
    }
    r
}

/// Parse a message from its canonical text.  Succeeds exactly on the texts
/// that [`encode`] produces, and then returns the encoded message.
pub fn decode(s: &str) -> (r: Option<Message>)
    ensures
        match r {
            Some(m) => parse_msg(s@) == Some(m@),
            None => parse_msg(s@) is None,
        },
{
    let v = chars_of(s);
    let vlen = v.len();
    proof {
        assert(vlen == v@.len());
    }
    if eq_lit(&v, "\"BadRequest\"") {
        return Some(Message::BadRequest);
    }
    if eq_lit(&v, "\"InternalError\"") {
        return Some(Message::InternalError);
    }
    if eq_lit(&v, "{\"LoginReply\":\"BadUser\"}") {
        return Some(Message::LoginReply(LoginStatus::BadUser));
    }
    if eq_lit(&v, "{\"LoginReply\":\"BadPass\"}") {
        return Some(Message::LoginReply(LoginStatus::BadPass));
    }
    if match_lit(&v, 0, "{\"LoginReply\":{\"Accepted\":{\"id\":") {
        let plen = "{\"LoginReply\":{\"Accepted\":{\"id\":".unicode_len();
        let ghost rest = s@.skip("{\"LoginReply\":{\"Accepted\":{\"id\":"@.len() as int);
        proof {
            assert(rest =~= v@.skip(plen as int));
        }
        match scan_int(&v, plen) {
            Some((id, end)) => {
                proof {
                    assert(rest.skip(end - plen) =~= v@.skip(end as int));
                }
                if v.len() - end == 3 && match_lit(&v, end, "}}}") {
                    proof {
                        reveal_strlit("}}}");
                        assert(v@.skip(end as int) =~= v@.subrange(end as int, end + "}}}"@.len()));
                    }
                    return Some(Message::LoginReply(LoginStatus::Accepted { id }));
                } else {
                    proof {
                        reveal_strlit("}}}");
                        if v@.skip(end as int) == "}}}"@ {
                            assert(v@.len() - end == 3);
                            assert(v@.subrange(end as int, end + "}}}"@.len()) =~= v@.skip(
                                end as int,
                            ));
                        }
                    }
                    return None;
                }
            },
            None => {
                return None;
            },
        }
    }
    if match_lit(&v, 0, "{\"LoginRequest\":{\"username\":\"") {
        let plen = "{\"LoginRequest\":{\"username\":\"".unicode_len();
        let ghost r0 = s@.skip("{\"LoginRequest\":{\"username\":\""@.len() as int);
        proof {
            assert(r0 =~= v@.skip(plen as int));
        }
        match scan_string(&v, plen) {
            Some((username, end1)) => {
                let ghost r1 = r0.skip(end1 - plen as int);
                proof {
                    assert(r1 =~= v@.skip(end1 as int));
                }
                if match_lit(&v, end1, ",\"password\":\"") {
                    let mlen = ",\"password\":\"".unicode_len();
                    proof {
                        assert(starts_with(r1, ",\"password\":\""@)) by {
                            assert(r1.subrange(0, ",\"password\":\""@.len() as int) =~= v@.subrange(
                                end1 as int,
                                end1 + ",\"password\":\""@.len(),
                            ));
                        }
                    }
                    let ghost r2 = r1.skip(",\"password\":\""@.len() as int);
                    proof {
                        assert(r2 =~= v@.skip(end1 + mlen));
                    }
                    match scan_string(&v, end1 + mlen) {
                        Some((password, end2)) => {
                            proof {
                                assert(r2.skip(end2 - (end1 + mlen)) =~= v@.skip(end2 as int));
                            }
                            if v.len() - end2 == 2 && match_lit(&v, end2, "}}") {
                                proof {
                                    reveal_strlit("}}");
                                    assert(v@.skip(end2 as int) =~= v@.subrange(
                                        end2 as int,
                                        end2 + "}}"@.len(),
                                    ));
                                }
                                return Some(Message::LoginRequest { username, password });
                            } else {
                                proof {
                                    reveal_strlit("}}");
                                    if v@.skip(end2 as int) == "}}"@ {
                                        assert(v@.len() - end2 == 2);
                                        assert(v@.subrange(end2 as int, end2 + "}}"@.len()) =~= v@
                                            .skip(end2 as int));
                                    }
                                }
                                return None;
                            }
                        },
                        None => {
                            return None;
                        },
                    }
                } else {
                    proof {
                        if starts_with(r1, ",\"password\":\""@) {
                            assert(r1.subrange(0, ",\"password\":\""@.len() as int) =~= v@.subrange(
                                end1 as int,
                                end1 + ",\"password\":\""@.len(),
                            ));
                        }
                    }
                    return None;
                }
            },
            None => {
                return None;
            },
        }
    }
    None
}

/// Relies on std::str::from_utf8: yields the string the bytes encode in
/// UTF-8, and nothing exactly when the bytes are not valid UTF-8.
#[verifier::external_body]
fn utf8_str(bytes: &[u8]) -> (r: Option<&str>)
    ensures
        match r {
            Some(s) => vstd::utf8::valid_utf8(bytes@) && s@ == vstd::utf8::decode_utf8(bytes@),
            None => !vstd::utf8::valid_utf8(bytes@),
        },
{
    match std::str::from_utf8(bytes) {
        Ok(s) => Some(s),
        Err(_) => None,
    }
}

/// Decode the payload of one received frame (the bytes before the zero-byte
/// terminator, which the reader strips).  Distinguishes the two protocol
/// faults: bytes that are not text, and text that is no canonical message.
pub fn decode_frame(payload: &Vec<u8>) -> (r: Result<Message, DecodeError>)
    ensures
        match r {
            Ok(m) => vstd::utf8::valid_utf8(payload@) && parse_msg(
                vstd::utf8::decode_utf8(payload@),
            ) == Some(m@),
            Err(e) => match e {
                DecodeError::InvalidUtf8 => !vstd::utf8::valid_utf8(payload@),
                DecodeError::Malformed => vstd::utf8::valid_utf8(payload@) && parse_msg(
                    vstd::utf8::decode_utf8(payload@),
                ) is None,
            },
        },
{
    match utf8_str(payload.as_slice()) {
        Some(s) => match decode(s) {
            Some(m) => Ok(m),
            None => Err(DecodeError::Malformed),
        },
        None => Err(DecodeError::InvalidUtf8),
    }
}

} // verus!
