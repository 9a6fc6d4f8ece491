//! The wire-message codec.
//!
//! Peers exchange three message shapes over the datagram channel:
//!
//! ```text
//! {"Proposal":{"node_id":"<text>"}}
//! {"Confirmation":{"node_id":"<text>"}}
//! {"ScaleComplete":{}}
//! ```
//!
//! `node_id` carries the sender's self-reported address text (UTF-8 bytes),
//! with `"` and `\` escaped by a backslash. `encode_message` produces the
//! canonical encoding above and `decode_message` accepts exactly the
//! canonical encodings; anything else is a decode failure, never a fourth
//! variant. A malformed datagram is thereby a recoverable per-message error
//! for the caller, not a fatal one.

use crate::bytes::bytes_equal;
use vstd::prelude::*;

verus! {

/// A protocol message. `node_id` is the sender's self-reported address
/// text; it is advisory only and never verified against the sending socket.
#[derive(Debug, PartialEq, Eq, Clone)]
pub enum Message {
    Proposal { node_id: Vec<u8> },
    Confirmation { node_id: Vec<u8> },
    ScaleComplete,
}

/// The mathematical form of a message: the payload as a byte sequence.
pub enum MessageView {
    Proposal { node_id: Seq<u8> },
    Confirmation { node_id: Seq<u8> },
    ScaleComplete,
}

impl View for Message {
    type V = MessageView;

    open spec fn view(&self) -> MessageView {
        match self {
            Message::Proposal { node_id } => MessageView::Proposal { node_id: node_id@ },
            Message::Confirmation { node_id } => MessageView::Confirmation {
                node_id: node_id@,
            },
            Message::ScaleComplete => MessageView::ScaleComplete,
        }
    }
}

/// The bytes of `{"Proposal":{"node_id":"`.
pub open spec fn proposal_prefix() -> Seq<u8> {
    seq![
        123u8, 34u8, 80u8, 114u8, 111u8, 112u8, 111u8, 115u8, 97u8, 108u8, 34u8, 58u8, 123u8, 34u8,
        110u8, 111u8, 100u8, 101u8, 95u8, 105u8, 100u8, 34u8, 58u8, 34u8,
    ]
}

/// The bytes of `{"Confirmation":{"node_id":"`.
pub open spec fn confirmation_prefix() -> Seq<u8> {
    seq![
        123u8, 34u8, 67u8, 111u8, 110u8, 102u8, 105u8, 114u8, 109u8, 97u8, 116u8, 105u8, 111u8, 110u8,
        34u8, 58u8, 123u8, 34u8, 110u8, 111u8, 100u8, 101u8, 95u8, 105u8, 100u8, 34u8, 58u8, 34u8,
    ]
}

/// The bytes of `{"ScaleComplete":{}}`.
pub open spec fn complete_bytes() -> Seq<u8> {
    seq![
        123u8, 34u8, 83u8, 99u8, 97u8, 108u8, 101u8, 67u8, 111u8, 109u8, 112u8, 108u8, 101u8, 116u8,
        101u8, 34u8, 58u8, 123u8, 125u8, 125u8,
    ]
}

/// How one payload byte is written: `"` and `\` get a backslash in front.
pub open spec fn esc_one(b: u8) -> Seq<u8> {
    if b == 34 || b == 92 {
        seq![92u8, b]
    } else {
        seq![b]
    }
}

/// A payload, escaped for the wire.
pub open spec fn escape(s: Seq<u8>) -> Seq<u8>
    decreases s.len(),
{
    if s.len() == 0 {
        Seq::empty()
    } else {
        esc_one(s[0]) + escape(s.drop_first())
    }
}

/// The canonical encoding of a message.
pub open spec fn encode_msg(m: MessageView) -> Seq<u8> {
    match m {
        MessageView::Proposal { node_id } => proposal_prefix() + escape(node_id) + seq![
            34u8, 125u8, 125u8,
        ],
        MessageView::Confirmation { node_id } => confirmation_prefix() + escape(node_id)
            + seq![34u8, 125u8, 125u8],
        MessageView::ScaleComplete => complete_bytes(),
    }
}

/// Read an escaped payload up to and through its closing quote; yield the
/// unescaped payload and the unconsumed rest.
pub open spec fn parse_payload(s: Seq<u8>) -> Option<(Seq<u8>, Seq<u8>)>
    decreases s.len(),
{
    if s.len() == 0 {
        None
    } else if s[0] == 34 {
        Some((Seq::empty(), s.drop_first()))
    } else if s[0] == 92 {
        if s.len() >= 2 && (s[1] == 34 || s[1] == 92) {
            match parse_payload(s.skip(2)) {
                Some((c, r)) => Some((seq![s[1]] + c, r)),
                None => None,
            }
        } else {
            None
        }
    } else {
        match parse_payload(s.drop_first()) {
            Some((c, r)) => Some((seq![s[0]] + c, r)),
            None => None,
        }
    }
}

/// Does `s` begin with `p`?
pub open spec fn starts_with(s: Seq<u8>, p: Seq<u8>) -> bool {
    s.len() >= p.len() && s.take(p.len() as int) == p
}

/// The message grammar: one of the three canonical shapes, whole input.
pub open spec fn decode_msg(s: Seq<u8>) -> Option<MessageView> {
    if starts_with(s, proposal_prefix()) {
        match parse_payload(s.skip(proposal_prefix().len() as int)) {
            Some((c, r)) => if r == seq![125u8, 125u8] {
                Some(MessageView::Proposal { node_id: c })
            } else {
                None
            },
            None => None,
        }
    } else if starts_with(s, confirmation_prefix()) {
        match parse_payload(s.skip(confirmation_prefix().len() as int)) {
            Some((c, r)) => if r == seq![125u8, 125u8] {
                Some(MessageView::Confirmation { node_id: c })
            } else {
                None
            },
            None => None,
        }
    } else if s == complete_bytes() {
        Some(MessageView::ScaleComplete)
    } else {
        None
    }
}

/// Reading an escaped payload back gives the payload: the closing quote is
/// found and nothing of the rest is consumed.
pub proof fn lemma_parse_escape(c: Seq<u8>, rest: Seq<u8>)
    ensures
        parse_payload(escape(c) + seq![34u8] + rest) == Some((c, rest)),
    decreases c.len(),
{
    let s = escape(c) + seq![34u8] + rest;
    if c.len() == 0 {
        assert(escape(c) =~= Seq::<u8>::empty());
        assert(s =~= seq![34u8] + rest);
        assert(s[0] == 34);
        assert(s.drop_first() =~= rest);
    } else if c[0] == 34 || c[0] == 92 {
        lemma_parse_escape(c.drop_first(), rest);
        assert(escape(c) == seq![92u8, c[0]] + escape(c.drop_first()));
        assert(s[0] == 92);
        assert(s[1] == c[0]);
        assert(s.skip(2) =~= escape(c.drop_first()) + seq![34u8] + rest);
        assert(seq![s[1]] + c.drop_first() =~= c);
    } else {
        lemma_parse_escape(c.drop_first(), rest);
        assert(escape(c) == seq![c[0]] + escape(c.drop_first()));
        assert(s[0] == c[0]);
        assert(s.drop_first() =~= escape(c.drop_first()) + seq![34u8] + rest);
        assert(seq![s[0]] + c.drop_first() =~= c);
    }
}

/// What a successful payload parse consumed is the escaped payload and its
/// closing quote.
pub proof fn lemma_parse_payload_sound(s: Seq<u8>)
    requires
        parse_payload(s) is Some,
    ensures
        parse_payload(s) matches Some((c, r)) ==> s == escape(c) + seq![34u8] + r,
    decreases s.len(),
{
    if s[0] == 34 {
        assert(escape(Seq::<u8>::empty()) + seq![34u8] + s.drop_first() =~= s);
    } else if s[0] == 92 {
        lemma_parse_payload_sound(s.skip(2));
        let inner = parse_payload(s.skip(2))->Some_0;
        let c = inner.0;
        let r = inner.1;
        assert(s.skip(2) == escape(c) + seq![34u8] + r);
        assert((seq![s[1]] + c).len() > 0);
        assert((seq![s[1]] + c)[0] == s[1]);
        assert((seq![s[1]] + c).drop_first() =~= c);
        assert(escape(seq![s[1]] + c) == esc_one(s[1]) + escape(c));
        assert(esc_one(s[1]) == seq![92u8, s[1]]);
        let lhs = escape(seq![s[1]] + c) + seq![34u8] + r;
        assert(lhs =~= seq![92u8, s[1]] + (escape(c) + seq![34u8] + r));
        assert(s =~= seq![92u8, s[1]] + s.skip(2));
        assert(lhs == s);
    } else {
        lemma_parse_payload_sound(s.drop_first());
        let inner = parse_payload(s.drop_first())->Some_0;
        let c = inner.0;
        let r = inner.1;
        assert(s.drop_first() == escape(c) + seq![34u8] + r);
        assert((seq![s[0]] + c)[0] == s[0]);
        assert((seq![s[0]] + c).drop_first() =~= c);
        assert(escape(seq![s[0]] + c) == esc_one(s[0]) + escape(c));
        assert(esc_one(s[0]) == seq![s[0]]);
        let lhs = escape(seq![s[0]] + c) + seq![34u8] + r;
        assert(lhs =~= seq![s[0]] + (escape(c) + seq![34u8] + r));
        assert(s =~= seq![s[0]] + s.drop_first());
        assert(lhs == s);
    }
}

/// Round trip: every encoded message decodes back to itself.
pub proof fn lemma_message_round_trip(m: MessageView)
    ensures
        decode_msg(encode_msg(m)) == Some(m),
{
    let brace2 = seq![125u8, 125u8];
    match m {
        MessageView::Proposal { node_id } => {
            let s = encode_msg(m);
            assert(s.take(24) =~= proposal_prefix());
            assert(starts_with(s, proposal_prefix()));
            assert(s.skip(24) =~= escape(node_id) + seq![34u8] + brace2);
            lemma_parse_escape(node_id, brace2);
        },
        MessageView::Confirmation { node_id } => {
            let s = encode_msg(m);
            assert(s[2] == confirmation_prefix()[2]);
            assert(s[2] == 67u8);
            assert(!starts_with(s, proposal_prefix())) by {
                if starts_with(s, proposal_prefix()) {
                    assert(s.take(24)[2] == s[2]);
                    assert(proposal_prefix()[2] == 80u8);
                }
            }
            assert(s.take(28) =~= confirmation_prefix());
            assert(starts_with(s, confirmation_prefix()));
            assert(s.skip(28) =~= escape(node_id) + seq![34u8] + brace2);
            lemma_parse_escape(node_id, brace2);
        },
        MessageView::ScaleComplete => {
            let s = encode_msg(m);
            assert(s == complete_bytes());
            assert(!starts_with(s, proposal_prefix())) by {
                if starts_with(s, proposal_prefix()) {
                    assert(s.take(24)[2] == s[2]);
                    assert(s[2] == 83u8);
                    assert(proposal_prefix()[2] == 80u8);
                }
            }
            assert(!starts_with(s, confirmation_prefix())) by {
                if starts_with(s, confirmation_prefix()) {
                    assert(s.take(28)[2] == s[2]);
                    assert(s[2] == 83u8);
                    assert(confirmation_prefix()[2] == 67u8);
                }
            }
        },
    }
}

/// Soundness: whatever the message grammar accepts is the canonical
/// encoding of the returned message.
pub proof fn lemma_decode_sound(s: Seq<u8>, m: MessageView)
    requires
        decode_msg(s) == Some(m),
    ensures
        s == encode_msg(m),
{
    let brace2 = seq![125u8, 125u8];
    if starts_with(s, proposal_prefix()) {
        lemma_parse_payload_sound(s.skip(24));
        let inner = parse_payload(s.skip(24))->Some_0;
        let c = inner.0;
        assert(s.skip(24) == escape(c) + seq![34u8] + brace2);
        assert(s =~= s.take(24) + s.skip(24));
        assert(s =~= proposal_prefix() + escape(c) + seq![34u8, 125u8, 125u8]);
    } else if starts_with(s, confirmation_prefix()) {
        lemma_parse_payload_sound(s.skip(28));
        let inner = parse_payload(s.skip(28))->Some_0;
        let c = inner.0;
        assert(s.skip(28) == escape(c) + seq![34u8] + brace2);
        assert(s =~= s.take(28) + s.skip(28));
        assert(s =~= confirmation_prefix() + escape(c) + seq![34u8, 125u8, 125u8]);
    } else {
        assert(s == complete_bytes());
    }
}

/// The prefix of an encoded `Proposal`, as a vector.
fn make_proposal_prefix() -> (v: Vec<u8>)
    ensures
        v@ == proposal_prefix(),
{
    let mut v: Vec<u8> = Vec::new();
    v.push(123);
    v.push(34);
    v.push(80);
    v.push(114);
    v.push(111);
    v.push(112);
    v.push(111);
    v.push(115);
    v.push(97);
    v.push(108);
    v.push(34);
    v.push(58);
    v.push(123);
    v.push(34);
    v.push(110);
    v.push(111);
    v.push(100);
    v.push(101);
    v.push(95);
    v.push(105);
    v.push(100);
    v.push(34);
    v.push(58);
    v.push(34);
    proof {
        assert(v@ =~= proposal_prefix());
    }
    v
}

/// The prefix of an encoded `Confirmation`, as a vector.
fn make_confirmation_prefix() -> (v: Vec<u8>)
    ensures
        v@ == confirmation_prefix(),
{
    let mut v: Vec<u8> = Vec::new();
    v.push(123);
    v.push(34);
    v.push(67);
    v.push(111);
    v.push(110);
    v.push(102);
    v.push(105);
    v.push(114);
    v.push(109);
    v.push(97);
    v.push(116);
    v.push(105);
    v.push(111);
    v.push(110);
    v.push(34);
    v.push(58);
    v.push(123);
    v.push(34);
    v.push(110);
    v.push(111);
    v.push(100);
    v.push(101);
    v.push(95);
    v.push(105);
    v.push(100);
    v.push(34);
    v.push(58);
    v.push(34);
    proof {
        assert(v@ =~= confirmation_prefix());
    }
    v
}

/// The whole encoded `ScaleComplete`, as a vector.
fn make_complete_bytes() -> (v: Vec<u8>)
    ensures
        v@ == complete_bytes(),
{
    let mut v: Vec<u8> = Vec::new();
    v.push(123);
    v.push(34);
    v.push(83);
    v.push(99);
    v.push(97);
    v.push(108);
    v.push(101);
    v.push(67);
    v.push(111);
    v.push(109);
    v.push(112);
    v.push(108);
    v.push(101);
    v.push(116);
    v.push(101);
    v.push(34);
    v.push(58);
    v.push(123);
    v.push(125);
    v.push(125);
    proof {
        assert(v@ =~= complete_bytes());
    }
    v
}

/// Does `s` begin with `p`?
fn starts_with_bytes(s: &Vec<u8>, p: &Vec<u8>) -> (r: bool)
    ensures
        r == starts_with(s@, p@),
{
    if s.len() < p.len() {
        return false;
    }
    let mut i: usize = 0;
    while i < p.len()
        invariant
            i <= p@.len() <= s@.len(),
            forall|m: int| 0 <= m < i ==> s@[m] == p@[m],
        decreases p@.len() - i,
    {
        if s[i] != p[i] {
            proof {
                assert(s@.take(p@.len() as int)[i as int] == s@[i as int]);
            }
            return false;
        }
        i = i + 1;
    }
    proof {
        assert(s@.take(p@.len() as int) =~= p@);
    }
    true
}

/// Read an escaped payload starting at `i`: the payload bytes and the index
/// just past the closing quote.
fn parse_payload_at(s: &Vec<u8>, i: usize) -> (r: Option<(Vec<u8>, usize)>)
    requires
        i <= s@.len(),
    ensures
        match r {
            Some(cj) => i <= cj.1 <= s@.len() && parse_payload(s@.skip(i as int)) == Some(
                (cj.0@, s@.skip(cj.1 as int)),
            ),
            None => parse_payload(s@.skip(i as int)) is None,
        },
{
    let mut acc: Vec<u8> = Vec::new();
    let mut j: usize = i;
    loop
        invariant
            i <= j <= s@.len(),
            parse_payload(s@.skip(i as int)) == (match parse_payload(s@.skip(j as int)) {
                Some((c, r)) => Some((acc@ + c, r)),
                None => None::<(Seq<u8>, Seq<u8>)>,
            }),
        decreases s@.len() - j,
    {
        if j >= s.len() {
            proof {
                assert(s@.skip(j as int).len() == 0);
            }
            return None;
        }
        let b = s[j];
        let ghost t = s@.skip(j as int);
        proof {
            assert(t[0] == s@[j as int]);
        }
        if b == 34 {
            proof {
                assert(t.drop_first() =~= s@.skip(j as int + 1));
                assert(parse_payload(t) == Some((Seq::<u8>::empty(), s@.skip(j as int + 1))));
                assert(acc@ + Seq::<u8>::empty() =~= acc@);
            }
            return Some((acc, j + 1));
        } else if b == 92 {
            if j + 1 >= s.len() {
                proof {
                    assert(t.len() < 2);
                }
                return None;
            }
            let b2 = s[j + 1];
            proof {
                assert(t[1] == s@[j as int + 1]);
            }
            if b2 == 34 || b2 == 92 {
                let ghost acc0 = acc@;
                acc.push(b2);
                proof {
                    assert(t.skip(2) =~= s@.skip(j as int + 2));
                    match parse_payload(s@.skip(j as int + 2)) {
                        Some((c, r)) => {
                            assert(parse_payload(t) == Some((seq![b2] + c, r)));
                            assert(acc0 + (seq![b2] + c) =~= (acc0 + seq![b2]) + c);
                            assert(acc@ =~= acc0 + seq![b2]);
                        },
                        None => {},
                    }
                }
                j = j + 2;
            } else {
                return None;
            }
        } else {
            let ghost acc0 = acc@;
            acc.push(b);
            proof {
                assert(t.drop_first() =~= s@.skip(j as int + 1));
                match parse_payload(s@.skip(j as int + 1)) {
                    Some((c, r)) => {
                        assert(parse_payload(t) == Some((seq![b] + c, r)));
                        assert(acc0 + (seq![b] + c) =~= (acc0 + seq![b]) + c);
                        assert(acc@ =~= acc0 + seq![b]);
                    },
                    None => {},
                }
            }
            j = j + 1;
        }
    }
}

/// Check that exactly the two closing braces stand at `j`.
fn closing_braces_at(s: &Vec<u8>, j: usize) -> (r: bool)
    requires
        j <= s@.len(),
    ensures
        r == (s@.skip(j as int) == seq![125u8, 125u8]),
{
    let r = s.len() >= 2 && j == s.len() - 2 && s[j] == 125 && s[j + 1] == 125;
    proof {
        let t = s@.skip(j as int);
        if r {
            assert(t =~= seq![125u8, 125u8]);
        } else {
            if t == seq![125u8, 125u8] {
                assert(t.len() == 2);
                assert(t[0] == s@[j as int] && t[1] == s@[j as int + 1]);
            }
        }
    }
    r
}

/// Run the message grammar over `s`.
fn decode_impl(s: &Vec<u8>) -> (r: Option<Message>)
    ensures
        match r {
            Some(m) => decode_msg(s@) == Some(m@),
            None => decode_msg(s@) is None,
        },
{
    let pp = make_proposal_prefix();
    if starts_with_bytes(s, &pp) {
        match parse_payload_at(s, pp.len()) {
            Some((c, j)) => {
                if closing_braces_at(s, j) {
                    return Some(Message::Proposal { node_id: c });
                } else {
                    return None;
                }
            },
            None => {
                return None;
            },
        }
    }
    let cp = make_confirmation_prefix();
    if starts_with_bytes(s, &cp) {
        match parse_payload_at(s, cp.len()) {
            Some((c, j)) => {
                if closing_braces_at(s, j) {
                    return Some(Message::Confirmation { node_id: c });
                } else {
                    return None;
                }
            },
            None => {
                return None;
            },
        }
    }
    let cb = make_complete_bytes();
    if bytes_equal(s, &cb) {
        Some(Message::ScaleComplete)
    } else {
        None
    }
}

/// Decode one datagram. Exactly the canonical encodings of the three
/// message shapes are accepted; everything else is `None`.
pub fn decode_message(s: &Vec<u8>) -> (r: Option<Message>)
    ensures
        match r {
            Some(m) => decode_msg(s@) == Some(m@) && s@ == encode_msg(m@),
            None => decode_msg(s@) is None && (forall|mv: MessageView| s@ != encode_msg(mv)),
        },
{
    let r = decode_impl(s);
    proof {
        match &r {
            Some(m) => lemma_decode_sound(s@, m@),
            None => {
                assert forall|mv: MessageView| s@ != encode_msg(mv) by {
                    if s@ == encode_msg(mv) {
                        lemma_message_round_trip(mv);
                    }
                }
            },
        }
    }
    r
}

/// `escape` distributes over appending one byte.
proof fn lemma_escape_snoc(a: Seq<u8>, x: u8)
    ensures
        escape(a.push(x)) == escape(a) + esc_one(x),
    decreases a.len(),
{
    if a.len() == 0 {
        assert(a.push(x)[0] == x);
        assert(a.push(x).drop_first() =~= Seq::<u8>::empty());
        assert(escape(Seq::<u8>::empty()) == Seq::<u8>::empty());
        assert(escape(a.push(x)) == esc_one(x) + escape(Seq::<u8>::empty()));
        assert(escape(a.push(x)) =~= esc_one(x));
        assert(escape(a) + esc_one(x) =~= esc_one(x));
    } else {
        lemma_escape_snoc(a.drop_first(), x);
        assert(a.push(x)[0] == a[0]);
        assert(a.push(x).drop_first() =~= a.drop_first().push(x));
        assert(escape(a.push(x)) == esc_one(a[0]) + escape(a.drop_first().push(x)));
        assert(esc_one(a[0]) + (escape(a.drop_first()) + esc_one(x)) =~= (esc_one(a[0])
            + escape(a.drop_first())) + esc_one(x));
    }
}

/// Escape a payload for the wire.
fn escape_bytes(c: &Vec<u8>) -> (r: Vec<u8>)
    ensures
        r@ == escape(c@),
{
    let mut v: Vec<u8> = Vec::new();
    let mut i: usize = 0;
    proof {
        assert(c@.take(0) =~= Seq::<u8>::empty());
        assert(escape(Seq::<u8>::empty()) =~= Seq::<u8>::empty());
    }
    while i < c.len()
        invariant
            i <= c@.len(),
            v@ == escape(c@.take(i as int)),
        decreases c@.len() - i,
    {
        let b = c[i];
        if b == 34 || b == 92 {
            v.push(92);
            v.push(b);
        } else {
            v.push(b);
        }
        proof {
            lemma_escape_snoc(c@.take(i as int), b);
            assert(c@.take(i as int).push(b) =~= c@.take(i as int + 1));
            assert(v@ =~= escape(c@.take(i as int)) + esc_one(b));
        }
        i = i + 1;
    }
    proof {
        assert(c@.take(c@.len() as int) =~= c@);
    }
    v
}

/// Append all of `w` to `v`.
fn append_bytes(v: Vec<u8>, w: &Vec<u8>) -> (r: Vec<u8>)
    ensures
        r@ == v@ + w@,
{
    let mut out = v;
    let ghost v0 = out@;
    let mut i: usize = 0;
    proof {
        assert(v0 + w@.take(0) =~= v0);
    }
    while i < w.len()
        invariant
            i <= w@.len(),
            out@ == v0 + w@.take(i as int),
        decreases w@.len() - i,
    {
        out.push(w[i]);
        proof {
            assert(v0 + w@.take(i as int + 1) =~= (v0 + w@.take(i as int)).push(w@[i as int]));
        }
        i = i + 1;
    }
    proof {
        assert(w@.take(w@.len() as int) =~= w@);
    }
    out
}

/// Encode a message in its canonical wire form.
pub fn encode_message(m: &Message) -> (v: Vec<u8>)
    ensures
        v@ == encode_msg(m@),
{
    match m {
        Message::Proposal { node_id } => {
            let esc = escape_bytes(node_id);
            let mut v = append_bytes(make_proposal_prefix(), &esc);
            v.push(34);
            v.push(125);
            v.push(125);
            proof {
                assert(v@ =~= encode_msg(m@));
            }
            v
        },
        Message::Confirmation { node_id } => {
            let esc = escape_bytes(node_id);
            let mut v = append_bytes(make_confirmation_prefix(), &esc);
            v.push(34);
            v.push(125);
            v.push(125);
            proof {
                assert(v@ =~= encode_msg(m@));
            }
            v
        },
        Message::ScaleComplete => make_complete_bytes(),
    }
}

} // verus!
