//! Wire protocol between the consumer sidecar and a language client.
//!
//! Framing: newline-delimited JSON, one message per line, each a JSON object
//! tagged by `type`. Strings inside a message are JSON-escaped, so a message
//! never holds a raw newline and `\n` is an unambiguous delimiter.
//!
//! Checkpoint semantics are at-least-once: the sidecar sends a batch with its
//! last sequence number; the client acks with a `checkpoint` carrying it, and
//! only then is the checkpoint persisted.

use vstd::prelude::*;
use vstd::string::*;

verus! {

#[verifier::external_type_specification]
#[verifier::external_body]
pub struct ExJsonError(serde_json::Error);

/// The JSON string literal that `serde_json` writes for a string.
pub uninterp spec fn json_quoted(s: Seq<char>) -> Seq<char>;

/// `serde_json::to_string` on a string slice. Serializing a string into an
/// in-memory buffer cannot fail (the writer is a `Vec<u8>`); the result is a
/// quoted JSON string whose control characters, newline and carriage return
/// among them, are escaped.
#[verifier::external_body]
fn json_string(s: &str) -> (r: Result<String, serde_json::Error>)
    ensures
        r is Ok,
        r matches Ok(q) ==> q@ == json_quoted(s@),
        r matches Ok(q) ==> q@.len() >= 2 && q@[0] == '"' && q@.last() == '"',
        r matches Ok(q) ==> forall|i: int| 0 <= i < q@.len() ==> q@[i] != '\n' && q@[i] != '\r',
{
    serde_json::to_string(s)
}

/// The JSON string literal of `s`.
fn quoted(s: &str) -> (q: String)
    ensures
        q@ == json_quoted(s@),
        forall|i: int| 0 <= i < q@.len() ==> q@[i] != '\n' && q@[i] != '\r',
{
    match json_string(s) {
        Ok(q) => q,
        Err(_) => {
            proof {
                assert(false);
            }
            String::new()
        },
    }
}

/// Messages the client sends to the sidecar.
#[derive(Clone, Debug)]
pub enum ClientMessage {
    /// Handshake: the client is ready to receive records.
    Ready,
    /// Ack that records up to `seq` on `shard` are durably processed.
    Checkpoint { shard: String, seq: String },
    /// The client is shutting down.
    Stop,
}

pub enum ClientMessageView {
    Ready,
    Checkpoint { shard: Seq<char>, seq: Seq<char> },
    Stop,
}

impl View for ClientMessage {
    type V = ClientMessageView;

    open spec fn view(&self) -> ClientMessageView {
        match self {
            ClientMessage::Ready => ClientMessageView::Ready,
            ClientMessage::Checkpoint { shard, seq } => ClientMessageView::Checkpoint {
                shard: shard@,
                seq: seq@,
            },
            ClientMessage::Stop => ClientMessageView::Stop,
        }
    }
}

/// The JSON object for a client message: the `type` tag first, in snake
/// case, then the variant's fields in declaration order.
pub open spec fn client_json(m: ClientMessageView) -> Seq<char> {
    match m {
        ClientMessageView::Ready => "{\"type\":\"ready\"}"@,
        ClientMessageView::Checkpoint { shard, seq } => "{\"type\":\"checkpoint\",\"shard\":"@
            + json_quoted(shard) + ",\"seq\":"@ + json_quoted(seq) + "}"@,
        ClientMessageView::Stop => "{\"type\":\"stop\"}"@,
    }
}

/// A line holds no line break but the one that ends it.
pub open spec fn is_single_line(line: Seq<char>) -> bool {
    &&& line.len() >= 1
    &&& line.last() == '\n'
    &&& forall|i: int| 0 <= i < line.len() - 1 ==> line[i] != '\n' && line[i] != '\r'
}

/// Append the newline that ends a framed line.
pub fn frame_line(json: String) -> (line: String)
    ensures
        line@ == json@.push('\n'),
{
    let mut line = json;
    line.append("\n");
    proof {
        reveal_strlit("\n");
        assert(line@ =~= json@.push('\n'));
    }
    line
}

/// Whether `c` ends a line: a line feed or a carriage return.
pub open spec fn is_line_end(c: char) -> bool {
    c == '\n' || c == '\r'
}

/// The length of `line` once every trailing line feed and carriage return is
/// cut off.
pub open spec fn body_len(line: Seq<char>) -> int
    decreases line.len(),
{
    if line.len() > 0 && is_line_end(line.last()) {
        body_len(line.drop_last())
    } else {
        line.len() as int
    }
}

proof fn lemma_body_len(line: Seq<char>)
    ensures
        0 <= body_len(line) <= line.len(),
        forall|i: int| body_len(line) <= i < line.len() ==> is_line_end(#[trigger] line[i]),
        body_len(line) > 0 ==> !is_line_end(line[body_len(line) - 1]),
    decreases line.len(),
{
    if line.len() > 0 && is_line_end(line.last()) {
        lemma_body_len(line.drop_last());
        assert forall|i: int| body_len(line) <= i < line.len() implies is_line_end(#[trigger] line[i]) by {
            if i < line.len() - 1 {
                assert(line.drop_last()[i] == line[i]);
            }
        }
        if body_len(line) > 0 {
            assert(line.drop_last()[body_len(line) - 1] == line[body_len(line) - 1]);
        }
    }
}

/// Cut every trailing line feed and carriage return off a received line.
pub fn line_body(line: &str) -> (body: &str)
    ensures
        body@ == line@.subrange(0, body_len(line@)),
{
    let n = line.unicode_len();
    let mut k: usize = n;
    proof {
        lemma_body_len(line@);
        assert(line@.subrange(0, n as int) =~= line@);
    }
    loop
        invariant
            n == line@.len(),
            body_len(line@) <= k <= n,
            body_len(line@) == body_len(line@.subrange(0, k as int)),
        ensures
            body_len(line@) == k,
        decreases k,
    {
        if k == 0 {
            break;
        }
        let c = line.get_char(k - 1);
        proof {
            let sub = line@.subrange(0, k as int);
            assert(sub.last() == c);
            assert(sub.drop_last() =~= line@.subrange(0, k - 1));
        }
        if c != '\n' && c != '\r' {
            break;
        }
        proof {
            lemma_body_len(line@.subrange(0, k - 1));
        }
        k -= 1;
    }
    line.substring_char(0, k)
}

impl ClientMessage {
    /// Serialize to a single JSON object, without the trailing newline.
    pub fn to_json(&self) -> (json: String)
        ensures
            json@ == client_json(self@),
            forall|i: int| 0 <= i < json@.len() ==> json@[i] != '\n' && json@[i] != '\r',
            json@.len() >= 1 && json@.last() == '}',
    {
        proof {
            reveal_strlit("{\"type\":\"ready\"}");
            reveal_strlit("{\"type\":\"checkpoint\",\"shard\":");
            reveal_strlit(",\"seq\":");
            reveal_strlit("}");
            reveal_strlit("{\"type\":\"stop\"}");
        }
        match self {
            ClientMessage::Ready => String::from_str("{\"type\":\"ready\"}"),
            ClientMessage::Checkpoint { shard, seq } => {
                let qs = quoted(shard.as_str());
                let qq = quoted(seq.as_str());
                let mut out = String::from_str("{\"type\":\"checkpoint\",\"shard\":");
                out.append(qs.as_str());
                out.append(",\"seq\":");
                out.append(qq.as_str());
                out.append("}");
                proof {
                    let a = "{\"type\":\"checkpoint\",\"shard\":"@;
                    let b = ",\"seq\":"@;
                    let c = "}"@;
                    assert(out@ == a + qs@ + b + qq@ + c);
                    assert forall|i: int| 0 <= i < out@.len() implies out@[i] != '\n' && out@[i]
                        != '\r' by {
                        let l1 = a.len() as int;
                        let l2 = l1 + qs@.len();
                        let l3 = l2 + b.len();
                        let l4 = l3 + qq@.len();
                        if i < l1 {
                            assert(out@[i] == a[i]);
                        } else if i < l2 {
                            assert(out@[i] == qs@[i - l1]);
                        } else if i < l3 {
                            assert(out@[i] == b[i - l2]);
                        } else if i < l4 {
                            assert(out@[i] == qq@[i - l3]);
                        } else {
                            assert(out@[i] == c[i - l4]);
                        }
                    }
                }
                out
            },
            ClientMessage::Stop => String::from_str("{\"type\":\"stop\"}"),
        }
    }

    /// Serialize to a framed line, with the trailing newline.
    pub fn to_line(&self) -> (line: String)
        ensures
            line@ == client_json(self@).push('\n'),
            is_single_line(line@),
            line_body_spec(line@) == client_json(self@),
    {
        let json = self.to_json();
        let line = frame_line(json);
        proof {
            let j = json@;
            assert(line@.drop_last() =~= j);
            assert(body_len(j) == j.len());
            assert(body_len(line@) == body_len(j));
            assert(line@.subrange(0, j.len() as int) =~= j);
        }
        line
    }
}

/// What [`line_body`] keeps of a line.
pub open spec fn line_body_spec(line: Seq<char>) -> Seq<char> {
    line.subrange(0, body_len(line))
}

/// Framing and reading back agree: a JSON text that does not itself end in a
/// line break, once framed with [`frame_line`], is given back whole by
/// [`line_body`].
pub proof fn lemma_framing_round_trip(json: Seq<char>)
    requires
        json.len() == 0 || !is_line_end(json.last()),
    ensures
        line_body_spec(json.push('\n')) == json,
{
    let line = json.push('\n');
    assert(line.drop_last() =~= json);
    assert(body_len(json) == json.len());
    assert(line.subrange(0, json.len() as int) =~= json);
}

} // verus!
