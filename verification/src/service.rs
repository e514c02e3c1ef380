//! What the service answers.
//!
//! A request is either answered at once or has its body read first; once the
//! body has been read, the outcome of scoring it decides the reply.

use vstd::prelude::*;

use crate::distance::Vec14I;
use crate::index::IndexView;
use crate::search::{at_most_five_votes, checked_ivf_search, is_borderline, searchable, votes};
use crate::text::same_text;

verus! {

/// Clusters probed for a request.
pub const NPROBE: usize = 32;

/// Bytes that the parser may read behind a body.
pub const SIMD_JSON_PADDING: usize = 32;

/// The votes for fraud from which a transaction is declined.
pub const DECLINE_FROM: u8 = 3;

pub const STATUS_OK: u16 = 200;

pub const STATUS_BAD_REQUEST: u16 = 400;

pub const STATUS_NOT_FOUND: u16 = 404;

/// The methods that the service tells apart.
#[derive(Copy, Clone, Debug, PartialEq, Eq, Structural)]
pub enum Verb {
    Get,
    Post,
    Other,
}

/// A reply: its status, its body, and whether the body is declared to be JSON.
#[derive(Copy, Clone, Debug)]
pub struct Reply {
    pub status: u16,
    pub body: &'static str,
    pub json: bool,
}

/// What to do with a request.
#[derive(Copy, Clone, Debug)]
pub enum Action {
    /// Send this reply.
    Answer(Reply),
    /// Read the body and score it.
    ReadBody,
}

/// What became of a body.
#[derive(Copy, Clone, Debug, PartialEq, Eq, Structural)]
pub enum Scoring {
    /// It did not arrive.
    Unreadable,
    /// It is no request.
    Malformed,
    /// So many of the neighbours are frauds.
    Frauds(u8),
}

/// A reply without a body.
pub open spec fn is_bare(reply: Reply, status: u16) -> bool {
    reply.status == status && reply.body@ == ""@ && !reply.json
}

/// A reply without a body.
pub fn error_response(status: u16) -> (reply: Reply)
    ensures
        is_bare(reply, status),
{
    Reply { status, body: "", json: false }
}

/// What to do with a request, by its method and path.
pub fn route(verb: Verb, path: &str) -> (action: Action)
    ensures
        verb == Verb::Get && path@ == "/ready"@ ==> (action matches Action::Answer(reply)
            && reply.status == STATUS_OK && reply.body@ == "ok"@ && !reply.json),
        verb == Verb::Post && path@ == "/fraud-score"@ ==> action is ReadBody,
        !(verb == Verb::Get && path@ == "/ready"@) && !(verb == Verb::Post && path@
            == "/fraud-score"@) ==> (action matches Action::Answer(reply) && is_bare(
            reply,
            STATUS_NOT_FOUND,
        )),
{
    if verb == Verb::Get && same_text(path, "/ready") {
        Action::Answer(Reply { status: STATUS_OK, body: "ok", json: false })
    } else if verb == Verb::Post && same_text(path, "/fraud-score") {
        Action::ReadBody
    } else {
        Action::Answer(error_response(STATUS_NOT_FOUND))
    }
}

/// Fewer votes for fraud than it takes to decline.
pub fn is_approved(frauds: u8) -> (approved: bool)
    ensures
        approved == (frauds < DECLINE_FROM),
{
    frauds < DECLINE_FROM
}

/// A decimal digit.
pub open spec fn digit_char(d: int) -> char {
    (48 + d) as char
}

/// A truth value in JSON.
pub open spec fn json_bool(b: bool) -> Seq<char> {
    if b {
        "true"@
    } else {
        "false"@
    }
}

/// The verdict in JSON: whether the transaction is approved, and the share of
/// frauds among the five neighbours as a decimal with one place.
pub open spec fn verdict(frauds: int) -> Seq<char> {
    "{\"approved\":"@ + json_bool(frauds < DECLINE_FROM) + ",\"fraud_score\":"@ + seq![
        digit_char(2 * frauds / 10),
        '.',
        digit_char(2 * frauds % 10),
    ] + "}"@
}

proof fn lemma_verdict_parts()
    ensures
        "{\"approved\":"@ == seq!['{', '"', 'a', 'p', 'p', 'r', 'o', 'v', 'e', 'd', '"', ':'],
        "true"@ == seq!['t', 'r', 'u', 'e'],
        "false"@ == seq!['f', 'a', 'l', 's', 'e'],
        ",\"fraud_score\":"@ == seq![
            ',', '"', 'f', 'r', 'a', 'u', 'd', '_', 's', 'c', 'o', 'r', 'e', '"', ':',
        ],
        "}"@ == seq!['}'],
{
    reveal_strlit("{\"approved\":");
    reveal_strlit("true");
    reveal_strlit("false");
    reveal_strlit(",\"fraud_score\":");
    reveal_strlit("}");
    assert("{\"approved\":"@ =~= seq!['{', '"', 'a', 'p', 'p', 'r', 'o', 'v', 'e', 'd', '"', ':']);
    assert("true"@ =~= seq!['t', 'r', 'u', 'e']);
    assert("false"@ =~= seq!['f', 'a', 'l', 's', 'e']);
    assert(",\"fraud_score\":"@ =~= seq![
        ',', '"', 'f', 'r', 'a', 'u', 'd', '_', 's', 'c', 'o', 'r', 'e', '"', ':',
    ]);
    assert("}"@ =~= seq!['}']);
}

/// The verdict on a transaction, as JSON.
pub fn verdict_json(frauds: u8) -> (text: &'static str)
    requires
        frauds <= 5,
    ensures
        text@ == verdict(frauds as int),
{
    proof {
        lemma_verdict_parts();
    }
    match frauds {
        0 => {
            let text = "{\"approved\":true,\"fraud_score\":0.0}";
            proof {
                reveal_strlit("{\"approved\":true,\"fraud_score\":0.0}");
                assert(text@ =~= verdict(0));
            }
            text
        },
        1 => {
            let text = "{\"approved\":true,\"fraud_score\":0.2}";
            proof {
                reveal_strlit("{\"approved\":true,\"fraud_score\":0.2}");
                assert(text@ =~= verdict(1));
            }
            text
        },
        2 => {
            let text = "{\"approved\":true,\"fraud_score\":0.4}";
            proof {
                reveal_strlit("{\"approved\":true,\"fraud_score\":0.4}");
                assert(text@ =~= verdict(2));
            }
            text
        },
        3 => {
            let text = "{\"approved\":false,\"fraud_score\":0.6}";
            proof {
                reveal_strlit("{\"approved\":false,\"fraud_score\":0.6}");
                assert(text@ =~= verdict(3));
            }
            text
        },
        4 => {
            let text = "{\"approved\":false,\"fraud_score\":0.8}";
            proof {
                reveal_strlit("{\"approved\":false,\"fraud_score\":0.8}");
                assert(text@ =~= verdict(4));
            }
            text
        },
        _ => {
            let text = "{\"approved\":false,\"fraud_score\":1.0}";
            proof {
                reveal_strlit("{\"approved\":false,\"fraud_score\":1.0}");
                assert(text@ =~= verdict(5));
            }
            text
        },
    }
}

/// Scores a query, given with the keys of its distances to the centroids, by a
/// search with [`NPROBE`] probes; `None` where the index cannot be searched so.
pub fn score(idx: &IndexView, query: &Vec14I, keys: &[u32]) -> (r: Option<Scoring>)
    requires
        idx.wf(),
    ensures
        r is Some <==> searchable(idx, keys@, NPROBE),
        r matches Some(scoring) ==> (scoring matches Scoring::Frauds(frauds) && frauds == votes(
            idx,
            query@,
            keys@,
            NPROBE,
        ) && frauds <= 5),
{
    match checked_ivf_search(idx, query, keys, NPROBE) {
        Some(frauds) => {
            proof {
                at_most_five_votes(idx, query@, keys@, NPROBE);
            }
            Some(Scoring::Frauds(frauds))
        },
        None => None,
    }
}

/// The reply to a request whose body has been read.
pub fn reply_to(scoring: Scoring) -> (reply: Reply)
    requires
        scoring matches Scoring::Frauds(frauds) ==> frauds <= 5,
    ensures
        match scoring {
            Scoring::Unreadable => is_bare(reply, STATUS_BAD_REQUEST),
            Scoring::Malformed => is_bare(reply, STATUS_BAD_REQUEST),
            Scoring::Frauds(frauds) => reply.status == STATUS_OK && reply.body@ == verdict(
                frauds as int,
            ) && reply.json,
        },
{
    match scoring {
        Scoring::Unreadable => error_response(STATUS_BAD_REQUEST),
        Scoring::Malformed => error_response(STATUS_BAD_REQUEST),
        Scoring::Frauds(frauds) => Reply {
            status: STATUS_OK,
            body: verdict_json(frauds),
            json: true,
        },
    }
}

/// A body, followed by the padding that the parser may read.
pub open spec fn padded(body: Seq<u8>) -> Seq<u8> {
    body + Seq::new(SIMD_JSON_PADDING as nat, |i: int| 0u8)
}

/// Puts a body into the parse buffer, in place of what the buffer holds.
pub fn fill_json_buffer(buf: &mut Vec<u8>, body: &[u8])
    requires
        body@.len() + SIMD_JSON_PADDING <= usize::MAX,
    ensures
        final(buf)@ == padded(body@),
{
    buf.clear();
    buf.extend_from_slice(body);
    assert(buf@ =~= body@);
    buf.resize(body.len() + SIMD_JSON_PADDING, 0);
    proof {
        assert forall|i: int| 0 <= i < body@.len() implies buf@[i] == body@[i] by {
            assert(buf@.subrange(0, body@.len() as int)[i] == body@[i]);
        }
        assert(buf@ =~= padded(body@));
    }
}

/// The votes that a second search looks at again are those whose verdict a
/// single neighbour more or less for fraud would turn.
pub proof fn borderline_verdicts_hang_on_one_vote(frauds: nat)
    ensures
        is_borderline(frauds) <==> {
            ||| (frauds < DECLINE_FROM) != (frauds + 1 < DECLINE_FROM)
            ||| (frauds < DECLINE_FROM) != (frauds - 1 < DECLINE_FROM)
        },
{
}

/// A bare reply has its status, an empty body and no declared type.
pub proof fn bare_replies_say_nothing(reply: Reply, status: u16)
    ensures
        is_bare(reply, status) <==> reply.status == status && reply.body@.len() == 0
            && !reply.json,
{
    reveal_strlit("");
    if reply.body@.len() == 0 {
        assert(reply.body@ =~= ""@);
    }
}

/// A padded body is the body with thirty-two zero bytes behind it.
pub proof fn padding_keeps_the_body(body: Seq<u8>)
    ensures
        padded(body).len() == body.len() + 32,
        forall|i: int| 0 <= i < body.len() ==> #[trigger] padded(body)[i] == body[i],
        forall|i: int| body.len() <= i < body.len() + 32 ==> #[trigger] padded(body)[i] == 0,
{
}

/// A verdict approves with fewer than three votes for fraud and declines with
/// more, and its score is two tenths for every vote.
pub proof fn verdicts_tell_approval_and_score(frauds: int)
    requires
        0 <= frauds <= 5,
    ensures
        frauds < 3 ==> verdict(frauds).subrange(0, 17) == "{\"approved\":true,"@,
        frauds >= 3 ==> verdict(frauds).subrange(0, 18) == "{\"approved\":false,"@,
        ({
            let text = verdict(frauds);
            let n = text.len();
            &&& n == if frauds < 3 {
                35int
            } else {
                36
            }
            &&& text[n - 3] == '.'
            &&& 10 * (text[n - 4] as int - 48) + (text[n - 2] as int - 48) == 2 * frauds
            &&& text.subrange(n - 18, n - 4) == "\"fraud_score\":"@
            &&& text[n - 1] == '}'
        }),
{
    lemma_verdict_parts();
    reveal_strlit("{\"approved\":true,");
    reveal_strlit("{\"approved\":false,");
    reveal_strlit("\"fraud_score\":");
    let text = verdict(frauds);
    let n = text.len();
    if frauds < 3 {
        assert(text.subrange(0, 17) =~= "{\"approved\":true,"@);
    } else {
        assert(text.subrange(0, 18) =~= "{\"approved\":false,"@);
    }
    assert(text.subrange(n - 18, n - 4) =~= "\"fraud_score\":"@);
}

} // verus!
