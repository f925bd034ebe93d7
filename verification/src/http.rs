//! Splitting a connection's buffered bytes into HTTP requests.
//!
//! A connection may send several requests back to back (keep-alive and
//! pipelining), and a request may arrive in pieces. The service answers
//! `GET /ready` and `POST /fraud-score`; anything else gets a 404 and the rest
//! of the buffer is dropped. A scoring request is complete once its header end
//! (`\r\n\r\n`) and as many body bytes as its `Content-Length` says have arrived.
//!
//! This module decides what to do with a buffer; sending the answers is left to
//! the caller, which runs the actions in order and then drops the consumed bytes.
use vstd::prelude::*;
use crate::scan::{
    find_from, first_occurrence_from, lemma_find_from, lemma_find_from_is_first, position_of,
    window_eq,
};
use crate::numbers::{
    decimal_text, int_at, is_digit, lemma_int_roundtrip_at, parse_int_fast, usize_modulus,
};
use crate::features::key;

verus! {

broadcast use vstd::string::is_ascii_spec_bytes;

/// `b` starts with `p`.
pub open spec fn starts_with(b: Seq<u8>, p: Seq<u8>) -> bool {
    p.len() <= b.len() && b.subrange(0, p.len() as int) == p
}

proof fn lemma_texts()
    ensures
        key("GET /ready").len() == 10,
        key("POST /fraud-score").len() == 17,
        key("\r\n\r\n").len() == 4,
        key("Content-Length: ").len() == 16,
{
    reveal_strlit("GET /ready");
    reveal_strlit("POST /fraud-score");
    reveal_strlit("\r\n\r\n");
    reveal_strlit("Content-Length: ");
    assert(vstd::string::is_ascii("GET /ready"));
    assert(vstd::string::is_ascii("POST /fraud-score"));
    assert(vstd::string::is_ascii("\r\n\r\n"));
    assert(vstd::string::is_ascii("Content-Length: "));
}

/// What the bytes at the front of a connection's buffer hold.
pub enum RequestStep {
    /// A readiness probe; it takes the whole rest of the buffer.
    Ready,
    /// A complete scoring request whose body is the bytes from `body_start` up
    /// to `body_end`; the request ends at `body_end`.
    Score { body_start: usize, body_end: usize },
    /// The start of a scoring request whose header or body has not fully arrived.
    Incomplete,
    /// Not a request the service serves; it takes the whole rest of the buffer.
    NotFound,
    /// A scoring request whose `Content-Length` makes the body end, in wrapping
    /// `usize` arithmetic, before it starts: the body cannot be cut out of the
    /// buffer.
    Malformed,
}

/// What the service does for a request.
pub enum Action {
    /// Answer that the service is ready.
    Ready,
    /// Score the transaction whose body is the buffer's bytes from `body_start`
    /// up to `body_end`, and answer with the verdict.
    Score { body_start: usize, body_end: usize },
    /// Answer 404.
    NotFound,
}

/// What to do with a connection's buffer.
pub struct BufferPlan {
    /// The requests to answer, in order.
    pub actions: Vec<Action>,
    /// How many bytes at the front of the buffer the requests take.
    pub consumed: usize,
    /// Whether the requests stop at a malformed scoring request, which the
    /// service does not survive.
    pub malformed: bool,
}

/// The body length that a request announces: the integer after the first
/// `Content-Length: ` in it, reinterpreted as a `usize`; 0 when there is none.
pub open spec fn content_length(c: Seq<u8>) -> usize {
    match find_from(c, key("Content-Length: "), 0) {
        Some(ci) => (int_at(c, ci + 16).0 as i64) as usize,
        None => 0,
    }
}

/// What the bytes at the front of `c` hold. The body of a scoring request
/// starts after the header's end and ends `content_length` bytes later, in
/// wrapping `usize` arithmetic.
pub open spec fn request_step(c: Seq<u8>) -> RequestStep {
    if starts_with(c, key("GET /ready")) {
        RequestStep::Ready
    } else if starts_with(c, key("POST /fraud-score")) {
        match find_from(c, key("\r\n\r\n"), 0) {
            None => RequestStep::Incomplete,
            Some(bi) => {
                let bs = bi + 4;
                let end = (bs + content_length(c)) % usize_modulus();
                if c.len() >= end {
                    if end < bs {
                        RequestStep::Malformed
                    } else {
                        RequestStep::Score { body_start: bs as usize, body_end: end as usize }
                    }
                } else {
                    RequestStep::Incomplete
                }
            },
        }
    } else {
        RequestStep::NotFound
    }
}

/// The plan for the buffer `b` from position `offset` on: the actions, the
/// position up to which the bytes are consumed, and whether a malformed
/// request stopped the plan.
pub open spec fn plan_from(b: Seq<u8>, offset: nat) -> (Seq<Action>, nat, bool)
    decreases b.len() - offset,
{
    if offset >= b.len() {
        (Seq::empty(), offset, false)
    } else {
        match request_step(b.subrange(offset as int, b.len() as int)) {
            RequestStep::Ready => (seq![Action::Ready], b.len(), false),
            RequestStep::NotFound => (seq![Action::NotFound], b.len(), false),
            RequestStep::Incomplete => (Seq::empty(), offset, false),
            RequestStep::Malformed => (Seq::empty(), offset, true),
            RequestStep::Score { body_start, body_end } => {
                proof {
                    lemma_score_bounds(b.subrange(offset as int, b.len() as int));
                }
                let rest = plan_from(b, (offset + body_end) as nat);
                (
                    seq![
                        Action::Score {
                            body_start: (offset + body_start) as usize,
                            body_end: (offset + body_end) as usize,
                        },
                    ] + rest.0,
                    rest.1,
                    rest.2,
                )
            },
        }
    }
}

/// A complete scoring request has a body that starts after its header and ends
/// within the bytes at hand.
pub proof fn lemma_score_bounds(c: Seq<u8>)
    ensures
        request_step(c) matches RequestStep::Score { body_start, body_end } ==> 4 <= body_start
            <= body_end <= c.len(),
{
    lemma_texts();
    lemma_find_from(c, key("\r\n\r\n"), 0);
    vstd::arithmetic::div_mod::lemma_mod_bound(
        (find_from(c, key("\r\n\r\n"), 0)->0 + 4 + content_length(c)) as int,
        usize_modulus(),
    );
}

/// Every body that a plan scores lies in the buffer, after the position the
/// plan starts from and before the position up to which it consumes; and the
/// plan consumes no more than the buffer holds.
pub proof fn lemma_plan_bodies_within_consumed(b: Seq<u8>, offset: nat)
    requires
        offset <= b.len() <= usize::MAX,
    ensures
        offset <= plan_from(b, offset).1 <= b.len(),
        forall|k: int|
            0 <= k < plan_from(b, offset).0.len() ==> (#[trigger] plan_from(b, offset).0[k] matches Action::Score { body_start, body_end } ==> offset <= body_start <= body_end <= plan_from(b, offset).1),
    decreases b.len() - offset,
{
    if offset < b.len() {
        let c = b.subrange(offset as int, b.len() as int);
        lemma_score_bounds(c);
        match request_step(c) {
            RequestStep::Score { body_start, body_end } => {
                let next = (offset + body_end) as nat;
                lemma_plan_bodies_within_consumed(b, next);
                let p = plan_from(b, offset);
                let r = plan_from(b, next);
                assert forall|k: int| 0 <= k < p.0.len() implies (#[trigger] p.0[k] matches Action::Score { body_start, body_end } ==> offset <= body_start <= body_end <= p.1) by {
                    if k > 0 {
                        assert(p.0[k] == r.0[k - 1]);
                    } else {
                        assert(p.0[0] == Action::Score {
                            body_start: (offset + body_start) as usize,
                            body_end: (offset + body_end) as usize,
                        });
                    }
                }
            },
            _ => {},
        }
    }
}

/// What a plan leaves in the buffer is either nothing or the start of a
/// request that cannot be answered yet: an incomplete scoring request, or a
/// malformed one when the plan reports it.
pub proof fn lemma_plan_leaves_only_unfinished(b: Seq<u8>, offset: nat)
    requires
        offset <= b.len(),
    ensures
        plan_from(b, offset).1 < b.len() ==> {
            let c = b.subrange(plan_from(b, offset).1 as int, b.len() as int);
            if plan_from(b, offset).2 {
                request_step(c) is Malformed
            } else {
                request_step(c) is Incomplete
            }
        },
        plan_from(b, offset).2 ==> plan_from(b, offset).1 < b.len(),
    decreases b.len() - offset,
{
    if offset < b.len() {
        let c = b.subrange(offset as int, b.len() as int);
        lemma_score_bounds(c);
        match request_step(c) {
            RequestStep::Score { body_start, body_end } => {
                lemma_plan_leaves_only_unfinished(b, (offset + body_end) as nat);
            },
            _ => {},
        }
    }
}

proof fn lemma_post_is_not_get(c: Seq<u8>)
    requires
        starts_with(c, key("POST /fraud-score")),
    ensures
        !starts_with(c, key("GET /ready")),
{
    reveal_strlit("GET /ready");
    reveal_strlit("POST /fraud-score");
    assert(vstd::string::is_ascii("GET /ready"));
    assert(vstd::string::is_ascii("POST /fraud-score"));
    assert(c[0] == c.subrange(0, 17)[0]);
    assert(c[0] == c.subrange(0, 10)[0]);
}

/// The announced body length is the number written after the first
/// `Content-Length: ` (when it fits in an `i64` and a `usize`).
pub proof fn lemma_content_length_written(prefix: Seq<u8>, n: nat, rest: Seq<u8>)
    requires
        n <= i64::MAX,
        n <= usize::MAX,
        rest.len() == 0 || !is_digit(rest[0]),
        prefix.len() >= 16,
        first_occurrence_from(
            prefix + decimal_text(n) + rest,
            key("Content-Length: "),
            0,
            prefix.len() - 16,
        ),
    ensures
        content_length(prefix + decimal_text(n) + rest) == n,
{
    let c = prefix + decimal_text(n) + rest;
    lemma_find_from_is_first(c, key("Content-Length: "), 0, (prefix.len() - 16) as nat);
    lemma_int_roundtrip_at(prefix, n, rest);
}

/// A scoring request is complete as soon as the buffer holds its header end
/// and as many body bytes as it announces: its body starts right after the
/// first `\r\n\r\n` and is `content_length` bytes long, even when it ends
/// exactly at the end of the buffer.
pub proof fn lemma_complete_request_is_scored(c: Seq<u8>, bi: int)
    requires
        c.len() <= usize::MAX,
        starts_with(c, key("POST /fraud-score")),
        first_occurrence_from(c, key("\r\n\r\n"), 0, bi),
        bi + 4 + content_length(c) <= c.len(),
    ensures
        request_step(c) == (RequestStep::Score {
            body_start: (bi + 4) as usize,
            body_end: (bi + 4 + content_length(c)) as usize,
        }),
{
    lemma_texts();
    lemma_post_is_not_get(c);
    lemma_find_from_is_first(c, key("\r\n\r\n"), 0, bi as nat);
    vstd::arithmetic::div_mod::lemma_small_mod(
        (bi + 4 + content_length(c)) as nat,
        usize_modulus() as nat,
    );
}

/// A complete scoring request at the front of a buffer is answered first,
/// and planning goes on right after its body.
pub proof fn lemma_complete_request_planned(c: Seq<u8>, bi: int)
    requires
        c.len() <= usize::MAX,
        starts_with(c, key("POST /fraud-score")),
        first_occurrence_from(c, key("\r\n\r\n"), 0, bi),
        bi + 4 + content_length(c) <= c.len(),
    ensures
        plan_from(c, 0) == (
            seq![
                Action::Score {
                    body_start: (bi + 4) as usize,
                    body_end: (bi + 4 + content_length(c)) as usize,
                },
            ] + plan_from(c, (bi + 4 + content_length(c)) as nat).0,
            plan_from(c, (bi + 4 + content_length(c)) as nat).1,
            plan_from(c, (bi + 4 + content_length(c)) as nat).2,
        ),
{
    lemma_texts();
    assert(c.subrange(0, c.len() as int) =~= c);
    lemma_complete_request_is_scored(c, bi);
}

/// A buffer that holds exactly one complete scoring request is planned as
/// that one request and consumed whole.
pub proof fn lemma_single_request_consumed_whole(c: Seq<u8>, bi: int)
    requires
        c.len() <= usize::MAX,
        starts_with(c, key("POST /fraud-score")),
        first_occurrence_from(c, key("\r\n\r\n"), 0, bi),
        bi + 4 + content_length(c) == c.len(),
    ensures
        plan_from(c, 0) == (
            seq![Action::Score { body_start: (bi + 4) as usize, body_end: c.len() as usize }],
            c.len(),
            false,
        ),
{
    lemma_complete_request_planned(c, bi);
    assert(seq![Action::Score { body_start: (bi + 4) as usize, body_end: c.len() as usize }]
        + Seq::<Action>::empty() =~= seq![
        Action::Score { body_start: (bi + 4) as usize, body_end: c.len() as usize },
    ]);
}

/// A buffer that starts with `GET /ready` is answered once as ready and
/// consumed whole.
pub proof fn lemma_ready_consumes_buffer(c: Seq<u8>)
    requires
        starts_with(c, key("GET /ready")),
    ensures
        plan_from(c, 0) == (seq![Action::Ready], c.len(), false),
{
    lemma_texts();
    assert(c.subrange(0, c.len() as int) =~= c);
}

/// A non-empty buffer that starts with neither `GET /ready` nor
/// `POST /fraud-score` is answered once with 404 and consumed whole.
pub proof fn lemma_unknown_request_consumes_buffer(c: Seq<u8>)
    requires
        c.len() > 0,
        !starts_with(c, key("GET /ready")),
        !starts_with(c, key("POST /fraud-score")),
    ensures
        plan_from(c, 0) == (seq![Action::NotFound], c.len(), false),
{
    assert(c.subrange(0, c.len() as int) =~= c);
}

/// A scoring request whose header has not ended yet is left in the buffer
/// unanswered.
pub proof fn lemma_unfinished_header_waits(c: Seq<u8>)
    requires
        starts_with(c, key("POST /fraud-score")),
        forall|j: int| !crate::scan::matches_at(c, key("\r\n\r\n"), j),
    ensures
        plan_from(c, 0) == (Seq::<Action>::empty(), 0nat, false),
{
    lemma_texts();
    lemma_post_is_not_get(c);
    assert(c.subrange(0, c.len() as int) =~= c);
    lemma_find_from(c, key("\r\n\r\n"), 0);
    match find_from(c, key("\r\n\r\n"), 0) {
        Some(i) => {
            assert(!crate::scan::matches_at(c, key("\r\n\r\n"), i as int));
        },
        None => {},
    }
}

/// `b` starts with `p`.
fn has_prefix(b: &[u8], p: &[u8]) -> (r: bool)
    ensures
        r == starts_with(b@, p@),
{
    if p.len() > b.len() {
        false
    } else {
        window_eq(b, 0, p)
    }
}

/// Decides what the bytes at the front of `chunk` hold.
pub fn next_request(chunk: &[u8]) -> (r: RequestStep)
    ensures
        r == request_step(chunk@),
{
    proof {
        lemma_texts();
    }
    let n = chunk.len();
    if has_prefix(chunk, "GET /ready".as_bytes()) {
        RequestStep::Ready
    } else if has_prefix(chunk, "POST /fraud-score".as_bytes()) {
        match position_of(chunk, "\r\n\r\n".as_bytes()) {
            None => RequestStep::Incomplete,
            Some(body_idx) => {
                proof {
                    lemma_find_from(chunk@, key("\r\n\r\n"), 0);
                }
                let mut cl: usize = 0;
                match position_of(chunk, "Content-Length: ".as_bytes()) {
                    Some(cl_idx) => {
                        proof {
                            lemma_find_from(chunk@, key("Content-Length: "), 0);
                        }
                        let (val, _) = parse_int_fast(chunk, cl_idx + 16);
                        cl = val as usize;
                    },
                    None => {},
                }
                let body_start = body_idx + 4;
                let end = body_start.wrapping_add(cl);
                proof {
                    let md = usize_modulus();
                    if body_start + cl > usize::MAX {
                        vstd::arithmetic::div_mod::lemma_mod_multiples_vanish(-1, body_start + cl, md);
                        vstd::arithmetic::div_mod::lemma_small_mod((body_start + cl - md) as nat, md as nat);
                    } else {
                        vstd::arithmetic::div_mod::lemma_small_mod((body_start + cl) as nat, md as nat);
                    }
                }
                if chunk.len() >= end {
                    if end < body_start {
                        RequestStep::Malformed
                    } else {
                        RequestStep::Score { body_start, body_end: end }
                    }
                } else {
                    RequestStep::Incomplete
                }
            },
        }
    } else {
        RequestStep::NotFound
    }
}

/// Decides what to do with a connection's buffered bytes: the requests to
/// answer in order, and how many bytes they take.
pub fn plan_buffer(buf: &[u8]) -> (r: BufferPlan)
    ensures
        (r.actions@, r.consumed as nat, r.malformed) == plan_from(buf@, 0),
        r.consumed <= buf@.len(),
{
    let n = buf.len();
    let mut actions: Vec<Action> = Vec::new();
    let mut offset: usize = 0;
    while offset < n
        invariant
            n == buf@.len(),
            offset <= n,
            plan_from(buf@, 0) == (
                actions@ + plan_from(buf@, offset as nat).0,
                plan_from(buf@, offset as nat).1,
                plan_from(buf@, offset as nat).2,
            ),
        decreases n - offset,
    {
        let chunk = &buf[offset..n];
        proof {
            lemma_texts();
        }
        match next_request(chunk) {
            RequestStep::Ready => {
                let ghost before = actions@;
                actions.push(Action::Ready);
                assert(actions@ =~= before + seq![Action::Ready]);
                assert(plan_from(buf@, n as nat).0 =~= Seq::<Action>::empty());
                assert(actions@ + plan_from(buf@, n as nat).0 =~= before + plan_from(
                    buf@,
                    offset as nat,
                ).0);
                offset = n;
            },
            RequestStep::NotFound => {
                let ghost before = actions@;
                actions.push(Action::NotFound);
                assert(actions@ =~= before + seq![Action::NotFound]);
                assert(plan_from(buf@, n as nat).0 =~= Seq::<Action>::empty());
                assert(actions@ + plan_from(buf@, n as nat).0 =~= before + plan_from(
                    buf@,
                    offset as nat,
                ).0);
                offset = n;
            },
            RequestStep::Incomplete => {
                assert(actions@ + Seq::<Action>::empty() =~= actions@);
                return BufferPlan { actions, consumed: offset, malformed: false };
            },
            RequestStep::Malformed => {
                assert(actions@ + Seq::<Action>::empty() =~= actions@);
                return BufferPlan { actions, consumed: offset, malformed: true };
            },
            RequestStep::Score { body_start, body_end } => {
                let ghost before = actions@;
                let a = Action::Score { body_start: offset + body_start, body_end: offset + body_end };
                let ghost rest = plan_from(buf@, (offset + body_end) as nat);
                assert(plan_from(buf@, offset as nat).0 == seq![a] + rest.0);
                actions.push(a);
                assert(actions@ + rest.0 =~= before + (seq![a] + rest.0));
                offset = offset + body_end;
            },
        }
    }
    assert(plan_from(buf@, offset as nat).0 =~= Seq::<Action>::empty());
    assert(actions@ + Seq::<Action>::empty() =~= actions@);
    BufferPlan { actions, consumed: offset, malformed: false }
}

/// Drops the first `n` bytes of a connection's buffer, keeping the rest in order.
pub fn discard_prefix(buf: &mut Vec<u8>, n: usize)
    requires
        n <= old(buf)@.len(),
    ensures
        final(buf)@ == old(buf)@.skip(n as int),
{
    if n == 0 {
        assert(buf@.skip(0) =~= buf@);
        return;
    }
    let len = buf.len();
    if n == len {
        buf.clear();
        assert(old(buf)@.skip(n as int) =~= Seq::<u8>::empty());
        return;
    }
    let remaining = len - n;
    let mut i: usize = 0;
    while i < remaining
        invariant
            len == old(buf)@.len(),
            remaining == len - n,
            n <= len,
            i <= remaining,
            buf@.len() == len,
            forall|k: int| 0 <= k < i ==> buf@[k] == old(buf)@[k + n],
            forall|k: int| i <= k < len ==> buf@[k] == old(buf)@[k],
        decreases remaining - i,
    {
        let v = buf[i + n];
        buf.set(i, v);
        i = i + 1;
    }
    buf.truncate(remaining);
    assert(buf@ =~= old(buf)@.skip(n as int));
}

/// Which of the six scoring answers goes with a count of fraudulent nearest
/// neighbours: the count itself from 0 to 5, and 3 for any other count.
/// Answers 0 to 2 approve the transaction; answer `k` reports a fraud score of `k / 5`.
pub fn score_response_index(frauds: i32) -> (r: usize)
    ensures
        0 <= frauds <= 5 ==> r == frauds,
        !(0 <= frauds <= 5) ==> r == 3,
{
    if 0 <= frauds && frauds <= 5 {
        frauds as usize
    } else {
        3
    }
}

} // verus!
