//! Requests of the primality service and the answers they are owed.

use vstd::prelude::*;
use crate::prime_time_server::primality::{
    denotes, divides, is_prime, lemma_number_is_prime_meaning, number_is_prime, JsonNumber,
};

verus! {

/// The single byte sent as the malformed response before disconnecting.
pub const MALFORMED_RESPONSE: u8 = 0;

/// A request line that parsed as JSON with a string `method` and a numeric
/// `number`. Whether the method is the supported one is checked later.
pub struct Request<'a> {
    /// The requested method; only `"isPrime"` is supported.
    pub method: &'a str,
    /// The number to test.
    pub number: JsonNumber,
}

/// The method name that the service answers.
pub open spec fn is_prime_method(method: Seq<char>) -> bool {
    method == "isPrime"@
}

/// A JSON whitespace byte: space, tab, line feed or carriage return.
pub open spec fn is_json_space(b: u8) -> bool {
    b == 0x20 || b == 0x09 || b == 0x0a || b == 0x0d
}

/// The first byte of `line` that is not JSON whitespace opens an object
/// (`{`): the only form a request may take. Any other well-formed JSON text
/// (an array, a string, a number, ...) is not a request.
pub open spec fn opens_object(line: Seq<u8>) -> bool {
    exists|i: int|
        0 <= i < line.len() && line[i] == 0x7b && forall|k: int|
            0 <= k < i ==> is_json_space(#[trigger] line[k])
}

/// Tells whether a request line has the shape of a JSON object: after any
/// leading whitespace, its first byte is `{`. A line that fails this test
/// is malformed whatever a parser would make of it.
pub fn is_object_text(line: &[u8]) -> (object: bool)
    ensures
        object == opens_object(line@),
{
    let mut i: usize = 0;
    while i < line.len() && (line[i] == 0x20 || line[i] == 0x09 || line[i] == 0x0a || line[i]
        == 0x0d)
        invariant
            0 <= i <= line@.len(),
            forall|k: int| 0 <= k < i ==> is_json_space(#[trigger] line@[k]),
        decreases line@.len() - i,
    {
        i = i + 1;
    }
    if i < line.len() && line[i] == 0x7b {
        assert(line@[i as int] == 0x7b);
        true
    } else {
        assert forall|j: int|
            0 <= j < line@.len() && line@[j] == 0x7b implies !(forall|k: int|
                0 <= k < j ==> is_json_space(#[trigger] line@[k])) by {
            if j > i {
                assert(!is_json_space(line@[i as int]));
            }
        }
        false
    }
}

/// Compares two strings by their UTF-8 bytes.
pub fn str_eq(a: &str, b: &str) -> (same: bool)
    ensures
        same == (a@ == b@),
{
    let ab: &[u8] = a.as_bytes();
    let bb: &[u8] = b.as_bytes();
    proof {
        vstd::utf8::encode_utf8_decode_utf8(a@);
        vstd::utf8::encode_utf8_decode_utf8(b@);
    }
    if ab.len() != bb.len() {
        assert(ab@ != bb@);
        return false;
    }
    let n = ab.len();
    let mut i: usize = 0;
    while i < n
        invariant
            n == ab@.len(),
            n == bb@.len(),
            ab@ == vstd::utf8::encode_utf8(a@),
            bb@ == vstd::utf8::encode_utf8(b@),
            0 <= i <= n,
            forall|k: int| 0 <= k < i ==> #[trigger] ab@[k] == bb@[k],
        decreases n - i,
    {
        if ab[i] != bb[i] {
            assert(ab@[i as int] != bb@[i as int]);
            assert(ab@ != bb@);
            return false;
        }
        i = i + 1;
    }
    assert(ab@ =~= bb@);
    true
}

/// Answers one request: `None` when its method is not `"isPrime"` (a
/// malformed request), else whether its number is prime.
pub fn is_prime_request(request: &Request) -> (verdict: Option<bool>)
    ensures
        verdict is Some <==> request.method@ == "isPrime"@,
        verdict matches Some(p) ==> forall|v: int|
            denotes(request.number, v) ==> (p <==> v > 1 && forall|d: int|
                2 <= d < v ==> !#[trigger] divides(d, v)),
        request.number is Float && verdict is Some ==> verdict == Some(false),
        verdict == (if is_prime_method(request.method@) {
            Some(number_is_prime(request.number))
        } else {
            None
        }),
{
    if str_eq(request.method, "isPrime") {
        proof {
            lemma_number_is_prime_meaning(request.number);
        }
        Some(is_prime(&request.number))
    } else {
        None
    }
}

/// What the service owes a sequence of parsed request lines (`None` for a
/// line that is not a request): the answers to the well-formed requests at
/// the front, in order, and whether they stop at a malformed line (a line
/// that is not a request, or a request with another method than
/// `"isPrime"`), after which only a malformed response is owed.
pub open spec fn reply_of<'a>(parsed: Seq<Option<Request<'a>>>) -> (Seq<bool>, bool)
    decreases parsed.len(),
{
    if parsed.len() == 0 {
        (Seq::empty(), false)
    } else {
        match parsed[0] {
            Some(r) => if is_prime_method(r.method@) {
                let rest = reply_of(parsed.drop_first());
                (seq![number_is_prime(r.number)] + rest.0, rest.1)
            } else {
                (Seq::empty(), true)
            },
            None => (Seq::empty(), true),
        }
    }
}

/// Replies compose: the reply to two runs of lines, one after the other, is
/// the reply to the first when it ends malformed (the session is over), and
/// otherwise the answers to the first followed by the reply to the second.
pub proof fn lemma_reply_concat<'a>(p1: Seq<Option<Request<'a>>>, p2: Seq<Option<Request<'a>>>)
    ensures
        reply_of(p1 + p2) == (if reply_of(p1).1 {
            reply_of(p1)
        } else {
            (reply_of(p1).0 + reply_of(p2).0, reply_of(p2).1)
        }),
    decreases p1.len(),
{
    if p1.len() == 0 {
        assert(p1 + p2 =~= p2);
        assert(Seq::<bool>::empty() + reply_of(p2).0 =~= reply_of(p2).0);
    } else {
        assert((p1 + p2)[0] == p1[0]);
        assert((p1 + p2).drop_first() =~= p1.drop_first() + p2);
        lemma_reply_concat(p1.drop_first(), p2);
        match p1[0] {
            Some(r) => {
                if is_prime_method(r.method@) {
                    let x = seq![number_is_prime(r.number)];
                    assert(x + reply_of(p1.drop_first()).0 + reply_of(p2).0 =~= x + (reply_of(
                        p1.drop_first(),
                    ).0 + reply_of(p2).0));
                }
            },
            None => {},
        }
    }
}

/// What the service sends over a session whose chunks parse to `chunks`,
/// chunk after chunk: each chunk's reply in turn, until one ends malformed,
/// which closes the session.
pub open spec fn session_reply<'a>(chunks: Seq<Seq<Option<Request<'a>>>>) -> (Seq<bool>, bool)
    decreases chunks.len(),
{
    if chunks.len() == 0 {
        (Seq::empty(), false)
    } else {
        let first = reply_of(chunks[0]);
        if first.1 {
            first
        } else {
            let rest = session_reply(chunks.drop_first());
            (first.0 + rest.0, rest.1)
        }
    }
}

/// However the request lines of a session are cut into chunks, replying
/// chunk by chunk sends exactly the reply owed to all its lines at once:
/// every request up to the first malformed line is answered, in order, and
/// the first malformed line ends the session with one malformed response.
pub proof fn lemma_session_reply<'a>(chunks: Seq<Seq<Option<Request<'a>>>>)
    ensures
        session_reply(chunks) == reply_of(chunks.flatten()),
    decreases chunks.len(),
{
    if chunks.len() > 0 {
        lemma_session_reply(chunks.drop_first());
        lemma_reply_concat(chunks[0], chunks.drop_first().flatten());
        assert(chunks.flatten() == chunks[0] + chunks.drop_first().flatten());
    }
}

/// What the service sends for one chunk of request lines.
pub struct ChunkReply {
    /// One answer per request, in order: whether its number is prime.
    pub answers: Vec<bool>,
    /// After the answers, a malformed response is due and the connection
    /// is to be closed.
    pub malformed: bool,
}

/// Decides the reply to one chunk from the parse results of its lines
/// (`None` for a line that is not a request): the requests are answered in
/// order until the first line that is not a request or has another method
/// than `"isPrime"`, which makes the chunk malformed.
#[verifier::loop_isolation(false)]
pub fn answer_requests(parsed: &Vec<Option<Request>>) -> (reply: ChunkReply)
    ensures
        reply.answers@ == reply_of(parsed@).0,
        reply.malformed == reply_of(parsed@).1,
        reply.answers@.len() <= parsed@.len(),
        !reply.malformed ==> reply.answers@.len() == parsed@.len(),
        reply.malformed ==> parsed@[reply.answers@.len() as int] is None
            || parsed@[reply.answers@.len() as int]->0.method@ != "isPrime"@,
        forall|k: int|
            0 <= k < reply.answers@.len() ==> {
                &&& parsed@[k] is Some
                &&& parsed@[k]->0.method@ == "isPrime"@
                &&& forall|v: int|
                    denotes(parsed@[k]->0.number, v) ==> (#[trigger] reply.answers@[k] <==> v > 1
                        && forall|d: int| 2 <= d < v ==> !#[trigger] divides(d, v))
                &&& parsed@[k]->0.number is Float ==> !reply.answers@[k]
            },
{
    proof {
        lemma_reply_stops(parsed@);
        assert forall|k: int| #![trigger parsed@[k]] 0 <= k < reply_of(parsed@).0.len() implies {
            &&& parsed@[k] is Some
            &&& parsed@[k]->0.method@ == "isPrime"@
            &&& forall|v: int|
                denotes(parsed@[k]->0.number, v) ==> (#[trigger] reply_of(parsed@).0[k] <==> v > 1
                    && forall|d: int| 2 <= d < v ==> !#[trigger] divides(d, v))
            &&& parsed@[k]->0.number is Float ==> !reply_of(parsed@).0[k]
        } by {
            lemma_reply_answers(parsed@, k);
        }
    }
    let mut answers: Vec<bool> = Vec::new();
    let mut i: usize = 0;
    while i < parsed.len()
        invariant
            0 <= i <= parsed@.len(),
            answers@ == reply_of(parsed@.subrange(0, i as int)).0,
            !reply_of(parsed@.subrange(0, i as int)).1,
        decreases parsed@.len() - i,
    {
        let ghost prefix = parsed@.subrange(0, i as int);
        let ghost one = parsed@.subrange(i as int, i + 1);
        proof {
            assert(parsed@.subrange(0, i + 1) =~= prefix + one);
            lemma_reply_concat(prefix, one);
            assert(one[0] == parsed@[i as int]);
            assert(one.drop_first() =~= Seq::<Option<Request>>::empty());
            assert(reply_of(one.drop_first()) == (Seq::<bool>::empty(), false));
            assert(parsed@ =~= parsed@.subrange(0, i + 1) + parsed@.subrange(i + 1, parsed@.len() as int));
            lemma_reply_concat(parsed@.subrange(0, i + 1), parsed@.subrange(i + 1, parsed@.len() as int));
        }
        match &parsed[i] {
            Some(req) => {
                match is_prime_request(req) {
                    Some(prime) => {
                        answers.push(prime);
                        assert(seq![prime] + Seq::<bool>::empty() =~= seq![prime]);
                        assert(reply_of(one) == (seq![prime], false));
                    },
                    None => {
                        assert(reply_of(one).0 =~= Seq::<bool>::empty());
                        assert(answers@ + Seq::<bool>::empty() =~= answers@);
                        return ChunkReply { answers, malformed: true };
                    },
                }
            },
            None => {
                assert(answers@ + Seq::<bool>::empty() =~= answers@);
                return ChunkReply { answers, malformed: true };
            },
        }
        i = i + 1;
    }
    assert(parsed@.subrange(0, parsed@.len() as int) =~= parsed@);
    ChunkReply { answers, malformed: false }
}

/// Only the exact method name is answered: a method is the supported one
/// exactly when it is the seven characters `isPrime`, so a longer, shorter
/// or differently cased name is malformed.
pub proof fn lemma_method_exact(method: Seq<char>)
    ensures
        is_prime_method(method) <==> method == seq!['i', 's', 'P', 'r', 'i', 'm', 'e'],
        is_prime_method(method) ==> method.len() == 7,
{
    reveal_strlit("isPrime");
    assert("isPrime"@ =~= seq!['i', 's', 'P', 'r', 'i', 'm', 'e']);
}

/// Each answer of a reply belongs to the line at its position, which is a
/// request with the exact method `isPrime`, and says whether the number of
/// that request, as it stands (sign included), is an integer greater than
/// one with no divisor strictly between one and itself. In particular a
/// negative number, 0, 1 or a non-integer is answered false.
pub proof fn lemma_reply_answers<'a>(parsed: Seq<Option<Request<'a>>>, k: int)
    requires
        0 <= k < reply_of(parsed).0.len(),
    ensures
        parsed[k] is Some,
        parsed[k]->0.method@ == "isPrime"@,
        forall|v: int|
            denotes(parsed[k]->0.number, v) ==> (reply_of(parsed).0[k] <==> v > 1 && forall|d: int|
                2 <= d < v ==> !#[trigger] divides(d, v)),
        parsed[k]->0.number is Float ==> !reply_of(parsed).0[k],
    decreases k,
{
    lemma_reply_stops(parsed);
    assert(parsed.len() > 0);
    match parsed[0] {
        Some(r) => {
            if is_prime_method(r.method@) {
                let rest = reply_of(parsed.drop_first());
                assert(reply_of(parsed).0 == seq![number_is_prime(r.number)] + rest.0);
                if k > 0 {
                    assert(reply_of(parsed).0[k] == rest.0[k - 1]);
                    assert(parsed[k] == parsed.drop_first()[k - 1]);
                    lemma_reply_answers(parsed.drop_first(), k - 1);
                } else {
                    assert(reply_of(parsed).0[0] == number_is_prime(r.number));
                    lemma_number_is_prime_meaning(r.number);
                }
            }
        },
        None => {},
    }
}

/// A reply answers every line in turn until it meets a malformed line: if
/// it is not malformed it answers all lines; if it is, the line right after
/// its answers is either not a request or a request with another method
/// than exactly `isPrime`.
pub proof fn lemma_reply_stops<'a>(parsed: Seq<Option<Request<'a>>>)
    ensures
        reply_of(parsed).0.len() <= parsed.len(),
        !reply_of(parsed).1 ==> reply_of(parsed).0.len() == parsed.len(),
        reply_of(parsed).1 ==> reply_of(parsed).0.len() < parsed.len() && (parsed[reply_of(
            parsed,
        ).0.len() as int] is None || parsed[reply_of(parsed).0.len() as int]->0.method@
            != "isPrime"@),
    decreases parsed.len(),
{
    if parsed.len() > 0 {
        lemma_reply_stops(parsed.drop_first());
    }
}

} // verus!
