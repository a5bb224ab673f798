//! Commands handed to the consensus layer: a request, the key ranges it
//! touches, and an id for the proposal.
use vstd::prelude::*;

use crate::entries::copy_bytes;
use crate::key_range::KeyRange;
use crate::rpc::{Compare, RequestWrapper};

verus! {

/// A request wrapped for proposal.
#[derive(Debug)]
pub struct Command {
    /// The key ranges the request touches.
    pub key_ranges: Vec<KeyRange>,
    /// The request.
    pub request: RequestWrapper,
    /// Id of the proposal.
    pub propose_id: String,
}

/// Errors of the client.
#[derive(Debug)]
pub enum ClientError {
    /// The transport failed.
    Grpc(String),
    /// The proposal failed.
    Propose(String),
}

/// The key ranges of a transaction's guards, as `(start, end)`.
pub open spec fn compare_ranges(cs: Seq<Compare>) -> Seq<(Seq<u8>, Seq<u8>)> {
    cs.map_values(|c: Compare| (c.key@, c.range_end@))
}

/// The key ranges that a request touches, as `(start, end)`: a range read
/// or delete its range, a put its one key, a transaction the ranges of its
/// guards.
pub open spec fn request_ranges(r: RequestWrapper) -> Seq<(Seq<u8>, Seq<u8>)> {
    match r {
        RequestWrapper::RangeRequest(q) => seq![(q.key@, q.range_end@)],
        RequestWrapper::PutRequest(q) => seq![(q.key@, Seq::<u8>::empty())],
        RequestWrapper::DeleteRangeRequest(q) => seq![(q.key@, q.range_end@)],
        RequestWrapper::TxnRequest(q) => compare_ranges(q.compare@),
        RequestWrapper::CompactionRequest(_) => Seq::empty(),
    }
}

/// The ranges of `v` as `(start, end)`.
pub open spec fn ranges_view(v: Seq<KeyRange>) -> Seq<(Seq<u8>, Seq<u8>)> {
    v.map_values(|k: KeyRange| (k.start@, k.end@))
}

/// Relies on `uuid::Uuid::new_v4` and its `Display`, which writes the
/// hyphenated form: 36 characters.
#[verifier::external_body]
fn random_uuid() -> (r: String)
    ensures
        r@.len() == 36,
{
    uuid::Uuid::new_v4().to_string()
}

/// One range of `(start, end)`, copied.
fn range_of(start: &Vec<u8>, end: &Vec<u8>) -> (r: KeyRange)
    ensures
        r.start@ == start@,
        r.end@ == end@,
{
    KeyRange { start: copy_bytes(start), end: copy_bytes(end) }
}

/// The key ranges that `request` touches; only reads, puts, deletes and
/// transactions are proposed.
pub fn key_ranges_of(request: &RequestWrapper) -> (r: Vec<KeyRange>)
    requires
        !(request is CompactionRequest),
    ensures
        ranges_view(r@) == request_ranges(*request),
{
    let mut out: Vec<KeyRange> = Vec::new();
    match request {
        RequestWrapper::RangeRequest(q) => {
            out.push(range_of(&q.key, &q.range_end));
            assert(ranges_view(out@) =~= request_ranges(*request));
        },
        RequestWrapper::PutRequest(q) => {
            out.push(range_of(&q.key, &Vec::new()));
            assert(ranges_view(out@) =~= request_ranges(*request));
        },
        RequestWrapper::DeleteRangeRequest(q) => {
            out.push(range_of(&q.key, &q.range_end));
            assert(ranges_view(out@) =~= request_ranges(*request));
        },
        RequestWrapper::TxnRequest(q) => {
            let ghost cs = compare_ranges(q.compare@);
            let mut i: usize = 0;
            while i < q.compare.len()
                invariant
                    i <= q.compare@.len(),
                    cs == compare_ranges(q.compare@),
                    ranges_view(out@) == cs.subrange(0, i as int),
                decreases q.compare@.len() - i,
            {
                let ghost prev = ranges_view(out@);
                out.push(range_of(&q.compare[i].key, &q.compare[i].range_end));
                assert(ranges_view(out@) =~= prev.push(cs[i as int]));
                assert(cs.subrange(0, i + 1) =~= cs.subrange(0, i as int).push(cs[i as int]));
                i = i + 1;
            }
            assert(cs.subrange(0, i as int) =~= cs);
        },
        RequestWrapper::CompactionRequest(_) => {},
    }
    out
}

/// Wraps `wrapper` for proposal under a fresh id: `client-` and a random
/// UUID.
pub fn command_from_request_wrapper(wrapper: RequestWrapper) -> (r: Command)
    requires
        !(wrapper is CompactionRequest),
    ensures
        ranges_view(r.key_ranges@) == request_ranges(wrapper),
        r.request == wrapper,
        r.propose_id@.len() == 43,
        r.propose_id@.subrange(0, 7) == "client-"@,
{
    let key_ranges = key_ranges_of(&wrapper);
    let mut propose_id = String::from_str("client-");
    let id = random_uuid();
    propose_id.append(id.as_str());
    proof {
        reveal_strlit("client-");
        assert(propose_id@.subrange(0, 7) =~= "client-"@);
    }
    Command { key_ranges, request: wrapper, propose_id }
}

} // verus!
