//! Per-connection request handling.
//!
//! A connection carries exactly one exchange: the daemon reads one framed
//! request, applies it to the store, and writes one framed response.  This
//! module holds the step in the middle — from a decoded request (or a raw
//! payload) and the store to the response.  Reading and writing the socket
//! happens outside, one handler per connection, each call into the store
//! made atomic by a lock.

use vstd::prelude::*;

verus! {

use crate::proto::DecodeError;
use crate::proto::Request;
use crate::proto::Response;
use crate::proto::decode_request;
use crate::proto::spec_parse_request;
use crate::store::SelectionStore;
use crate::store::Which;
use crate::store::no_dups;
use crate::store::other;
use crate::store::set_of;

// ---------------------------------------------------------------------------
// Status tokens.
// ---------------------------------------------------------------------------

/// The bytes of the "success" status token.
pub open spec fn status_success() -> Seq<u8> {
    seq![115u8, 117u8, 99u8, 99u8, 101u8, 115u8, 115u8]
}

/// The bytes of the "unknown" status token.
pub open spec fn status_unknown() -> Seq<u8> {
    seq![117u8, 110u8, 107u8, 110u8, 111u8, 119u8, 110u8]
}

/// The bytes of the "error" status token.
pub open spec fn status_error() -> Seq<u8> {
    seq![101u8, 114u8, 114u8, 111u8, 114u8]
}

/// The "success" status token.
pub fn status_success_bytes() -> (r: Vec<u8>)
    ensures
        r@ == status_success(),
{
    let mut r: Vec<u8> = Vec::new();
    r.push(115);
    r.push(117);
    r.push(99);
    r.push(99);
    r.push(101);
    r.push(115);
    r.push(115);
    proof {
        assert(r@ =~= status_success());
    }
    r
}

/// The "unknown" status token.
pub fn status_unknown_bytes() -> (r: Vec<u8>)
    ensures
        r@ == status_unknown(),
{
    let mut r: Vec<u8> = Vec::new();
    r.push(117);
    r.push(110);
    r.push(107);
    r.push(110);
    r.push(111);
    r.push(119);
    r.push(110);
    proof {
        assert(r@ =~= status_unknown());
    }
    r
}

/// The "error" status token.
pub fn status_error_bytes() -> (r: Vec<u8>)
    ensures
        r@ == status_error(),
{
    let mut r: Vec<u8> = Vec::new();
    r.push(101);
    r.push(114);
    r.push(114);
    r.push(111);
    r.push(114);
    proof {
        assert(r@ =~= status_error());
    }
    r
}

// ---------------------------------------------------------------------------
// Dispatch.
// ---------------------------------------------------------------------------

/// What handling one request does, by command ordinal.  `Copy` (0) and
/// `Cut` (1) install the request's path list as the whole contents of the
/// addressed set; `Clear` (2) empties both sets; `GetCopy` (3) and
/// `GetCut` (4) answer with the addressed set and change nothing; any
/// other ordinal changes nothing and is answered "unknown".  Only the two
/// read commands populate the response's path list.
pub open spec fn handler_post(
    pre: SelectionStore,
    post: SelectionStore,
    cmd: i32,
    files: Seq<Seq<u8>>,
    resp: Response,
) -> bool {
    &&& post.wf()
    &&& cmd == 0 ==> {
        &&& post.copied_set() == set_of(files)
        &&& post.cut_set() == pre.cut_set()
        &&& resp.status@ == status_success()
        &&& resp.files@.len() == 0
    }
    &&& cmd == 1 ==> {
        &&& post.cut_set() == set_of(files)
        &&& post.copied_set() == pre.copied_set()
        &&& resp.status@ == status_success()
        &&& resp.files@.len() == 0
    }
    &&& cmd == 2 ==> {
        &&& post.copied_set() == Set::<Seq<u8>>::empty()
        &&& post.cut_set() == Set::<Seq<u8>>::empty()
        &&& resp.status@ == status_success()
        &&& resp.files@.len() == 0
    }
    &&& cmd == 3 ==> {
        &&& post == pre
        &&& resp.status@ == status_success()
        &&& set_of(resp.files.deep_view()) == pre.copied_set()
        &&& no_dups(resp.files.deep_view())
    }
    &&& cmd == 4 ==> {
        &&& post == pre
        &&& resp.status@ == status_success()
        &&& set_of(resp.files.deep_view()) == pre.cut_set()
        &&& no_dups(resp.files.deep_view())
    }
    &&& !(0 <= cmd <= 4) ==> {
        &&& post == pre
        &&& resp.status@ == status_unknown()
        &&& resp.files@.len() == 0
    }
}

/// Applies one decoded request to the store and builds the response.
pub fn handle_request(store: &mut SelectionStore, request: &Request) -> (resp: Response)
    requires
        old(store).wf(),
    ensures
        handler_post(
            *old(store),
            *final(store),
            request.command,
            request.files.deep_view(),
            resp,
        ),
{
    if request.command == 0 {
        store.replace(Which::Copied, &request.files);
        proof {
            assert(other(Which::Copied) == Which::Cut);
        }
        Response { status: status_success_bytes(), files: Vec::new() }
    } else if request.command == 1 {
        store.replace(Which::Cut, &request.files);
        proof {
            assert(other(Which::Cut) == Which::Copied);
        }
        Response { status: status_success_bytes(), files: Vec::new() }
    } else if request.command == 2 {
        store.clear();
        Response { status: status_success_bytes(), files: Vec::new() }
    } else if request.command == 3 {
        let files = store.snapshot(Which::Copied);
        Response { status: status_success_bytes(), files }
    } else if request.command == 4 {
        let files = store.snapshot(Which::Cut);
        Response { status: status_success_bytes(), files }
    } else {
        Response { status: status_unknown_bytes(), files: Vec::new() }
    }
}

/// Handles one raw request payload: decodes it, applies the command, and
/// answers.  A payload that does not parse leaves the store as it was and
/// is answered with the "error" status; a payload that parses is handled
/// as [`handle_request`] says, whatever ordinal it carries.
pub fn handle_payload(store: &mut SelectionStore, payload: &Vec<u8>) -> (resp: Response)
    requires
        old(store).wf(),
    ensures
        match spec_parse_request(payload@) {
            Some((cmd, files)) => handler_post(*old(store), *final(store), cmd, files, resp),
            None => {
                &&& *final(store) == *old(store)
                &&& resp.status@ == status_error()
                &&& resp.files@.len() == 0
            },
        },
{
    let decoded: Result<Request, DecodeError> = decode_request(payload);
    match decoded {
        Ok(req) => handle_request(store, &req),
        Err(e) => Response { status: status_error_bytes(), files: Vec::new() },
    }
}

// ---------------------------------------------------------------------------
// Laws the dispatch obeys.
// ---------------------------------------------------------------------------

/// A list that stands for the empty set is itself empty.
proof fn lemma_empty_set_empty_list(s: Seq<Seq<u8>>)
    requires
        set_of(s) == Set::<Seq<u8>>::empty(),
    ensures
        s.len() == 0,
{
    if s.len() > 0 {
        assert(set_of(s).contains(s[0]));
    }
}

/// Replace, not union: after `Copy{a}` and then `Copy{b}`, a `GetCopy`
/// answers with exactly the set of `b` — nothing of `a` survives unless it
/// also stands in `b`.
pub proof fn lemma_replace_not_union(
    s0: SelectionStore,
    s1: SelectionStore,
    s2: SelectionStore,
    s3: SelectionStore,
    a: Seq<Seq<u8>>,
    b: Seq<Seq<u8>>,
    g: Seq<Seq<u8>>,
    r1: Response,
    r2: Response,
    r3: Response,
)
    requires
        handler_post(s0, s1, 0, a, r1),
        handler_post(s1, s2, 0, b, r2),
        handler_post(s2, s3, 3, g, r3),
    ensures
        r3.status@ == status_success(),
        set_of(r3.files.deep_view()) == set_of(b),
        s3 == s2,
{
}

/// Clearing is idempotent: two `Clear` calls in a row both succeed, and a
/// `GetCopy` or `GetCut` after either one answers with the empty list.
pub proof fn lemma_idempotent_clear(
    s0: SelectionStore,
    s1: SelectionStore,
    s2: SelectionStore,
    s3: SelectionStore,
    s4: SelectionStore,
    f1: Seq<Seq<u8>>,
    f2: Seq<Seq<u8>>,
    g1: Seq<Seq<u8>>,
    g2: Seq<Seq<u8>>,
    r1: Response,
    r2: Response,
    r3: Response,
    r4: Response,
)
    requires
        handler_post(s0, s1, 2, f1, r1),
        handler_post(s1, s2, 2, f2, r2),
        handler_post(s1, s3, 3, g1, r3),
        handler_post(s2, s4, 4, g2, r4),
    ensures
        r1.status@ == status_success(),
        r2.status@ == status_success(),
        r3.status@ == status_success(),
        r3.files.deep_view().len() == 0,
        r4.status@ == status_success(),
        r4.files.deep_view().len() == 0,
{
    lemma_empty_set_empty_list(r3.files.deep_view());
    lemma_empty_set_empty_list(r4.files.deep_view());
}

/// Snapshot consistency: a read that lands on either side of a `Copy`
/// sees exactly the set of that side — the whole old set or the whole new
/// list, never a mixture.  The process serializes the store's operations,
/// so every concurrent read lands on one side of every replace.
pub proof fn lemma_snapshot_consistency(
    pre: SelectionStore,
    post: SelectionStore,
    pre2: SelectionStore,
    post2: SelectionStore,
    b: Seq<Seq<u8>>,
    g1: Seq<Seq<u8>>,
    g2: Seq<Seq<u8>>,
    rw: Response,
    r_before: Response,
    r_after: Response,
)
    requires
        handler_post(pre, post, 0, b, rw),
        handler_post(pre, pre2, 3, g1, r_before),
        handler_post(post, post2, 3, g2, r_after),
    ensures
        set_of(r_before.files.deep_view()) == pre.copied_set(),
        set_of(r_after.files.deep_view()) == set_of(b),
        pre2 == pre,
        post2 == post,
{
}

} // verus!
