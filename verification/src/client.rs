//! Client-side helpers.
//!
//! The UI process keeps a local cache of the two selection sets and talks
//! to the daemon one blocking call at a time: open a connection, write one
//! framed request, read one framed response, close.  The socket work
//! happens outside; building the request bytes and judging the reply
//! happen here.  Any reply whose status is not "success", like any reply
//! that does not parse, surfaces as one failed synchronization.

use vstd::prelude::*;

verus! {

use crate::framing::EncodeError;
use crate::framing::frame_payload;
use crate::framing::spec_frame;
use crate::handler::status_success;
use crate::handler::status_success_bytes;
use crate::proto::Command;
use crate::proto::Request;
use crate::proto::Response;
use crate::proto::decode_response;
use crate::proto::serialize_request;
use crate::proto::spec_encode_request;
use crate::proto::spec_parse_response;
use crate::store::bytes_eq;

/// Why a client call failed.
#[derive(Clone, Copy, PartialEq, Eq, Structural, Debug)]
pub enum SyncError {
    /// The reply payload did not parse as a response.
    Decode,
    /// The daemon answered with a status other than "success".
    Failed,
}

/// A request for the given command, carrying the given paths.
pub fn new_request(command: Command, files: Vec<Vec<u8>>) -> (r: Request)
    ensures
        r.command == command.spec_ordinal(),
        r.files == files,
{
    Request { command: command.ordinal(), files }
}

/// The framed bytes of a request, ready to write to a connection.  Fails
/// exactly when the payload outgrows the four-byte length prefix.
pub fn encode_request_frame(request: &Request) -> (r: Result<Vec<u8>, EncodeError>)
    ensures
        ({
            let payload = spec_encode_request(request.command, request.files.deep_view());
            &&& r is Ok <==> payload.len() <= u32::MAX
            &&& r matches Ok(out) ==> out@ == spec_frame(payload)
        }),
{
    let payload = serialize_request(request);
    frame_payload(&payload)
}

/// Reads a reply payload and hands out the path list it carries.  Fails
/// with [`SyncError::Decode`] when the payload does not parse, and with
/// [`SyncError::Failed`] when the daemon did not answer "success"; the
/// paths come through exactly as sent otherwise.
pub fn parse_reply_files(payload: &Vec<u8>) -> (r: Result<Vec<Vec<u8>>, SyncError>)
    ensures
        match spec_parse_response(payload@) {
            None => r == Err::<Vec<Vec<u8>>, SyncError>(SyncError::Decode),
            Some((st, files)) => {
                if st == status_success() {
                    r matches Ok(fs) && fs.deep_view() == files
                } else {
                    r == Err::<Vec<Vec<u8>>, SyncError>(SyncError::Failed)
                }
            },
        },
{
    let decoded: Result<Response, crate::proto::DecodeError> = decode_response(payload);
    match decoded {
        Err(e) => Err(SyncError::Decode),
        Ok(resp) => {
            let token = status_success_bytes();
            let ok = bytes_eq(&resp.status, &token);
            if ok {
                Ok(resp.files)
            } else {
                Err(SyncError::Failed)
            }
        },
    }
}

} // verus!
