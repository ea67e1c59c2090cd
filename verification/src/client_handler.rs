use vstd::prelude::*;

use crate::handler::{Frame, ReceiveStep, Reply, Response};

verus! {

/// The answer that the acknowledging handler gives every request: an empty
/// success for `request_id`.
pub fn acknowledge(request_id: i32) -> (r: Response)
    ensures
        r.request_id == Some(request_id),
        r.code == 200,
        r.payload is Nil,
        r.response.is_none(),
        r.warnings@.len() == 0,
{
    Response { request_id: Some(request_id), code: 200, payload: Reply::Nil, response: None, warnings: Vec::new() }
}

/// What to do with `frame` while waiting for the next message: binary frames
/// are messages, a reset ends the connection, and every other frame, a close
/// among them, is passed over.
pub fn receive_step(frame: Frame) -> (r: ReceiveStep)
    ensures
        match frame {
            Frame::Binary(bytes) => r == ReceiveStep::Deliver(bytes),
            Frame::Ping | Frame::Other | Frame::Close => r is Skip,
            Frame::ResetWithoutClosingHandshake => r is End,
            Frame::Error => r is Fail,
        },
{
    match frame {
        Frame::Binary(bytes) => ReceiveStep::Deliver(bytes),
        Frame::Ping => ReceiveStep::Skip,
        Frame::Close => ReceiveStep::Skip,
        Frame::Other => ReceiveStep::Skip,
        Frame::ResetWithoutClosingHandshake => ReceiveStep::End,
        Frame::Error => ReceiveStep::Fail,
    }
}

} // verus!
