//! The dispatcher's decisions: what to answer to one request against the
//! job manager, and the life cycle of the server. Accepting connections,
//! threads and timers are left to the caller.
use std::time::SystemTime;
use vstd::prelude::*;

use crate::http::{http_version, HTTPMethod, HTTPRequest, HTTPResponse, HTTPResponseCode};
use crate::job::{body_of, complete_post, pop_post, Error, Job, JobManager};

verus! {

/// The answer to one request: the response to send, the line to write to
/// standard output (the body of an accepted completion), and the job handed
/// out or completed.
pub struct Dispatch {
    pub response: HTTPResponse,
    pub record: Option<String>,
    pub job: Option<Job>,
}

/// Serves one request against the manager.
/// - `GET /` hands out the next job: 200 with the job's body encoding, or
///   204 with no content when nothing is left.
/// - `GET` of any other path is 404 and leaves the manager alone.
/// - `POST /<uri>` completes the job the URI names: 200, with the request
///   body to record; 404 when the URI is malformed or names no pending or
///   abandoned job, with the manager unchanged.
pub fn handle_request(manager: &mut JobManager, request: &HTTPRequest) -> (r: Dispatch)
    requires
        old(manager).wf(),
    ensures
        final(manager).wf(),
        r.response.version@ == http_version(),
        r.response.headers@.len() == 0,
        request.method == HTTPMethod::GET && request.uri@.len() > 0 ==> {
            &&& r.response.status == HTTPResponseCode::NotFound
            &&& r.response.content@.len() == 0
            &&& r.record is None
            &&& r.job is None
            &&& *final(manager) == *old(manager)
        },
        request.method == HTTPMethod::GET && request.uri@.len() == 0 ==> {
            &&& exists|at: SystemTime| pop_post(*old(manager), *final(manager), r.job, at)
            &&& r.record is None
            &&& r.job matches Some(j) ==> r.response.status == HTTPResponseCode::OK
                && r.response.content@ == body_of(j@)
            &&& r.job is None ==> r.response.status == HTTPResponseCode::NoContent
                && r.response.content@.len() == 0
        },
        request.method == HTTPMethod::POST ==> {
            &&& r.response.content@.len() == 0
            &&& r.job matches Some(j) ==> complete_post(
                *old(manager),
                *final(manager),
                request.uri@,
                Ok::<Job, Error>(j),
            ) && r.response.status == HTTPResponseCode::OK && (r.record matches Some(b) && b@
                == request.body@)
            &&& r.job is None ==> (exists|e: Error|
                complete_post(*old(manager), *final(manager), request.uri@, Err::<Job, Error>(e)))
                && r.response.status == HTTPResponseCode::NotFound && r.record is None
        },
{
    match request.method {
        HTTPMethod::GET => {
            if request.uri.as_str().unicode_len() > 0 {
                return Dispatch {
                    response: HTTPResponse::new(HTTPResponseCode::NotFound),
                    record: None,
                    job: None,
                };
            }
            match manager.pop() {
                Some(job) => {
                    let mut response = HTTPResponse::new(HTTPResponseCode::OK);
                    response.content = job.to_string();
                    Dispatch { response, record: None, job: Some(job) }
                },
                None => Dispatch {
                    response: HTTPResponse::new(HTTPResponseCode::NoContent),
                    record: None,
                    job: None,
                },
            }
        },
        HTTPMethod::POST => {
            let uri = request.uri.clone();
            match manager.complete(uri) {
                Ok(job) => Dispatch {
                    response: HTTPResponse::new(HTTPResponseCode::OK),
                    record: Some(request.body.clone()),
                    job: Some(job),
                },
                Err(_) => Dispatch {
                    response: HTTPResponse::new(HTTPResponseCode::NotFound),
                    record: None,
                    job: None,
                },
            }
        },
    }
}

/// The phases of a dispatch server.
#[derive(Debug, Clone, Copy, PartialEq, Eq, Structural)]
pub enum ServerPhase {
    Initial,
    Running,
    FuseWait,
    Draining,
    Stopped,
}

/// What moves a server between phases.
#[derive(Debug, Clone, Copy, PartialEq, Eq, Structural)]
pub enum ServerEvent {
    /// The listener is accepting.
    Started,
    /// `stop` was called.
    StopRequested,
    /// The watchdog found the manager finished.
    Drained,
    /// The fuse after the drain has burnt down.
    FuseElapsed,
    /// The accept loop finished a connection.
    AcceptReturned,
}

/// The server's life cycle: started, it runs; a drained manager lights the
/// fuse, whose end stops the server as `stop` does; a stopping server ends
/// after the connection in hand. Any other event leaves the phase as it is.
pub open spec fn next_phase(p: ServerPhase, e: ServerEvent) -> ServerPhase {
    match (p, e) {
        (ServerPhase::Initial, ServerEvent::Started) => ServerPhase::Running,
        (ServerPhase::Running, ServerEvent::StopRequested) => ServerPhase::Draining,
        (ServerPhase::FuseWait, ServerEvent::StopRequested) => ServerPhase::Draining,
        (ServerPhase::Running, ServerEvent::Drained) => ServerPhase::FuseWait,
        (ServerPhase::FuseWait, ServerEvent::FuseElapsed) => ServerPhase::Draining,
        (ServerPhase::Draining, ServerEvent::AcceptReturned) => ServerPhase::Stopped,
        _ => p,
    }
}

impl ServerPhase {
    /// The phase after `e`; see `next_phase`.
    pub fn step(self, e: ServerEvent) -> (r: ServerPhase)
        ensures
            r == next_phase(self, e),
    {
        match (self, e) {
            (ServerPhase::Initial, ServerEvent::Started) => ServerPhase::Running,
            (ServerPhase::Running, ServerEvent::StopRequested) => ServerPhase::Draining,
            (ServerPhase::FuseWait, ServerEvent::StopRequested) => ServerPhase::Draining,
            (ServerPhase::Running, ServerEvent::Drained) => ServerPhase::FuseWait,
            (ServerPhase::FuseWait, ServerEvent::FuseElapsed) => ServerPhase::Draining,
            (ServerPhase::Draining, ServerEvent::AcceptReturned) => ServerPhase::Stopped,
            _ => self,
        }
    }

    /// The shutdown flag: a stop has been asked for, by a caller or by the fuse.
    pub fn shutdown_requested(&self) -> (r: bool)
        ensures
            r == (self == ServerPhase::Draining || self == ServerPhase::Stopped),
    {
        match self {
            ServerPhase::Draining | ServerPhase::Stopped => true,
            _ => false,
        }
    }

    /// The watchdog still has to watch the manager.
    pub fn watching(&self) -> (r: bool)
        ensures
            r == (self == ServerPhase::Running),
    {
        match self {
            ServerPhase::Running => true,
            _ => false,
        }
    }
}

} // verus!
