//! The worker side of the protocol: what a worker asks for, and what it
//! makes of the dispatcher's answers. Sending and receiving is left to the caller.
use std::time::Duration;
use vstd::prelude::*;

use crate::http::{http_version, HTTPMethod, HTTPRequest, HTTPResponse, HTTPResponseCode};
use crate::job::{body_parse, uri_of, Job, JobDimension};

verus! {

/// A worker's connection settings and the job it holds, if any.
pub struct Client {
    host: String,
    port: u32,
    pub job: Option<Job>,
    timeout: Duration,
    retries: u64,
}

/// What asking for a job came to.
#[derive(Debug, Clone, Copy, PartialEq, Eq, Structural)]
pub enum GetJobResult {
    JobLoaded,
    NoJobsLeft,
    Error,
}

/// The duration of `secs` whole seconds.
pub uninterp spec fn whole_seconds(secs: u64) -> Duration;

/// Relies on Duration::from_secs: the duration of `secs` whole seconds,
/// the same for the same argument.
#[verifier::external_body]
fn seconds(secs: u64) -> (r: Duration)
    ensures
        r == whole_seconds(secs),
{
    Duration::from_secs(secs)
}

/// The outcome of a job request, from the response received (`None` when
/// the exchange failed): a 200 whose content reads as a job loads that job;
/// a 204 means no job is left; anything else is an error.
pub open spec fn query_outcome(response: Option<HTTPResponse>) -> (
    GetJobResult,
    Option<Seq<JobDimension>>,
) {
    match response {
        None => (GetJobResult::Error, None),
        Some(x) => match x.status {
            HTTPResponseCode::OK => match body_parse(x.content@) {
                Ok(d) => (GetJobResult::JobLoaded, Some(d)),
                Err(_) => (GetJobResult::Error, None),
            },
            HTTPResponseCode::NoContent => (GetJobResult::NoJobsLeft, None),
            _ => (GetJobResult::Error, None),
        },
    }
}

impl Client {
    pub closed spec fn host_name(&self) -> Seq<char> {
        self.host@
    }

    pub closed spec fn port_number(&self) -> u32 {
        self.port
    }

    pub closed spec fn timeout_value(&self) -> Duration {
        self.timeout
    }

    pub closed spec fn retry_count(&self) -> u64 {
        self.retries
    }

    /// The job held, seen through its view.
    pub closed spec fn loaded(&self) -> Option<Seq<JobDimension>> {
        match self.job {
            Some(j) => Some(j@),
            None => None,
        }
    }

    /// A client of the dispatcher at `host:port`, holding no job, with a
    /// connect timeout of 10 seconds and no retry.
    pub fn new(host: String, port: u32) -> (r: Self)
        ensures
            r.host_name() == host@,
            r.port_number() == port,
            r.retry_count() == 0,
            r.timeout_value() == whole_seconds(10),
            r.loaded() is None,
    {
        Client { host, port, job: None, timeout: seconds(10), retries: 0 }
    }

    /// Sets the connect timeout.
    pub fn with_timeout(&mut self, timeout: Duration) -> (r: &mut Self)
        ensures
            r.timeout_value() == timeout,
            r.host_name() == old(self).host_name(),
            r.port_number() == old(self).port_number(),
            r.retry_count() == old(self).retry_count(),
            r.loaded() == old(self).loaded(),
            *final(self) == *final(r),
    {
        self.timeout = timeout;
        self
    }

    /// Sets how many more rounds of connection attempts follow a failed first one.
    pub fn with_retries(&mut self, retries: u64) -> (r: &mut Self)
        ensures
            r.retry_count() == retries,
            r.host_name() == old(self).host_name(),
            r.port_number() == old(self).port_number(),
            r.timeout_value() == old(self).timeout_value(),
            r.loaded() == old(self).loaded(),
            *final(self) == *final(r),
    {
        self.retries = retries;
        self
    }

    pub fn host(&self) -> (r: &String)
        ensures
            r@ == self.host_name(),
    {
        &self.host
    }

    pub fn port(&self) -> (r: u32)
        ensures
            r == self.port_number(),
    {
        self.port
    }

    pub fn timeout(&self) -> (r: Duration)
        ensures
            r == self.timeout_value(),
    {
        self.timeout
    }

    pub fn retries(&self) -> (r: u64)
        ensures
            r == self.retry_count(),
    {
        self.retries
    }

    /// The connection attempt that follows a failed one to address `index`
    /// of `count` in round `round`: the next address of the round, else the
    /// first address of the next round, until `retries + 1` rounds are done.
    pub fn next_attempt(&self, round: u64, index: usize, count: usize) -> (r: Option<(u64, usize)>)
        requires
            index < count,
        ensures
            index + 1 < count ==> r == Some((round, (index + 1) as usize)),
            index + 1 == count && round < self.retry_count() ==> r == Some(((round + 1) as u64, 0usize)),
            index + 1 == count && round >= self.retry_count() ==> r is None,
    {
        if index + 1 < count {
            Some((round, index + 1))
        } else if round < self.retries {
            Some((round + 1, 0))
        } else {
            None
        }
    }

    /// The request that asks the dispatcher for a job: `GET /`.
    pub fn job_request() -> (r: HTTPRequest)
        ensures
            r.method == HTTPMethod::GET,
            r.uri@.len() == 0,
            r.version@ == http_version(),
            r.headers@.len() == 0,
            r.body@.len() == 0,
    {
        HTTPRequest::new(HTTPMethod::GET, String::new())
    }

    /// Takes the answer to a job request (`None` when the exchange failed)
    /// and loads the job it carries, if any; see `query_outcome`.
    pub fn query(&mut self, response: Option<HTTPResponse>) -> (r: GetJobResult)
        ensures
            r == query_outcome(response).0,
            final(self).loaded() == query_outcome(response).1,
            final(self).host_name() == old(self).host_name(),
            final(self).port_number() == old(self).port_number(),
            final(self).timeout_value() == old(self).timeout_value(),
            final(self).retry_count() == old(self).retry_count(),
    {
        self.job = None;
        let response = match response {
            Some(x) => x,
            None => {
                return GetJobResult::Error;
            },
        };
        match response.status {
            HTTPResponseCode::OK => match Job::parse(&response.content) {
                Ok(job) => {
                    self.job = Some(job);
                    GetJobResult::JobLoaded
                },
                Err(_) => GetJobResult::Error,
            },
            HTTPResponseCode::NoContent => GetJobResult::NoJobsLeft,
            _ => GetJobResult::Error,
        }
    }

    /// The report of the job held: `POST /<uri>` with `result` as body. The
    /// client holds no job afterwards.
    pub fn respond(&mut self, result: String) -> (r: HTTPRequest)
        requires
            old(self).loaded() is Some,
        ensures
            r.method == HTTPMethod::POST,
            r.uri@ == uri_of(old(self).loaded()->0),
            r.version@ == http_version(),
            r.headers@.len() == 0,
            r.body@ == result@,
            final(self).loaded() is None,
            final(self).host_name() == old(self).host_name(),
            final(self).port_number() == old(self).port_number(),
            final(self).timeout_value() == old(self).timeout_value(),
            final(self).retry_count() == old(self).retry_count(),
    {
        let uri = match &self.job {
            Some(job) => job.to_uri(),
            None => String::new(),
        };
        let mut request = HTTPRequest::new(HTTPMethod::POST, uri);
        request.body = result;
        self.job = None;
        request
    }
}

} // verus!
