use netspatch::client::{Client, GetJobResult};
use netspatch::http::{HTTPMethod, HTTPRequest, HTTPResponse, HTTPResponseCode};
use netspatch::job::JobManager;
use netspatch::server::{handle_request, ServerEvent, ServerPhase};

fn get(uri: &str) -> HTTPRequest {
    HTTPRequest::new(HTTPMethod::GET, uri.to_string())
}

fn post(uri: &str, body: &str) -> HTTPRequest {
    let mut r = HTTPRequest::new(HTTPMethod::POST, uri.to_string());
    r.body = body.to_string();
    r
}

#[test]
fn single_cell_run() {
    let mut m = JobManager::new(&vec![1]).unwrap();
    let d = handle_request(&mut m, &get(""));
    assert_eq!(d.response.status, HTTPResponseCode::OK);
    assert_eq!(d.response.content, "0/1\r\n");
    let d = handle_request(&mut m, &post("0", "done"));
    assert_eq!(d.response.status, HTTPResponseCode::OK);
    assert_eq!(d.record, Some("done".to_string()));
    let d = handle_request(&mut m, &get(""));
    assert_eq!(d.response.status, HTTPResponseCode::NoContent);
    assert_eq!(d.response.as_string(), "HTTP/1.1 204 No Content\r\nContent-Length: 0\r\n\r\n");
    assert!(m.is_finished());
}

#[test]
fn ordered_enumeration() {
    let mut m = JobManager::new(&vec![2, 2]).unwrap();
    let mut uris = Vec::new();
    for _ in 0..4 {
        let d = handle_request(&mut m, &get(""));
        let job = d.job.unwrap();
        uris.push(job.to_uri());
        let done = handle_request(&mut m, &post(&job.to_uri(), "x"));
        assert_eq!(done.response.status, HTTPResponseCode::OK);
    }
    assert_eq!(uris, vec!["0/0", "0/1", "1/0", "1/1"]);
    assert!(m.is_finished());
}

#[test]
fn malformed_post_is_not_found() {
    let mut m = JobManager::new(&vec![2, 2, 2]).unwrap();
    handle_request(&mut m, &get(""));
    let d = handle_request(&mut m, &post("9/9/9", "x"));
    assert_eq!(d.response.status, HTTPResponseCode::NotFound);
    assert!(d.record.is_none());
    assert_eq!(m.jobs_pending().len(), 1);
    assert_eq!(m.jobs_abandonded().len(), 0);
    let d = handle_request(&mut m, &post("", "x"));
    assert_eq!(d.response.status, HTTPResponseCode::NotFound);
    let d = handle_request(&mut m, &post("0/0/1", "x"));
    assert_eq!(d.response.status, HTTPResponseCode::NotFound);
    assert_eq!(m.jobs_pending().len(), 1);
}

#[test]
fn get_of_other_path_is_not_found() {
    let mut m = JobManager::new(&vec![10]).unwrap();
    let d = handle_request(&mut m, &get("server"));
    assert_eq!(d.response.status, HTTPResponseCode::NotFound);
    assert_eq!(m.jobs_pending().len(), 0);
    let d = handle_request(&mut m, &get(""));
    assert_eq!(d.response.content, "0/10\r\n");
}

#[test]
fn server_life_cycle() {
    let p = ServerPhase::Initial.step(ServerEvent::Started);
    assert_eq!(p, ServerPhase::Running);
    assert!(p.watching());
    assert!(!p.shutdown_requested());
    let f = p.step(ServerEvent::Drained);
    assert_eq!(f, ServerPhase::FuseWait);
    let d = f.step(ServerEvent::FuseElapsed);
    assert_eq!(d, ServerPhase::Draining);
    assert!(d.shutdown_requested());
    assert_eq!(d.step(ServerEvent::AcceptReturned), ServerPhase::Stopped);
    assert_eq!(p.step(ServerEvent::StopRequested), ServerPhase::Draining);
    assert_eq!(p.step(ServerEvent::AcceptReturned), ServerPhase::Running);
    assert_eq!(ServerPhase::Initial.step(ServerEvent::StopRequested), ServerPhase::Initial);
}

#[test]
fn client_loads_and_reports_a_job() {
    let mut c = Client::new("localhost".to_string(), 7878);
    assert_eq!(c.timeout(), std::time::Duration::from_secs(10));
    c.with_retries(3).with_timeout(std::time::Duration::from_secs(2));
    assert_eq!(c.retries(), 3);
    assert_eq!(c.timeout(), std::time::Duration::from_secs(2));
    assert_eq!(c.host(), "localhost");
    assert_eq!(c.port(), 7878);
    let req = Client::job_request();
    assert_eq!(req.to_string(), "GET / HTTP/1.1\r\n\r\n\r\n");
    let mut ok = HTTPResponse::new(HTTPResponseCode::OK);
    ok.content = "1/2\r\n2/3\r\n".to_string();
    assert_eq!(c.query(Some(ok)), GetJobResult::JobLoaded);
    assert_eq!(c.job.as_ref().unwrap().to_uri(), "1/2");
    let report = c.respond("result".to_string());
    assert_eq!(report.method, HTTPMethod::POST);
    assert_eq!(report.uri, "1/2");
    assert_eq!(report.body, "result");
    assert!(c.job.is_none());
}

#[test]
fn client_outcomes() {
    let mut c = Client::new("h".to_string(), 1);
    assert_eq!(c.query(None), GetJobResult::Error);
    assert_eq!(c.query(Some(HTTPResponse::new(HTTPResponseCode::NoContent))), GetJobResult::NoJobsLeft);
    assert_eq!(c.query(Some(HTTPResponse::new(HTTPResponseCode::NotFound))), GetJobResult::Error);
    let mut bad = HTTPResponse::new(HTTPResponseCode::OK);
    bad.content = "garbage".to_string();
    assert_eq!(c.query(Some(bad)), GetJobResult::Error);
    assert!(c.job.is_none());
}
