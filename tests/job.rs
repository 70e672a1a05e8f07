use netspatch::job::{Error, Job, JobDimension, JobManager, JobStack};

#[test]
fn test_job_dimension_iterator() {
    let mut mirror = 0;
    let mut job = JobDimension::new(10).unwrap();
    while let Some(index) = job.next() {
        assert_eq!(mirror, index);
        mirror += 1;
    }
    assert_eq!(mirror, 10);
}

fn float_bounds(d: &JobDimension) -> (f64, f64, f64) {
    let ((ln, ld), (un, ud)) = d.bounds_fraction();
    let lower = ln as f64 / ld as f64;
    let upper = un as f64 / ud as f64;
    (lower, upper, (lower + upper) / 2.0)
}

#[test]
fn test_job_dimension_bounds() {
    let mut test = JobDimension::new(2).unwrap();
    {
        let (lower, upper, fraction) = float_bounds(&test);
        assert_eq!(lower, 0.0);
        assert_eq!(upper, 0.5);
        assert_eq!(fraction, 0.25);
    }
    test.next();
    {
        let (lower, upper, fraction) = float_bounds(&test);
        assert_eq!(lower, 0.5);
        assert_eq!(upper, 1.0);
        assert_eq!(fraction, 0.75);
    }
}

#[test]
fn last_upper_bound_is_exactly_one() {
    let mut d = JobDimension::new(3).unwrap();
    assert_eq!(d.bounds_fraction(), ((0, 3), (1, 3)));
    d.next();
    d.next();
    assert_eq!(d.bounds_fraction(), ((2, 3), (1, 1)));
}

#[test]
fn test_job_uri() {
    let mut stack = JobStack::new(&vec![2, 3, 4]).unwrap();
    assert_eq!(stack.order(), 3);
    for i in 0..2 {
        for j in 0..3 {
            for k in 0..4 {
                assert!(!stack.is_empty());
                let job = stack.next().unwrap();
                assert_eq!(job.to_uri(), format!("{i}/{j}/{k}"));
            }
        }
    }
    assert!(stack.is_empty());
}

#[test]
fn test_from_uri() {
    let dimensions = vec![2, 3, 4];
    let manager = JobManager::new(&dimensions).unwrap();
    let test = manager.from_uri("0/1/2".to_string()).unwrap();
    let actual = Job::new(&vec![0, 1, 2], &dimensions).unwrap();
    assert!(test.eq(&actual));
}

#[test]
fn test_complete() {
    let dimensions = vec![2, 3, 4];
    let mut manager = JobManager::new(&dimensions).unwrap();
    assert_eq!(manager.jobs_pending().len(), 0);
    {
        let job = manager.pop().unwrap();
        assert_eq!(manager.jobs_pending().len(), 1);
        assert_eq!(manager.jobs_abandonded().len(), 0);
        let echo = manager.complete(job.to_uri()).unwrap();
        assert!(echo.eq(&job));
        assert_eq!(manager.jobs_pending().len(), 0);
        assert_eq!(manager.jobs_abandonded().len(), 0);
    }

    {
        let job = manager.pop().unwrap();
        assert_eq!(manager.jobs_pending().len(), 1);
        assert_eq!(manager.jobs_abandonded().len(), 0);
        manager.abandon(&job);
        assert_eq!(manager.jobs_pending().len(), 0);
        assert_eq!(manager.jobs_abandonded().len(), 1);
        let echo = manager.complete(job.to_uri()).unwrap();
        assert!(echo.eq(&job));
        assert_eq!(manager.jobs_pending().len(), 0);
        assert_eq!(manager.jobs_abandonded().len(), 0);
    }
}

#[test]
fn dimension_text_and_reset() {
    let mut d = JobDimension::new(7).unwrap();
    assert_eq!(d.to_string(), "0/7");
    assert!(d.has_job());
    for _ in 0..7 {
        d.next();
    }
    assert!(d.is_finished());
    assert_eq!(d.next(), None);
    assert_eq!(d.to_string(), "7/7");
    d.reset();
    assert_eq!(d.index, 0);
    assert_eq!(d.span, 7);
}

#[test]
fn zero_span_is_rejected() {
    assert!(matches!(JobDimension::new(0), Err(Error::ZeroSizedDimension)));
    assert!(matches!(JobStack::new(&vec![2, 0]), Err(Error::ZeroSizedDimension)));
    assert!(matches!(JobStack::new(&vec![]), Err(Error::ZeroSizedDimension)));
    assert!(matches!(JobManager::new(&vec![0]), Err(Error::ZeroSizedDimension)));
}

#[test]
fn job_new_errors() {
    assert!(matches!(Job::new(&vec![0, 1], &vec![2]), Err(Error::DimensionMismatch)));
    assert!(matches!(Job::new(&vec![2], &vec![2]), Err(Error::OutOfBounds)));
    let j = Job::new(&vec![1, 0], &vec![2, 5]).unwrap();
    assert_eq!(j.order(), 2);
    assert_eq!(j.dimensions(), vec![2, 5]);
}

#[test]
fn first_thirteen_cells_in_row_major_order() {
    let mut stack = JobStack::new(&vec![2, 3, 4]).unwrap();
    let expected = [
        "0/0/0", "0/0/1", "0/0/2", "0/0/3", "0/1/0", "0/1/1", "0/1/2", "0/1/3", "0/2/0", "0/2/1",
        "0/2/2", "0/2/3", "1/0/0",
    ];
    for e in expected.iter() {
        assert_eq!(stack.next().unwrap().to_uri(), *e);
    }
}

#[test]
fn every_cell_once_and_in_bounds() {
    for spans in [vec![1], vec![3], vec![2, 2], vec![3, 1, 4], vec![2, 3, 4, 5]] {
        let mut stack = JobStack::new(&spans).unwrap();
        let mut seen: Vec<String> = Vec::new();
        while let Some(job) = stack.next() {
            let uri = job.to_uri();
            assert!(!seen.contains(&uri));
            let parts: Vec<usize> = uri.split('/').map(|p| p.parse().unwrap()).collect();
            assert_eq!(parts.len(), spans.len());
            for (i, s) in parts.iter().zip(spans.iter()) {
                assert!(i < s);
            }
            seen.push(uri);
        }
        assert_eq!(seen.len(), spans.iter().product::<usize>());
        assert!(stack.is_empty());
        assert!(stack.next().is_none());
    }
}

#[test]
fn uri_round_trip_over_a_space() {
    let spans = vec![3, 11, 2];
    let manager = JobManager::new(&spans).unwrap();
    let mut stack = JobStack::new(&spans).unwrap();
    while let Some(job) = stack.next() {
        let back = manager.from_uri(job.to_uri()).unwrap();
        assert!(back == job);
    }
}

#[test]
fn from_uri_errors() {
    let manager = JobManager::new(&vec![2, 3, 4]).unwrap();
    assert!(matches!(manager.from_uri("0/1".to_string()), Err(Error::DimensionMismatch)));
    assert!(matches!(manager.from_uri("0/3/0".to_string()), Err(Error::OutOfBounds)));
    assert!(matches!(manager.from_uri("0/x/0".to_string()), Err(Error::UnexpectedString)));
    assert!(matches!(manager.from_uri("".to_string()), Err(Error::UnexpectedString)));
    assert!(matches!(manager.from_uri("0//1".to_string()), Err(Error::UnexpectedString)));
    let plus = manager.from_uri("+1/02/3".to_string()).unwrap();
    assert_eq!(plus.to_uri(), "1/2/3");
}

#[test]
fn body_encoding() {
    let job = Job::new(&vec![1, 2, 3], &vec![2, 3, 4]).unwrap();
    assert_eq!(job.to_string(), "1/2\r\n2/3\r\n3/4\r\n");
    assert_eq!(job.to_string().len(), 15);
    let back = Job::parse(&job.to_string()).unwrap();
    assert!(back == job);
    assert!(matches!(Job::parse(&"".to_string()), Err(Error::UnexpectedString)));
    assert!(matches!(Job::parse(&"1/2\r\n3".to_string()), Err(Error::UnexpectedString)));
    assert!(matches!(Job::parse(&"1/2\n".to_string()), Err(Error::UnexpectedString)));
    assert!(matches!(Job::parse(&"2/2\r\n".to_string()), Err(Error::OutOfBounds)));
}

#[test]
fn abandoned_jobs_come_first() {
    let mut manager = JobManager::new(&vec![2, 2]).unwrap();
    let first = manager.pop().unwrap();
    assert_eq!(first.to_uri(), "0/0");
    manager.abandon(&first);
    let again = manager.pop().unwrap();
    assert_eq!(again.to_uri(), "0/0");
    let next = manager.pop().unwrap();
    assert_eq!(next.to_uri(), "0/1");
}

#[test]
fn no_job_is_out_twice() {
    let mut manager = JobManager::new(&vec![2, 2]).unwrap();
    let mut out: Vec<String> = Vec::new();
    while let Some(job) = manager.pop() {
        let uri = job.to_uri();
        assert!(!out.contains(&uri));
        out.push(uri);
    }
    assert_eq!(out.len(), 4);
    assert!(!manager.is_finished());
    let returned = manager.from_uri("1/0".to_string()).unwrap();
    manager.abandon(&returned);
    let again = manager.pop().unwrap();
    assert_eq!(again.to_uri(), "1/0");
    assert!(manager.pop().is_none());
}

#[test]
fn finished_only_when_everything_completed() {
    let mut manager = JobManager::new(&vec![2, 2]).unwrap();
    assert!(!manager.is_finished());
    let mut uris: Vec<String> = Vec::new();
    while let Some(job) = manager.pop() {
        uris.push(job.to_uri());
    }
    for uri in uris.iter() {
        assert!(!manager.is_finished());
        manager.complete(uri.clone()).unwrap();
    }
    assert!(manager.is_finished());
    assert!(matches!(manager.complete("0/0".to_string()), Err(Error::JobNotFound)));
}

#[test]
fn pending_snapshot_keeps_issue_times() {
    let mut manager = JobManager::new(&vec![3]).unwrap();
    let before = std::time::SystemTime::now();
    manager.pop().unwrap();
    let at = std::time::SystemTime::now();
    let job = manager.pop_at(at).unwrap();
    let pending = manager.jobs_pending();
    assert_eq!(pending.len(), 2);
    assert!(pending[0].1 >= before);
    let entry = pending.iter().find(|e| e.0 == job).unwrap();
    assert_eq!(entry.1, at);
}
