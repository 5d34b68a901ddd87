//! Job-list building: line splitting, URL joining, repetition, expansion.

use hammer::session::{expand_workers, repeat_jobs, split_lines, subpage_jobs};
use hammer::Job;

fn lines_of(body: &str) -> Vec<String> {
    split_lines(body.as_bytes())
        .into_iter()
        .map(|l| String::from_utf8(l).unwrap())
        .collect()
}

#[test]
fn split_lines_matches_line_semantics() {
    assert_eq!(lines_of("a\nb\nc"), vec!["a", "b", "c"]);
    assert_eq!(lines_of("a\nb\n"), vec!["a", "b"]);
    assert_eq!(lines_of(""), Vec::<String>::new());
    assert_eq!(lines_of("\n"), vec![""]);
    assert_eq!(lines_of("a\r\nb"), vec!["a", "b"]);
    assert_eq!(lines_of("a\n\nb"), vec!["a", "", "b"]);
    assert_eq!(lines_of("one line"), vec!["one line"]);
    // A carriage return is stripped only before a newline: a final line
    // without one keeps it, exactly as str::lines does.
    assert_eq!(lines_of("a\r"), vec!["a\r"]);
    assert_eq!(lines_of("a\r\n"), vec!["a"]);
}

#[test]
fn repeat_jobs_repeats_the_target() {
    let j = Job::new("http://host/page".to_string());
    let jobs = repeat_jobs(&j, 4);
    assert_eq!(jobs.len(), 4);
    for j in &jobs {
        assert_eq!(j.target, "http://host/page");
    }
    assert!(repeat_jobs(&j, 0).is_empty());
}

#[test]
fn subpage_jobs_joins_each_line_against_the_root() {
    let body = b"alpha\nbeta\n/absolute";
    let jobs = subpage_jobs("http://example.com/dir/", body).unwrap();
    let targets: Vec<&str> = jobs.iter().map(|j| j.target.as_str()).collect();
    assert_eq!(
        targets,
        vec![
            "http://example.com/dir/alpha",
            "http://example.com/dir/beta",
            "http://example.com/absolute",
        ]
    );
}

#[test]
fn subpage_jobs_rejects_an_unjoinable_index() {
    // A cannot-be-a-base URL takes no relative references.
    let body = b"alpha";
    assert!(subpage_jobs("mailto:user@example.com", body).is_none());
    // A root that is not an absolute URL at all fails too.
    assert!(subpage_jobs("not a url", body).is_none());
}

#[test]
fn subpage_jobs_of_empty_body_is_empty() {
    let jobs = subpage_jobs("http://example.com/", b"").unwrap();
    assert!(jobs.is_empty());
}

#[test]
fn expand_workers_repeats_each_count_per_sample() {
    let workers = vec![1usize, 2, 8];
    let r = expand_workers(&workers, 3);
    assert_eq!(r, vec![1, 1, 1, 2, 2, 2, 8, 8, 8]);
    let single = expand_workers(&workers, 1);
    assert_eq!(single, vec![1, 2, 8]);
    let none = expand_workers(&Vec::new(), 5);
    assert!(none.is_empty());
}
