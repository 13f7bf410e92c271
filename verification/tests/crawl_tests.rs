use crawler::crawl::ConfigError;
use crawler::crawl::CrawlState;
use crawler::crawl::WorkerAction;
use crawler::frontier::Frontier;
use crawler::urls::normalize;
use crawler::urls::NormalizeError;
use crawler::visited::VisitedSet;

#[test]
fn normalize_resolves_relative_href() {
    let u = normalize("http://a.test/", "/b").unwrap();
    assert_eq!(u, "http://a.test/b");
}

#[test]
fn normalize_keeps_absolute_href() {
    let u = normalize("http://a.test/", "http://other.test/d").unwrap();
    assert_eq!(u, "http://other.test/d");
}

#[test]
fn normalize_canonicalizes_scheme_and_host() {
    let u = normalize("http://a.test/", "HTTP://A.Test/x").unwrap();
    assert_eq!(u, "http://a.test/x");
}

#[test]
fn normalize_resolves_dot_segments() {
    let u = normalize("http://a.test/one/two/", "../three").unwrap();
    assert_eq!(u, "http://a.test/one/three");
}

#[test]
fn normalize_is_idempotent() {
    let base = "http://a.test/p/q";
    for href in ["/b", "c", "../d", "http://other.test/e?x=1", ""] {
        let once = normalize(base, href).unwrap();
        let twice = normalize(base, &once).unwrap();
        assert_eq!(twice, once);
    }
}

#[test]
fn normalize_rejects_unresolvable_href() {
    assert_eq!(
        normalize("http://a.test/", "http://[bad"),
        Err(NormalizeError::MalformedUrl)
    );
    assert_eq!(normalize("not a base", "/x"), Err(NormalizeError::MalformedUrl));
}

#[test]
fn normalize_rejects_hostless_result() {
    assert_eq!(
        normalize("http://a.test/", "mailto:someone@a.test"),
        Err(NormalizeError::MalformedUrl)
    );
}

#[test]
fn allow_matches_exact_host_only() {
    let origin = String::from("example.com");
    assert!(crawler::policy::allow("https://example.com/x", &origin, false));
    assert!(!crawler::policy::allow("https://evil.com/example.com", &origin, false));
}

#[test]
fn allow_compares_hosts_case_insensitively() {
    let origin = String::from("example.com");
    assert!(crawler::policy::allow("https://EXAMPLE.com/y", &origin, false));
}

#[test]
fn allow_accepts_everything_with_any_domain() {
    let origin = String::from("example.com");
    assert!(crawler::policy::allow("https://unrelated.org/z", &origin, true));
    assert!(crawler::policy::allow("https://example.com/x", &origin, true));
}

#[test]
fn allow_rejects_subdomains_and_garbage() {
    let origin = String::from("example.com");
    assert!(!crawler::policy::allow("https://sub.example.com/x", &origin, false));
    assert!(!crawler::policy::allow("not a url", &origin, false));
}

#[test]
fn try_admit_succeeds_exactly_once() {
    let mut visited = VisitedSet::new();
    let url = String::from("http://a.test/");
    assert!(!visited.contains(&url));
    assert!(visited.try_admit(&url));
    assert!(visited.contains(&url));
    assert!(!visited.try_admit(&url));
    assert!(!visited.try_admit(&url));
    assert_eq!(visited.len(), 1);
    let other = String::from("http://a.test/b");
    assert!(visited.try_admit(&other));
    assert_eq!(visited.len(), 2);
}

#[test]
fn frontier_is_fifo() {
    let mut frontier = Frontier::new();
    assert_eq!(frontier.len(), 0);
    assert_eq!(frontier.pop(), None);
    frontier.push(String::from("http://a.test/1"));
    frontier.push(String::from("http://a.test/2"));
    frontier.push(String::from("http://a.test/3"));
    assert_eq!(frontier.len(), 3);
    assert_eq!(frontier.pop(), Some(String::from("http://a.test/1")));
    assert_eq!(frontier.pop(), Some(String::from("http://a.test/2")));
    assert_eq!(frontier.pop(), Some(String::from("http://a.test/3")));
    assert_eq!(frontier.pop(), None);
}

#[test]
fn bad_seed_is_a_config_error() {
    assert!(matches!(
        CrawlState::new("::not a url::", false),
        Err(ConfigError::BadSeed)
    ));
}

#[test]
fn seed_without_host_is_a_config_error() {
    assert!(matches!(
        CrawlState::new("mailto:someone@a.test", false),
        Err(ConfigError::BadSeed)
    ));
}

#[test]
fn idle_workers_wait_while_work_is_in_flight() {
    let mut state = CrawlState::new("http://a.test/", false).unwrap();
    assert_eq!(state.decide(), WorkerAction::Work);
    let url = state.begin_fetch().unwrap();
    assert_eq!(url, "http://a.test/");
    assert_eq!(state.in_flight(), 1);
    assert_eq!(state.frontier_len(), 0);
    assert_eq!(state.decide(), WorkerAction::Wait);
    assert!(!state.is_quiescent());
    state.abort_fetch();
    assert_eq!(state.decide(), WorkerAction::Shutdown);
    assert!(state.is_quiescent());
}

#[test]
fn fetch_failure_releases_the_slot_without_admissions() {
    let mut state = CrawlState::new("http://a.test/", false).unwrap();
    let _ = state.begin_fetch().unwrap();
    state.abort_fetch();
    assert_eq!(state.in_flight(), 0);
    assert_eq!(state.frontier_len(), 0);
}

#[test]
fn crawl_scenario_same_origin() {
    let mut state = CrawlState::new("http://a.test/", false).unwrap();
    let body = "<html><body><a href=\"/b\">b</a><a href=\"http://a.test/c\">c</a><a href=\"http://other.test/d\">d</a></body></html>";
    let mut fetched: Vec<String> = Vec::new();
    let mut first = true;
    while !state.is_quiescent() {
        let url = state.begin_fetch().unwrap();
        fetched.push(url.clone());
        state.finish_fetch(&url, if first { body } else { "" });
        first = false;
    }
    assert_eq!(
        fetched,
        vec![
            String::from("http://a.test/"),
            String::from("http://a.test/b"),
            String::from("http://a.test/c"),
        ]
    );
}

#[test]
fn crawl_scenario_any_domain_follows_other_hosts() {
    let mut state = CrawlState::new("http://a.test/", true).unwrap();
    let url = state.begin_fetch().unwrap();
    state.finish_fetch(&url, "<a href=\"http://other.test/d\">d</a>");
    assert_eq!(state.frontier_len(), 1);
    assert_eq!(state.begin_fetch(), Some(String::from("http://other.test/d")));
}

#[test]
fn duplicate_links_are_admitted_once() {
    let mut state = CrawlState::new("http://a.test/", false).unwrap();
    let url = state.begin_fetch().unwrap();
    state.finish_fetch(
        &url,
        "<a href=\"/b\">1</a><a href=\"/b\">2</a><a href=\"http://a.test/b\">3</a>",
    );
    assert_eq!(state.frontier_len(), 1);
    assert_eq!(state.begin_fetch(), Some(String::from("http://a.test/b")));
    state.finish_fetch("http://a.test/b", "<a href=\"/b\">again</a>");
    assert!(state.is_quiescent());
}

#[test]
fn links_that_do_not_normalize_are_skipped() {
    let mut state = CrawlState::new("http://a.test/", false).unwrap();
    let url = state.begin_fetch().unwrap();
    state.finish_fetch(&url, "<a href=\"http://[bad\">x</a><a href=\"/ok\">y</a>");
    assert_eq!(state.frontier_len(), 1);
    assert_eq!(state.begin_fetch(), Some(String::from("http://a.test/ok")));
}
