use std::collections::{HashMap, VecDeque};

use aleister_crawly::link_gatherer::URLContentGetterError;
use aleister_crawly::link_map::{LinkMap, LinkMapValue};
use aleister_crawly::site_tracer::{Dispatch, SiteTracer};

type Response = Result<Vec<String>, URLContentGetterError>;

#[derive(Debug, Clone)]
enum Responses {
    Always(Response),
    Exhaustable(VecDeque<Response>),
}

struct MockLG {
    link_map: HashMap<String, Responses>,
    calls: HashMap<String, usize>,
}

impl MockLG {
    fn new(link_map: HashMap<String, Responses>) -> Self {
        MockLG {
            link_map,
            calls: HashMap::new(),
        }
    }

    fn get_links(&mut self, url: &str) -> Response {
        *self.calls.entry(url.to_string()).or_insert(0) += 1;
        if let Some(val) = self.link_map.get_mut(url) {
            return match val {
                Responses::Always(resp) => resp.clone(),
                Responses::Exhaustable(ex) => match ex.pop_front() {
                    Some(resp) => resp,
                    None => Ok(vec![]),
                },
            };
        }
        Ok(vec![])
    }
}

/// Runs a trace to its end, answering each worker from the mock in the order the workers
/// were handed out, and checks after every step that the pool is never exceeded.
fn trace(tracer: &SiteTracer, root: &str, mock: &mut MockLG) -> LinkMap {
    let (mut trace, first) = tracer.begin(root);
    let mut workers: VecDeque<Dispatch> = VecDeque::from([first]);
    while let Some(worker) = workers.pop_front() {
        let outcome = mock.get_links(&worker.url);
        for next in tracer.handle_result(&mut trace, Some(outcome)) {
            workers.push_back(next);
        }
        assert!(trace.in_processing() <= tracer.worker_pool_size as usize);
        assert_eq!(trace.in_processing(), workers.len());
    }
    assert_eq!(trace.queued(), 0);
    trace.get_result()
}

fn check(expected: Vec<(&str, LinkMapValue)>, link_map: &LinkMap) {
    for (key, expected) in expected {
        match expected {
            LinkMapValue::Links(mut ex) => match link_map.get(key).unwrap().clone() {
                LinkMapValue::Links(mut a) => {
                    a.sort();
                    ex.sort();
                    assert_eq!(a, ex)
                }
                _ => assert!(false, "Actual should have Links value at {}", key),
            },
            LinkMapValue::Error(ex) => match link_map.get(key).unwrap().clone() {
                LinkMapValue::Error(a) => {
                    assert_eq!(a, ex)
                }
                _ => assert!(false, "Actual should have Error value at {}", key),
            },
        }
    }
}

fn strings(v: &[&str]) -> Vec<String> {
    v.iter().map(|s| s.to_string()).collect()
}

fn happy_path_mock() -> MockLG {
    MockLG::new(HashMap::from([
        (
            "http://www.example.com".to_string(),
            Responses::Always(Ok(strings(&[
                "http://www.example.com/two",
                "http://www.example.com/three",
                "http://www.bolt.example.com/three",
            ]))),
        ),
        (
            "http://www.example.com/two".to_string(),
            Responses::Always(Ok(strings(&[
                "http://www.example.com/four",
                "http://www.google.com/six",
                "http://www.example.com/six",
            ]))),
        ),
        (
            "http://www.example.com/three".to_string(),
            Responses::Always(Ok(strings(&[
                "http://www.example.com/two",
                "http://www.example.com/five",
                "http://www.example.com/seven",
                "http://www.example.com/five",
            ]))),
        ),
    ]))
}

fn happy_path_expected() -> Vec<(&'static str, LinkMapValue)> {
    vec![
        (
            "http://www.example.com",
            LinkMapValue::Links(strings(&[
                "http://www.example.com/two",
                "http://www.example.com/three",
            ])),
        ),
        (
            "http://www.example.com/two",
            LinkMapValue::Links(strings(&[
                "http://www.example.com/four",
                "http://www.example.com/six",
            ])),
        ),
        (
            "http://www.example.com/three",
            LinkMapValue::Links(strings(&[
                "http://www.example.com/two",
                "http://www.example.com/five",
                "http://www.example.com/seven",
            ])),
        ),
    ]
}

fn relative_urls_mock() -> MockLG {
    MockLG::new(HashMap::from([(
        "http://www.example.com".to_string(),
        Responses::Always(Ok(strings(&["/two", "three"]))),
    )]))
}

fn relative_urls_expected() -> Vec<(&'static str, LinkMapValue)> {
    vec![(
        "http://www.example.com",
        LinkMapValue::Links(strings(&[
            "http://www.example.com/two",
            "http://www.example.com/three",
        ])),
    )]
}

fn unhappy_path_mock() -> MockLG {
    MockLG::new(HashMap::from([
        (
            "http://www.example.com".to_string(),
            Responses::Always(Ok(strings(&[
                "http://www.example.com/two",
                "http://www.example.com/three",
                "http://www.bolt.example.com/three",
            ]))),
        ),
        (
            "http://www.example.com/two".to_string(),
            Responses::Always(Err(URLContentGetterError::Request(401))),
        ),
        (
            "http://www.example.com/three".to_string(),
            Responses::Always(Err(URLContentGetterError::Content("Oh No".to_string()))),
        ),
    ]))
}

fn unhappy_path_expected() -> Vec<(&'static str, LinkMapValue)> {
    vec![
        (
            "http://www.example.com",
            LinkMapValue::Links(strings(&[
                "http://www.example.com/two",
                "http://www.example.com/three",
            ])),
        ),
        (
            "http://www.example.com/two",
            LinkMapValue::Error(URLContentGetterError::Request(401)),
        ),
        (
            "http://www.example.com/three",
            LinkMapValue::Error(URLContentGetterError::Content("Oh No".to_string())),
        ),
    ]
}

#[test]
fn site_tracer_site_tracer_happy_path() {
    let tracer = SiteTracer {
        worker_pool_size: 5,
        initial_retry_delay_ms: 0,
        max_retries: 0,
    };
    let link_map = trace(&tracer, "http://www.example.com", &mut happy_path_mock());
    check(happy_path_expected(), &link_map);
}

#[test]
fn site_tracer_site_tracer_handles_relative_urls() {
    let tracer = SiteTracer {
        worker_pool_size: 5,
        initial_retry_delay_ms: 0,
        max_retries: 0,
    };
    let link_map = trace(&tracer, "http://www.example.com", &mut relative_urls_mock());
    check(relative_urls_expected(), &link_map);
}

#[test]
fn site_tracer_site_tracer_unhappy_path() {
    let tracer = SiteTracer {
        worker_pool_size: 5,
        initial_retry_delay_ms: 0,
        max_retries: 0,
    };
    let link_map = trace(&tracer, "http://www.example.com", &mut unhappy_path_mock());
    check(unhappy_path_expected(), &link_map);
}

#[test]
fn mod_site_tracer_happy_path() {
    let tracer = SiteTracer {
        max_retries: 4,
        worker_pool_size: 10,
        initial_retry_delay_ms: 250,
    };
    let link_map = trace(&tracer, "http://www.example.com", &mut happy_path_mock());
    check(happy_path_expected(), &link_map);
}

#[test]
fn mod_site_tracer_handles_relative_urls() {
    let tracer = SiteTracer {
        max_retries: 1,
        worker_pool_size: 10,
        initial_retry_delay_ms: 25,
    };
    let link_map = trace(&tracer, "http://www.example.com", &mut relative_urls_mock());
    check(relative_urls_expected(), &link_map);
}

#[test]
fn mod_site_tracer_unhappy_path() {
    let tracer = SiteTracer {
        max_retries: 1,
        worker_pool_size: 10,
        initial_retry_delay_ms: 25,
    };
    let link_map = trace(&tracer, "http://www.example.com", &mut unhappy_path_mock());
    check(unhappy_path_expected(), &link_map);
}

#[test]
fn site_tracer_when_retry_suceeds_returns_links() {
    let mut mock = MockLG::new(HashMap::from([(
        "http://www.example.com".to_string(),
        Responses::Exhaustable(VecDeque::from([
            Err(URLContentGetterError::Request(401)),
            Err(URLContentGetterError::Content("Mysteries abound".to_string())),
            Err(URLContentGetterError::Request(401)),
            Ok(strings(&[
                "http://www.example.com/two",
                "http://www.example.com/three",
                "http://www.bolt.example.com/three",
            ])),
        ])),
    )]));
    let tracer = SiteTracer {
        max_retries: 3,
        worker_pool_size: 10,
        initial_retry_delay_ms: 25,
    };
    let link_map = trace(&tracer, "http://www.example.com", &mut mock);
    check(
        vec![(
            "http://www.example.com",
            LinkMapValue::Links(strings(&[
                "http://www.example.com/two",
                "http://www.example.com/three",
            ])),
        )],
        &link_map,
    );
    assert_eq!(mock.calls["http://www.example.com"], 4);
}

#[test]
fn site_tracer_when_max_retries_exhausted_returns_error() {
    let mut mock = MockLG::new(HashMap::from([(
        "http://www.example.com".to_string(),
        Responses::Exhaustable(VecDeque::from([
            Err(URLContentGetterError::Request(401)),
            Err(URLContentGetterError::Request(401)),
            Err(URLContentGetterError::Content("Mysteries abound".to_string())),
            Ok(strings(&[
                "http://www.example.com/two",
                "http://www.example.com/three",
                "http://www.bolt.example.com/three",
            ])),
        ])),
    )]));
    let tracer = SiteTracer {
        max_retries: 2,
        worker_pool_size: 10,
        initial_retry_delay_ms: 25,
    };
    let link_map = trace(&tracer, "http://www.example.com", &mut mock);
    check(
        vec![(
            "http://www.example.com",
            LinkMapValue::Error(URLContentGetterError::Content("Mysteries abound".to_string())),
        )],
        &link_map,
    );
    assert_eq!(mock.calls["http://www.example.com"], 3);
    assert_eq!(link_map.len(), 1);
}

#[test]
fn cross_origin_links_are_filtered_and_failures_retried() {
    let mut mock = MockLG::new(HashMap::from([
        (
            "http://www.example.com".to_string(),
            Responses::Always(Ok(strings(&[
                "/",
                "/two",
                "http://www.bolt.example.com/three",
                "three",
            ]))),
        ),
        (
            "http://www.example.com/two".to_string(),
            Responses::Always(Err(URLContentGetterError::Request(401))),
        ),
    ]));
    let tracer = SiteTracer {
        max_retries: 3,
        worker_pool_size: 4,
        initial_retry_delay_ms: 25,
    };
    let link_map = trace(&tracer, "http://www.example.com", &mut mock);
    assert_eq!(
        link_map.get("http://www.example.com"),
        Some(&LinkMapValue::Links(strings(&[
            "http://www.example.com/",
            "http://www.example.com/three",
            "http://www.example.com/two",
        ])))
    );
    assert_eq!(
        link_map.get("http://www.example.com/two"),
        Some(&LinkMapValue::Error(URLContentGetterError::Request(401)))
    );
    assert!(link_map.get("http://www.bolt.example.com/three").is_none());
    assert_eq!(mock.calls["http://www.example.com/two"], 4);
    assert!(!mock.calls.contains_key("http://www.bolt.example.com/three"));
    assert_eq!(link_map.len(), 4);
}

#[test]
fn every_url_is_attempted_once_when_nothing_fails() {
    let tracer = SiteTracer {
        max_retries: 3,
        worker_pool_size: 3,
        initial_retry_delay_ms: 25,
    };
    let mut mock = happy_path_mock();
    let link_map = trace(&tracer, "http://www.example.com", &mut mock);
    assert_eq!(link_map.len(), 7);
    assert_eq!(mock.calls.len(), 7);
    assert!(mock.calls.values().all(|n| *n == 1));
}

#[test]
fn a_small_pool_is_never_exceeded() {
    let mut mock = MockLG::new(HashMap::from([(
        "http://r".to_string(),
        Responses::Always(Ok(strings(&["/a", "/b", "/c", "/d", "/e", "/f"]))),
    )]));
    let tracer = SiteTracer {
        max_retries: 0,
        worker_pool_size: 2,
        initial_retry_delay_ms: 0,
    };
    let link_map = trace(&tracer, "http://r", &mut mock);
    assert_eq!(link_map.len(), 7);
    let tree = link_map.to_tree();
    assert_eq!(
        tree,
        "http://r\n├──http://r/a\n├──http://r/b\n├──http://r/c\n├──http://r/d\n├──http://r/e\n└──http://r/f\n"
    );
}
