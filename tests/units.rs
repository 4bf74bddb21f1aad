use aleister_crawly::link_gatherer::URLContentGetterError;
use aleister_crawly::link_map::{LinkMap, LinkMapValue};
use aleister_crawly::process_heap::{Process, ProcessHeap};
use aleister_crawly::scope::{format_link_as_url, scope_links, sort_and_dedup};
use aleister_crawly::site_tracer::SiteTracer;
use aleister_crawly::strings::starts_with;
use aleister_crawly::trace::Trace;
use aleister_crawly::tree::{to_tree, CountMap};

fn strings(v: &[&str]) -> Vec<String> {
    v.iter().map(|s| s.to_string()).collect()
}

#[test]
fn format_link_as_url_follows_the_three_rules() {
    let root = "http://www.example.com";
    assert_eq!(format_link_as_url("/two", root), "http://www.example.com/two");
    assert_eq!(format_link_as_url("three", root), "http://www.example.com/three");
    assert_eq!(format_link_as_url("http://other.org/x", root), "http://other.org/x");
    assert_eq!(format_link_as_url("https://other.org", root), "https://other.org");
    assert_eq!(format_link_as_url("Http://x", root), "http://www.example.com/Http://x");
    assert_eq!(format_link_as_url("", root), "http://www.example.com/");
    assert_eq!(format_link_as_url("#top", root), "http://www.example.com/#top");
}

#[test]
fn starts_with_is_a_prefix_test() {
    assert!(starts_with("http://a", "http"));
    assert!(starts_with("abc", ""));
    assert!(starts_with("abc", "abc"));
    assert!(!starts_with("ab", "abc"));
    assert!(!starts_with("xbc", "abc"));
}

#[test]
fn sort_and_dedup_gives_distinct_sorted_links() {
    assert_eq!(
        sort_and_dedup(strings(&["b", "a", "b", "c", "a", "ab"])),
        strings(&["a", "ab", "b", "c"])
    );
    assert_eq!(sort_and_dedup(Vec::new()), Vec::<String>::new());
    assert_eq!(
        sort_and_dedup(strings(&["é", "z", "Z", "/", "http"])),
        strings(&["/", "Z", "http", "z", "é"])
    );
}

#[test]
fn scope_links_resolves_relative_links_in_sorted_order() {
    assert_eq!(
        scope_links(strings(&["/two", "three"]), "http://www.example.com"),
        strings(&["http://www.example.com/three", "http://www.example.com/two"])
    );
}

#[test]
fn scope_links_drops_other_origins() {
    assert_eq!(
        scope_links(
            strings(&[
                "/",
                "/two",
                "http://www.bolt.example.com/three",
                "three",
                "/two"
            ]),
            "http://www.example.com"
        ),
        strings(&[
            "http://www.example.com/",
            "http://www.example.com/three",
            "http://www.example.com/two"
        ])
    );
}

#[test]
fn scope_links_prefix_test_is_naive() {
    assert_eq!(
        scope_links(strings(&["http://example.com.evil/x"]), "http://example.com"),
        strings(&["http://example.com.evil/x"])
    );
}

#[test]
fn scope_links_of_mixed_forms_are_sorted_and_distinct() {
    // `/a` and `a` resolve to the same URL; `/c` sorts before `a` as an href, not as a URL.
    assert_eq!(
        scope_links(strings(&["a", "/a", "/c", "/two", "two", "/b"]), "http://r"),
        strings(&["http://r/a", "http://r/b", "http://r/c", "http://r/two"])
    );
}

#[test]
fn scope_links_of_one_form_are_sorted_and_distinct() {
    let out = scope_links(strings(&["/b", "/a", "/b", "/c/d"]), "http://r");
    assert_eq!(out, strings(&["http://r/a", "http://r/b", "http://r/c/d"]));
    let mut sorted = out.clone();
    sorted.sort();
    sorted.dedup();
    assert_eq!(out, sorted);
}

#[test]
fn process_timestamps_follow_the_retry_delay() {
    assert_eq!(Process::new_at("u", 0, &250, 1000).timestamp, 1000);
    assert_eq!(Process::new_at("u", 1, &250, 1000).timestamp, 1500);
    assert_eq!(Process::new_at("u", 2, &250, 1000).timestamp, 2000);
    assert_eq!(Process::new_at("u", 3, &25, 0).timestamp, 200);
    assert_eq!(Process::new_at("u", 200, &1, 1000).timestamp, i64::MAX);
    assert_eq!(Process::new_at("u", 200, &0, 1000).timestamp, 1000);
    let p = Process::new_at("http://x", 4, &7, -5);
    assert_eq!(p.url, "http://x");
    assert_eq!(p.retry, 4);
    assert_eq!(p.timestamp, -5 + 7 * 16);
}

#[test]
fn process_delay_is_the_time_left() {
    let p = Process::new_at("u", 2, &250, 1000);
    assert_eq!(p.get_delay_at(1500), Some(500));
    assert_eq!(p.get_delay_at(2000), None);
    assert_eq!(p.get_delay_at(2500), None);
    assert_eq!(p.get_delay_at(i64::MIN), Some((2000i128 - i64::MIN as i128) as u64));
}

#[test]
fn process_new_reads_the_clock() {
    let p = Process::new("u", 0, &250);
    assert_eq!(p.get_delay_at(p.timestamp), None);
    assert!(p.timestamp > 0);
}

#[test]
fn process_heap_pops_earliest_first_and_keeps_ties_in_order() {
    let mut heap = ProcessHeap::new();
    heap.push(Process::new_at("c", 0, &0, 30));
    heap.push(Process::new_at("a", 0, &0, 10));
    heap.push(Process::new_at("b", 0, &0, 20));
    heap.push(Process::new_at("a2", 0, &0, 10));
    assert_eq!(heap.len(), 4);
    let order: Vec<String> = std::iter::from_fn(|| heap.pop()).map(|p| p.url).collect();
    assert_eq!(order, strings(&["a", "a2", "b", "c"]));
    assert!(heap.pop().is_none());
    assert_eq!(heap.len(), 0);
}

#[test]
fn count_map_counts_pending_frames() {
    let mut counts = CountMap::new();
    assert!(!counts.is_queued_for_processing("a"));
    counts.increment("a");
    counts.increment("a");
    assert!(counts.is_queued_for_processing("a"));
    counts.decrement("a");
    assert!(counts.is_queued_for_processing("a"));
    counts.decrement("a");
    assert!(!counts.is_queued_for_processing("a"));
    counts.decrement("a");
    counts.decrement("missing");
    assert!(!counts.is_queued_for_processing("a"));
    counts.increment("a");
    assert!(counts.is_queued_for_processing("a"));
}

#[test]
fn count_map_processed_is_always_queued() {
    let mut counts = CountMap::new();
    counts.processed("b");
    assert!(counts.is_queued_for_processing("b"));
    counts.increment("b");
    counts.decrement("b");
    counts.decrement("b");
    assert!(counts.is_queued_for_processing("b"));
    assert!(!counts.is_queued_for_processing("c"));
}

#[test]
fn status_of_a_new_trace() {
    let trace = Trace::new("http://r", 4);
    let expected = format!(
        "\nTracing - http://r\n{} | 0/1 ... 0 queued, 0 in processing",
        " ".repeat(100)
    );
    assert_eq!(trace.get_status(), expected);
}

#[test]
fn status_rounds_the_percentage() {
    let mut trace = Trace::new("http://r", 4);
    trace.queue_to_process("http://r/a", 0, &10, 0);
    trace.queue_to_process("http://r/b", 0, &10, 0);
    trace.add_result("http://r", LinkMapValue::Links(Vec::new()));
    // 1 of 3 seen is done: 33.3 % rounds to 33.
    let expected = format!(
        "\nTracing - http://r\n{}{} | 1/3 ... 2 queued, 0 in processing",
        "\u{2588}".repeat(33),
        " ".repeat(67)
    );
    assert_eq!(trace.get_status(), expected);
    trace.add_result("http://r/a", LinkMapValue::Links(Vec::new()));
    // 2 of 3: 66.7 % rounds to 67.
    assert!(trace
        .get_status()
        .contains(&format!("{}{} | 2/3", "\u{2588}".repeat(67), " ".repeat(33))));
}

#[test]
fn status_rounds_half_up() {
    let mut trace = Trace::new("r", 1);
    for u in ["a", "b", "c", "d", "e", "f", "g"] {
        trace.queue_to_process(u, 0, &0, 0);
    }
    trace.add_result("r", LinkMapValue::Links(Vec::new()));
    // 1 of 8 is 12.5 %, shown as 13 cells.
    assert!(trace
        .get_status()
        .contains(&format!("{}{} | 1/8 ... 7 queued, 0 in processing", "\u{2588}".repeat(13), " ".repeat(87))));
}

#[test]
fn first_attempt_is_queued_once_per_url() {
    let mut trace = Trace::new("http://r", 2);
    trace.queue_to_process("http://r/a", 0, &10, 0);
    trace.queue_to_process("http://r/a", 0, &10, 5);
    trace.queue_to_process("http://r", 0, &10, 5);
    assert_eq!(trace.queued(), 1);
    trace.queue_to_process("http://r/a", 1, &10, 5);
    assert_eq!(trace.queued(), 2);
    let first = trace.get_next_process().unwrap();
    assert_eq!((first.url.as_str(), first.retry, first.timestamp), ("http://r/a", 0, 0));
    let second = trace.get_next_process().unwrap();
    assert_eq!((second.url.as_str(), second.retry, second.timestamp), ("http://r/a", 1, 25));
    assert!(trace.get_next_process().is_none());
}

#[test]
fn trace_pool_capacity() {
    let mut trace = Trace::new("http://r", 2);
    assert!(trace.has_process_capacity());
    trace.push_processor(Process::new_at("http://r", 0, &0, 0));
    assert!(trace.has_process_capacity());
    trace.push_processor(Process::new_at("http://r/a", 0, &0, 0));
    assert!(!trace.has_process_capacity());
    assert_eq!(trace.in_processing(), 2);
    assert_eq!(trace.get_next_processor().unwrap().url, "http://r");
    assert_eq!(trace.in_processing(), 1);
}

#[test]
fn handle_result_hands_out_at_most_the_free_workers() {
    let tracer = SiteTracer {
        worker_pool_size: 2,
        initial_retry_delay_ms: 100,
        max_retries: 1,
    };
    let (mut trace, first) = tracer.begin_at("http://r", 1000);
    assert_eq!((first.url.as_str(), first.retry, first.delay_ms), ("http://r", 0, None));
    let out = tracer.handle_result_at(
        &mut trace,
        Some(Ok(strings(&["/e", "/d", "/c", "/b", "/a", "/a"]))),
        1000,
    );
    let urls: Vec<&str> = out.iter().map(|d| d.url.as_str()).collect();
    assert_eq!(urls, vec!["http://r/a", "http://r/b"]);
    assert_eq!(trace.in_processing(), 2);
    assert_eq!(trace.queued(), 3);
    // A failure is retried after its delay: attempt two waits 100 · 2¹ ms.
    let out = tracer.handle_result_at(
        &mut trace,
        Some(Err(URLContentGetterError::Request(500))),
        2000,
    );
    let got: Vec<(String, u8, Option<u64>)> = out
        .into_iter()
        .map(|d| (d.url, d.retry, d.delay_ms))
        .collect();
    assert_eq!(got, vec![("http://r/c".to_string(), 0, None)]);
    assert_eq!(trace.queued(), 3);
    // A dropped worker is neither recorded nor retried.
    let out = tracer.handle_result_at(&mut trace, None, 2000);
    assert_eq!(out.len(), 1);
    assert_eq!(out[0].url, "http://r/d");
    let link_map = trace.get_result();
    assert_eq!(link_map.len(), 1);
    assert!(link_map.get("http://r/b").is_none());
    assert!(link_map.get("http://r/a").is_none());
}

#[test]
fn retry_waits_and_then_records_the_error() {
    let tracer = SiteTracer {
        worker_pool_size: 1,
        initial_retry_delay_ms: 100,
        max_retries: 1,
    };
    let (mut trace, _) = tracer.begin_at("http://r", 0);
    let out = tracer.handle_result_at(&mut trace, Some(Err(URLContentGetterError::Request(0))), 0);
    assert_eq!(out.len(), 1);
    assert_eq!((out[0].retry, out[0].delay_ms), (1, Some(200)));
    let out = tracer.handle_result_at(
        &mut trace,
        Some(Err(URLContentGetterError::Content("gone".to_string()))),
        500,
    );
    assert!(out.is_empty());
    assert_eq!(trace.in_processing(), 0);
    let link_map = trace.get_result();
    assert_eq!(
        link_map.get("http://r"),
        Some(&LinkMapValue::Error(URLContentGetterError::Content("gone".to_string())))
    );
    assert_eq!(link_map.root(), "http://r");
}

#[test]
fn handle_result_without_workers_changes_nothing() {
    let tracer = SiteTracer {
        worker_pool_size: 0,
        initial_retry_delay_ms: 1,
        max_retries: 0,
    };
    let (mut trace, _) = tracer.begin_at("http://r", 0);
    assert_eq!(trace.in_processing(), 1);
    let out = tracer.handle_result_at(&mut trace, Some(Ok(strings(&["a"]))), 0);
    assert!(out.is_empty());
    assert_eq!(trace.queued(), 1);
    let out = tracer.handle_result_at(&mut trace, None, 0);
    assert!(out.is_empty());
    assert_eq!(trace.queued(), 1);
}

#[test]
fn tree_marks_ancestor_cycles() {
    let mut link_map = LinkMap::new("root".to_string());
    link_map.add("root".to_string(), LinkMapValue::Links(strings(&["a"])));
    link_map.add("a".to_string(), LinkMapValue::Links(strings(&["root"])));
    assert_eq!(link_map.to_tree(), "root\n└──a\n   └──root ⟳\n");
}

#[test]
fn tree_of_a_root_alone() {
    let link_map = LinkMap::new("root".to_string());
    assert_eq!(to_tree(&link_map), Ok("root\n".to_string()));
    let mut failed = LinkMap::new("root".to_string());
    failed.add("root".to_string(), LinkMapValue::Error(URLContentGetterError::Request(0)));
    assert_eq!(failed.to_tree(), "root - 😵 0\n");
    let mut self_link = LinkMap::new("root".to_string());
    self_link.add("root".to_string(), LinkMapValue::Links(strings(&["root", "root"])));
    assert_eq!(self_link.to_tree(), "root\n├──root ⟳\n└──root ⟳\n");
}

#[test]
fn tree_suppresses_error_note_on_marked_lines() {
    let mut link_map = LinkMap::new("r".to_string());
    link_map.add("r".to_string(), LinkMapValue::Links(strings(&["e", "e"])));
    link_map.add(
        "e".to_string(),
        LinkMapValue::Error(URLContentGetterError::Content("x".to_string())),
    );
    assert_eq!(link_map.to_tree(), "r\n├──e 🔗\n└──e - 😵 \"x\"\n");
}

#[test]
fn tree_does_not_depend_on_insertion_order() {
    let entries = vec![
        ("r", LinkMapValue::Links(strings(&["a", "b", "c"]))),
        ("a", LinkMapValue::Links(strings(&["c", "r"]))),
        ("b", LinkMapValue::Error(URLContentGetterError::Request(65535))),
        ("c", LinkMapValue::Links(strings(&["a", "b"]))),
    ];
    let mut forward = LinkMap::new("r".to_string());
    for (u, v) in entries.iter() {
        forward.add(u.to_string(), v.clone());
    }
    let mut backward = LinkMap::new("r".to_string());
    for (u, v) in entries.iter().rev() {
        backward.add(u.to_string(), v.clone());
    }
    assert_eq!(forward.to_tree(), backward.to_tree());
    assert_eq!(to_tree(&forward), to_tree(&forward));
    assert_eq!(
        forward.to_tree(),
        "r\n├──a\n│  ├──c 🔗\n│  └──r ⟳\n├──b - 😵 65535\n└──c\n   ├──a 🔗\n   └──b 🔗\n"
    );
}

#[test]
fn tree_expands_each_url_once() {
    let mut link_map = LinkMap::new("r".to_string());
    link_map.add("r".to_string(), LinkMapValue::Links(strings(&["a", "b"])));
    link_map.add("a".to_string(), LinkMapValue::Links(strings(&["s"])));
    link_map.add("b".to_string(), LinkMapValue::Links(strings(&["s"])));
    link_map.add("s".to_string(), LinkMapValue::Links(strings(&["t"])));
    let tree = link_map.to_tree();
    assert_eq!(tree, "r\n├──a\n│  └──s\n│     └──t\n└──b\n   └──s 🔗\n");
    let plain_s = tree.lines().filter(|l| l.ends_with("──s")).count();
    assert_eq!(plain_s, 1);
}

#[test]
fn tree_shared_deeper_occurrence_is_a_leaf() {
    let mut link_map = LinkMap::new("root".to_string());
    link_map.add("root".to_string(), LinkMapValue::Links(strings(&["a", "b"])));
    link_map.add("a".to_string(), LinkMapValue::Links(strings(&["b", "root"])));
    link_map.add("b".to_string(), LinkMapValue::Links(strings(&["root", "a"])));
    assert_eq!(
        link_map.to_tree(),
        "root\n├──a\n│  ├──b 🔗\n│  └──root ⟳\n└──b\n   ├──root ⟳\n   └──a 🔗\n"
    );
}

#[test]
fn link_map_lists_each_recorded_url_once() {
    let mut link_map = LinkMap::new("r".to_string());
    assert!(link_map.urls().is_empty());
    link_map.add("r".to_string(), LinkMapValue::Links(strings(&["a"])));
    link_map.add("a".to_string(), LinkMapValue::Error(URLContentGetterError::Request(1)));
    link_map.add("r".to_string(), LinkMapValue::Links(Vec::new()));
    assert_eq!(link_map.urls(), strings(&["r", "a"]));
    assert_eq!(link_map.len(), 2);
    assert_eq!(link_map.get("r"), Some(&LinkMapValue::Links(Vec::new())));
}
