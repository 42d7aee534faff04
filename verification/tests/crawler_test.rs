use nsearch::crawler::fetcher::{assemble_page, extract_page};
use nsearch::crawler::frontier::Frontier;
use nsearch::crawler::{CrawlState, CrawlStep};

#[test]
fn test_frontier_is_first_in_first_out() {
    let mut frontier = Frontier::new();
    frontier.push("a".to_string());
    frontier.push("b".to_string());
    frontier.push("c".to_string());
    assert_eq!(frontier.pop(), Some("a".to_string()));
    assert_eq!(frontier.pop(), Some("b".to_string()));
    assert_eq!(frontier.pop(), Some("c".to_string()));
    assert_eq!(frontier.pop(), None);
}

#[test]
fn test_frontier_accepts_url_once() {
    let mut frontier = Frontier::default();
    frontier.push("a".to_string());
    frontier.push("a".to_string());
    assert_eq!(frontier.pop(), Some("a".to_string()));
    frontier.push("a".to_string());
    assert_eq!(frontier.pop(), None);
}

fn fetched(step: CrawlStep) -> Option<String> {
    match step {
        CrawlStep::Fetch(address) => Some(address),
        _ => None,
    }
}

#[test]
fn test_crawl_state_stops_at_limit() {
    let mut state = CrawlState::new("http://example.com/".to_string(), 1);
    assert_eq!(fetched(state.next_step()), Some("http://example.com/".to_string()));
    state.add_links(vec!["http://example.com/page2".to_string()]);
    assert!(matches!(state.next_step(), CrawlStep::Idle));
}

#[test]
fn test_crawl_state_follows_links() {
    let mut state = CrawlState::new("http://example.com/".to_string(), 2);
    assert_eq!(fetched(state.next_step()), Some("http://example.com/".to_string()));
    assert!(matches!(state.next_step(), CrawlStep::Idle));
    state.add_links(vec!["http://example.com/page2".to_string()]);
    assert_eq!(fetched(state.next_step()), Some("http://example.com/page2".to_string()));
    assert!(matches!(state.next_step(), CrawlStep::Idle));
}

#[test]
fn test_crawl_state_deduplicates_urls() {
    let mut state = CrawlState::new("http://example.com/".to_string(), 10);
    assert!(fetched(state.next_step()).is_some());
    state.add_links(vec![
        "http://example.com/page2".to_string(),
        "http://example.com/page2".to_string(),
        "http://example.com/".to_string(),
    ]);
    assert_eq!(fetched(state.next_step()), Some("http://example.com/page2".to_string()));
    assert!(matches!(state.next_step(), CrawlStep::Idle));
}

#[test]
fn test_crawl_state_normalizes_and_skips() {
    let mut state = CrawlState::new("HTTP://Example.COM".to_string(), 3);
    assert_eq!(fetched(state.next_step()), Some("http://example.com/".to_string()));
    state.add_links(vec!["not a url".to_string()]);
    assert!(matches!(state.next_step(), CrawlStep::Skip));
    assert!(matches!(state.next_step(), CrawlStep::Idle));
}

#[test]
fn test_extract_page_title_text_and_links() {
    let html = r#"
        <html>
            <head><title>Test Page</title></head>
            <body>
                <p>Hello world</p>
                <a href="/about">About</a>
                <a href="/contact">Contact</a>
                <a>No link</a>
            </body>
        </html>
    "#;
    let result = extract_page("http://127.0.0.1:1234/", html);
    assert_eq!(result.url, "http://127.0.0.1:1234/");
    assert_eq!(result.title, "Test Page");
    assert!(result.text.contains("Hello world"));
    assert_eq!(result.links.len(), 2);
    assert!(result.links.iter().any(|l| l.ends_with("/about")));
    assert_eq!(result.links[1], "http://127.0.0.1:1234/contact");
}

#[test]
fn test_extract_page_without_title() {
    let result = extract_page("http://a.com/x/y", "<p>plain <b>text</b></p><a href='z'>z</a>");
    assert_eq!(result.title, "");
    assert_eq!(result.text, "plain textz");
    assert_eq!(result.links, vec!["http://a.com/x/z".to_string()]);
}

#[test]
fn test_assemble_page_takes_first_texts_and_resolves_links() {
    let titles = vec!["First".to_string(), "Second".to_string()];
    let bodies: Vec<String> = vec![];
    let references = vec![
        Some("/a".to_string()),
        None,
        Some("http://x.org/b".to_string()),
        Some("http://[bad".to_string()),
    ];
    let page = assemble_page("http://h.com/p/q", &titles, &bodies, &references);
    assert_eq!(page.url, "http://h.com/p/q");
    assert_eq!(page.title, "First");
    assert_eq!(page.text, "");
    assert_eq!(page.links, vec!["http://h.com/a".to_string(), "http://x.org/b".to_string()]);
}

#[test]
fn test_frontier_queues_first_occurrences_in_order() {
    let mut frontier = Frontier::new();
    for url in ["b", "a", "b", "c", "a", "d"] {
        frontier.push(url.to_string());
    }
    let mut popped = Vec::new();
    while let Some(url) = frontier.pop() {
        popped.push(url);
    }
    assert_eq!(popped, vec!["b", "a", "c", "d"]);
}
