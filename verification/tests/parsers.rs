use pagepack::parser::{init_registry, ParseResult, Parser, Registry};
use pagepack::parser::telegraph::Telegraph;
use pagepack::parser::houhuayuan::Houhuayuan;

#[test]
fn telegraph_domain() {
    assert_eq!(Telegraph.domain(), "telegra.ph");
}

#[test]
fn houhuayuan_domain() {
    assert_eq!(Houhuayuan.domain(), "houhuayuan.vip");
}

#[test]
fn telegraph_extracts_title_and_images() {
    let html = "<html><body>\
        <div class=\"tl_article_header\"><h1>My Gallery</h1></div>\
        <img src=\"http://cdn/1.png\"><img src=\"http://cdn/2.jpg\"><img>\
        </body></html>";
    let result = Telegraph.parse(html).unwrap();
    match result {
        ParseResult::Images { title, urls } => {
            assert_eq!(title, "My Gallery");
            assert_eq!(urls, vec!["http://cdn/1.png".to_string(), "http://cdn/2.jpg".to_string()]);
        }
        _ => panic!("expected an asset collection"),
    }
}

#[test]
fn telegraph_without_header_fails() {
    let err = Telegraph.parse("<html><body><p>nothing</p></body></html>").unwrap_err();
    assert_eq!(err.message, "failed to find the title");
}

#[test]
fn houhuayuan_builds_markdown() {
    let html = "<html><head><title>Post \u{2013} Site Name</title></head><body>\
        <div class=\"entry-content\"><p>first</p><p>second</p></div>\
        </body></html>";
    let result = Houhuayuan.parse(html).unwrap();
    match result {
        ParseResult::Markdown { title, body } => {
            assert_eq!(title, "Post");
            assert_eq!(body, "# Post\n\nfirst\n\nsecond\n");
        }
        _ => panic!("expected a text artifact"),
    }
}

#[test]
fn houhuayuan_without_content_fails() {
    let err = Houhuayuan
        .parse("<html><head><title>Post</title></head><body></body></html>")
        .unwrap_err();
    assert_eq!(err.message, "failed to parse the body");
}

struct Cap {
    dom: &'static str,
    title: &'static str,
}

impl Parser for Cap {
    fn domain(&self) -> &'static str {
        self.dom
    }

    fn parse(&self, _raw: &str) -> Result<ParseResult, pagepack::parser::ParseError> {
        Ok(ParseResult::Markdown { title: self.title.to_string(), body: String::new() })
    }
}

#[test]
fn registry_lookup_and_absence() {
    let mut registry: Registry<Cap> = Registry::new();
    registry.register(Cap { dom: "a.example", title: "A" });
    registry.register(Cap { dom: "b.example", title: "B" });
    assert!(registry.get("a.example").is_some());
    assert!(registry.get("b.example").is_some());
    assert!(registry.get("c.example").is_none());
}

#[test]
fn registry_last_registration_wins() {
    let mut registry: Registry<Cap> = Registry::new();
    registry.register(Cap { dom: "a.example", title: "old" });
    registry.register(Cap { dom: "a.example", title: "new" });
    let capability = registry.get("a.example").unwrap();
    match capability.parse("").unwrap() {
        ParseResult::Markdown { title, .. } => assert_eq!(title, "new"),
        _ => panic!("expected a text artifact"),
    }
}

#[test]
fn init_registry_knows_both_sites() {
    let registry = init_registry();
    assert!(registry.get("telegra.ph").is_some());
    assert!(registry.get("houhuayuan.vip").is_some());
    assert!(registry.get("example.com").is_none());
}
