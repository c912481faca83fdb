use std::sync::Arc;

use pagepack::downloader::{package_assets, AssetFetch};
use pagepack::parser::{init_registry, ParseError, ParseResult, Parser, Registry, SiteParser};
use pagepack::service::{
    fetched_document, finish_write, plan_fetch, Download, OutputPlan, TaskCreationParams,
    TaskError, TextSource,
};

struct TextCap;

impl Parser for TextCap {
    fn domain(&self) -> &'static str {
        "example.com"
    }

    fn parse(&self, _raw: &str) -> Result<ParseResult, ParseError> {
        Ok(ParseResult::Markdown { title: "Foo".to_string(), body: "bar".to_string() })
    }
}

struct AssetCap;

impl Parser for AssetCap {
    fn parse(&self, _raw: &str) -> Result<ParseResult, ParseError> {
        Ok(ParseResult::Images {
            title: "Foo".to_string(),
            urls: vec!["http://x/1.png".to_string(), "http://x/2.jpg".to_string()],
        })
    }

    fn domain(&self) -> &'static str {
        "example.com"
    }
}

fn params(mode: &str, url: &str, raw: &str) -> TaskCreationParams {
    TaskCreationParams {
        param_type: mode.to_string(),
        url: url.to_string(),
        raw: raw.to_string(),
    }
}

#[test]
fn query_of_unissued_identifier_is_absent() {
    let service: Download<SiteParser> = Download::new(Arc::new(init_registry()));
    assert!(service.query_task("never-issued").is_none());
}

#[test]
fn created_job_is_pending_with_empty_message() {
    let mut service: Download<SiteParser> = Download::new(Arc::new(init_registry()));
    let created = service.create_task(&params("raw", "http://telegra.ph/a", "x"));
    let snapshot = service.query_task(&created.id).unwrap();
    assert_eq!(snapshot.id, created.id);
    assert_eq!(snapshot.status, "pending");
    assert_eq!(snapshot.message, "");
}

#[test]
fn identical_requests_get_distinct_identifiers() {
    let mut service: Download<SiteParser> = Download::new(Arc::new(init_registry()));
    let request = params("raw", "http://telegra.ph/a", "same content");
    let first = service.create_task(&request);
    let second = service.create_task(&request);
    assert_ne!(first.id, second.id);
    assert_eq!(first.id.len(), 36);
    assert_eq!(second.id.len(), 36);
}

#[test]
fn unknown_mode_is_rejected() {
    match plan_fetch(&params("ftp", "http://example.com/a", "")) {
        Err(e) => assert_eq!(e.message(), "invalid param type"),
        Ok(_) => panic!("an unsupported mode must be rejected"),
    }
}

#[test]
fn modes_select_the_text_source() {
    match plan_fetch(&params("url", "http://example.com/a", "ignored")).unwrap() {
        TextSource::Remote(u) => assert_eq!(u, "http://example.com/a"),
        _ => panic!("the remote mode fetches the location"),
    }
    match plan_fetch(&params("raw", "http://example.com/a", "verbatim text")).unwrap() {
        TextSource::Verbatim(t) => assert_eq!(t, "verbatim text"),
        _ => panic!("the verbatim mode uses the supplied text"),
    }
}

#[test]
fn unparsable_location_fails_with_invalid_url() {
    let mut registry: Registry<TextCap> = Registry::new();
    registry.register(TextCap);
    let p = params("raw", "not a url at all", "text");
    match Download::<TextCap>::dispatch(&registry, &p, "text") {
        Err(e) => assert_eq!(e.message(), "invalid url"),
        Ok(_) => panic!("an unparsable location must be rejected"),
    }
}

#[test]
fn scenario_text_artifact_end_to_end() {
    let mut registry: Registry<TextCap> = Registry::new();
    registry.register(TextCap);
    let registry = Arc::new(registry);
    let mut service: Download<TextCap> = Download::new(Arc::clone(&registry));
    let p = params("raw", "http://example.com/post", "<html>whatever</html>");

    let created = service.create_task(&p);
    let text = match plan_fetch(&p).unwrap() {
        TextSource::Verbatim(t) => t,
        TextSource::Remote(_) => panic!("the verbatim mode must not fetch"),
    };
    let plan = Download::<TextCap>::dispatch(&registry, &p, &text).unwrap();
    let (path, contents) = match plan {
        OutputPlan::TextFile { path, contents } => (path, contents),
        _ => panic!("expected a text artifact"),
    };
    assert_eq!(path, "Foo.md");
    assert_eq!(contents, "bar");
    let outcome = finish_write(path, Ok(()));
    service.complete_task(&created.id, outcome);

    let snapshot = service.query_task(&created.id).unwrap();
    assert_eq!(snapshot.status, "done");
    assert_eq!(snapshot.message, "Foo.md");
}

#[test]
fn scenario_asset_collection_end_to_end() {
    let mut registry: Registry<AssetCap> = Registry::new();
    registry.register(AssetCap);
    let registry = Arc::new(registry);
    let mut service: Download<AssetCap> = Download::new(Arc::clone(&registry));
    let p = params("raw", "http://example.com/gallery", "<html>whatever</html>");

    let created = service.create_task(&p);
    let plan = Download::<AssetCap>::dispatch(&registry, &p, "<html>whatever</html>").unwrap();
    let (title, requests) = match plan {
        OutputPlan::AssetJob { title, requests } => (title, requests),
        _ => panic!("expected an asset collection"),
    };
    assert_eq!(title, "Foo");
    assert_eq!(requests.len(), 2);
    assert_eq!(requests[0].name, "0.png");
    assert_eq!(requests[1].name, "1.jpg");

    // both fetches succeed, completing out of order
    let fetches = vec![
        AssetFetch { index: 1, data: Ok(b"jpg-bytes".to_vec()) },
        AssetFetch { index: 0, data: Ok(b"png-bytes".to_vec()) },
    ];
    let archive = package_assets(&title, &requests, fetches).unwrap();
    assert_eq!(archive.path, "Foo.zip");
    let mut opened = zip::ZipArchive::new(std::io::Cursor::new(archive.bytes.clone())).unwrap();
    assert_eq!(opened.len(), 2);
    assert_eq!(opened.by_index(0).unwrap().name(), "Foo/0.png");
    assert_eq!(opened.by_index(1).unwrap().name(), "Foo/1.jpg");

    service.complete_task(&created.id, finish_write(archive.path, Ok(())));
    let snapshot = service.query_task(&created.id).unwrap();
    assert_eq!(snapshot.status, "done");
    assert_eq!(snapshot.message, "Foo.zip");
}

#[test]
fn scenario_unsupported_origin_fails_the_job() {
    let registry = Arc::new(init_registry());
    let mut service: Download<SiteParser> = Download::new(Arc::clone(&registry));
    let p = params("url", "http://unknown.example/page", "");

    let created = service.create_task(&p);
    // the driver fetched the document; dispatch then rejects the origin
    let text = fetched_document(Ok("<html></html>".to_string())).unwrap();
    let err = Download::<SiteParser>::dispatch(&registry, &p, &text).unwrap_err();
    service.complete_task(&created.id, Err(err));

    let snapshot = service.query_task(&created.id).unwrap();
    assert_eq!(snapshot.status, "error");
    assert_eq!(snapshot.message, "unsupported origin");
}

#[test]
fn failed_fetch_never_reports_an_archive() {
    let mut registry: Registry<AssetCap> = Registry::new();
    registry.register(AssetCap);
    let registry = Arc::new(registry);
    let mut service: Download<AssetCap> = Download::new(Arc::clone(&registry));
    let p = params("raw", "http://example.com/gallery", "<html></html>");

    let created = service.create_task(&p);
    let plan = Download::<AssetCap>::dispatch(&registry, &p, "<html></html>").unwrap();
    let (title, requests) = match plan {
        OutputPlan::AssetJob { title, requests } => (title, requests),
        _ => panic!("expected an asset collection"),
    };
    let fetches = vec![
        AssetFetch { index: 0, data: Ok(b"png-bytes".to_vec()) },
        AssetFetch { index: 1, data: Err("404 not found".to_string()) },
    ];
    let outcome = match package_assets(&title, &requests, fetches) {
        Err(e) => Err(e),
        Ok(_) => panic!("a failed fetch must abort packaging"),
    };
    service.complete_task(&created.id, outcome);

    let snapshot = service.query_task(&created.id).unwrap();
    assert_eq!(snapshot.status, "error");
    assert_eq!(snapshot.message, "404 not found");
    assert_ne!(snapshot.message, "Foo.zip");
}

#[test]
fn document_fetch_failure_fails_the_job() {
    let registry = Arc::new(init_registry());
    let mut service: Download<SiteParser> = Download::new(Arc::clone(&registry));
    let created = service.create_task(&params("url", "http://telegra.ph/a", ""));
    let outcome = match fetched_document(Err("timed out".to_string())) {
        Err(e) => Err(e),
        Ok(_) => panic!("a transport failure must surface"),
    };
    service.complete_task(&created.id, outcome);
    let snapshot = service.query_task(&created.id).unwrap();
    assert_eq!(snapshot.status, "error");
    assert_eq!(snapshot.message, "timed out");
}

#[test]
fn write_failure_fails_the_job() {
    match finish_write("Foo.md".to_string(), Err("disk full".to_string())) {
        Err(TaskError::WriteFailed { message }) => assert_eq!(message, "disk full"),
        _ => panic!("a write failure must surface"),
    }
}

#[test]
fn malformed_document_fails_the_job() {
    let registry = Arc::new(init_registry());
    let p = params("url", "http://telegra.ph/broken", "");
    let err = Download::<SiteParser>::dispatch(&registry, &p, "<html>no header</html>")
        .unwrap_err();
    match err {
        TaskError::MalformedDocument { ref message } => {
            assert_eq!(message, "failed to find the title")
        }
        _ => panic!("expected a malformed-document failure"),
    }
}
