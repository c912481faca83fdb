use std::io::Read;

use pagepack::downloader::{package_assets, AssetFetch, AssetRequest};
use pagepack::service::TaskError;

fn requests_for(urls: &[&str]) -> Vec<AssetRequest> {
    let w = pagepack::downloader::pad_width(urls.len());
    urls.iter()
        .enumerate()
        .map(|(i, url)| AssetRequest {
            url: url.to_string(),
            name: pagepack::downloader::asset_name(i, w, url),
        })
        .collect()
}

fn entry_names_and_bytes(archive_bytes: &[u8]) -> Vec<(String, Vec<u8>)> {
    let mut archive = zip::ZipArchive::new(std::io::Cursor::new(archive_bytes.to_vec())).unwrap();
    let mut out = Vec::new();
    for i in 0..archive.len() {
        let mut entry = archive.by_index(i).unwrap();
        let mut data = Vec::new();
        entry.read_to_end(&mut data).unwrap();
        out.push((entry.name().to_string(), data));
    }
    out
}

#[test]
fn archive_entries_in_positional_order_despite_arrival_order() {
    let requests = requests_for(&["http://x/1.png", "http://x/2.jpg"]);
    let fetches = vec![
        AssetFetch { index: 1, data: Ok(b"second".to_vec()) },
        AssetFetch { index: 0, data: Ok(b"first".to_vec()) },
    ];
    let archive = package_assets("Foo", &requests, fetches).unwrap();
    assert_eq!(archive.path, "Foo.zip");
    let entries = entry_names_and_bytes(&archive.bytes);
    assert_eq!(entries.len(), 2);
    assert_eq!(entries[0].0, "Foo/0.png");
    assert_eq!(entries[0].1, b"first".to_vec());
    assert_eq!(entries[1].0, "Foo/1.jpg");
    assert_eq!(entries[1].1, b"second".to_vec());
}

#[test]
fn archive_bytes_identical_for_any_arrival_order() {
    let requests = requests_for(&["http://x/a.png", "http://x/b.png", "http://x/c.gif"]);
    let one = vec![
        AssetFetch { index: 2, data: Ok(b"C".to_vec()) },
        AssetFetch { index: 0, data: Ok(b"A".to_vec()) },
        AssetFetch { index: 1, data: Ok(b"B".to_vec()) },
    ];
    let other = vec![
        AssetFetch { index: 0, data: Ok(b"A".to_vec()) },
        AssetFetch { index: 1, data: Ok(b"B".to_vec()) },
        AssetFetch { index: 2, data: Ok(b"C".to_vec()) },
    ];
    let first = package_assets("T", &requests, one).unwrap();
    let second = package_assets("T", &requests, other).unwrap();
    assert_eq!(first.bytes, second.bytes);
}

#[test]
fn empty_collection_yields_well_formed_empty_archive() {
    let requests = requests_for(&[]);
    let archive = package_assets("Empty", &requests, Vec::new()).unwrap();
    assert_eq!(archive.path, "Empty.zip");
    let entries = entry_names_and_bytes(&archive.bytes);
    assert_eq!(entries.len(), 0);
}

#[test]
fn one_failed_fetch_aborts_packaging() {
    let requests = requests_for(&["http://x/1.png", "http://x/2.jpg"]);
    let fetches = vec![
        AssetFetch { index: 0, data: Ok(b"first".to_vec()) },
        AssetFetch { index: 1, data: Err("connection reset".to_string()) },
    ];
    match package_assets("Foo", &requests, fetches) {
        Err(TaskError::FetchFailed { message }) => assert_eq!(message, "connection reset"),
        _ => panic!("a failed fetch must abort the whole packaging"),
    }
}

#[test]
fn first_failure_in_arrival_order_is_reported() {
    let requests = requests_for(&["http://x/1.png", "http://x/2.jpg"]);
    let fetches = vec![
        AssetFetch { index: 1, data: Err("late error".to_string()) },
        AssetFetch { index: 0, data: Err("early error".to_string()) },
    ];
    match package_assets("Foo", &requests, fetches) {
        Err(TaskError::FetchFailed { message }) => assert_eq!(message, "late error"),
        _ => panic!("a failed fetch must abort the whole packaging"),
    }
}

#[test]
fn ten_assets_use_width_two_names() {
    let urls: Vec<String> = (0..10).map(|i| format!("http://x/{i}.png")).collect();
    let url_refs: Vec<&str> = urls.iter().map(|u| u.as_str()).collect();
    let requests = requests_for(&url_refs);
    let fetches: Vec<AssetFetch> = (0..10)
        .rev()
        .map(|i| AssetFetch { index: i, data: Ok(vec![i as u8]) })
        .collect();
    let archive = package_assets("Big", &requests, fetches).unwrap();
    let entries = entry_names_and_bytes(&archive.bytes);
    assert_eq!(entries[0].0, "Big/00.png");
    assert_eq!(entries[9].0, "Big/09.png");
    assert_eq!(entries[3].1, vec![3u8]);
}

#[test]
fn entry_name_beyond_format_limit_is_a_write_failure() {
    // The entry path is the title plus the entry name; a title longer than
    // the format's 16-bit name field makes the writer refuse the entry.
    let title = "t".repeat(70_000);
    let requests = requests_for(&["http://x/1.png"]);
    let fetches = vec![AssetFetch { index: 0, data: Ok(b"bytes".to_vec()) }];
    match package_assets(&title, &requests, fetches) {
        Err(TaskError::WriteFailed { .. }) => {}
        _ => panic!("an entry the format refuses must surface as a write failure"),
    }
}
