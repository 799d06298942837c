//! Gateway tests: ranges, headers, CORS, errors, the cache, and the
//! string utilities the gateway rests on.

use sd_core::cache::MetadataCache;
use sd_core::catalog::{Catalog, FilePathRecord, LocationRecord};
use sd_core::custom_uri::{
    handle_request, GatewayRequest, Header, HttpResponse, Library, Method, Node,
};
use sd_core::strutil::{parse_i32, u64_to_dec};
use sd_core::vfs::FileStore;

const LIB_UUID: &str = "550e8400-e29b-41d4-a716-446655440000";

fn lib_id() -> u128 {
    uuid::Uuid::parse_str(LIB_UUID).unwrap().as_u128()
}

fn media_record(id: i32, name: &str, ext: &str) -> FilePathRecord {
    FilePathRecord {
        id,
        pub_id: 2000 + id as u128,
        location_id: 1,
        materialized_path: "/".to_string(),
        name: name.to_string(),
        extension: ext.to_string(),
        is_dir: false,
        parent_id: None,
        object_id: None,
        cas_id: None,
        inode: 0,
        device: 0,
        size_in_bytes: 0,
        date_created: 0,
        date_modified: 0,
    }
}

fn node_with(file_bytes: Vec<u8>, ext: &str) -> (Node, FileStore) {
    let catalog = Catalog {
        locations: vec![LocationRecord { id: 1, pub_id: 5, path: "/loc".to_string() }],
        file_paths: vec![media_record(42, "media", ext)],
        objects: Vec::new(),
        next_object_id: 0,
    };
    let node = Node {
        data_directory: "/data".to_string(),
        libraries: vec![Library { id: lib_id(), catalog }],
        cache: MetadataCache::new(),
    };
    let mut files = FileStore::empty();
    let path = format!("/loc/media.{}", ext);
    assert!(files.add(path, file_bytes));
    (node, files)
}

fn get(path: &str, range: Option<&str>) -> GatewayRequest {
    GatewayRequest {
        method: Method::Get,
        uri_path: path.to_string(),
        range_header: range.map(|s| s.to_string()),
    }
}

fn content_length(resp: &HttpResponse) -> Option<u64> {
    resp.headers.iter().find_map(|h| match h {
        Header::ContentLength(v) => Some(*v),
        _ => None,
    })
}

fn content_range(resp: &HttpResponse) -> Option<(u64, u64, u64)> {
    resp.headers.iter().find_map(|h| match h {
        Header::ContentRange { start, last, size } => Some((*start, *last, *size)),
        _ => None,
    })
}

#[test]
fn file_range_request_on_linux() {
    // a 1,024-byte file, Range: bytes=0-99, no chunk capping
    let bytes: Vec<u8> = (0..1024u32).map(|i| (i % 251) as u8).collect();
    let (mut node, files) = node_with(bytes.clone(), "mp4");
    let uri = format!("/file/{}/42", LIB_UUID);
    let resp = handle_request(&mut node, &files, &get(&uri, Some("bytes=0-99")), false);
    assert_eq!(resp.status, 206);
    assert_eq!(content_range(&resp), Some((0, 99, 1024)));
    assert_eq!(content_length(&resp), Some(100));
    assert_eq!(resp.body, bytes[0..100].to_vec());
}

#[test]
fn chunk_cap_is_inert_for_a_small_file() {
    // 10,000 bytes, Range: bytes=0-9999 with capping: the requested
    // length exceeds a third of the file, but the cap of
    // min(10000 - 0, 409600) leaves all 10,000 bytes
    let bytes: Vec<u8> = vec![7u8; 10_000];
    let (mut node, files) = node_with(bytes.clone(), "mp4");
    let uri = format!("/file/{}/42", LIB_UUID);
    let resp = handle_request(&mut node, &files, &get(&uri, Some("bytes=0-9999")), true);
    assert_eq!(resp.status, 206);
    assert_eq!(content_length(&resp), Some(10_000));
    assert_eq!(content_range(&resp), Some((0, 9_999, 10_000)));
    assert_eq!(resp.body.len(), 10_000);
}

#[test]
fn chunk_cap_limits_a_large_range() {
    // 3,000,000 bytes, Range: bytes=0-2999999 with capping: the response
    // carries min(3000000, 409600) = 409600 bytes
    let bytes: Vec<u8> = vec![3u8; 3_000_000];
    let (mut node, files) = node_with(bytes.clone(), "mp4");
    let uri = format!("/file/{}/42", LIB_UUID);
    let resp = handle_request(&mut node, &files, &get(&uri, Some("bytes=0-2999999")), true);
    assert_eq!(resp.status, 206);
    assert_eq!(content_length(&resp), Some(409_600));
    assert_eq!(content_range(&resp), Some((0, 409_599, 3_000_000)));
    assert_eq!(resp.body.len(), 409_600);
}

#[test]
fn range_responses_concatenate_to_the_file() {
    let bytes: Vec<u8> = (0..1000u32).map(|i| (i % 241) as u8).collect();
    let (mut node, files) = node_with(bytes.clone(), "mp4");
    let uri = format!("/file/{}/42", LIB_UUID);
    let mut assembled: Vec<u8> = Vec::new();
    for (s, e) in [(0u32, 249u32), (250, 499), (500, 749), (750, 999)] {
        let hdr = format!("bytes={}-{}", s, e);
        let resp = handle_request(&mut node, &files, &get(&uri, Some(&hdr)), false);
        assert_eq!(resp.status, 206);
        assembled.extend_from_slice(&resp.body);
    }
    assert_eq!(assembled, bytes);
}

#[test]
fn full_get_head_and_post() {
    let bytes: Vec<u8> = vec![1, 2, 3, 4];
    let (mut node, files) = node_with(bytes.clone(), "png");
    let uri = format!("/file/{}/42", LIB_UUID);
    let resp = handle_request(&mut node, &files, &get(&uri, None), false);
    assert_eq!(resp.status, 200);
    assert_eq!(resp.body, bytes);
    assert_eq!(content_length(&resp), Some(4));
    assert!(resp.headers.iter().any(|h| matches!(h, Header::ContentType(t) if t == "image/png")));

    let head = GatewayRequest {
        method: Method::Head,
        uri_path: uri.clone(),
        range_header: None,
    };
    let resp = handle_request(&mut node, &files, &head, false);
    assert_eq!(resp.status, 200);
    assert!(resp.body.is_empty());
    assert_eq!(content_length(&resp), Some(4));

    // ranges apply to GET only
    let head_range = GatewayRequest {
        method: Method::Head,
        uri_path: uri.clone(),
        range_header: Some("bytes=0-1".to_string()),
    };
    let resp = handle_request(&mut node, &files, &head_range, false);
    assert_eq!(resp.status, 200);
}

#[test]
fn cors_preflight() {
    let (mut node, files) = node_with(vec![1], "png");
    let req = GatewayRequest {
        method: Method::Options,
        uri_path: format!("/file/{}/42", LIB_UUID),
        range_header: None,
    };
    let resp = handle_request(&mut node, &files, &req, false);
    assert_eq!(resp.status, 200);
    assert!(resp.body.is_empty());
    assert_eq!(
        resp.headers,
        vec![
            Header::AccessControlAllowOrigin,
            Header::AccessControlAllowMethods,
            Header::AccessControlAllowHeaders,
            Header::AccessControlMaxAge,
        ]
    );
}

#[test]
fn thumbnail_roundtrip_and_missing() {
    let (mut node, mut files) = node_with(vec![1], "png");
    let webp = vec![82, 73, 70, 70, 1, 2, 3];
    assert!(files.add("/data/thumbnails/abc.webp".to_string(), webp.clone()));
    let resp = handle_request(&mut node, &files, &get("/thumbnail/abc", None), false);
    assert_eq!(resp.status, 200);
    assert_eq!(resp.body, webp);
    assert!(resp.headers.iter().any(|h| matches!(h, Header::ContentType(t) if t == "image/webp")));
    assert_eq!(content_length(&resp), Some(7));
    // thumbnails are not served in ranges
    assert!(!resp.headers.contains(&Header::AcceptRanges));
    // a missing thumbnail is a 404 with the fixed body
    let resp = handle_request(&mut node, &files, &get("/thumbnail/missing", None), false);
    assert_eq!(resp.status, 404);
    assert_eq!(resp.body, b"Resource 'file' not found".to_vec());
}

#[test]
fn bad_requests_and_not_found() {
    let (mut node, files) = node_with(vec![1], "png");
    let resp = handle_request(&mut node, &files, &get("/nonsense/zzz", None), false);
    assert_eq!(resp.status, 400);
    assert_eq!(resp.body, b"Invalid operation!".to_vec());

    let resp = handle_request(&mut node, &files, &get("/file/not-a-uuid/42", None), false);
    assert_eq!(resp.status, 400);
    assert_eq!(resp.body, b"Invalid number of parameters. Missing library_id!".to_vec());

    let uri = format!("/file/{}/notanumber", LIB_UUID);
    let resp = handle_request(&mut node, &files, &get(&uri, None), false);
    assert_eq!(resp.status, 400);
    assert_eq!(resp.body, b"Invalid number of parameters. Missing file_path_id!".to_vec());

    // an unregistered library
    let other = "00000000-0000-0000-0000-000000000001";
    let resp = handle_request(&mut node, &files, &get(&format!("/file/{}/42", other), None), false);
    assert_eq!(resp.status, 404);
    assert_eq!(resp.body, b"Resource 'library' not found".to_vec());

    // an entry the catalog does not have
    let resp = handle_request(&mut node, &files, &get(&format!("/file/{}/77", LIB_UUID), None), false);
    assert_eq!(resp.status, 404);
    assert_eq!(resp.body, b"Resource 'object' not found".to_vec());

    // a catalog entry whose file is gone from disk
    let empty_files = FileStore::empty();
    let resp = handle_request(&mut node, &empty_files, &get(&format!("/file/{}/42", LIB_UUID), None), false);
    assert_eq!(resp.status, 404);
    assert_eq!(resp.body, b"Resource 'file' not found".to_vec());
}

#[test]
fn unknown_extension_is_a_bad_request() {
    let (mut node, files) = node_with(vec![1], "xyz");
    let uri = format!("/file/{}/42", LIB_UUID);
    let resp = handle_request(&mut node, &files, &get(&uri, None), false);
    assert_eq!(resp.status, 400);
    assert_eq!(
        resp.body,
        b"This filetype is not supported because of the missing mime type!".to_vec()
    );
}

#[test]
fn suffix_range_on_an_empty_file_serves_the_empty_file() {
    // the range parser clips a suffix range against an empty file to the
    // degenerate (0, 0); the gateway serves the whole (empty) file
    let (mut node, files) = node_with(Vec::new(), "png");
    let uri = format!("/file/{}/42", LIB_UUID);
    let resp = handle_request(&mut node, &files, &get(&uri, Some("bytes=-1")), false);
    assert_eq!(resp.status, 200);
    assert!(resp.body.is_empty());
    assert_eq!(content_length(&resp), Some(0));
}

#[test]
fn range_header_errors() {
    let (mut node, files) = node_with(vec![0u8; 100], "mp4");
    let uri = format!("/file/{}/42", LIB_UUID);
    let resp = handle_request(&mut node, &files, &get(&uri, Some("bytes=5-2")), false);
    assert_eq!(resp.status, 416);
    assert_eq!(resp.body, b"Error decoding range header!".to_vec());
    let resp = handle_request(&mut node, &files, &get(&uri, Some("bytes=0-1,5-6")), false);
    assert_eq!(resp.status, 416);
    assert_eq!(resp.body, b"Multiple ranges are not supported!".to_vec());
}

#[test]
fn cache_serves_repeat_requests_and_goes_stale() {
    let bytes = vec![1, 2, 3];
    let (mut node, files) = node_with(bytes.clone(), "png");
    let uri = format!("/file/{}/42", LIB_UUID);
    let resp = handle_request(&mut node, &files, &get(&uri, None), false);
    assert_eq!(resp.status, 200);
    assert_eq!(node.cache.entries.len(), 1);
    // drop the catalog entry: the cached resolution still serves
    node.libraries[0].catalog.file_paths.clear();
    let resp = handle_request(&mut node, &files, &get(&uri, None), false);
    assert_eq!(resp.status, 200);
    assert_eq!(resp.body, bytes);
    // with the file gone too, the stale entry surfaces as a 404
    let empty = FileStore::empty();
    let resp = handle_request(&mut node, &empty, &get(&uri, None), false);
    assert_eq!(resp.status, 404);
    assert_eq!(resp.body, b"Resource 'file' not found".to_vec());
}

#[test]
fn cache_is_bounded() {
    let mut cache = MetadataCache::new();
    for i in 0..150 {
        cache.insert(1, i, format!("/p/{}", i), "png".to_string());
    }
    assert!(cache.entries.len() <= 100);
    // the most recent insertion is present
    assert_eq!(
        cache.get(1, 149),
        Some(("/p/149".to_string(), "png".to_string()))
    );
    // refreshing an existing key keeps one copy
    cache.insert(1, 149, "/q".to_string(), "jpg".to_string());
    assert_eq!(cache.get(1, 149), Some(("/q".to_string(), "jpg".to_string())));
    assert!(cache.entries.len() <= 100);
}

#[test]
fn decimal_parsing_matches_the_standard_parser() {
    assert_eq!(parse_i32("123"), Some(123));
    assert_eq!(parse_i32("+7"), Some(7));
    assert_eq!(parse_i32("-2147483648"), Some(-2147483648));
    assert_eq!(parse_i32("2147483647"), Some(2147483647));
    assert_eq!(parse_i32("2147483648"), None);
    assert_eq!(parse_i32("12x"), None);
    assert_eq!(parse_i32(""), None);
    assert_eq!(parse_i32("-"), None);
    for s in ["0", "42", "-17", "+250", "99999999999", "1e3"] {
        assert_eq!(parse_i32(s), s.parse::<i32>().ok(), "mismatch on {:?}", s);
    }
}

#[test]
fn decimal_formatting_matches_the_standard_formatter() {
    for n in [0u64, 1, 9, 10, 409600, 18446744073709551615] {
        assert_eq!(u64_to_dec(n), n.to_string());
    }
}

#[test]
fn thumbnail_exists_checks_the_store() {
    let (node, mut files) = node_with(vec![1], "png");
    assert!(files.add("/data/thumbnails/abc.webp".to_string(), vec![9]));
    let lib = &node.libraries[0];
    assert!(lib.thumbnail_exists(&files, "/data", "abc"));
    assert!(!lib.thumbnail_exists(&files, "/data", "missing"));
}

#[test]
fn a_dangling_location_is_a_query_error() {
    let (mut node, files) = node_with(vec![1], "png");
    // the entry's location id no longer resolves
    node.libraries[0].catalog.locations.clear();
    let uri = format!("/file/{}/42", LIB_UUID);
    let resp = handle_request(&mut node, &files, &get(&uri, None), false);
    assert_eq!(resp.status, 500);
    assert_eq!(resp.body, b"Internal Server Error".to_vec());
}
