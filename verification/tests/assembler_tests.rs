use casync_rs::assembler::{
    assemble_chunks, decompress_chunk, extract_chunk_path, index_chunk_names, is_http_url,
    split_index_url,
};
use casync_rs::roundtrip::index_bytes;
use casync_rs::chunker::{chunk_hasher, boundary_hash, chunk_index_entry, compress_chunk, process_chunks};
use casync_rs::extracter::resource_location;
use std::collections::HashMap;

#[test]
fn http_urls() {
    assert!(is_http_url("http://0.0.0.0:8000/index.caidx"));
    assert!(is_http_url("https://example.com/"));
    assert!(is_http_url("HTTP://example.com/"));
    assert!(!is_http_url("index.caidx"));
    assert!(!is_http_url("./default.castr"));
    assert!(!is_http_url("ftp://example.com/x"));
    assert!(!is_http_url("file:///tmp/x"));
    assert!(!is_http_url(""));
}

#[test]
fn split_index_urls() {
    let (base, name) = split_index_url("http://0.0.0.0:8000/index.caidx").unwrap();
    assert_eq!(base, "http:0.0.0.0:8000");
    assert_eq!(name, "index.caidx");
    assert_eq!(split_index_url("index.caidx"), None);
    let (base, name) = split_index_url("http://h/a/b/").unwrap();
    assert_eq!(base, "http:hab");
    assert_eq!(name, "");
    let (base, name) = split_index_url("http://h/\u{fc}/x?q=1").unwrap();
    assert_eq!(base, "http:h\u{fc}");
    assert_eq!(name, "x?q=1");
}

#[test]
fn extract_paths() {
    assert_eq!(extract_chunk_path("default.castr", "abc", "cacnk"), "default.castr/abc.cacnk");
    assert_eq!(extract_chunk_path("my.castr", "abc", "cacnk"), "my.castr/abc.cacnk");
    assert_eq!(
        extract_chunk_path("http://0.0.0.0:8000/", "abc", "cacnk"),
        "./default.castr/abc.cacnk"
    );
}

#[test]
fn resource_locations() {
    let mut url = String::from("http://0.0.0.0:8000");
    let path = resource_location(&mut url, "index.caidx");
    assert_eq!(path, "./index.caidx");
    assert_eq!(url, "http://0.0.0.0:8000/./index.caidx");
}

#[test]
fn index_names_from_records() {
    let (n1, r1) = chunk_index_entry(b"one");
    let (n2, r2) = chunk_index_entry(b"two");
    let mut index = Vec::new();
    index.extend_from_slice(&r1);
    index.extend_from_slice(&r2);
    assert_eq!(index_chunk_names(&index), vec![Some(n1.clone()), Some(n2.clone())]);
    // a short tail is not a record
    index.extend_from_slice(&[b'x'; 69]);
    assert_eq!(index_chunk_names(&index), vec![Some(n1), Some(n2)]);
    assert_eq!(index_chunk_names(&[]), Vec::<Option<String>>::new());
}

#[test]
fn index_names_invalid_utf8() {
    let mut rec = [b'a'; 70];
    rec[3] = 0xff;
    let names = index_chunk_names(&rec);
    assert_eq!(names, vec![None]);
    // bytes past the name are not part of it
    let mut rec2 = [b'a'; 70];
    rec2[65] = 0xff;
    assert_eq!(index_chunk_names(&rec2), vec![Some("a".repeat(64))]);
}

#[test]
fn extract_inverts_make() {
    let mut data = vec![3u8; 700000];
    data.extend_from_slice(&[9, 45, 128, 100, 122, 9, 45, 128, 100, 122, 9, 45, 128, 100, 122]);
    data.extend_from_slice(&vec![5u8; 1000]);
    let mut b = chunk_hasher();
    let h = boundary_hash(&b);
    let chunks = process_chunks(&mut b, h, &data);
    assert_eq!(chunks.len(), 2);
    let index = index_bytes(&chunks);
    assert_eq!(index.len(), 140);
    let mut store = HashMap::new();
    for c in &chunks {
        let (name, _) = chunk_index_entry(c);
        store.insert(name, compress_chunk(c).unwrap());
    }
    let mut stored = Vec::new();
    for name in index_chunk_names(&index) {
        stored.push(store[&name.unwrap()].clone());
    }
    assert_eq!(assemble_chunks(&stored), data);
}

#[test]
fn assemble_skips_undecodable_chunk() {
    let a = compress_chunk(b"ab").unwrap();
    let c = compress_chunk(b"cd").unwrap();
    assert_eq!(assemble_chunks(&vec![a, b"junk".to_vec(), c]), b"abcd".to_vec());
    assert_eq!(assemble_chunks(&vec![]), Vec::<u8>::new());
}

#[test]
fn truncated_chunk_gives_what_was_decoded() {
    let data: Vec<u8> = (0..400000u32).map(|i| (i.wrapping_mul(2654435761) >> 13) as u8).collect();
    let stored = compress_chunk(&data).unwrap();
    let cut = &stored[..stored.len() - 10];
    let partial = decompress_chunk(cut);
    assert!(!partial.is_empty());
    assert!(partial.len() < data.len());
    assert_eq!(&data[..partial.len()], &partial[..]);
    assert_eq!(assemble_chunks(&vec![cut.to_vec()]), partial);
}
