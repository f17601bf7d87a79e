use casync_rs::chunker::{
    boundary_hash, chunk_exists, chunk_file_path, chunk_hash, chunk_hasher, chunk_index_entry,
    chunk_update, compress_chunk, find_index_record, get_chunk_size_bytes, index_record, match_arrays,
    process_chunks, shall_break, ChunkerConfig, CHUNK_MAX_SIZE, CHUNK_MIN_SIZE,
};
use casync_rs::assembler::decompress_chunk;

const PATTERN: [u8; 15] = [9, 45, 128, 100, 122, 9, 45, 128, 100, 122, 9, 45, 128, 100, 122];

#[test]
fn config_defaults() {
    let c = ChunkerConfig::new(None, None, None);
    assert_eq!(c.chunk_count, 0);
    assert_eq!(c.get_chunk_store_dir_name(), "default.castr");
    assert_eq!(c.get_chunk_index_file_name(), "index.caidx");
    assert_eq!(c.get_chunk_file_extension(), "cacnk");
    assert_eq!(c.get_input_file_name(), "block");
    assert_eq!(c.get_assembled_file_name(), "block");
    assert_eq!(c.chunk_min_size, 512000);
    assert_eq!(c.chunk_max_size, 1024000);
}

#[test]
fn config_given_paths() {
    let c = ChunkerConfig::new(Some("my.caidx"), Some("store"), Some("input"));
    assert_eq!(c.get_chunk_store_dir_name(), "store");
    assert_eq!(c.get_chunk_index_file_name(), "my.caidx");
    assert_eq!(c.get_input_file_name(), "input");
    assert_eq!(c.get_assembled_file_name(), "input");
    assert_eq!(c.get_chunk_file_extension(), "cacnk");
}

#[test]
fn shall_break_bounds() {
    assert!(!shall_break(0));
    assert!(!shall_break(512000));
    assert!(shall_break(512001));
    assert!(shall_break(1023999));
    assert!(!shall_break(1024000));
    assert_eq!(CHUNK_MIN_SIZE, 512000);
    assert_eq!(CHUNK_MAX_SIZE, 1024000);
}

#[test]
fn chunk_size_bytes_big_endian() {
    assert_eq!(get_chunk_size_bytes(0), [0, 0, 0, 0, 0, 0]);
    assert_eq!(get_chunk_size_bytes(600015), [0, 0, 0, 0x09, 0x27, 0xcf]);
    assert_eq!(get_chunk_size_bytes(0x0102_0304_0506), [1, 2, 3, 4, 5, 6]);
    // only the low 48 bits are kept
    assert_eq!(get_chunk_size_bytes(0x0701_0203_0405_0607), [2, 3, 4, 5, 6, 7]);
}

#[test]
fn chunk_hash_is_sha256_hex() {
    assert_eq!(
        chunk_hash(b"abc"),
        "ba7816bf8f01cfea414140de5dae2223b00361a396177a9cb410ff61f20015ad"
    );
    assert_eq!(
        chunk_hash(b""),
        "e3b0c44298fc1c149afbf4c8996fb92427ae41e4649b934ca495991b7852b855"
    );
}

#[test]
fn index_record_layout() {
    let hash = [b'a'; 64];
    let rec = index_record(&hash, [1, 2, 3, 4, 5, 6]);
    assert_eq!(&rec[..64], &hash[..]);
    assert_eq!(&rec[64..], &[1, 2, 3, 4, 5, 6]);
    // longer hash text: only its first 64 bytes are used
    let long = [b'b'; 80];
    let rec2 = index_record(&long, [0; 6]);
    assert_eq!(&rec2[..64], &long[..64]);
}

#[test]
fn chunk_index_entry_of_abc() {
    let (name, rec) = chunk_index_entry(b"abc");
    assert_eq!(name, "ba7816bf8f01cfea414140de5dae2223b00361a396177a9cb410ff61f20015ad");
    assert_eq!(&rec[..64], name.as_bytes());
    assert_eq!(&rec[64..], &[0, 0, 0, 0, 0, 3]);
}

#[test]
fn match_arrays_ignores_first_byte() {
    let a = [7u8; 70];
    let mut b = [7u8; 70];
    assert!(match_arrays(a, b));
    b[0] = 1;
    assert!(match_arrays(a, b));
    b[69] = 1;
    assert!(!match_arrays(a, b));
    let mut c = [7u8; 70];
    c[1] = 0;
    assert!(!match_arrays(a, c));
}

#[test]
fn find_and_exists_in_index() {
    let (_, r1) = chunk_index_entry(b"first");
    let (_, r2) = chunk_index_entry(b"second");
    let (_, r3) = chunk_index_entry(b"third");
    let mut index = Vec::new();
    index.extend_from_slice(&r1);
    index.extend_from_slice(&r2);
    index.extend_from_slice(&r2);
    assert_eq!(find_index_record(&index, &r1), Some(0));
    assert_eq!(find_index_record(&index, &r2), Some(1));
    assert_eq!(find_index_record(&index, &r3), None);
    assert_eq!(find_index_record(&[], &r1), None);
    // a record cut short at the end is not read
    let short = &r3[..69];
    let mut with_tail = index.clone();
    with_tail.extend_from_slice(short);
    assert_eq!(find_index_record(&with_tail, &r3), None);

    let h2 = chunk_hash(b"second");
    let s2 = get_chunk_size_bytes(6);
    assert!(chunk_exists(&index, h2.as_bytes(), s2));
    assert!(!chunk_exists(&index, h2.as_bytes(), get_chunk_size_bytes(7)));
    assert!(!chunk_exists(&[], h2.as_bytes(), s2));
}

#[test]
fn chunk_file_path_in_store() {
    let c = ChunkerConfig::new(None, None, Some("f"));
    assert_eq!(chunk_file_path(&c, "abc"), "default.castr/abc.cacnk");
    let d = ChunkerConfig::new(None, Some("/tmp/s"), Some("f"));
    assert_eq!(chunk_file_path(&d, "abc"), "/tmp/s/abc.cacnk");
}

#[test]
fn compress_roundtrip() {
    let data: Vec<u8> = (0..10000u32).map(|i| (i % 251) as u8).collect();
    let stored = compress_chunk(&data).unwrap();
    assert_ne!(stored, data);
    assert_eq!(stored, zstd::stream::encode_all(&data[..], 21).unwrap());
    assert_eq!(decompress_chunk(&stored), data);
    assert_eq!(decompress_chunk(b"not zstd"), Vec::<u8>::new());
    let empty = compress_chunk(&[]).unwrap();
    assert_eq!(decompress_chunk(&empty), Vec::<u8>::new());
}

#[test]
fn boundary_hash_of_fresh_hasher() {
    let b = chunk_hasher();
    assert_eq!(boundary_hash(&b), 69);
    let mut m = hash_roll::buzhash::BuzHashBuf::from(hash_roll::buzhash::BuzHash::with_capacity(15));
    m.push(&PATTERN);
    assert_eq!(boundary_hash(&b), m.hash());
}

#[test]
fn small_input_is_one_chunk() {
    let mut b = chunk_hasher();
    let h = boundary_hash(&b);
    let data = b"hello world".to_vec();
    let chunks = process_chunks(&mut b, h, &data);
    assert_eq!(chunks, vec![data]);
}

#[test]
fn empty_input_is_one_empty_chunk() {
    let mut b = chunk_hasher();
    let h = boundary_hash(&b);
    let chunks = process_chunks(&mut b, h, &[]);
    assert_eq!(chunks, vec![Vec::<u8>::new()]);
}

#[test]
fn chunk_ends_after_boundary_pattern() {
    let mut data = vec![0u8; 600000];
    data.extend_from_slice(&PATTERN);
    data.extend_from_slice(&[0u8; 100]);
    data.extend_from_slice(&PATTERN);
    data.extend_from_slice(&[0u8; 5]);
    let mut b = chunk_hasher();
    let h = boundary_hash(&b);
    let chunks = process_chunks(&mut b, h, &data);
    let lens: Vec<usize> = chunks.iter().map(|c| c.len()).collect();
    // the second pattern comes too soon after the first break
    assert_eq!(lens, vec![600015, 120]);
    assert_eq!(chunks.concat(), data);
}

#[test]
fn pattern_too_early_does_not_break() {
    let mut data = vec![0u8; 1000];
    data.extend_from_slice(&PATTERN);
    data.extend_from_slice(&[0u8; 10]);
    let mut b = chunk_hasher();
    let h = boundary_hash(&b);
    let chunks = process_chunks(&mut b, h, &data);
    assert_eq!(chunks.len(), 1);
    assert_eq!(chunks[0], data);
}

#[test]
fn long_run_without_match_is_cut_at_max() {
    let data = vec![0u8; 1024001];
    let mut b = chunk_hasher();
    let h = boundary_hash(&b);
    let chunks = process_chunks(&mut b, h, &data);
    let lens: Vec<usize> = chunks.iter().map(|c| c.len()).collect();
    assert_eq!(lens, vec![1024000, 1]);
    let data2 = vec![7u8; 2 * 1024000];
    let mut b2 = chunk_hasher();
    let chunks2 = process_chunks(&mut b2, h, &data2);
    let lens2: Vec<usize> = chunks2.iter().map(|c| c.len()).collect();
    assert_eq!(lens2, vec![1024000, 1024000, 0]);
}

#[test]
fn chunk_update_stores_new_chunk() {
    let c = ChunkerConfig::new(None, None, Some("f"));
    let u = chunk_update(&[], b"abc", &c);
    let (name, rec) = chunk_index_entry(b"abc");
    assert_eq!(u.record, rec);
    assert_eq!(u.matched, None);
    assert_eq!(u.matched_end, None);
    let (path, bytes) = u.store.unwrap();
    assert_eq!(path, format!("default.castr/{}.cacnk", name));
    assert_eq!(decompress_chunk(&bytes), b"abc".to_vec());
}

#[test]
fn chunk_update_finds_recorded_chunk() {
    let c = ChunkerConfig::new(None, None, Some("f"));
    let (_, r1) = chunk_index_entry(b"one");
    let (_, r2) = chunk_index_entry(b"two");
    let mut rest = Vec::new();
    rest.extend_from_slice(&r1);
    rest.extend_from_slice(&r2);
    let u = chunk_update(&rest, b"two", &c);
    assert_eq!(u.matched, Some(1));
    assert_eq!(u.matched_end, Some(140));
    assert!(u.store.is_none());
    assert_eq!(u.record, r2);
}
