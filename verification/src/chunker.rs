use vstd::prelude::*;
use vstd::string::StringExecFns;
use vstd::utf8::{encode_utf8, is_ascii_chars, is_ascii_chars_encode_utf8};
use crate::codec::{lower_hex, hex_digits, sha256_digest, sha256_hex, zstd_encode, zstd_encoded, zstd_stream_decoded};
use hash_roll::buzhash::BuzHashBuf;
use crate::rolling::{
    buzhash_after, buzhash_clone, buzhash_digest, buzhash_hash, buzhash_push,
    buzhash_push_byte, buzhash_value, buzhash_window, buzhash_with_capacity, lemma_after_keeps_digest,
    lemma_digest_zeros,
};

verus! {

/// Lower bound (exclusive) on the length of a chunk that ends at a hash match.
pub const CHUNK_MIN_SIZE: u32 = 512000;

/// Largest chunk: a chunk that reaches this length ends there, and a
/// chunk that ends at a hash match is shorter.
pub const CHUNK_MAX_SIZE: u32 = 1024000;

/// Settings shared by the `make` and `extract` commands.
pub struct ChunkerConfig<'a> {
    pub chunk_count: u64,
    pub default_chunk_store_dir: &'a str,
    pub default_chunk_index_file: &'a str,
    pub chunk_min_size: u32,
    pub chunk_max_size: u32,
    pub chunk_extension: &'a str,
    pub input: &'a str,
    pub output: &'a str,
}

/// The value an optional setting takes: the given one, or the default.
pub open spec fn setting_or(given: Option<&str>, default: Seq<char>) -> Seq<char> {
    match given {
        Some(s) => s@,
        None => default,
    }
}

impl<'a> ChunkerConfig<'a> {
    /// Builds the configuration: each path that is not given takes its
    /// default (`default.castr`, `index.caidx`, `block`); the input and the
    /// output file are the same file.
    pub fn new(index_file: Option<&'a str>, store_dir: Option<&'a str>, io_file: Option<&'a str>) -> (r: ChunkerConfig<'a>)
        ensures
            r.chunk_count == 0,
            r.default_chunk_store_dir@ == setting_or(store_dir, "default.castr"@),
            r.default_chunk_index_file@ == setting_or(index_file, "index.caidx"@),
            r.input@ == setting_or(io_file, "block"@),
            r.output@ == r.input@,
            r.chunk_min_size == CHUNK_MIN_SIZE,
            r.chunk_max_size == CHUNK_MAX_SIZE,
            r.chunk_extension@ == "cacnk"@,
    {
        let chunk_store_dir = match store_dir {
            Some(dir_path) => dir_path,
            None => "default.castr",
        };
        let chunk_index_file = match index_file {
            Some(file_path) => file_path,
            None => "index.caidx",
        };
        let io_file = match io_file {
            Some(file) => file,
            None => "block",
        };
        ChunkerConfig {
            chunk_count: 0,
            default_chunk_store_dir: chunk_store_dir,
            default_chunk_index_file: chunk_index_file,
            input: io_file,
            chunk_min_size: CHUNK_MIN_SIZE,
            chunk_max_size: CHUNK_MAX_SIZE,
            chunk_extension: "cacnk",
            output: io_file,
        }
    }
}

/// Whether a chunk of this length may end where the rolling hash matches.
pub open spec fn spec_shall_break(chunk_size: int) -> bool {
    CHUNK_MIN_SIZE < chunk_size < CHUNK_MAX_SIZE
}

/// Whether a chunk of `chunk_size` bytes may end at a hash match.
pub fn shall_break(chunk_size: usize) -> (r: bool)
    ensures
        r == spec_shall_break(chunk_size as int),
        r <==> 512000 < chunk_size && chunk_size < 1024000,
{
    chunk_size > 512000 && chunk_size < 1024000
}

/// A chunk may end at a hash match exactly when it is longer than 512000
/// bytes and shorter than 1024000 bytes.
pub proof fn lemma_shall_break_bounds(n: int)
    ensures
        spec_shall_break(n) <==> 512000 < n && n < 1024000,
{
}


/// Number of bytes the rolling hash looks at.
pub const HASH_WINDOW: usize = 15;

/// The bytes whose rolling hash marks a chunk boundary.
pub open spec fn boundary_pattern() -> Seq<u8> {
    seq![9u8, 45, 128, 100, 122, 9, 45, 128, 100, 122, 9, 45, 128, 100, 122]
}

/// A fresh rolling hasher over a window of `HASH_WINDOW` bytes: the window
/// holds zeros and the hash value is their digest, 0.
pub fn chunk_hasher() -> (b: BuzHashBuf)
    ensures
        buzhash_window(b) == Seq::new(HASH_WINDOW as nat, |_i: int| 0u8),
        buzhash_value(b) == 0,
        buzhash_value(b) == buzhash_digest(buzhash_window(b)),
{
    let b = buzhash_with_capacity(HASH_WINDOW);
    proof {
        lemma_digest_zeros(HASH_WINDOW as nat);
    }
    b
}

/// The hash value that marks a chunk boundary: the hash a copy of `b` has
/// once the boundary pattern has been pushed into it. `b` is left as it was.
/// For a hasher whose value is the digest of its 15-byte window (as
/// `chunk_hasher` makes it), that is the digest of the pattern.
pub fn boundary_hash(b: &BuzHashBuf) -> (h: u8)
    ensures
        h == buzhash_after(buzhash_window(*b), buzhash_value(*b), boundary_pattern()).1,
        buzhash_value(*b) == buzhash_digest(buzhash_window(*b)) && buzhash_window(*b).len() == HASH_WINDOW
            ==> h == buzhash_digest(boundary_pattern()),
{
    let mut m = buzhash_clone(b);
    let pattern: [u8; 15] = [9, 45, 128, 100, 122, 9, 45, 128, 100, 122, 9, 45, 128, 100, 122];
    assert(pattern@ == boundary_pattern());
    buzhash_push(&mut m, &pattern);
    proof {
        let w = buzhash_window(*b);
        if buzhash_value(*b) == buzhash_digest(w) && w.len() == HASH_WINDOW {
            lemma_after_keeps_digest(w, boundary_pattern());
            assert((w + boundary_pattern()).skip(15) =~= boundary_pattern());
        }
    }
    buzhash_hash(&m)
}

/// The rolling hash after each byte of `data`, starting from a hasher with
/// window `window` and hash value `value`: entry `i` is the hash value once
/// `data[0..=i]` has been pushed.
pub open spec fn rolling_hashes(window: Seq<u8>, value: u8, data: Seq<u8>) -> Seq<u8> {
    Seq::new(data.len(), |i: int| buzhash_after(window, value, data.take(i + 1)).1)
}

/// Whether the open chunk `cur`, whose last byte left the hash `hash`, is
/// closed: at a hash match with a length that allows a break, or on reaching
/// `CHUNK_MAX_SIZE` bytes.
pub open spec fn closes_chunk(hash: u8, target: u8, len: int) -> bool {
    (hash == target && spec_shall_break(len)) || len >= CHUNK_MAX_SIZE
}

/// The chunks closed so far and the open chunk, after the first `n` bytes of
/// `data`: each byte joins the open chunk, which is closed when the hash after
/// that byte equals `target` and the chunk's length allows a break, or when
/// the chunk reaches `CHUNK_MAX_SIZE` bytes.
pub open spec fn split_state(data: Seq<u8>, hashes: Seq<u8>, target: u8, n: nat) -> (Seq<Seq<u8>>, Seq<u8>)
    decreases n,
{
    if n == 0 {
        (Seq::empty(), Seq::empty())
    } else {
        let prev = split_state(data, hashes, target, (n - 1) as nat);
        let cur = prev.1.push(data[n - 1]);
        if closes_chunk(hashes[n - 1], target, cur.len() as int) {
            (prev.0.push(cur), Seq::empty())
        } else {
            (prev.0, cur)
        }
    }
}

/// The chunks of `data`: those closed at boundaries, then the rest (which may
/// be empty).
pub open spec fn spec_chunks(data: Seq<u8>, hashes: Seq<u8>, target: u8) -> Seq<Seq<u8>> {
    let st = split_state(data, hashes, target, data.len());
    st.0.push(st.1)
}

/// The contents of a list of byte vectors.
pub open spec fn vec_views(v: Seq<Vec<u8>>) -> Seq<Seq<u8>> {
    v.map_values(|c: Vec<u8>| c@)
}

/// For a hasher whose value is the digest of its window (as `chunk_hasher`
/// makes it), the hash after byte `i` is the digest of the window the bytes
/// up to `i` leave.
pub proof fn lemma_fresh_rolling_hashes(w: Seq<u8>, data: Seq<u8>, i: int)
    requires
        w.len() > 0,
        0 <= i < data.len(),
    ensures
        rolling_hashes(w, buzhash_digest(w), data)[i] == buzhash_digest((w + data.take(i + 1)).skip(i + 1)),
{
    lemma_after_keeps_digest(w, data.take(i + 1));
}

/// A boundary depends only on the bytes the window covers: for hashers
/// whose values are the digests of their windows, once as many bytes as the
/// window holds have been pushed, the rolling hash after byte `i` is the
/// digest of the last bytes read, whatever window they started from.
pub proof fn lemma_rolling_hash_is_local(w1: Seq<u8>, w2: Seq<u8>, data: Seq<u8>, i: int)
    requires
        w1.len() == w2.len(),
        0 < w1.len() <= i + 1,
        0 <= i < data.len(),
    ensures
        rolling_hashes(w1, buzhash_digest(w1), data)[i] == rolling_hashes(w2, buzhash_digest(w2), data)[i],
        rolling_hashes(w1, buzhash_digest(w1), data)[i] == buzhash_digest(data.subrange(i + 1 - w1.len(), i + 1)),
{
    lemma_fresh_rolling_hashes(w1, data, i);
    lemma_fresh_rolling_hashes(w2, data, i);
    assert((w1 + data.take(i + 1)).skip(i + 1) =~= data.subrange(i + 1 - w1.len(), i + 1));
    assert((w2 + data.take(i + 1)).skip(i + 1) =~= data.subrange(i + 1 - w2.len(), i + 1));
}

/// Splits `data` into chunks: a chunk ends after a byte where the rolling hash
/// (`b`, fed with every byte) equals `other_hash`, provided the chunk is longer
/// than `CHUNK_MIN_SIZE` and shorter than `CHUNK_MAX_SIZE` bytes, and it ends
/// anyway once it has `CHUNK_MAX_SIZE` bytes; what is left at the end is the
/// last chunk, even when it is empty.
pub fn process_chunks(b: &mut BuzHashBuf, other_hash: u8, data: &[u8]) -> (chunks: Vec<Vec<u8>>)
    ensures
        vec_views(chunks@) == spec_chunks(
            data@,
            rolling_hashes(buzhash_window(*old(b)), buzhash_value(*old(b)), data@),
            other_hash,
        ),
        buzhash_window(*final(b)) == buzhash_after(buzhash_window(*old(b)), buzhash_value(*old(b)), data@).0,
        buzhash_value(*final(b)) == buzhash_after(buzhash_window(*old(b)), buzhash_value(*old(b)), data@).1,
{
    let ghost w0 = buzhash_window(*b);
    let ghost v0 = buzhash_value(*b);
    let ghost hs = rolling_hashes(w0, v0, data@);
    let mut chunks: Vec<Vec<u8>> = Vec::new();
    let mut chunk_buf: Vec<u8> = Vec::new();
    assert(data@.take(0) =~= Seq::<u8>::empty());
    for i in 0..data.len()
        invariant
            w0 == buzhash_window(*old(b)),
            v0 == buzhash_value(*old(b)),
            hs == rolling_hashes(w0, v0, data@),
            buzhash_window(*b) == buzhash_after(w0, v0, data@.take(i as int)).0,
            buzhash_value(*b) == buzhash_after(w0, v0, data@.take(i as int)).1,
            vec_views(chunks@) == split_state(data@, hs, other_hash, i as nat).0,
            chunk_buf@ == split_state(data@, hs, other_hash, i as nat).1,
    {
        let byte = data[i];
        chunk_buf.push(byte);
        buzhash_push_byte(b, byte);
        assert(data@.take(i + 1).drop_last() =~= data@.take(i as int));
        let h = buzhash_hash(b);
        assert(h == hs[i as int]);
        if (h == other_hash && shall_break(chunk_buf.len())) || chunk_buf.len() >= 1024000 {
            let ghost before = chunks@;
            chunks.push(chunk_buf);
            assert(vec_views(chunks@) =~= vec_views(before).push(split_state(data@, hs, other_hash, (i + 1) as nat).0.last()));
            chunk_buf = Vec::new();
        }
    }
    assert(data@.take(data@.len() as int) =~= data@);
    let ghost before = chunks@;
    chunks.push(chunk_buf);
    assert(vec_views(chunks@) =~= vec_views(before).push(chunk_buf@));
    chunks
}

/// Chunk `j` of `chunks` ends at a boundary: it has a length that allows a
/// break and the hash after its last byte (counted over the concatenation of
/// the chunks) is `target`, or it has `CHUNK_MAX_SIZE` bytes.
pub open spec fn ends_at_boundary(chunks: Seq<Seq<u8>>, hashes: Seq<u8>, target: u8, j: int) -> bool {
    closes_chunk(hashes[chunks.take(j + 1).flatten().len() - 1], target, chunks[j].len() as int)
}

/// The closed chunks and the open one always add up to the bytes read so far,
/// every closed chunk ends at a boundary and has at most `CHUNK_MAX_SIZE`
/// bytes, and the open chunk has fewer.
proof fn lemma_split_state(data: Seq<u8>, hashes: Seq<u8>, target: u8, n: nat)
    requires
        n <= data.len(),
    ensures
        split_state(data, hashes, target, n).0.flatten() + split_state(data, hashes, target, n).1
            == data.take(n as int),
        split_state(data, hashes, target, n).1.len() < CHUNK_MAX_SIZE,
        forall|j: int|
            0 <= j < split_state(data, hashes, target, n).0.len() ==> #[trigger] ends_at_boundary(
                split_state(data, hashes, target, n).0,
                hashes,
                target,
                j,
            ) && split_state(data, hashes, target, n).0[j].len() <= CHUNK_MAX_SIZE,
    decreases n,
{
    if n > 0 {
        let prev = split_state(data, hashes, target, (n - 1) as nat);
        lemma_split_state(data, hashes, target, (n - 1) as nat);
        let cur = prev.1.push(data[n - 1]);
        assert(data.take(n as int) =~= data.take(n - 1).push(data[n - 1]));
        if closes_chunk(hashes[n - 1], target, cur.len() as int) {
            let done = prev.0.push(cur);
            prev.0.lemma_flatten_push(cur);
            assert(done.flatten() + Seq::<u8>::empty() =~= data.take(n as int));
            assert forall|j: int| 0 <= j < done.len() implies #[trigger] ends_at_boundary(done, hashes, target, j)
                && done[j].len() <= CHUNK_MAX_SIZE by {
                if j < prev.0.len() {
                    assert(done.take(j + 1) =~= prev.0.take(j + 1));
                    assert(ends_at_boundary(prev.0, hashes, target, j));
                } else {
                    assert(done.take(j + 1) =~= done);
                }
            }
        } else {
            assert(prev.0.flatten() + cur =~= (prev.0.flatten() + prev.1).push(data[n - 1]));
        }
    }
}

/// Where chunk `i` of `chunks` starts in their concatenation.
pub open spec fn chunk_start(chunks: Seq<Seq<u8>>, i: int) -> int {
    chunks.take(i).flatten().len() as int
}

/// No prefix of the open chunk, and no proper prefix of a closed chunk, is a
/// place where a chunk is closed; a closed chunk is closed after its last byte.
proof fn lemma_split_first_boundary(data: Seq<u8>, hashes: Seq<u8>, target: u8, n: nat)
    requires
        n <= data.len(),
    ensures
        ({
            let st = split_state(data, hashes, target, n);
            &&& forall|j: int, g: int|
                #![trigger chunk_start(st.0, j), hashes[g]]
                0 <= j < st.0.len() && chunk_start(st.0, j) <= g < chunk_start(st.0, j) + st.0[j].len() - 1
                    ==> !closes_chunk(hashes[g], target, g - chunk_start(st.0, j) + 1)
            &&& forall|j: int|
                0 <= j < st.0.len() ==> closes_chunk(
                    hashes[chunk_start(st.0, j) + st.0[j].len() - 1],
                    target,
                    (#[trigger] st.0[j]).len() as int,
                )
            &&& forall|g: int|
                st.0.flatten().len() <= g < st.0.flatten().len() + st.1.len() ==> !closes_chunk(
                    #[trigger] hashes[g],
                    target,
                    g - st.0.flatten().len() + 1,
                )
        }),
    decreases n,
{
    if n > 0 {
        let prev = split_state(data, hashes, target, (n - 1) as nat);
        lemma_split_first_boundary(data, hashes, target, (n - 1) as nat);
        lemma_split_state(data, hashes, target, (n - 1) as nat);
        let cur = prev.1.push(data[n - 1]);
        let o = prev.0.flatten().len() as int;
        assert(o + prev.1.len() == n - 1) by {
            assert((prev.0.flatten() + prev.1).len() == data.take(n - 1).len());
        }
        if closes_chunk(hashes[n - 1], target, cur.len() as int) {
            let done = prev.0.push(cur);
            assert forall|j: int| 0 <= j <= prev.0.len() implies chunk_start(done, j) == chunk_start(prev.0, j) by {
                assert(done.take(j) =~= prev.0.take(j));
            }
            assert(prev.0.take(prev.0.len() as int) =~= prev.0);
            assert forall|j: int, g: int|
                #![trigger chunk_start(done, j), hashes[g]]
                0 <= j < done.len() && chunk_start(done, j) <= g < chunk_start(done, j) + done[j].len() - 1
                implies !closes_chunk(hashes[g], target, g - chunk_start(done, j) + 1) by {
                if j < prev.0.len() {
                    assert(chunk_start(done, j) == chunk_start(prev.0, j));
                    assert(done[j] == prev.0[j]);
                    assert(chunk_start(prev.0, j) <= g < chunk_start(prev.0, j) + prev.0[j].len() - 1);
                } else {
                    assert(chunk_start(done, j) == o);
                    assert(o <= g < o + prev.1.len());
                }
            }
            assert forall|j: int| 0 <= j < done.len() implies closes_chunk(
                hashes[chunk_start(done, j) + done[j].len() - 1],
                target,
                (#[trigger] done[j]).len() as int,
            ) by {
                if j < prev.0.len() {
                    assert(chunk_start(done, j) == chunk_start(prev.0, j));
                    assert(done[j] == prev.0[j]);
                    assert(closes_chunk(hashes[chunk_start(prev.0, j) + prev.0[j].len() - 1], target, prev.0[j].len() as int));
                } else {
                    assert(chunk_start(done, j) == o);
                    assert(o + cur.len() - 1 == n - 1);
                }
            }
        } else {
            assert forall|g: int|
                o <= g < o + cur.len() implies !closes_chunk(#[trigger] hashes[g], target, g - o + 1) by {
                if g < o + prev.1.len() {
                } else {
                    assert(g == n - 1);
                }
            }
        }
    }
}

/// Chunks end at the first boundary: within each chunk, no byte before its
/// last (and, in the last chunk, no byte at all) is followed by a cut, where a
/// cut after a chunk of `len` bytes is a hash equal to `target` with `len`
/// between 512000 and 1024000 (exclusive), or `len` reaching 1024000; and every
/// chunk but the last ends with such a cut. This holds wherever the chunk
/// stands in the data.
pub proof fn lemma_chunks_end_at_first_boundary(data: Seq<u8>, hashes: Seq<u8>, target: u8, chunks: Seq<Seq<u8>>)
    requires
        chunks == spec_chunks(data, hashes, target),
    ensures
        forall|i: int, g: int|
            #![trigger chunk_start(chunks, i), hashes[g]]
            0 <= i < chunks.len() && chunk_start(chunks, i) <= g && (g < chunk_start(chunks, i) + chunks[i].len() - 1
                || (i == chunks.len() - 1 && g < chunk_start(chunks, i) + chunks[i].len())) ==> !(
            (hashes[g] == target && 512000 < g - chunk_start(chunks, i) + 1 && g - chunk_start(chunks, i) + 1 < 1024000)
                || g - chunk_start(chunks, i) + 1 >= 1024000),
        forall|i: int|
            0 <= i < chunks.len() - 1 ==> ((hashes[chunk_start(chunks, i) + chunks[i].len() - 1] == target && 512000
                < (#[trigger] chunks[i]).len() && chunks[i].len() < 1024000) || chunks[i].len() == 1024000),
{
    let st = split_state(data, hashes, target, data.len());
    lemma_split_first_boundary(data, hashes, target, data.len());
    lemma_split_state(data, hashes, target, data.len());
    assert forall|j: int| 0 <= j <= st.0.len() implies chunk_start(chunks, j) == chunk_start(st.0, j) by {
        assert(chunks.take(j) =~= st.0.take(j));
    }
    assert(st.0.take(st.0.len() as int) =~= st.0);
    assert forall|i: int, g: int|
        #![trigger chunk_start(chunks, i), hashes[g]]
        0 <= i < chunks.len() && chunk_start(chunks, i) <= g && (g < chunk_start(chunks, i) + chunks[i].len() - 1
            || (i == chunks.len() - 1 && g < chunk_start(chunks, i) + chunks[i].len())) implies !(
        (hashes[g] == target && 512000 < g - chunk_start(chunks, i) + 1 && g - chunk_start(chunks, i) + 1 < 1024000)
            || g - chunk_start(chunks, i) + 1 >= 1024000) by {
        assert(chunk_start(chunks, i) == chunk_start(st.0, i));
        if i < st.0.len() {
            assert(chunks[i] == st.0[i]);
            if g < chunk_start(chunks, i) + chunks[i].len() - 1 {
                assert(!closes_chunk(hashes[g], target, g - chunk_start(st.0, i) + 1));
            } else {
                assert(false);
            }
        } else {
            assert(chunks[i] == st.1);
            assert(!closes_chunk(hashes[g], target, g - st.0.flatten().len() + 1));
        }
    }
    assert forall|i: int| 0 <= i < chunks.len() - 1 implies ((hashes[chunk_start(chunks, i) + chunks[i].len() - 1]
        == target && 512000 < (#[trigger] chunks[i]).len() && chunks[i].len() < 1024000) || chunks[i].len()
        == 1024000) by {
        assert(chunks[i] == st.0[i]);
        assert(chunk_start(chunks, i) == chunk_start(st.0, i));
        assert(closes_chunk(hashes[chunk_start(st.0, i) + st.0[i].len() - 1], target, st.0[i].len() as int));
        assert(ends_at_boundary(st.0, hashes, target, i));
        assert(st.0[i].len() <= CHUNK_MAX_SIZE);
    }
}

/// Chunking loses nothing: the chunks of `data`, concatenated in order, are
/// `data` itself, whatever the hashes and the target.
pub proof fn lemma_chunks_concatenate(data: Seq<u8>, hashes: Seq<u8>, target: u8)
    ensures
        spec_chunks(data, hashes, target).flatten() == data,
{
    let st = split_state(data, hashes, target, data.len());
    lemma_split_state(data, hashes, target, data.len());
    st.0.lemma_flatten_push(st.1);
    assert(data.take(data.len() as int) =~= data);
}

/// Every chunk but the last ends at a boundary: where the hash after its last
/// byte is the target and it is longer than `CHUNK_MIN_SIZE` and shorter than
/// `CHUNK_MAX_SIZE` bytes, or where it reaches `CHUNK_MAX_SIZE` bytes.
pub proof fn lemma_chunk_boundaries(data: Seq<u8>, hashes: Seq<u8>, target: u8)
    ensures
        forall|i: int|
            0 <= i < spec_chunks(data, hashes, target).len() - 1 ==> #[trigger] ends_at_boundary(
                spec_chunks(data, hashes, target),
                hashes,
                target,
                i,
            ),
{
    let st = split_state(data, hashes, target, data.len());
    lemma_split_state(data, hashes, target, data.len());
    let chunks = spec_chunks(data, hashes, target);
    assert forall|i: int| 0 <= i < chunks.len() - 1 implies #[trigger] ends_at_boundary(chunks, hashes, target, i) by {
        assert(ends_at_boundary(st.0, hashes, target, i));
        assert(chunks[i] == st.0[i]);
        assert(chunks.take(i + 1) =~= st.0.take(i + 1));
    }
}

/// Chunk sizes: no chunk has more than `CHUNK_MAX_SIZE` bytes, and every
/// chunk but the last has more than `CHUNK_MIN_SIZE` bytes.
pub proof fn lemma_chunk_sizes(data: Seq<u8>, hashes: Seq<u8>, target: u8)
    ensures
        forall|i: int|
            0 <= i < spec_chunks(data, hashes, target).len() ==> (#[trigger] spec_chunks(data, hashes, target)[i]).len()
                <= CHUNK_MAX_SIZE,
        forall|i: int|
            0 <= i < spec_chunks(data, hashes, target).len() - 1 ==> (#[trigger] spec_chunks(data, hashes, target)[i]).len()
                > CHUNK_MIN_SIZE,
{
    let st = split_state(data, hashes, target, data.len());
    lemma_split_state(data, hashes, target, data.len());
    let chunks = spec_chunks(data, hashes, target);
    assert forall|i: int| 0 <= i < chunks.len() implies (#[trigger] chunks[i]).len() <= CHUNK_MAX_SIZE by {
        if i < st.0.len() {
            assert(ends_at_boundary(st.0, hashes, target, i));
            assert(st.0[i].len() <= CHUNK_MAX_SIZE);
            assert(chunks[i] == st.0[i]);
        }
    }
    assert forall|i: int| 0 <= i < chunks.len() - 1 implies (#[trigger] chunks[i]).len() > CHUNK_MIN_SIZE by {
        assert(ends_at_boundary(st.0, hashes, target, i));
    }
}

impl<'a> ChunkerConfig<'a> {
    /// The directory of the chunk store.
    pub fn get_chunk_store_dir_name(&self) -> (r: &'a str)
        ensures
            r == self.default_chunk_store_dir,
    {
        self.default_chunk_store_dir
    }

    /// The index file.
    pub fn get_chunk_index_file_name(&self) -> (r: &'a str)
        ensures
            r == self.default_chunk_index_file,
    {
        self.default_chunk_index_file
    }

    /// The extension of chunk files in the store.
    pub fn get_chunk_file_extension(&self) -> (r: &'a str)
        ensures
            r == self.chunk_extension,
    {
        self.chunk_extension
    }

    /// The file that `make` chunks.
    pub fn get_input_file_name(&self) -> (r: &'a str)
        ensures
            r == self.input,
    {
        self.input
    }

    /// The file that `extract` writes.
    pub fn get_assembled_file_name(&self) -> (r: &'a str)
        ensures
            r == self.output,
    {
        self.output
    }
}

/// Length in bytes of a chunk's name in the index (hex text of a SHA-256 digest).
pub const CHUNK_HASH_LEN: usize = 64;

/// Length in bytes of a chunk's size in the index.
pub const CHUNK_SIZE_LEN: usize = 6;

/// Length in bytes of one index record: the chunk's name, then its size.
pub const INDEX_RECORD_LEN: usize = 70;

/// zstd level at which chunks are stored.
pub const CHUNK_COMPRESSION_LEVEL: i32 = 21;

/// The name of a chunk: the lower-case hex text of its SHA-256 digest.
pub open spec fn spec_chunk_name(chunk: Seq<u8>) -> Seq<char> {
    lower_hex(sha256_digest(chunk)@)
}

/// Hex text is ASCII.
pub proof fn lemma_lower_hex_ascii(bytes: Seq<u8>)
    ensures
        is_ascii_chars(lower_hex(bytes)),
{
    let h = lower_hex(bytes);
    assert forall|i: int| 0 <= i < h.len() implies '\0' <= #[trigger] h[i] <= '\u{7f}' by {
        let d: int = if i % 2 == 0 { (bytes[i / 2] / 16) as int } else { (bytes[i / 2] % 16) as int };
        assert(0 <= d < 16);
        assert(h[i] == hex_digits()[d]);
    }
}

/// The name of `chunk` in the store and in the index: the lower-case hex
/// text of its SHA-256 digest, 64 ASCII characters.
pub fn chunk_hash(chunk: &[u8]) -> (h: String)
    ensures
        h@ == spec_chunk_name(chunk@),
        h@.len() == CHUNK_HASH_LEN,
        is_ascii_chars(h@),
{
    let h = sha256_hex(chunk);
    proof {
        lemma_lower_hex_ascii(sha256_digest(chunk@)@);
    }
    h
}

/// The six bytes that record a chunk size in the index: the low 48 bits of
/// the size, most significant byte first.
pub open spec fn spec_chunk_size_bytes(n: nat) -> Seq<u8> {
    seq![
        (n / 0x100_0000_0000 % 256) as u8,
        (n / 0x1_0000_0000 % 256) as u8,
        (n / 0x100_0000 % 256) as u8,
        (n / 0x1_0000 % 256) as u8,
        (n / 0x100 % 256) as u8,
        (n % 256) as u8,
    ]
}

/// The size of a chunk as it is written in the index: six bytes, big-endian,
/// the low 48 bits of `chunk_size`.
pub fn get_chunk_size_bytes(chunk_size: usize) -> (r: [u8; 6])
    ensures
        r@ == spec_chunk_size_bytes(chunk_size as nat),
        big_endian_value(r@) == chunk_size as int % 0x1_0000_0000_0000,
{
    let n = chunk_size as u64;
    let r: [u8; 6] = [
        (n / 0x100_0000_0000 % 256) as u8,
        (n / 0x1_0000_0000 % 256) as u8,
        (n / 0x100_0000 % 256) as u8,
        (n / 0x1_0000 % 256) as u8,
        (n / 0x100 % 256) as u8,
        (n % 256) as u8,
    ];
    assert(r@ =~= spec_chunk_size_bytes(chunk_size as nat));
    proof {
        lemma_size_bytes_big_endian(n);
    }
    r
}

/// The number six bytes stand for, read most significant byte first.
pub open spec fn big_endian_value(b: Seq<u8>) -> int {
    b[0] * 0x100_0000_0000int + b[1] * 0x1_0000_0000int + b[2] * 0x100_0000int + b[3] * 0x1_0000int
        + b[4] * 0x100int + b[5] as int
}

/// The size bytes read back as a big-endian number give the size, modulo
/// 2^48: the six bytes are exactly the low 48 bits of the size.
pub proof fn lemma_size_bytes_big_endian(n: u64)
    ensures
        spec_chunk_size_bytes(n as nat).len() == CHUNK_SIZE_LEN,
        big_endian_value(spec_chunk_size_bytes(n as nat)) == n as int % 0x1_0000_0000_0000,
{
    let b = spec_chunk_size_bytes(n as nat);
    let b0 = n / 0x100_0000_0000 % 256;
    let b1 = n / 0x1_0000_0000 % 256;
    let b2 = n / 0x100_0000 % 256;
    let b3 = n / 0x1_0000 % 256;
    let b4 = n / 0x100 % 256;
    let b5 = n % 256;
    assert(b[0] == b0 && b[1] == b1 && b[2] == b2 && b[3] == b3 && b[4] == b4 && b[5] == b5);
    assert(b0 * 0x100_0000_0000u64 + b1 * 0x1_0000_0000u64 + b2 * 0x100_0000u64 + b3 * 0x1_0000u64
        + b4 * 0x100u64 + b5 == n % 0x1_0000_0000_0000u64) by (bit_vector)
        requires
            b0 == n / 0x100_0000_0000 % 256,
            b1 == n / 0x1_0000_0000 % 256,
            b2 == n / 0x100_0000 % 256,
            b3 == n / 0x1_0000 % 256,
            b4 == n / 0x100 % 256,
            b5 == n % 256,
    ;
}

/// The last six bytes of a chunk's index record, read as a big-endian
/// number, are the chunk's length (modulo 2^48).
pub proof fn lemma_chunk_record_size(chunk: Seq<u8>)
    requires
        chunk.len() <= u64::MAX,
    ensures
        spec_chunk_record(chunk).len() == INDEX_RECORD_LEN,
        big_endian_value(spec_chunk_record(chunk).subrange(64, 70)) == chunk.len() as int % 0x1_0000_0000_0000,
{
    let digest = sha256_digest(chunk);
    assert(digest@.len() == 32);
    lemma_lower_hex_ascii(digest@);
    is_ascii_chars_encode_utf8(spec_chunk_name(chunk));
    lemma_size_bytes_big_endian(chunk.len() as u64);
    assert(spec_chunk_record(chunk).subrange(64, 70) =~= spec_chunk_size_bytes(chunk.len()));
}

/// The index record of a chunk: the UTF-8 bytes of its name, then its size.
pub open spec fn spec_chunk_record(chunk: Seq<u8>) -> Seq<u8> {
    encode_utf8(spec_chunk_name(chunk)) + spec_chunk_size_bytes(chunk.len())
}

/// The index record that matches a chunk: the first 64 bytes of its name,
/// then the six size bytes.
pub fn index_record(chunk_hash_bytes: &[u8], chunk_size_bytes: [u8; 6]) -> (r: [u8; 70])
    requires
        chunk_hash_bytes@.len() >= CHUNK_HASH_LEN,
    ensures
        r@ == chunk_hash_bytes@.take(CHUNK_HASH_LEN as int) + chunk_size_bytes@,
{
    let mut index_to_match: [u8; 70] = [0; 70];
    for i in 0..70
        invariant
            chunk_hash_bytes@.len() >= CHUNK_HASH_LEN,
            forall|j: int|
                0 <= j < i ==> index_to_match@[j] == (chunk_hash_bytes@.take(CHUNK_HASH_LEN as int)
                    + chunk_size_bytes@)[j],
    {
        if i > 63 {
            index_to_match[i] = chunk_size_bytes[i - 64];
        } else {
            index_to_match[i] = chunk_hash_bytes[i];
        }
    }
    assert(index_to_match@ =~= chunk_hash_bytes@.take(CHUNK_HASH_LEN as int) + chunk_size_bytes@);
    index_to_match
}

/// The name of `chunk` and the index record written for it.
pub fn chunk_index_entry(chunk: &[u8]) -> (r: (String, [u8; 70]))
    ensures
        r.0@ == spec_chunk_name(chunk@),
        r.1@ == spec_chunk_record(chunk@),
{
    let hash = chunk_hash(chunk);
    let size = get_chunk_size_bytes(chunk.len());
    let hash_bytes = hash.as_str().as_bytes();
    proof {
        is_ascii_chars_encode_utf8(hash@);
        assert(hash_bytes@.take(CHUNK_HASH_LEN as int) =~= encode_utf8(hash@));
    }
    let record = index_record(hash_bytes, size);
    (hash, record)
}

/// Two index records match when they agree on every byte but the first.
pub open spec fn records_match(a: Seq<u8>, b: Seq<u8>) -> bool {
    forall|i: int| 1 <= i < INDEX_RECORD_LEN ==> a[i] == b[i]
}

/// Whether two index records agree on bytes 1 to 69 (byte 0 is not compared).
pub fn match_arrays(array1: [u8; 70], array2: [u8; 70]) -> (r: bool)
    ensures
        r == records_match(array1@, array2@),
{
    let mut matched = true;
    for i in 1..70
        invariant
            matched == (forall|j: int| 1 <= j < i ==> array1@[j] == array2@[j]),
        ensures
            matched == (forall|j: int| 1 <= j < INDEX_RECORD_LEN ==> array1@[j] == array2@[j]),
    {
        if !(array1[i] == array2[i]) {
            matched = false;
            break;
        }
    }
    matched
}

/// Record `k` of an index: bytes `70 * k` to `70 * k + 70`.
pub open spec fn index_entry(index: Seq<u8>, k: int) -> Seq<u8> {
    index.subrange(INDEX_RECORD_LEN * k, INDEX_RECORD_LEN * k + INDEX_RECORD_LEN)
}

/// The number of whole records in an index (a shorter tail is not read).
pub open spec fn index_len(index: Seq<u8>) -> int {
    index.len() as int / INDEX_RECORD_LEN as int
}

/// `r` is the first whole record of `index` that matches `record`, or `None`
/// where no whole record matches.
pub open spec fn first_matching_record(index: Seq<u8>, record: Seq<u8>, r: Option<usize>) -> bool {
    match r {
        Some(k) => {
            &&& k < index_len(index)
            &&& records_match(index_entry(index, k as int), record)
            &&& forall|j: int| 0 <= j < k ==> !records_match(#[trigger] index_entry(index, j), record)
        },
        None => forall|j: int| 0 <= j < index_len(index) ==> !records_match(#[trigger] index_entry(index, j), record),
    }
}

/// The first whole record of `index` that matches `record`, reading records
/// in order from the start of `index`.
pub fn find_index_record(index: &[u8], record: &[u8; 70]) -> (r: Option<usize>)
    ensures
        first_matching_record(index@, record@, r),
{
    let mut pos: usize = 0;
    let mut k: usize = 0;
    while index.len() - pos >= 70
        invariant
            pos == INDEX_RECORD_LEN * k,
            pos <= index.len(),
            forall|j: int| 0 <= j < k ==> !records_match(#[trigger] index_entry(index@, j), record@),
        decreases index.len() - pos,
    {
        let mut read_buf: [u8; 70] = [0; 70];
        for i in 0..70
            invariant
                pos == INDEX_RECORD_LEN * k,
                pos + INDEX_RECORD_LEN <= index.len(),
                forall|j: int| 0 <= j < i ==> read_buf@[j] == index@[pos + j],
        {
            read_buf[i] = index[pos + i];
        }
        assert(read_buf@ =~= index_entry(index@, k as int));
        if match_arrays(read_buf, *record) {
            return Some(k);
        }
        pos = pos + 70;
        k = k + 1;
    }
    assert(k == index_len(index@)) by (nonlinear_arith)
        requires
            pos == 70 * k,
            pos <= index@.len(),
            index@.len() - pos < 70,
    ;
    None
}

/// Whether the index, read on from `index`, already holds a record that
/// matches the chunk's name (its first 64 bytes) and size.
pub fn chunk_exists(index: &[u8], chunk_hash_bytes: &[u8], chunk_size_bytes: [u8; 6]) -> (r: bool)
    requires
        chunk_hash_bytes@.len() >= CHUNK_HASH_LEN,
    ensures
        r == exists|j: int|
            0 <= j < index_len(index@) && records_match(
                #[trigger] index_entry(index@, j),
                chunk_hash_bytes@.take(CHUNK_HASH_LEN as int) + chunk_size_bytes@,
            ),
{
    let index_to_match = index_record(chunk_hash_bytes, chunk_size_bytes);
    match find_index_record(index, &index_to_match) {
        Some(k) => {
            assert(records_match(index_entry(index@, k as int), index_to_match@));
            true
        },
        None => false,
    }
}

/// Where `make` writes a chunk: `<store>/<name>.<extension>`.
pub open spec fn spec_chunk_file_path(store: Seq<char>, chunk_hash: Seq<char>, extension: Seq<char>) -> Seq<char> {
    store + "/"@ + chunk_hash + "."@ + extension
}

/// The path of a chunk file in the store: `<store>/<name>.<extension>`.
pub fn chunk_file_path(chunker: &ChunkerConfig, chunk_hash: &str) -> (r: String)
    ensures
        r@ == spec_chunk_file_path(chunker.default_chunk_store_dir@, chunk_hash@, chunker.chunk_extension@),
{
    let mut path = String::from_str(chunker.get_chunk_store_dir_name());
    path.append("/");
    path.append(chunk_hash);
    path.append(".");
    path.append(chunker.get_chunk_file_extension());
    path
}

/// The stored form of a chunk: a zstd frame at level 21, which decodes back
/// to the chunk.
pub fn compress_chunk(chunk: &[u8]) -> (r: Option<Vec<u8>>)
    ensures
        r is Some,
        r matches Some(v) ==> v@ == zstd_encoded(chunk@, CHUNK_COMPRESSION_LEVEL) && zstd_stream_decoded(v@)
            == chunk@,
{
    zstd_encode(chunk, CHUNK_COMPRESSION_LEVEL)
}


/// Against a fresh index (nothing left to read), a chunk never matches, so
/// every chunk is stored.
pub proof fn lemma_fresh_index_stores_chunk(record: Seq<u8>, r: Option<usize>)
    requires
        first_matching_record(Seq::empty(), record, r),
    ensures
        r is None,
{
    assert(index_len(Seq::<u8>::empty()) == 0);
}

/// What recording a chunk in the index does: `record` is appended to the
/// index; `matched` is the first record of the rest of the index (read on from
/// the index file's position) that matches it, and `matched_end` the offset in
/// that rest just past it, where the record goes; and where none matches,
/// `store` gives the chunk file to write and its contents.
pub struct ChunkUpdate {
    pub store: Option<(String, Vec<u8>)>,
    pub record: [u8; 70],
    pub matched: Option<usize>,
    pub matched_end: Option<usize>,
}

/// Records a chunk against the rest of the index: its record (name, then
/// size); the first matching record of `index_rest`, if any; and, where there
/// is none, the path `<store>/<name>.<extension>` and the zstd frame (level 21,
/// decoding back to the chunk) to write there.
pub fn chunk_update(index_rest: &[u8], chunk: &[u8], chunker: &ChunkerConfig) -> (r: ChunkUpdate)
    ensures
        r.record@ == spec_chunk_record(chunk@),
        first_matching_record(index_rest@, r.record@, r.matched),
        r.store is Some <==> r.matched is None,
        match r.matched {
            Some(k) => r.matched_end == Some((INDEX_RECORD_LEN * (k + 1)) as usize),
            None => r.matched_end is None,
        },
        r.store matches Some(st) ==> {
            &&& st.0@ == spec_chunk_file_path(
                chunker.default_chunk_store_dir@,
                spec_chunk_name(chunk@),
                chunker.chunk_extension@,
            )
            &&& st.1@ == zstd_encoded(chunk@, CHUNK_COMPRESSION_LEVEL)
            &&& zstd_stream_decoded(st.1@) == chunk@
        },
{
    let (chunk_hash, record) = chunk_index_entry(chunk);
    let matched = find_index_record(index_rest, &record);
    let matched_end = match matched {
        Some(k) => {
            let n = index_rest.len();
            assert(k < index_len(index_rest@));
            assert(70 * (k + 1) <= n) by (nonlinear_arith)
                requires
                    k < n as int / 70,
            ;
            Some(70 * (k + 1))
        },
        None => None,
    };
    let store = match matched {
        Some(_) => None,
        None => {
            let path = chunk_file_path(chunker, chunk_hash.as_str());
            let compressed = compress_chunk(chunk).unwrap();
            Some((path, compressed))
        },
    };
    ChunkUpdate { store, record, matched, matched_end }
}

} // verus!
