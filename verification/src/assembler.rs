//! Reading an index back: the names of the chunks it lists, where their
//! files are, and how the chunked file is put together from them.

use vstd::prelude::*;
use vstd::string::{StrSliceExecFns, StringExecFns};
use vstd::utf8::{decode_utf8, valid_utf8};
use crate::chunker::{index_entry, index_len, vec_views, CHUNK_HASH_LEN, INDEX_RECORD_LEN};
use crate::codec::{zstd_stream_decode, zstd_stream_decoded};

verus! {

/// The scheme of `input` as `url::Url::parse` reads it; `None` where it does
/// not parse as a URL.
pub uninterp spec fn url_scheme(input: Seq<char>) -> Option<Seq<char>>;

/// `url::Url::parse` followed by `Url::scheme`: the scheme of `input`, or
/// `None` where it does not parse.
#[verifier::external_body]
fn parsed_url_scheme(input: &str) -> (r: Option<String>)
    ensures
        match r {
            Some(s) => url_scheme(input@) == Some(s@),
            None => url_scheme(input@) is None,
        },
{
    match url::Url::parse(input) {
        Ok(parsed_url) => Some(parsed_url.scheme().to_string()),
        Err(_) => None,
    }
}

/// `String::from_utf8` (std): the text that `bytes` encode in UTF-8, or
/// `None` where they are not valid UTF-8.
#[verifier::external_body]
fn string_from_utf8(bytes: Vec<u8>) -> (r: Option<String>)
    ensures
        r is Some <==> valid_utf8(bytes@),
        r matches Some(s) ==> s@ == decode_utf8(bytes@),
{
    String::from_utf8(bytes).ok()
}

/// Whether `url` parses as a URL whose scheme is `http` or `https`.
pub open spec fn spec_is_http_url(url: Seq<char>) -> bool {
    match url_scheme(url) {
        Some(s) => s == "https"@ || s == "http"@,
        None => false,
    }
}

/// Whether `url` is an HTTP or HTTPS URL (and not a local path).
pub fn is_http_url(url: &str) -> (r: bool)
    ensures
        r == spec_is_http_url(url@),
        r <==> url_scheme(url@) == Some("http"@) || url_scheme(url@) == Some("https"@),
{
    match parsed_url_scheme(url) {
        Some(scheme) => {
            let https = String::from_str("https");
            let http = String::from_str("http");
            scheme == https || scheme == http
        },
        None => false,
    }
}

/// A text is an HTTP URL exactly when it parses as a URL with the scheme
/// `http` or `https`; nothing else about it counts.
pub proof fn lemma_http_url_by_scheme(url: Seq<char>)
    ensures
        spec_is_http_url(url) <==> url_scheme(url) == Some("http"@) || url_scheme(url) == Some("https"@),
{
}

/// The position of the last `/` in `s`, or -1 where there is none.
pub open spec fn last_slash(s: Seq<char>) -> int
    decreases s.len(),
{
    if s.len() == 0 {
        -1
    } else if s.last() == '/' {
        s.len() - 1
    } else {
        last_slash(s.drop_last())
    }
}

/// `s` with every `/` taken out.
pub open spec fn strip_slashes(s: Seq<char>) -> Seq<char>
    decreases s.len(),
{
    if s.len() == 0 {
        s
    } else if s.last() == '/' {
        strip_slashes(s.drop_last())
    } else {
        strip_slashes(s.drop_last()).push(s.last())
    }
}

/// The index file's name in a URL: what follows the last `/`.
pub open spec fn spec_index_file_name(url: Seq<char>) -> Seq<char> {
    url.subrange(last_slash(url) + 1, url.len() as int)
}

/// The URL the index file is fetched from: the segments of `url` before the
/// last `/`, joined with nothing between them.
pub open spec fn spec_index_base_url(url: Seq<char>) -> Seq<char> {
    strip_slashes(url.take(last_slash(url) + 1))
}

proof fn lemma_strip_slashes_concat(a: Seq<char>, b: Seq<char>)
    ensures
        strip_slashes(a + b) == strip_slashes(a) + strip_slashes(b),
    decreases b.len(),
{
    if b.len() == 0 {
        assert(a + b =~= a);
        assert(strip_slashes(a) + strip_slashes(b) =~= strip_slashes(a));
    } else {
        lemma_strip_slashes_concat(a, b.drop_last());
        assert((a + b).drop_last() =~= a + b.drop_last());
        assert((a + b).last() == b.last());
        if b.last() == '/' {
        } else {
            assert(strip_slashes(a) + strip_slashes(b.drop_last()).push(b.last()) =~= (strip_slashes(a)
                + strip_slashes(b.drop_last())).push(b.last()));
        }
    }
}

proof fn lemma_strip_slashes_none(s: Seq<char>)
    requires
        forall|j: int| 0 <= j < s.len() ==> s[j] != '/',
    ensures
        strip_slashes(s) == s,
    decreases s.len(),
{
    if s.len() > 0 {
        lemma_strip_slashes_none(s.drop_last());
        assert(strip_slashes(s.drop_last()).push(s.last()) =~= s);
    }
}

/// Splits the URL of an index file into the URL it is downloaded from and the
/// file's name: the name is what follows the last `/`; the URL is the
/// segments before it, joined with nothing between them. `None` where `url`
/// does not parse as a URL.
pub fn split_index_url(url: &str) -> (r: Option<(String, String)>)
    ensures
        r is Some <==> url_scheme(url@) is Some,
        r matches Some(p) ==> p.0@ == spec_index_base_url(url@) && p.1@ == spec_index_file_name(url@),
{
    if parsed_url_scheme(url).is_none() {
        return None;
    }
    let n = url.unicode_len();
    let ghost s = url@;
    let mut base_url = String::new();
    let mut seg_start: usize = 0;
    assert(s.take(0) =~= Seq::<char>::empty());
    for i in 0..n
        invariant
            n == s.len(),
            s == url@,
            seg_start <= i,
            seg_start as int == last_slash(s.take(i as int)) + 1,
            forall|j: int| seg_start <= j < i ==> s[j] != '/',
            base_url@ == strip_slashes(s.take(seg_start as int)),
    {
        let c = url.get_char(i);
        assert(s.take(i + 1).drop_last() =~= s.take(i as int));
        if c == '/' {
            let segment = url.substring_char(seg_start, i);
            base_url.append(segment);
            proof {
                let head = s.take(seg_start as int);
                let mid = s.subrange(seg_start as int, i as int);
                lemma_strip_slashes_none(mid);
                lemma_strip_slashes_concat(head, mid);
                lemma_strip_slashes_concat(head + mid, seq!['/']);
                assert(s.take(i + 1) =~= (head + mid) + seq!['/']);
                let slash: Seq<char> = seq!['/'];
                assert(slash.len() == 1 && slash[0] == '/');
                assert(slash.drop_last() =~= Seq::<char>::empty());
                assert(strip_slashes(slash.drop_last()) =~= Seq::<char>::empty());
                assert(strip_slashes(seq!['/']) =~= Seq::<char>::empty());
                assert(strip_slashes(s.take(i + 1)) =~= strip_slashes(head) + mid);
            }
            seg_start = i + 1;
        }
    }
    assert(s.take(n as int) =~= s);
    let index_file = String::from_str(url.substring_char(seg_start, n));
    Some((base_url, index_file))
}

/// The name held by an index record: its first 64 bytes read as UTF-8, or
/// `None` where they are not valid UTF-8.
pub open spec fn record_name(record: Seq<u8>) -> Option<Seq<char>> {
    let b = record.take(CHUNK_HASH_LEN as int);
    if valid_utf8(b) {
        Some(decode_utf8(b))
    } else {
        None
    }
}

/// The names listed by an index, one per whole record, in order.
pub open spec fn spec_index_names(index: Seq<u8>) -> Seq<Option<Seq<char>>> {
    Seq::new(index_len(index) as nat, |k: int| record_name(index_entry(index, k)))
}

/// The contents of a list of optional strings.
pub open spec fn option_views(v: Seq<Option<String>>) -> Seq<Option<Seq<char>>> {
    v.map_values(
        |o: Option<String>|
            match o {
                Some(s) => Some(s@),
                None => None,
            },
    )
}

/// The chunk names an index lists, one per whole 70-byte record in order
/// (a shorter tail is not read); `None` for a record whose first 64 bytes are
/// not valid UTF-8.
pub fn index_chunk_names(index: &[u8]) -> (names: Vec<Option<String>>)
    ensures
        option_views(names@) == spec_index_names(index@),
{
    let mut names: Vec<Option<String>> = Vec::new();
    let mut pos: usize = 0;
    while index.len() - pos >= 70
        invariant
            pos == INDEX_RECORD_LEN * names.len(),
            pos <= index.len(),
            forall|j: int|
                0 <= j < names.len() ==> #[trigger] option_views(names@)[j] == record_name(
                    index_entry(index@, j),
                ),
        decreases index.len() - pos,
    {
        let mut name_bytes: Vec<u8> = Vec::new();
        for i in 0..64
            invariant
                pos + INDEX_RECORD_LEN <= index.len(),
                name_bytes@.len() == i,
                forall|j: int| 0 <= j < i ==> name_bytes@[j] == index@[pos + j],
        {
            name_bytes.push(index[pos + i]);
        }
        assert(name_bytes@ =~= index_entry(index@, names.len() as int).take(CHUNK_HASH_LEN as int));
        let name = string_from_utf8(name_bytes);
        let ghost before = names@;
        names.push(name);
        assert forall|j: int| 0 <= j < names.len() implies #[trigger] option_views(names@)[j] == record_name(
            index_entry(index@, j),
        ) by {
            if j < before.len() {
                assert(option_views(before)[j] == record_name(index_entry(index@, j)));
            }
        }
        pos = pos + 70;
    }
    assert(names.len() == index_len(index@)) by (nonlinear_arith)
        requires
            pos == 70 * names.len(),
            pos <= index@.len(),
            index@.len() - pos < 70,
    ;
    assert(option_views(names@) =~= spec_index_names(index@));
    names
}

/// The directory `extract` reads chunks from: the configured store where it
/// is a local directory; `./default.castr`, where chunks are downloaded to,
/// where the store is an HTTP or HTTPS URL.
pub open spec fn spec_extract_store_dir(chunk_store_dir: Seq<char>) -> Seq<char> {
    if spec_is_http_url(chunk_store_dir) {
        "./default.castr"@
    } else {
        chunk_store_dir
    }
}

/// Where `extract` reads a chunk: `<directory>/<name>.<extension>`.
pub open spec fn spec_extract_chunk_path(chunk_store_dir: Seq<char>, chunk_file_name: Seq<char>, extension: Seq<char>) -> Seq<char> {
    spec_extract_store_dir(chunk_store_dir) + "/"@ + chunk_file_name + "."@ + extension
}

/// The path `extract` reads a chunk from: in the configured store, or in
/// `./default.castr` where the store is a URL the chunk is downloaded from.
pub fn extract_chunk_path(chunk_store_dir: &str, chunk_file_name: &str, extension: &str) -> (r: String)
    ensures
        r@ == spec_extract_chunk_path(chunk_store_dir@, chunk_file_name@, extension@),
{
    let mut path_to_chunk = if is_http_url(chunk_store_dir) {
        String::from_str("./default.castr")
    } else {
        String::from_str(chunk_store_dir)
    };
    path_to_chunk.append("/");
    path_to_chunk.append(chunk_file_name);
    path_to_chunk.append(".");
    path_to_chunk.append(extension);
    path_to_chunk
}

/// The contents of a stored chunk: its zstd data decoded, as far as it is
/// valid zstd (all of it for a frame `compress_chunk` made).
pub fn decompress_chunk(stored: &[u8]) -> (r: Vec<u8>)
    ensures
        r@ == zstd_stream_decoded(stored@),
{
    zstd_stream_decode(stored)
}

/// What `extract` writes for the stored chunks the index lists, in order:
/// each decoded, as far as it is valid zstd, one after another.
pub open spec fn spec_assemble(stored: Seq<Seq<u8>>) -> Seq<u8> {
    Seq::new(stored.len(), |i: int| zstd_stream_decoded(stored[i])).flatten()
}

/// The rebuilt file: the stored chunks, in index order, decoded and
/// concatenated.
pub fn assemble_chunks(stored: &Vec<Vec<u8>>) -> (r: Vec<u8>)
    ensures
        r@ == spec_assemble(vec_views(stored@)),
{
    let mut out: Vec<u8> = Vec::new();
    let ghost parts = Seq::new(stored@.len(), |i: int| zstd_stream_decoded(stored@[i]@));
    for i in 0..stored.len()
        invariant
            parts == Seq::new(stored@.len(), |i: int| zstd_stream_decoded(stored@[i]@)),
            out@ == parts.take(i as int).flatten(),
    {
        let chunk = decompress_chunk(stored[i].as_slice());
        assert(chunk@ == parts[i as int]);
        let mut j: usize = 0;
        let ghost before = out@;
        while j < chunk.len()
            invariant
                j <= chunk.len(),
                out@ == before + chunk@.take(j as int),
            decreases chunk.len() - j,
        {
            out.push(chunk[j]);
            j = j + 1;
            assert(chunk@.take(j as int) =~= chunk@.take(j - 1).push(chunk@[j - 1]));
        }
        assert(chunk@.take(chunk.len() as int) =~= chunk@);
        proof {
            parts.take(i as int).lemma_flatten_push(parts[i as int]);
            assert(parts.take(i + 1) =~= parts.take(i as int).push(parts[i as int]));
        }
    }
    assert(parts.take(stored@.len() as int) =~= parts);
    assert(parts =~= Seq::new(vec_views(stored@).len(), |i: int| zstd_stream_decoded(vec_views(stored@)[i])));
    out
}

} // verus!
