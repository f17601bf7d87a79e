//! What `extract` gives back of what `make` wrote: the index lists the
//! chunks' names in order, and decoding the stored chunks in that order gives
//! back the chunked file.

use vstd::prelude::*;
use vstd::utf8::{encode_utf8, encode_utf8_decode_utf8, encode_utf8_valid_utf8, is_ascii_chars_encode_utf8};
use crate::assembler::{
    record_name, spec_assemble, spec_extract_chunk_path, spec_extract_store_dir,
    spec_index_names, spec_is_http_url,
};
use crate::chunker::{
    chunk_index_entry, vec_views, index_entry, index_len, lemma_chunks_concatenate, lemma_lower_hex_ascii, spec_chunk_name,
    records_match, spec_chunk_file_path, spec_chunk_record, spec_chunk_size_bytes, spec_chunks, CHUNK_HASH_LEN, INDEX_RECORD_LEN,
};
use crate::codec::{sha256_digest, zstd_stream_decoded};

verus! {

/// The index records written for `chunks`, in order.
pub open spec fn spec_records_of(chunks: Seq<Seq<u8>>) -> Seq<Seq<u8>> {
    Seq::new(chunks.len(), |i: int| spec_chunk_record(chunks[i]))
}

/// The contents of a fresh index file once `make` has recorded `chunks`.
pub open spec fn spec_index_of(chunks: Seq<Seq<u8>>) -> Seq<u8> {
    spec_records_of(chunks).flatten()
}

/// The names of `chunks`, in order.
pub open spec fn spec_names_of(chunks: Seq<Seq<u8>>) -> Seq<Option<Seq<char>>> {
    Seq::new(chunks.len(), |i: int| Some(spec_chunk_name(chunks[i])))
}

/// The stored chunk files `extract` reads for the listed names, in order,
/// from a store that maps names to file contents.
pub open spec fn spec_stored_for(names: Seq<Option<Seq<char>>>, store: Map<Seq<char>, Seq<u8>>) -> Seq<Seq<u8>> {
    Seq::new(
        names.len(),
        |i: int|
            match names[i] {
                Some(name) => store[name],
                None => Seq::empty(),
            },
    )
}

/// The index bytes `make` writes for `chunks` into a fresh index file: one
/// record per chunk, in order.
pub fn index_bytes(chunks: &Vec<Vec<u8>>) -> (r: Vec<u8>)
    ensures
        r@ == spec_index_of(vec_views(chunks@)),
{
    let ghost cs = vec_views(chunks@);
    let mut out: Vec<u8> = Vec::new();
    for i in 0..chunks.len()
        invariant
            cs == vec_views(chunks@),
            out@ == spec_records_of(cs.take(i as int)).flatten(),
    {
        let (_, record) = chunk_index_entry(chunks[i].as_slice());
        let ghost before = out@;
        for j in 0..70
            invariant
                out@ == before + record@.take(j as int),
        {
            out.push(record[j]);
            assert(record@.take(j + 1) =~= record@.take(j as int).push(record@[j as int]));
        }
        proof {
            assert(record@.take(70) =~= record@);
            let rs = spec_records_of(cs.take(i as int));
            rs.lemma_flatten_push(record@);
            assert(spec_records_of(cs.take(i + 1)) =~= rs.push(record@));
        }
    }
    assert(cs.take(chunks.len() as int) =~= cs);
    out
}

/// The store holds, under the name of each of `chunks`, bytes that decode to
/// that chunk (as `compress_chunk` produces them).
pub open spec fn store_holds_chunks(store: Map<Seq<char>, Seq<u8>>, chunks: Seq<Seq<u8>>) -> bool {
    forall|i: int|
        0 <= i < chunks.len() ==> store.contains_key(spec_chunk_name(#[trigger] chunks[i]))
            && zstd_stream_decoded(store[spec_chunk_name(chunks[i])]) == chunks[i]
}

/// A chunk's index record is 70 bytes, and its first 64 are the UTF-8 (here
/// ASCII) bytes of the chunk's name.
pub proof fn lemma_chunk_record_layout(chunk: Seq<u8>)
    ensures
        spec_chunk_record(chunk).len() == INDEX_RECORD_LEN,
        spec_chunk_record(chunk).take(CHUNK_HASH_LEN as int) == encode_utf8(spec_chunk_name(chunk)),
{
    let digest = sha256_digest(chunk);
    assert(digest@.len() == 32);
    lemma_lower_hex_ascii(digest@);
    is_ascii_chars_encode_utf8(spec_chunk_name(chunk));
    let e = encode_utf8(spec_chunk_name(chunk));
    assert(e.len() == 64);
    assert(spec_chunk_size_bytes(chunk.len()).len() == 6);
    assert(spec_chunk_record(chunk).take(CHUNK_HASH_LEN as int) =~= e);
}

proof fn lemma_fixed_records(rs: Seq<Seq<u8>>)
    requires
        forall|i: int| 0 <= i < rs.len() ==> (#[trigger] rs[i]).len() == INDEX_RECORD_LEN,
    ensures
        rs.flatten().len() == INDEX_RECORD_LEN * rs.len(),
        forall|k: int| 0 <= k < rs.len() ==> #[trigger] index_entry(rs.flatten(), k) == rs[k],
    decreases rs.len(),
{
    if rs.len() > 0 {
        let init = rs.drop_last();
        lemma_fixed_records(init);
        init.lemma_flatten_push(rs.last());
        assert(init.push(rs.last()) =~= rs);
        assert forall|k: int| 0 <= k < rs.len() implies #[trigger] index_entry(rs.flatten(), k) == rs[k] by {
            if k < init.len() {
                assert(index_entry(init.flatten(), k) == init[k]);
                assert(index_entry(rs.flatten(), k) =~= index_entry(init.flatten(), k));
            } else {
                assert(index_entry(rs.flatten(), k) =~= rs.last());
            }
        }
    }
}

/// The index `make` writes for a list of chunks lists, read back, exactly the
/// names of those chunks, in order.
pub proof fn lemma_index_names_roundtrip(chunks: Seq<Seq<u8>>)
    ensures
        spec_index_names(spec_index_of(chunks)) == spec_names_of(chunks),
{
    let rs = spec_records_of(chunks);
    assert forall|i: int| 0 <= i < rs.len() implies (#[trigger] rs[i]).len() == INDEX_RECORD_LEN by {
        lemma_chunk_record_layout(chunks[i]);
    }
    lemma_fixed_records(rs);
    let index = spec_index_of(chunks);
    assert(index_len(index) == chunks.len()) by (nonlinear_arith)
        requires
            index.len() == 70 * chunks.len(),
    ;
    assert forall|k: int| 0 <= k < chunks.len() implies spec_index_names(index)[k] == spec_names_of(chunks)[k] by {
        lemma_chunk_record_layout(chunks[k]);
        assert(index_entry(index, k) == rs[k]);
        let name = spec_chunk_name(chunks[k]);
        encode_utf8_valid_utf8(name);
        encode_utf8_decode_utf8(name);
        assert(record_name(rs[k]) == Some(name));
    }
    assert(spec_index_names(index) =~= spec_names_of(chunks));
}

/// Assembling the stored chunk files for the names of `chunks`, from a store
/// that holds each of them, gives the chunks' concatenation.
pub proof fn lemma_assemble_chunks(chunks: Seq<Seq<u8>>, store: Map<Seq<char>, Seq<u8>>)
    requires
        store_holds_chunks(store, chunks),
    ensures
        spec_assemble(spec_stored_for(spec_names_of(chunks), store)) == chunks.flatten(),
{
    let stored = spec_stored_for(spec_names_of(chunks), store);
    let parts = Seq::new(stored.len(), |i: int| zstd_stream_decoded(stored[i]));
    assert forall|i: int| 0 <= i < chunks.len() implies parts[i] == chunks[i] by {
        assert(store.contains_key(spec_chunk_name(chunks[i])));
        assert(stored[i] == store[spec_chunk_name(chunks[i])]);
    }
    assert(parts =~= chunks);
}

/// `extract` inverts `make`: chunking `data` (with any rolling hashes and
/// boundary target), recording the chunks in a fresh index and storing each
/// chunk so that it decodes back, then reading the index, fetching the
/// stored chunk for each name it lists and decoding them in order gives back
/// `data`.
pub proof fn lemma_extract_inverts_make(
    data: Seq<u8>,
    hashes: Seq<u8>,
    target: u8,
    store: Map<Seq<char>, Seq<u8>>,
)
    requires
        store_holds_chunks(store, spec_chunks(data, hashes, target)),
    ensures
        spec_assemble(spec_stored_for(spec_index_names(spec_index_of(spec_chunks(data, hashes, target))), store))
            == data,
{
    let chunks = spec_chunks(data, hashes, target);
    lemma_index_names_roundtrip(chunks);
    lemma_assemble_chunks(chunks, store);
    lemma_chunks_concatenate(data, hashes, target);
}

/// A chunk already recorded is recognised: in an index written for `chunks`,
/// the record of each of them matches a whole record of the index, so
/// `chunk_exists` reports it (reading from the start of the index).
pub proof fn lemma_recorded_chunk_is_found(chunks: Seq<Seq<u8>>, i: int)
    requires
        0 <= i < chunks.len(),
    ensures
        exists|j: int|
            0 <= j < index_len(spec_index_of(chunks)) && records_match(
                #[trigger] index_entry(spec_index_of(chunks), j),
                spec_chunk_record(chunks[i]),
            ),
{
    let rs = spec_records_of(chunks);
    assert forall|k: int| 0 <= k < rs.len() implies (#[trigger] rs[k]).len() == INDEX_RECORD_LEN by {
        lemma_chunk_record_layout(chunks[k]);
    }
    lemma_fixed_records(rs);
    let index = spec_index_of(chunks);
    assert(index_len(index) == chunks.len()) by (nonlinear_arith)
        requires
            index.len() == 70 * chunks.len(),
    ;
    assert(index_entry(index, i) == rs[i]);
    assert(records_match(index_entry(index, i), spec_chunk_record(chunks[i])));
}

/// `extract` reads each chunk from the file `make` wrote it to when the
/// store is a local directory; when the store is a URL it reads it from
/// `./default.castr`.
pub proof fn lemma_store_paths_agree(chunk_store_dir: Seq<char>, chunk_hash: Seq<char>, extension: Seq<char>)
    ensures
        !spec_is_http_url(chunk_store_dir) ==> spec_extract_chunk_path(chunk_store_dir, chunk_hash, extension)
            == spec_chunk_file_path(chunk_store_dir, chunk_hash, extension),
        spec_is_http_url(chunk_store_dir) ==> spec_extract_chunk_path(chunk_store_dir, chunk_hash, extension)
            == spec_chunk_file_path("./default.castr"@, chunk_hash, extension),
{
    assert(spec_extract_chunk_path(chunk_store_dir, chunk_hash, extension) =~= spec_chunk_file_path(
        spec_extract_store_dir(chunk_store_dir),
        chunk_hash,
        extension,
    ));
}

} // verus!
