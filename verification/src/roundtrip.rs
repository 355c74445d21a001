//! The round-trip law: decoding an encoded archive recovers every entry, in
//! order, with its name upper-cased and its contents byte-identical.

use vstd::prelude::*;
use crate::bytes::{le32_bytes, le32_value, lemma_le32_round_trip, lemma_le32_zero, upper_bytes};
use crate::entry::{FileModel, PakError};
use crate::format::{
    archive_size, assign_ends, content_prefix_bytes, content_prefix_size, decoding, encoding,
    entry_header_piece, entry_start, header_prefix_bytes, header_prefix_size,
    lemma_content_prefix_bytes_index, lemma_content_prefix_bytes_len,
    lemma_content_prefix_size_mono, lemma_encoding_len, lemma_header_prefix_bytes_index,
    lemma_header_prefix_bytes_len, lemma_header_prefix_size_mono, lemma_nul_pos_found, nul_free,
    nul_pos, parse_header,
};

verus! {

/// A single byte of entry `k`'s header record, read out of the whole archive.
proof fn lemma_encoding_header_byte(es: Seq<FileModel>, k: int, t: int)
    requires
        0 <= k < es.len(),
        0 <= t < 5 + es[k].filename.len(),
    ensures
        header_prefix_size(es, k) + t < header_prefix_size(es, es.len() as int),
        encoding(es)[header_prefix_size(es, k) + t] == entry_header_piece(es, k)[t],
{
    lemma_header_prefix_bytes_index(es, es.len() as int, k, t);
    lemma_header_prefix_bytes_len(es, es.len() as int);
    lemma_header_prefix_size_mono(es, 0, k);
    let a = header_prefix_bytes(es, es.len() as int);
    let b = seq![0u8, 0u8, 0u8, 0u8];
    let c = content_prefix_bytes(es, es.len() as int);
    let i = header_prefix_size(es, k) + t;
    assert(encoding(es) == (a + b) + c);
    assert(((a + b) + c)[i] == (a + b)[i]);
    assert((a + b)[i] == a[i]);
}

/// A single byte of the four-byte sentinel, read out of the whole archive.
proof fn lemma_encoding_sentinel_byte(es: Seq<FileModel>, t: int)
    requires
        0 <= t < 4,
    ensures
        encoding(es)[header_prefix_size(es, es.len() as int) + t] == 0,
{
    lemma_header_prefix_bytes_len(es, es.len() as int);
    lemma_header_prefix_size_mono(es, 0, es.len() as int);
    let a = header_prefix_bytes(es, es.len() as int);
    let b = seq![0u8, 0u8, 0u8, 0u8];
    let c = content_prefix_bytes(es, es.len() as int);
    let i = header_prefix_size(es, es.len() as int) + t;
    assert(encoding(es) == (a + b) + c);
    assert(((a + b) + c)[i] == (a + b)[i]);
    assert((a + b)[i] == b[t]);
    assert(b[t] == 0);
}

/// A single byte of entry `k`'s contents, read out of the whole archive.
proof fn lemma_encoding_content_byte(es: Seq<FileModel>, k: int, t: int)
    requires
        0 <= k < es.len(),
        0 <= t < es[k].contents.len(),
    ensures
        entry_start(es, k) + t < archive_size(es),
        encoding(es)[entry_start(es, k) + t] == es[k].contents[t],
{
    lemma_content_prefix_bytes_index(es, es.len() as int, k, t);
    lemma_content_prefix_bytes_len(es, es.len() as int);
    lemma_header_prefix_bytes_len(es, es.len() as int);
    lemma_header_prefix_size_mono(es, 0, es.len() as int);
    lemma_content_prefix_size_mono(es, 0, k);
    let a = header_prefix_bytes(es, es.len() as int);
    let b = seq![0u8, 0u8, 0u8, 0u8];
    let c = content_prefix_bytes(es, es.len() as int);
    let i = entry_start(es, k) + t;
    assert(encoding(es) == (a + b) + c);
    assert(i - (a + b).len() == content_prefix_size(es, k) + t);
    assert(((a + b) + c)[i] == c[content_prefix_size(es, k) + t]);
}

/// The raw (offset, name) records that parsing yields from entry `k` on.
spec fn raw_suffix(es: Seq<FileModel>, k: int) -> Seq<(u32, Seq<u8>)> {
    Seq::new(
        (es.len() - k) as nat,
        |i: int| (entry_start(es, k + i) as u32, upper_bytes(es[k + i].filename)),
    )
}

/// Parsing an encoded archive from entry `k`'s header slot yields exactly
/// the records of entries `k` and beyond.
proof fn lemma_parse_encoding_suffix(es: Seq<FileModel>, k: int)
    requires
        forall|i: int|
            0 <= i < es.len() ==> (#[trigger] es[i].filename.len()) <= 12 && nul_free(
                es[i].filename,
            ),
        archive_size(es) <= u32::MAX,
        0 <= k <= es.len(),
    ensures
        parse_header(encoding(es), header_prefix_size(es, k)) == Ok::<
            Seq<(u32, Seq<u8>)>,
            PakError,
        >(raw_suffix(es, k)),
    decreases es.len() - k,
{
    let buf = encoding(es);
    let p = header_prefix_size(es, k);
    lemma_header_prefix_size_mono(es, 0, k);
    lemma_header_prefix_size_mono(es, k, es.len() as int);
    lemma_encoding_len(es);
    lemma_content_prefix_size_mono(es, 0, es.len() as int);
    if k == es.len() {
        lemma_encoding_sentinel_byte(es, 0);
        lemma_encoding_sentinel_byte(es, 1);
        lemma_encoding_sentinel_byte(es, 2);
        lemma_encoding_sentinel_byte(es, 3);
        lemma_le32_zero();
        assert(le32_value(buf[p], buf[p + 1], buf[p + 2], buf[p + 3]) == 0);
        assert(raw_suffix(es, k) =~= Seq::<(u32, Seq<u8>)>::empty());
    } else {
        let name = es[k].filename;
        let ln = name.len() as int;
        let piece = entry_header_piece(es, k);
        lemma_content_prefix_size_mono(es, 0, k);
        lemma_content_prefix_size_mono(es, k, es.len() as int);
        let start_k = entry_start(es, k);
        assert(4 <= start_k <= u32::MAX);
        let sv = start_k as u32;
        assert forall|t: int| 0 <= t < 5 + ln implies #[trigger] buf[p + t] == piece[t] by {
            lemma_encoding_header_byte(es, k, t);
        }
        assert(buf[p + 0] == piece[0]);
        assert(buf[p + 1] == piece[1]);
        assert(buf[p + 2] == piece[2]);
        assert(buf[p + 3] == piece[3]);
        assert(piece[0] == le32_bytes(sv)[0]);
        assert(piece[1] == le32_bytes(sv)[1]);
        assert(piece[2] == le32_bytes(sv)[2]);
        assert(piece[3] == le32_bytes(sv)[3]);
        assert(le32_bytes(sv)[0] == (sv & 0xff) as u8);
        assert(le32_bytes(sv)[1] == ((sv >> 8) & 0xff) as u8);
        assert(le32_bytes(sv)[2] == ((sv >> 16) & 0xff) as u8);
        assert(le32_bytes(sv)[3] == ((sv >> 24) & 0xff) as u8);
        lemma_le32_round_trip(sv);
        assert(le32_value(buf[p], buf[p + 1], buf[p + 2], buf[p + 3]) == sv);
        assert(sv != 0);
        // The name bytes are non-null and the terminator follows them.
        assert forall|t: int| 0 <= t < ln implies #[trigger] buf[p + 4 + t] != 0 by {
            assert(piece[4 + t] == upper_bytes(name)[t]);
            assert(name[t] != 0);
            assert(buf[p + (4 + t)] == piece[4 + t]);
        }
        assert(buf[p + (4 + ln)] == piece[4 + ln]);
        assert(piece[4 + ln] == 0);
        lemma_header_prefix_size_mono(es, k + 1, es.len() as int);
        assert(p + 5 + ln == header_prefix_size(es, k + 1));
        lemma_nul_pos_found(buf, p + 4, 13, ln);
        assert(nul_pos(buf, p + 4, 13) == ln);
        assert forall|t: int| 0 <= t < ln implies buf.subrange(p + 4, p + 4 + ln)[t]
            == upper_bytes(name)[t] by {
            assert(buf[p + (4 + t)] == piece[4 + t]);
            assert(piece[4 + t] == upper_bytes(name)[t]);
        }
        assert(buf.subrange(p + 4, p + 4 + ln) =~= upper_bytes(name));
        assert(p + 4 + ln + 1 == header_prefix_size(es, k + 1));
        lemma_parse_encoding_suffix(es, k + 1);
        assert(parse_header(buf, p) == Ok::<Seq<(u32, Seq<u8>)>, PakError>(
            seq![(sv, buf.subrange(p + 4, p + 4 + ln))] + raw_suffix(es, k + 1),
        ));
        assert(seq![(sv, upper_bytes(name))] + raw_suffix(es, k + 1) =~= raw_suffix(es, k));
    }
}

/// Round trip: decoding an encoded archive yields one descriptor per entry,
/// in the same order, carrying the upper-cased name, and the descriptor's
/// inclusive byte range holds exactly that entry's contents. It holds of
/// every entry list the encoder accepts: names of at most twelve non-null
/// bytes, contents of any shape, within the 32-bit offset space.
pub proof fn lemma_round_trip(es: Seq<FileModel>)
    requires
        forall|i: int|
            0 <= i < es.len() ==> (#[trigger] es[i].filename.len()) <= 12 && nul_free(
                es[i].filename,
            ),
        archive_size(es) <= u32::MAX,
    ensures
        decoding(encoding(es)) matches Ok(m) && m.len() == es.len() && (forall|i: int|
            #![trigger m[i]]
            0 <= i < es.len() ==> m[i].filename == upper_bytes(es[i].filename) && m[i].starts
                == entry_start(es, i) && m[i].ends + 1 == entry_start(es, i)
                + es[i].contents.len() && encoding(es).subrange(m[i].starts as int, m[i].ends + 1)
                == es[i].contents),
{
    let buf = encoding(es);
    let n = es.len() as int;
    lemma_parse_encoding_suffix(es, 0);
    assert(header_prefix_size(es, 0) == 0);
    let raw = raw_suffix(es, 0);
    lemma_encoding_len(es);
    assert(decoding(buf) == Ok::<Seq<crate::entry::HeaderModel>, PakError>(
        assign_ends(raw, archive_size(es)),
    ));
    let m = assign_ends(raw, archive_size(es));
    assert forall|i: int| 0 <= i < n implies #[trigger] m[i].filename == upper_bytes(
        es[i].filename,
    ) && m[i].starts == entry_start(es, i) && m[i].ends + 1 == entry_start(es, i)
        + es[i].contents.len() && buf.subrange(m[i].starts as int, m[i].ends + 1)
        == es[i].contents by {
        lemma_header_prefix_size_mono(es, 0, n);
        lemma_content_prefix_size_mono(es, 0, i);
        lemma_content_prefix_size_mono(es, 0, i + 1);
        lemma_content_prefix_size_mono(es, i + 1, n);
        assert(4 <= entry_start(es, i) <= u32::MAX);
        assert(m[i].starts == entry_start(es, i));
        if i + 1 < n {
            assert(m[i].ends == entry_start(es, i + 1) - 1);
        } else {
            assert(m[i].ends == archive_size(es) - 1);
        }
        assert(entry_start(es, i + 1) == entry_start(es, i) + es[i].contents.len());
        assert forall|t: int| 0 <= t < es[i].contents.len() implies buf.subrange(
            m[i].starts as int,
            m[i].ends + 1,
        )[t] == es[i].contents[t] by {
            lemma_encoding_content_byte(es, i, t);
        }
        assert(buf.subrange(m[i].starts as int, m[i].ends + 1) =~= es[i].contents);
    }
}

} // verus!
