//! The executable codec: `encode` assembles an archive buffer from an
//! ordered entry list, `decode` parses one back into entry descriptors, and
//! `entry_content` copies one entry's bytes out of a decoded buffer.

use vstd::prelude::*;
use crate::bytes::{le32_value, push_all, push_le32, read_le32, to_upper};
use crate::entry::{FileEntry, HeaderEntry, HeaderModel, PakError, file_models, header_models};
use crate::format::{
    archive_size, assign_ends, content_prefix_bytes, content_prefix_size, decoding, encoding,
    entry_start, header_prefix_bytes, header_prefix_size, header_table_size,
    lemma_content_prefix_bytes_len, lemma_content_prefix_size_mono, lemma_encoding_len,
    lemma_header_prefix_bytes_len, lemma_header_prefix_size_mono, lemma_nul_pos_found,
    lemma_nul_pos_props, lemma_sentinel_placement, nul_free, nul_pos, parse_header,
};

verus! {

/// Encodes the ordered entries into one archive buffer: each entry's start
/// offset and upper-cased null-terminated name in the header table, the
/// four-byte all-zero sentinel, then the packed contents with no padding.
/// A name longer than twelve bytes is rejected with `FormatViolation`
/// naming the first such entry, before any output is produced.
pub fn encode(entries: &Vec<FileEntry>) -> (r: Result<Vec<u8>, PakError>)
    requires
        forall|i: int|
            0 <= i < entries@.len() ==> nul_free(#[trigger] file_models(entries@)[i].filename),
        archive_size(file_models(entries@)) <= u32::MAX,
    ensures
        match r {
            Ok(buf) => (forall|i: int|
                0 <= i < entries@.len() ==> #[trigger] file_models(
                    entries@,
                )[i].filename.len() <= 12) && buf@ == encoding(file_models(entries@))
                && buf@.len() == archive_size(file_models(entries@)) && buf@.subrange(
                header_prefix_size(file_models(entries@), entries@.len() as int),
                header_prefix_size(file_models(entries@), entries@.len() as int) + 4,
            ) == seq![0u8, 0u8, 0u8, 0u8],
            Err(e) => e matches PakError::FormatViolation { index } && 0 <= index < entries@.len()
                && file_models(entries@)[index as int].filename.len() > 12 && (forall|j: int|
                0 <= j < index ==> #[trigger] file_models(entries@)[j].filename.len() <= 12),
        },
{
    let ghost es = file_models(entries@);
    let n = entries.len();

    // First pass: check every name and size the header table.
    let mut hdrtablesize: usize = 0;
    let mut i: usize = 0;
    while i < n
        invariant
            n == entries@.len(),
            i <= n,
            es == file_models(entries@),
            archive_size(es) <= u32::MAX,
            hdrtablesize == header_prefix_size(es, i as int),
            forall|j: int| 0 <= j < i ==> #[trigger] es[j].filename.len() <= 12,
        decreases n - i,
    {
        let name_len = entries[i].filename.len();
        if name_len > 12 {
            return Err(PakError::FormatViolation { index: i });
        }
        proof {
            lemma_header_prefix_size_mono(es, i + 1, es.len() as int);
            lemma_content_prefix_size_mono(es, 0, es.len() as int);
        }
        hdrtablesize = hdrtablesize + 4 + name_len + 1;
        i = i + 1;
    }
    proof {
        lemma_content_prefix_size_mono(es, 0, es.len() as int);
    }
    hdrtablesize = hdrtablesize + 4;

    // Second pass: emit each header record and pack the contents.
    let mut hdrbuf: Vec<u8> = Vec::new();
    let mut buf: Vec<u8> = Vec::new();
    let mut i: usize = 0;
    while i < n
        invariant
            n == entries@.len(),
            i <= n,
            es == file_models(entries@),
            archive_size(es) <= u32::MAX,
            hdrtablesize == header_table_size(es),
            forall|j: int| 0 <= j < n ==> #[trigger] es[j].filename.len() <= 12,
            hdrbuf@ == header_prefix_bytes(es, i as int),
            buf@ == content_prefix_bytes(es, i as int),
        decreases n - i,
    {
        proof {
            lemma_content_prefix_bytes_len(es, i as int);
            lemma_content_prefix_size_mono(es, i as int, es.len() as int);
            lemma_header_prefix_size_mono(es, 0, es.len() as int);
        }
        let starts = (hdrtablesize + buf.len()) as u32;
        assert(starts == entry_start(es, i as int));
        push_le32(&mut hdrbuf, starts);
        let up = to_upper(&entries[i].filename);
        push_all(&mut hdrbuf, &up);
        hdrbuf.push(0);
        push_all(&mut buf, &entries[i].contents);
        proof {
            assert(hdrbuf@ =~= header_prefix_bytes(es, i + 1));
            assert(buf@ =~= content_prefix_bytes(es, i + 1));
        }
        i = i + 1;
    }

    // The sentinel, then the contents after the header table.
    hdrbuf.push(0);
    hdrbuf.push(0);
    hdrbuf.push(0);
    hdrbuf.push(0);
    hdrbuf.append(&mut buf);
    proof {
        assert(hdrbuf@ =~= encoding(es));
        lemma_encoding_len(es);
        lemma_sentinel_placement(es);
    }
    Ok(hdrbuf)
}

/// Reads the four-byte little-endian offset field at `pos`, or reports a
/// buffer that ends in the middle of the field.
pub fn read_int32(buf: &Vec<u8>, pos: usize) -> (r: Result<u32, PakError>)
    ensures
        match r {
            Ok(v) => pos + 4 <= buf@.len() && v == le32_value(
                buf@[pos as int],
                buf@[pos + 1],
                buf@[pos + 2],
                buf@[pos + 3],
            ),
            Err(e) => e == (PakError::TruncatedHeader) && pos + 4 > buf@.len(),
        },
{
    if buf.len() < 4 || pos > buf.len() - 4 {
        return Err(PakError::TruncatedHeader);
    }
    Ok(read_le32(buf, pos))
}

/// Scans up to thirteen bytes from `pos` for the null terminator and
/// returns the name before it together with the cursor position just past
/// it; where no null byte stands in the window (cut short where the buffer
/// ends), the archive is corrupt.
pub fn read_filename_with_nul(buf: &Vec<u8>, pos: usize) -> (r: Result<
    (Vec<u8>, usize),
    PakError,
>)
    requires
        pos <= buf@.len(),
    ensures
        match r {
            Ok(p) => {
                let j = nul_pos(buf@, pos as int, 13);
                &&& j >= 0
                &&& p.0@ == buf@.subrange(pos as int, pos + j)
                &&& p.1 == pos + j + 1
                &&& p.1 <= buf@.len()
            },
            Err(e) => e == (PakError::CorruptFilename) && nul_pos(buf@, pos as int, 13) < 0,
        },
{
    let blen = buf.len();
    let mut name: Vec<u8> = Vec::new();
    let mut j: usize = 0;
    while j < 13
        invariant
            blen == buf@.len(),
            pos + j <= blen,
            j <= 13,
            name@ == buf@.subrange(pos as int, pos + j),
            forall|t: int| 0 <= t < j ==> #[trigger] buf@[pos + t] != 0,
        decreases 13 - j,
    {
        if pos + j == blen {
            proof {
                lemma_nul_pos_props(buf@, pos as int, 13);
                if nul_pos(buf@, pos as int, 13) >= 0 {
                    let jj = nul_pos(buf@, pos as int, 13);
                    assert(buf@[pos + jj] != 0);
                }
            }
            return Err(PakError::CorruptFilename);
        }
        let b = buf[pos + j];
        if b == 0 {
            proof {
                lemma_nul_pos_found(buf@, pos as int, 13, j as int);
            }
            return Ok((name, pos + j + 1));
        }
        name.push(b);
        j = j + 1;
        proof {
            assert(name@ =~= buf@.subrange(pos as int, pos + j as int));
        }
    }
    proof {
        lemma_nul_pos_props(buf@, pos as int, 13);
        if nul_pos(buf@, pos as int, 13) >= 0 {
            let jj = nul_pos(buf@, pos as int, 13);
            assert(buf@[pos + jj] != 0);
        }
    }
    Err(PakError::CorruptFilename)
}

/// Decodes an archive buffer into its ordered entry descriptors: the scan
/// reads (offset, name) records until the four-byte all-zero sentinel; each
/// entry ends one byte before the next begins, and the last one ends at the
/// buffer's last byte. The buffer ending inside an offset field is a
/// `TruncatedHeader`; a missing null terminator is a `CorruptFilename`.
pub fn decode(buf: &Vec<u8>) -> (r: Result<Vec<HeaderEntry>, PakError>)
    requires
        buf@.len() <= u32::MAX,
    ensures
        match r {
            Ok(hdrs) => decoding(buf@) == Ok::<Seq<HeaderModel>, PakError>(header_models(hdrs@))
                && (forall|i: int|
                1 <= i < hdrs@.len() ==> #[trigger] header_models(hdrs@)[i].starts
                    == header_models(hdrs@)[i - 1].ends + 1),
            Err(e) => decoding(buf@) == Err::<Seq<HeaderModel>, PakError>(e),
        },
{
    let blen = buf.len();
    let mut done: Vec<HeaderEntry> = Vec::new();
    let mut prev: Option<HeaderEntry> = None;
    let mut pos: usize = 0;
    let ghost mut raw: Seq<(u32, Seq<u8>)> = Seq::empty();
    loop
        invariant
            blen == buf@.len(),
            buf@.len() <= u32::MAX,
            pos <= blen,
            (match parse_header(buf@, pos as int) {
                Ok(rest) => parse_header(buf@, 0) == Ok::<Seq<(u32, Seq<u8>)>, PakError>(
                    raw + rest,
                ),
                Err(e) => parse_header(buf@, 0) == Err::<Seq<(u32, Seq<u8>)>, PakError>(e),
            }),
            (match prev {
                Some(p) => raw.len() == done@.len() + 1 && p@.starts == raw[raw.len() - 1].0
                    && p@.filename == raw[raw.len() - 1].1,
                None => raw.len() == 0 && done@.len() == 0,
            }),
            forall|i: int|
                0 <= i < done@.len() ==> #[trigger] done@[i]@.starts == raw[i].0
                    && done@[i]@.filename == raw[i].1 && done@[i]@.ends == raw[i + 1].0 - 1,
            forall|i: int| 0 <= i < raw.len() ==> #[trigger] raw[i].0 >= 1,
        decreases blen - pos,
    {
        match read_int32(buf, pos) {
            Err(e) => {
                return Err(e);
            },
            Ok(starts) => {
                if starts == 0 {
                    // The sentinel: close the last entry at the buffer's end.
                    let ghost done0 = done@;
                    let mut result = done;
                    match prev {
                        Some(p) => {
                            let mut p = p;
                            p.ends = (blen - 1) as u32;
                            result.push(p);
                        },
                        None => {},
                    }
                    proof {
                        assert(raw + Seq::<(u32, Seq<u8>)>::empty() =~= raw);
                        let m = assign_ends(raw, blen as int);
                        assert forall|i: int|
                            0 <= i < result@.len() implies #[trigger] header_models(result@)[i]
                            == m[i] by {
                            if i < done0.len() {
                                assert(result@[i] == done0[i]);
                                assert(done0[i]@.starts == raw[i].0);
                            } else {
                                assert(i == raw.len() - 1);
                            }
                        }
                        assert(header_models(result@) =~= m);
                    }
                    return Ok(result);
                }
                let pos2 = pos + 4;
                match read_filename_with_nul(buf, pos2) {
                    Err(e) => {
                        return Err(e);
                    },
                    Ok((name, next)) => {
                        let ghost done0 = done@;
                        let ghost name_bytes = name@;
                        match prev {
                            Some(p) => {
                                let mut p = p;
                                p.ends = starts - 1;
                                done.push(p);
                            },
                            None => {},
                        }
                        prev = Some(HeaderEntry { starts, ends: 0, filename: name });
                        proof {
                            let raw0 = raw;
                            raw = raw.push((starts, name_bytes));
                            let j = nul_pos(buf@, pos2 as int, 13);
                            assert(name_bytes == buf@.subrange(pos + 4, pos + 4 + j));
                            match parse_header(buf@, next as int) {
                                Ok(rest2) => {
                                    assert(raw0 + (seq![(starts, name_bytes)] + rest2) =~= raw
                                        + rest2);
                                },
                                Err(e2) => {},
                            }
                            assert forall|i: int|
                                0 <= i < done@.len() implies #[trigger] done@[i]@.starts
                                == raw[i].0 && done@[i]@.filename == raw[i].1 && done@[i]@.ends
                                == raw[i + 1].0 - 1 by {
                                if i < done0.len() {
                                    assert(done@[i] == done0[i]);
                                    assert(done0[i]@.starts == raw0[i].0);
                                    assert(raw[i] == raw0[i]);
                                    assert(raw[i + 1] == raw0[i + 1]);
                                }
                            }
                        }
                        pos = next;
                    },
                }
            },
        }
    }
}

/// Copies one decoded entry's content bytes — the inclusive range
/// `starts ..= ends` — out of the archive buffer. A range that does not lie
/// inside the buffer is rejected with `RangeOutOfBounds`.
pub fn entry_content(buf: &Vec<u8>, hdr: &HeaderEntry) -> (r: Result<Vec<u8>, PakError>)
    ensures
        match r {
            Ok(c) => hdr@.ends < buf@.len() && hdr@.starts <= hdr@.ends + 1 && c@ == buf@.subrange(
                hdr@.starts as int,
                hdr@.ends + 1,
            ),
            Err(e) => e == (PakError::RangeOutOfBounds) && (hdr@.ends >= buf@.len() || hdr@.starts
                > hdr@.ends + 1),
        },
{
    let s = hdr.starts as usize;
    let e = hdr.ends as usize;
    if e >= buf.len() || s > e + 1 {
        return Err(PakError::RangeOutOfBounds);
    }
    let end = e + 1;
    let mut out: Vec<u8> = Vec::new();
    let mut i: usize = s;
    while i < end
        invariant
            s <= i <= end,
            s == hdr@.starts,
            end == hdr@.ends + 1,
            end <= buf@.len(),
            out@ == buf@.subrange(s as int, i as int),
        decreases end - i,
    {
        out.push(buf[i]);
        i = i + 1;
        proof {
            assert(out@ =~= buf@.subrange(s as int, i as int));
        }
    }
    Ok(out)
}

} // verus!
