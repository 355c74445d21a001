//! Mathematical model of the archive layout: the exact byte sequence an
//! entry list encodes to, the parse of a header table, and the lemmas that
//! relate prefixes, sizes and single bytes of an encoding.

use vstd::prelude::*;
use crate::bytes::{le32_bytes, le32_value, upper_bytes, upper_byte};
use crate::entry::{FileModel, HeaderModel, PakError};

verus! {

/// A name the encoder can embed: it carries no null byte, which the format
/// uses as the name terminator.
pub open spec fn nul_free(name: Seq<u8>) -> bool {
    forall|i: int| 0 <= i < name.len() ==> name[i] != 0
}

/// Header-table bytes taken by the first `k` entries: four offset bytes,
/// the name and one null terminator each.
pub open spec fn header_prefix_size(es: Seq<FileModel>, k: int) -> int
    decreases k,
{
    if k <= 0 {
        0
    } else {
        header_prefix_size(es, k - 1) + 5 + es[k - 1].filename.len()
    }
}

/// Full header-table size: every entry's record plus the four sentinel bytes.
pub open spec fn header_table_size(es: Seq<FileModel>) -> int {
    header_prefix_size(es, es.len() as int) + 4
}

/// Total content bytes of the first `k` entries.
pub open spec fn content_prefix_size(es: Seq<FileModel>, k: int) -> int
    decreases k,
{
    if k <= 0 {
        0
    } else {
        content_prefix_size(es, k - 1) + es[k - 1].contents.len()
    }
}

/// Absolute offset at which entry `k`'s contents begin.
pub open spec fn entry_start(es: Seq<FileModel>, k: int) -> int {
    header_table_size(es) + content_prefix_size(es, k)
}

/// Total size of the archive encoding the entries.
pub open spec fn archive_size(es: Seq<FileModel>) -> int {
    entry_start(es, es.len() as int)
}

/// The header-table record of entry `k`: its start offset in little-endian
/// form, its upper-cased name, and the null terminator.
pub open spec fn entry_header_piece(es: Seq<FileModel>, k: int) -> Seq<u8> {
    le32_bytes(entry_start(es, k) as u32) + upper_bytes(es[k].filename) + seq![0u8]
}

/// The header-table bytes of the first `k` entries.
pub open spec fn header_prefix_bytes(es: Seq<FileModel>, k: int) -> Seq<u8>
    decreases k,
{
    if k <= 0 {
        Seq::empty()
    } else {
        header_prefix_bytes(es, k - 1) + entry_header_piece(es, k - 1)
    }
}

/// The concatenated contents of the first `k` entries.
pub open spec fn content_prefix_bytes(es: Seq<FileModel>, k: int) -> Seq<u8>
    decreases k,
{
    if k <= 0 {
        Seq::empty()
    } else {
        content_prefix_bytes(es, k - 1) + es[k - 1].contents
    }
}

/// The archive encoding of a list of entries: header records, the four-byte
/// all-zero sentinel, then the packed contents.
pub open spec fn encoding(es: Seq<FileModel>) -> Seq<u8> {
    header_prefix_bytes(es, es.len() as int) + seq![0u8, 0u8, 0u8, 0u8] + content_prefix_bytes(
        es,
        es.len() as int,
    )
}

/// Offset of the first null byte among `buf[from..from + window]`, or -1 when
/// none stands there (the window is cut short where the buffer ends).
pub open spec fn nul_pos(buf: Seq<u8>, from: int, window: int) -> int
    decreases window,
{
    if window <= 0 || from >= buf.len() || from < 0 {
        -1
    } else if buf[from] == 0 {
        0
    } else {
        let rest = nul_pos(buf, from + 1, window - 1);
        if rest < 0 {
            -1
        } else {
            1 + rest
        }
    }
}

/// What `nul_pos` returns points at the first null byte of the window.
pub proof fn lemma_nul_pos_props(buf: Seq<u8>, from: int, window: int)
    requires
        0 <= from,
    ensures
        nul_pos(buf, from, window) >= 0 ==> {
            let j = nul_pos(buf, from, window);
            j < window && from + j < buf.len() && buf[from + j] == 0 && (forall|t: int|
                0 <= t < j ==> #[trigger] buf[from + t] != 0)
        },
    decreases window,
{
    if window <= 0 || from >= buf.len() {
    } else if buf[from] == 0 {
    } else {
        lemma_nul_pos_props(buf, from + 1, window - 1);
        if nul_pos(buf, from + 1, window - 1) >= 0 {
            let j = nul_pos(buf, from, window);
            assert forall|t: int| 0 <= t < j implies #[trigger] buf[from + t] != 0 by {
                if t > 0 {
                    assert(buf[(from + 1) + (t - 1)] != 0);
                }
            }
        }
    }
}

/// Where the window holds a null byte whose earlier bytes are all non-null,
/// `nul_pos` finds exactly that byte.
pub proof fn lemma_nul_pos_found(buf: Seq<u8>, from: int, window: int, j: int)
    requires
        0 <= from,
        0 <= j < window,
        from + j < buf.len(),
        buf[from + j] == 0,
        forall|t: int| 0 <= t < j ==> #[trigger] buf[from + t] != 0,
    ensures
        nul_pos(buf, from, window) == j,
    decreases window,
{
    if j == 0 {
    } else {
        assert(buf[from + 0] != 0);
        assert forall|t: int| 0 <= t < j - 1 implies #[trigger] buf[(from + 1) + t] != 0 by {
            assert(buf[from + (t + 1)] != 0);
        }
        lemma_nul_pos_found(buf, from + 1, window - 1, j - 1);
    }
}

/// The parse of the header table from `pos` on: the (start offset, name)
/// pairs of the remaining records, up to the all-zero sentinel. The name
/// scan window is thirteen bytes, so an accepted name has at most twelve.
pub open spec fn parse_header(buf: Seq<u8>, pos: int) -> Result<Seq<(u32, Seq<u8>)>, PakError>
    decreases buf.len() - pos,
        when 0 <= pos
{
    if pos + 4 > buf.len() {
        Err(PakError::TruncatedHeader)
    } else {
        let starts = le32_value(buf[pos], buf[pos + 1], buf[pos + 2], buf[pos + 3]);
        if starts == 0 {
            Ok(Seq::empty())
        } else {
            let j = nul_pos(buf, pos + 4, 13);
            if j < 0 {
                Err(PakError::CorruptFilename)
            } else {
                proof {
                    lemma_nul_pos_props(buf, pos + 4, 13);
                }
                let name = buf.subrange(pos + 4, pos + 4 + j);
                match parse_header(buf, pos + 4 + j + 1) {
                    Ok(rest) => Ok(seq![(starts, name)] + rest),
                    Err(e) => Err(e),
                }
            }
        }
    }
}

/// The end offsets of the parsed records: each entry ends one byte before
/// the next entry starts; the last one ends at the buffer's last byte.
pub open spec fn assign_ends(raw: Seq<(u32, Seq<u8>)>, buflen: int) -> Seq<HeaderModel> {
    Seq::new(
        raw.len(),
        |i: int|
            HeaderModel {
                starts: raw[i].0,
                ends: if i + 1 < raw.len() {
                    (raw[i + 1].0 - 1) as u32
                } else {
                    (buflen - 1) as u32
                },
                filename: raw[i].1,
            },
    )
}

/// What decoding an archive buffer yields.
pub open spec fn decoding(buf: Seq<u8>) -> Result<Seq<HeaderModel>, PakError> {
    match parse_header(buf, 0) {
        Ok(raw) => Ok(assign_ends(raw, buf.len() as int)),
        Err(e) => Err(e),
    }
}

/// Header prefix sizes are non-negative and grow with the prefix.
pub proof fn lemma_header_prefix_size_mono(es: Seq<FileModel>, j: int, k: int)
    requires
        0 <= j <= k,
    ensures
        0 <= header_prefix_size(es, j) <= header_prefix_size(es, k),
    decreases k,
{
    if k > 0 && j < k {
        lemma_header_prefix_size_mono(es, j, k - 1);
    }
    if k > 0 && j == k {
        lemma_header_prefix_size_mono(es, j - 1, k - 1);
    }
}

/// Content prefix sizes are non-negative and grow with the prefix.
pub proof fn lemma_content_prefix_size_mono(es: Seq<FileModel>, j: int, k: int)
    requires
        0 <= j <= k,
    ensures
        0 <= content_prefix_size(es, j) <= content_prefix_size(es, k),
    decreases k,
{
    if k > 0 && j < k {
        lemma_content_prefix_size_mono(es, j, k - 1);
    }
    if k > 0 && j == k {
        lemma_content_prefix_size_mono(es, j - 1, k - 1);
    }
}

/// The header prefix bytes of the first `k` entries take exactly
/// `header_prefix_size(es, k)` bytes.
pub proof fn lemma_header_prefix_bytes_len(es: Seq<FileModel>, k: int)
    requires
        0 <= k,
    ensures
        header_prefix_bytes(es, k).len() == header_prefix_size(es, k),
    decreases k,
{
    if k > 0 {
        lemma_header_prefix_bytes_len(es, k - 1);
    }
}

/// The packed contents of the first `k` entries take exactly
/// `content_prefix_size(es, k)` bytes.
pub proof fn lemma_content_prefix_bytes_len(es: Seq<FileModel>, k: int)
    requires
        0 <= k,
    ensures
        content_prefix_bytes(es, k).len() == content_prefix_size(es, k),
    decreases k,
{
    if k > 0 {
        lemma_content_prefix_bytes_len(es, k - 1);
    }
}

/// An archive's length is the header table plus all contents.
pub proof fn lemma_encoding_len(es: Seq<FileModel>)
    ensures
        encoding(es).len() == archive_size(es),
{
    lemma_header_prefix_bytes_len(es, es.len() as int);
    lemma_content_prefix_bytes_len(es, es.len() as int);
}

/// Sentinel placement: in the encoding of any entry list, the four bytes
/// that follow the header records — at offset `sum(4 + len(name_i) + 1)` —
/// are exactly the all-zero sentinel.
pub proof fn lemma_sentinel_placement(es: Seq<FileModel>)
    ensures
        encoding(es).subrange(
            header_prefix_size(es, es.len() as int),
            header_prefix_size(es, es.len() as int) + 4,
        ) == seq![0u8, 0u8, 0u8, 0u8],
{
    lemma_header_prefix_bytes_len(es, es.len() as int);
    lemma_header_prefix_size_mono(es, 0, es.len() as int);
    lemma_content_prefix_bytes_len(es, es.len() as int);
    lemma_content_prefix_size_mono(es, 0, es.len() as int);
    let a = header_prefix_bytes(es, es.len() as int);
    let b = seq![0u8, 0u8, 0u8, 0u8];
    let c = content_prefix_bytes(es, es.len() as int);
    assert(encoding(es) == (a + b) + c);
    assert forall|t: int| 0 <= t < 4 implies encoding(es)[header_prefix_size(
        es,
        es.len() as int,
    ) + t] == b[t] by {
        assert(((a + b) + c)[a.len() + t] == (a + b)[a.len() + t]);
        assert((a + b)[a.len() + t] == b[t]);
    }
    assert(encoding(es).subrange(
        header_prefix_size(es, es.len() as int),
        header_prefix_size(es, es.len() as int) + 4,
    ) =~= b);
}

/// Within any longer header prefix, the bytes of entry `k`'s record stand
/// unchanged at offset `header_prefix_size(es, k)`.
pub proof fn lemma_header_prefix_bytes_index(es: Seq<FileModel>, m: int, k: int, t: int)
    requires
        0 <= k < m <= es.len(),
        0 <= t < 5 + es[k].filename.len(),
    ensures
        header_prefix_size(es, k) + t < header_prefix_size(es, m),
        header_prefix_bytes(es, m)[header_prefix_size(es, k) + t] == entry_header_piece(es, k)[t],
    decreases m,
{
    lemma_header_prefix_bytes_len(es, m - 1);
    lemma_header_prefix_size_mono(es, 0, k);
    if m == k + 1 {
        assert(header_prefix_bytes(es, m) == header_prefix_bytes(es, k) + entry_header_piece(
            es,
            k,
        ));
        assert(entry_header_piece(es, k).len() == 5 + es[k].filename.len());
        assert((header_prefix_bytes(es, k) + entry_header_piece(es, k))[header_prefix_size(es, k)
            + t] == entry_header_piece(es, k)[t]);
    } else {
        lemma_header_prefix_bytes_index(es, m - 1, k, t);
        assert(header_prefix_bytes(es, m) == header_prefix_bytes(es, m - 1) + entry_header_piece(
            es,
            m - 1,
        ));
        assert((header_prefix_bytes(es, m - 1) + entry_header_piece(es, m - 1))[header_prefix_size(
            es,
            k,
        ) + t] == header_prefix_bytes(es, m - 1)[header_prefix_size(es, k) + t]);
    }
}

/// Within any longer content prefix, the bytes of entry `k`'s contents stand
/// unchanged at offset `content_prefix_size(es, k)`.
pub proof fn lemma_content_prefix_bytes_index(es: Seq<FileModel>, m: int, k: int, t: int)
    requires
        0 <= k < m <= es.len(),
        0 <= t < es[k].contents.len(),
    ensures
        content_prefix_size(es, k) + t < content_prefix_size(es, m),
        content_prefix_bytes(es, m)[content_prefix_size(es, k) + t] == es[k].contents[t],
    decreases m,
{
    lemma_content_prefix_bytes_len(es, m - 1);
    lemma_content_prefix_size_mono(es, 0, k);
    if m == k + 1 {
        assert(content_prefix_bytes(es, m) == content_prefix_bytes(es, k) + es[k].contents);
        assert((content_prefix_bytes(es, k) + es[k].contents)[content_prefix_size(es, k) + t]
            == es[k].contents[t]);
    } else {
        lemma_content_prefix_bytes_index(es, m - 1, k, t);
        assert(content_prefix_bytes(es, m) == content_prefix_bytes(es, m - 1) + es[m - 1].contents);
        assert((content_prefix_bytes(es, m - 1) + es[m - 1].contents)[content_prefix_size(es, k)
            + t] == content_prefix_bytes(es, m - 1)[content_prefix_size(es, k) + t]);
    }
}

} // verus!
