//! The fixed-size records of the parser capabilities' answers.
use vstd::prelude::*;
use vstd::string::StrSliceExecFns;
use vstd::utf8::*;

use crate::text::{chars_of, lemma_str_decodes, trim, trim_bounds, utf8_str};
use crate::wire::{
    le_bytes, le_u32_at, lemma_le_roundtrip, read_u32_le, CALL_SITE_RECORD, RETRIEVAL_RECORD,
};

verus! {

/// The end of the zero-terminated text that starts at `start` in a field that
/// ends at `end`: the index of the first zero byte, or `end`.
pub open spec fn nul_end(data: Seq<u8>, start: int, end: int) -> int
    decreases end - start,
{
    if start >= end || data[start] == 0 {
        start
    } else {
        nul_end(data, start + 1, end)
    }
}

/// Finds [`nul_end`].
pub fn find_nul(data: &[u8], start: usize, end: usize) -> (r: usize)
    requires
        start <= end <= data@.len(),
    ensures
        r == nul_end(data@, start as int, end as int),
        start <= r <= end,
{
    let mut i = start;
    while i < end && data[i] != 0
        invariant
            start <= i <= end <= data@.len(),
            nul_end(data@, start as int, end as int) == nul_end(data@, i as int, end as int),
        decreases end - i,
    {
        i = i + 1;
    }
    i
}

/// How many whole records of `size` bytes, after the 4-byte count, are read:
/// as many as the count says, but no more than the data holds.
pub open spec fn record_count(data: Seq<u8>, size: int) -> int {
    if data.len() < 4 {
        0
    } else {
        let declared = le_u32_at(data, 0) as int;
        let present = (data.len() - 4) / size;
        if declared <= present {
            declared
        } else {
            present
        }
    }
}

/// `i` records of `size` bytes fit after the count exactly when `i` is at most
/// the number present, and the loop that reads them stops at that number.
proof fn lemma_records_present(len: int, i: int, size: int)
    requires
        size > 0,
        0 <= i,
        4 + size * i <= len,
    ensures
        i <= (len - 4) / size,
        len - (4 + size * i) < size ==> (len - 4) / size == i,
{
    assert(i <= (len - 4) / size) by (nonlinear_arith)
        requires
            size > 0,
            0 <= i,
            size * i <= len - 4,
    ;
    if len - (4 + size * i) < size {
        assert((len - 4) / size == i) by (nonlinear_arith)
            requires
                size > 0,
                0 <= i,
                size * i <= len - 4,
                len - 4 - size * i < size,
        ;
    }
}

/// The `k`-th call-site record: its offset and its name, when the name is
/// non-empty valid UTF-8 (text up to the first zero byte of the 64-byte field).
pub open spec fn call_site_record(data: Seq<u8>, k: int) -> Option<(u32, Seq<char>)> {
    let pos = 4 + 68 * k;
    let name = data.subrange(pos + 4, nul_end(data, pos + 4, pos + 68));
    if name.len() > 0 && valid_utf8(name) {
        Some((le_u32_at(data, pos), decode_utf8(name)))
    } else {
        None
    }
}

/// The call sites of the first `n` records.
pub open spec fn call_sites_upto(data: Seq<u8>, n: int) -> Seq<(u32, Seq<char>)>
    decreases n,
{
    if n <= 0 {
        Seq::empty()
    } else {
        call_sites_upto(data, n - 1) + match call_site_record(data, n - 1) {
            Some(site) => seq![site],
            None => Seq::empty(),
        }
    }
}

/// All call sites that a call-site answer holds, in order.
pub open spec fn decoded_call_sites(data: Seq<u8>) -> Seq<(u32, Seq<char>)> {
    call_sites_upto(data, record_count(data, 68))
}

/// Call sites as plain values.
pub open spec fn call_sites_view(s: Seq<(u32, &str)>) -> Seq<(u32, Seq<char>)> {
    s.map_values(|e: (u32, &str)| (e.0, e.1@))
}

/// Decodes a call-site answer: a little-endian `u32` count, then records of a
/// `u32` offset and a zero-padded 64-byte name. Records past the end of the data
/// are not read; records whose name is empty or not UTF-8 are skipped.
pub fn decode_call_sites(data: &[u8]) -> (sites: Vec<(u32, &str)>)
    ensures
        call_sites_view(sites@) == decoded_call_sites(data@),
{
    let mut sites: Vec<(u32, &str)> = Vec::new();
    if data.len() < 4 {
        return sites;
    }
    let count = read_u32_le(data, 0) as usize;
    let mut pos: usize = 4;
    let mut i: usize = 0;
    while i < count && data.len() - pos >= CALL_SITE_RECORD
        invariant
            4 <= data@.len(),
            count == le_u32_at(data@, 0),
            pos == 4 + 68 * i,
            pos <= data@.len(),
            i <= count,
            call_sites_view(sites@) == call_sites_upto(data@, i as int),
        decreases count - i,
    {
        let offset = read_u32_le(data, pos);
        let nul = find_nul(data, pos + 4, pos + 68);
        let ghost name = data@.subrange(pos + 4, nul as int);
        let ghost before = sites@;
        if nul > pos + 4 {
            match utf8_str(&data[pos + 4..nul]) {
                Some(name_str) => {
                    proof {
                        lemma_str_decodes(name_str);
                    }
                    sites.push((offset, name_str));
                    assert(call_sites_view(sites@) =~= call_sites_view(before).push(
                        (offset, name_str@),
                    ));
                },
                None => {},
            }
        }
        pos = pos + CALL_SITE_RECORD;
        i = i + 1;
        assert(call_sites_view(sites@) == call_sites_upto(data@, i as int));
    }
    proof {
        lemma_records_present(data@.len() as int, i as int, 68);
    }
    sites
}

/// The `k`-th retrieval record: offset, length, trimmed label and kind, when the
/// label (text up to the first zero byte of the 95-byte field) is valid UTF-8,
/// not blank, and the length is not zero.
pub open spec fn retrieval_record(data: Seq<u8>, k: int) -> Option<(u32, u32, Seq<char>, u8)> {
    let pos = 4 + 104 * k;
    let bytes = data.subrange(pos + 8, nul_end(data, pos + 8, pos + 103));
    let length = le_u32_at(data, pos + 4);
    if valid_utf8(bytes) && trim(decode_utf8(bytes)).len() > 0 && length > 0 {
        Some((le_u32_at(data, pos), length, trim(decode_utf8(bytes)), data[pos + 103]))
    } else {
        None
    }
}

/// The chunks of the first `n` records.
pub open spec fn retrieval_upto(data: Seq<u8>, n: int) -> Seq<(u32, u32, Seq<char>, u8)>
    decreases n,
{
    if n <= 0 {
        Seq::empty()
    } else {
        retrieval_upto(data, n - 1) + match retrieval_record(data, n - 1) {
            Some(chunk) => seq![chunk],
            None => Seq::empty(),
        }
    }
}

/// All chunks that a retrieval answer holds, in order.
pub open spec fn decoded_retrieval(data: Seq<u8>) -> Seq<(u32, u32, Seq<char>, u8)> {
    retrieval_upto(data, record_count(data, 104))
}

/// Chunks as plain values.
pub open spec fn chunks_view(s: Seq<(u32, u32, &str, u8)>) -> Seq<(u32, u32, Seq<char>, u8)> {
    s.map_values(|e: (u32, u32, &str, u8)| (e.0, e.1, e.2@, e.3))
}

/// `s` without white space at either end (`str::trim`).
pub fn trim_str(s: &str) -> (t: &str)
    ensures
        t@ == trim(s@),
{
    let cs = chars_of(s);
    let (a, b) = trim_bounds(cs.as_slice(), 0, cs.len());
    assert(cs@.subrange(0, cs@.len() as int) =~= s@);
    s.substring_char(a, b)
}

/// Decodes a retrieval answer: a little-endian `u32` count, then records of a
/// `u32` offset, a `u32` length, a zero-padded 95-byte label and a kind byte.
/// Records past the end of the data are not read; records whose label is not
/// UTF-8 or is blank, or whose length is zero, are skipped. Labels are trimmed.
pub fn decode_retrieval(data: &[u8]) -> (chunks: Vec<(u32, u32, &str, u8)>)
    ensures
        chunks_view(chunks@) == decoded_retrieval(data@),
{
    let mut chunks: Vec<(u32, u32, &str, u8)> = Vec::new();
    if data.len() < 4 {
        return chunks;
    }
    let count = read_u32_le(data, 0) as usize;
    let mut pos: usize = 4;
    let mut i: usize = 0;
    while i < count && data.len() - pos >= RETRIEVAL_RECORD
        invariant
            4 <= data@.len(),
            count == le_u32_at(data@, 0),
            pos == 4 + 104 * i,
            pos <= data@.len(),
            i <= count,
            chunks_view(chunks@) == retrieval_upto(data@, i as int),
        decreases count - i,
    {
        let offset = read_u32_le(data, pos);
        let length = read_u32_le(data, pos + 4);
        let kind = data[pos + 103];
        let nul = find_nul(data, pos + 8, pos + 103);
        let ghost before = chunks@;
        match utf8_str(&data[pos + 8..nul]) {
            Some(label) => {
                proof {
                    lemma_str_decodes(label);
                }
                let label = trim_str(label);
                if label.unicode_len() > 0 && length > 0 {
                    chunks.push((offset, length, label, kind));
                    assert(chunks_view(chunks@) =~= chunks_view(before).push(
                        (offset, length, label@, kind),
                    ));
                }
            },
            None => {},
        }
        pos = pos + RETRIEVAL_RECORD;
        i = i + 1;
        assert(chunks_view(chunks@) == retrieval_upto(data@, i as int));
    }
    proof {
        lemma_records_present(data@.len() as int, i as int, 104);
    }
    chunks
}

/// `k` zero bytes.
pub open spec fn zeros(k: nat) -> Seq<u8> {
    Seq::new(k, |i: int| 0u8)
}

/// Text without zero bytes, padded with zero bytes, ends at the padding.
proof fn lemma_nul_end_padded(data: Seq<u8>, start: int, end: int, text: Seq<u8>, i: int)
    requires
        0 <= start <= i <= start + text.len() <= end <= data.len(),
        data.subrange(start, start + text.len()) == text,
        forall|k: int| 0 <= k < text.len() ==> text[k] != 0,
        start + text.len() < end ==> data[start + text.len()] == 0,
    ensures
        nul_end(data, i, end) == start + text.len(),
    decreases end - i,
{
    if i < start + text.len() {
        assert(data.subrange(start, start + text.len())[i - start] == data[i]);
        lemma_nul_end_padded(data, start, end, text, i + 1);
    }
}

/// The four bytes of `le_bytes(x)` at `pos` read back as `x`.
proof fn lemma_le_at(data: Seq<u8>, pos: int, x: u32)
    requires
        0 <= pos,
        pos + 4 <= data.len(),
        data.subrange(pos, pos + 4) == le_bytes(x),
    ensures
        le_u32_at(data, pos) == x,
{
    lemma_le_roundtrip(x);
    assert(data.subrange(pos, pos + 4)[0] == data[pos]);
    assert(data.subrange(pos, pos + 4)[1] == data[pos + 1]);
    assert(data.subrange(pos, pos + 4)[2] == data[pos + 2]);
    assert(data.subrange(pos, pos + 4)[3] == data[pos + 3]);
}

/// An answer holding one call-site record reads back as that call site: the
/// offset and the name (valid UTF-8, without zero bytes, at most 64 bytes,
/// zero-padded), whatever count at least one it declares; a count of zero
/// reads nothing.
pub proof fn lemma_call_site_roundtrip(count: u32, offset: u32, name: Seq<u8>)
    requires
        0 < name.len() <= 64,
        forall|k: int| 0 <= k < name.len() ==> name[k] != 0,
        valid_utf8(name),
    ensures
        ({
            let data = le_bytes(count) + le_bytes(offset) + name + zeros((64 - name.len()) as nat);
            &&& count >= 1 ==> decoded_call_sites(data) == seq![(offset, decode_utf8(name))]
            &&& count == 0 ==> decoded_call_sites(data) == Seq::<(u32, Seq<char>)>::empty()
        }),
{
    let data = le_bytes(count) + le_bytes(offset) + name + zeros((64 - name.len()) as nat);
    assert(data.len() == 72);
    assert(data.subrange(0, 4) =~= le_bytes(count));
    assert(data.subrange(4, 8) =~= le_bytes(offset));
    assert(data.subrange(8, 8 + name.len() as int) =~= name);
    lemma_le_at(data, 0, count);
    lemma_le_at(data, 4, offset);
    if name.len() < 64 {
        assert(data[8 + name.len() as int] == zeros((64 - name.len()) as nat)[0]);
    }
    lemma_nul_end_padded(data, 8, 72, name, 8);
    assert(record_count(data, 68) == if count >= 1 {
        1int
    } else {
        0int
    });
    assert(call_sites_upto(data, 0) =~= Seq::<(u32, Seq<char>)>::empty());
    if count >= 1 {
        assert(call_site_record(data, 0) == Some((offset, decode_utf8(name))));
        assert(call_sites_upto(data, 1) =~= seq![(offset, decode_utf8(name))]);
    }
}

/// An answer holding one retrieval record reads back as that chunk: offset,
/// length, trimmed label (valid UTF-8, without zero bytes, at most 95 bytes,
/// zero-padded) and kind, when the label is not blank and the length is not
/// zero, whatever count at least one it declares.
pub proof fn lemma_retrieval_roundtrip(
    count: u32,
    offset: u32,
    length: u32,
    label: Seq<u8>,
    kind: u8,
)
    requires
        count >= 1,
        length > 0,
        label.len() <= 95,
        forall|k: int| 0 <= k < label.len() ==> label[k] != 0,
        valid_utf8(label),
        trim(decode_utf8(label)).len() > 0,
    ensures
        decoded_retrieval(
            le_bytes(count) + le_bytes(offset) + le_bytes(length) + label + zeros(
                (95 - label.len()) as nat,
            ) + seq![kind],
        ) == seq![(offset, length, trim(decode_utf8(label)), kind)],
{
    let data = le_bytes(count) + le_bytes(offset) + le_bytes(length) + label + zeros(
        (95 - label.len()) as nat,
    ) + seq![kind];
    assert(data.len() == 108);
    assert(data.subrange(0, 4) =~= le_bytes(count));
    assert(data.subrange(4, 8) =~= le_bytes(offset));
    assert(data.subrange(8, 12) =~= le_bytes(length));
    assert(data.subrange(12, 12 + label.len() as int) =~= label);
    assert(data[107] == kind);
    lemma_le_at(data, 0, count);
    lemma_le_at(data, 4, offset);
    lemma_le_at(data, 8, length);
    if label.len() < 95 {
        assert(data[12 + label.len() as int] == zeros((95 - label.len()) as nat)[0]);
    }
    lemma_nul_end_padded(data, 12, 107, label, 12);
    assert(record_count(data, 104) == 1);
    assert(retrieval_upto(data, 0) =~= Seq::<(u32, u32, Seq<char>, u8)>::empty());
    assert(retrieval_record(data, 0) == Some((offset, length, trim(decode_utf8(label)), kind)));
    assert(retrieval_upto(data, 1) =~= seq![(offset, length, trim(decode_utf8(label)), kind)]);
}

} // verus!
