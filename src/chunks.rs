use vstd::prelude::*;

verus! {

/// Big-endian 32-bit integer at `i`.
pub open spec fn be32(b: Seq<u8>, i: int) -> int {
    b[i] * 16777216 + b[i + 1] * 65536 + b[i + 2] * 256 + b[i + 3]
}

/// Little-endian 32-bit integer at `i`.
pub open spec fn le32(b: Seq<u8>, i: int) -> int {
    b[i + 3] * 16777216 + b[i + 2] * 65536 + b[i + 1] * 256 + b[i]
}

/// Whether the four bytes at `i` spell the tag `t`.
pub open spec fn tag_at(b: Seq<u8>, i: int, t: Seq<u8>) -> bool {
    b[i] == t[0] && b[i + 1] == t[1] && b[i + 2] == t[2] && b[i + 3] == t[3]
}

pub open spec fn tag_mthd() -> Seq<u8> {
    seq![0x4D, 0x54, 0x68, 0x64]
}

pub open spec fn tag_riff() -> Seq<u8> {
    seq![0x52, 0x49, 0x46, 0x46]
}

pub open spec fn tag_rmid() -> Seq<u8> {
    seq![0x52, 0x4D, 0x49, 0x44]
}

pub open spec fn tag_data() -> Seq<u8> {
    seq![0x64, 0x61, 0x74, 0x61]
}

/// End of a chunk body of `len` bytes that starts at `start`, cut at `end`.
pub open spec fn body_end(start: int, len: int, end: int) -> int {
    if len <= end - start {
        start + len
    } else {
        end
    }
}

/// A header body from `ds` to `de` with a valid format (0, 1 or 2) whose
/// time-code byte is 0x80, the one frame rate whose negation does not fit in
/// a signed byte.
pub open spec fn header_body_unreadable(b: Seq<u8>, ds: int, de: int) -> bool {
    de - ds >= 6 && b[ds] == 0 && b[ds + 1] <= 2 && b[ds + 4] == 0x80
}

/// Whether the chunks from `pos` up to `end` (an 8-byte header: tag and
/// big-endian length, then the body) hold such a header body.
pub open spec fn chunks_unreadable(b: Seq<u8>, pos: int, end: int) -> bool
    decreases end - pos,
{
    if pos < 0 || end > b.len() || end - pos < 8 {
        false
    } else {
        let ds = pos + 8;
        let de = body_end(ds, be32(b, pos + 4), end);
        (tag_at(b, pos, tag_mthd()) && header_body_unreadable(b, ds, de)) || chunks_unreadable(b, de, end)
    }
}

/// The `data` chunk among the RIFF sub-chunks from `pos` up to `end` (tag,
/// little-endian length, body, a pad byte after an odd length), as the span
/// of its body.
pub open spec fn riff_data_from(b: Seq<u8>, pos: int, end: int) -> Option<(int, int)>
    decreases end - pos,
{
    if pos < 0 || end > b.len() || end - pos < 8 {
        None
    } else {
        let len = le32(b, pos + 4);
        let ds = pos + 8;
        let de = body_end(ds, len, end);
        if tag_at(b, pos, tag_data()) {
            Some((ds, de))
        } else {
            riff_data_from(b, if len % 2 == 1 && de < end { de + 1 } else { de }, end)
        }
    }
}

/// The span of the MIDI data inside an RMID file.
pub open spec fn riff_data(b: Seq<u8>) -> Option<(int, int)> {
    if b.len() < 8 || !tag_at(b, 0, tag_riff()) {
        None
    } else {
        let re = body_end(8, le32(b, 4), b.len() as int);
        if re - 8 < 4 || !tag_at(b, 8, tag_rmid()) {
            None
        } else {
            riff_data_from(b, 12, re)
        }
    }
}

/// Whether a file holds, among the chunks that midly walks (after
/// unwrapping an RMID file), a header whose time code midly cannot read.
pub open spec fn has_unreadable_header(b: Seq<u8>) -> bool {
    if b.len() >= 4 && tag_at(b, 0, tag_riff()) {
        match riff_data(b) {
            Some((s, e)) => chunks_unreadable(b, s, e),
            None => false,
        }
    } else if b.len() >= 4 && tag_at(b, 0, tag_mthd()) {
        chunks_unreadable(b, 0, b.len() as int)
    } else {
        false
    }
}

fn read_be32(b: &[u8], i: usize) -> (r: u64)
    requires
        i + 4 <= b@.len(),
    ensures
        r == be32(b@, i as int),
{
    b[i] as u64 * 16777216 + b[i + 1] as u64 * 65536 + b[i + 2] as u64 * 256 + b[i + 3] as u64
}

fn read_le32(b: &[u8], i: usize) -> (r: u64)
    requires
        i + 4 <= b@.len(),
    ensures
        r == le32(b@, i as int),
{
    assert(b@.len() == b.len());
    let x2 = b[i + 2] as u64;
    let x3 = b[i + 3] as u64;
    assert(x3 * 16777216 <= 255 * 16777216 && x2 * 65536 <= 255 * 65536) by (nonlinear_arith)
        requires
            x3 <= 255,
            x2 <= 255,
    ;
    b[i + 3] as u64 * 16777216 + b[i + 2] as u64 * 65536 + b[i + 1] as u64 * 256 + b[i] as u64
}

fn is_tag(b: &[u8], i: usize, t: [u8; 4]) -> (r: bool)
    requires
        i + 4 <= b@.len(),
    ensures
        r == tag_at(b@, i as int, t@),
{
    b[i] == t[0] && b[i + 1] == t[1] && b[i + 2] == t[2] && b[i + 3] == t[3]
}

fn chunk_body_end(start: usize, len: u64, end: usize) -> (r: usize)
    requires
        start <= end,
    ensures
        r == body_end(start as int, len as int, end as int),
        start <= r <= end,
{
    if len <= (end - start) as u64 {
        start + len as usize
    } else {
        end
    }
}

fn scan_chunks(b: &[u8], start: usize, end: usize) -> (r: bool)
    requires
        start <= end <= b@.len(),
    ensures
        r == chunks_unreadable(b@, start as int, end as int),
{
    let mut pos = start;
    while pos <= end && end - pos >= 8
        invariant
            start <= pos <= end <= b@.len(),
            chunks_unreadable(b@, start as int, end as int) == chunks_unreadable(b@, pos as int, end as int),
        decreases end - pos,
    {
        let ds = pos + 8;
        let de = chunk_body_end(ds, read_be32(b, pos + 4), end);
        if is_tag(b, pos, [0x4D, 0x54, 0x68, 0x64]) && de - ds >= 6 && b[ds] == 0 && b[ds + 1] <= 2 && b[ds + 4] == 0x80 {
            assert(seq![0x4Du8, 0x54, 0x68, 0x64] == tag_mthd());
            return true;
        }
        assert([0x4Du8, 0x54, 0x68, 0x64]@ =~= tag_mthd());
        pos = de;
    }
    false
}

fn find_riff_data(b: &[u8]) -> (r: Option<(usize, usize)>)
    ensures
        match riff_data(b@) {
            Some((s, e)) => r == Some((s as usize, e as usize)) && 0 <= s <= e <= b@.len(),
            None => r is None,
        },
{
    if b.len() < 8 || !is_tag(b, 0, [0x52, 0x49, 0x46, 0x46]) {
        assert([0x52u8, 0x49, 0x46, 0x46]@ =~= tag_riff());
        return None;
    }
    assert([0x52u8, 0x49, 0x46, 0x46]@ =~= tag_riff());
    let re = chunk_body_end(8, read_le32(b, 4), b.len());
    if re - 8 < 4 || !is_tag(b, 8, [0x52, 0x4D, 0x49, 0x44]) {
        assert([0x52u8, 0x4D, 0x49, 0x44]@ =~= tag_rmid());
        return None;
    }
    assert([0x52u8, 0x4D, 0x49, 0x44]@ =~= tag_rmid());
    assert([0x64u8, 0x61, 0x74, 0x61]@ =~= tag_data());
    let mut pos: usize = 12;
    while pos <= re && re - pos >= 8
        invariant
            12 <= pos <= re <= b@.len(),
            riff_data(b@) == riff_data_from(b@, pos as int, re as int),
            [0x64u8, 0x61, 0x74, 0x61]@ == tag_data(),
        decreases re - pos,
    {
        let len = read_le32(b, pos + 4);
        let ds = pos + 8;
        let de = chunk_body_end(ds, len, re);
        if is_tag(b, pos, [0x64, 0x61, 0x74, 0x61]) {
            return Some((ds, de));
        }
        pos = if len % 2 == 1 && de < re { de + 1 } else { de };
    }
    None
}

/// Whether midly would meet a header whose time code it cannot read.
pub fn unreadable_header(b: &[u8]) -> (r: bool)
    ensures
        r == has_unreadable_header(b@),
{
    assert([0x52u8, 0x49, 0x46, 0x46]@ =~= tag_riff());
    assert([0x4Du8, 0x54, 0x68, 0x64]@ =~= tag_mthd());
    if b.len() >= 4 && is_tag(b, 0, [0x52, 0x49, 0x46, 0x46]) {
        match find_riff_data(b) {
            Some((s, e)) => scan_chunks(b, s, e),
            None => false,
        }
    } else if b.len() >= 4 && is_tag(b, 0, [0x4D, 0x54, 0x68, 0x64]) {
        scan_chunks(b, 0, b.len())
    } else {
        false
    }
}

} // verus!
