//! Which JPEG byte sequences the picture decoder can count through.
//!
//! `jpeg_decoder` numbers the blocks of a scan in sixteen bits and multiplies those
//! numbers by eight. In a scan of one component whose picture is almost as tall or as
//! wide as a frame header allows, the product does not fit. Such sequences are found
//! by following the markers in the order in which the decoder meets them: the tables,
//! the one frame header, and the scan headers, up to the end of the image.
use vstd::prelude::*;

verus! {

/// The largest side whose blocks all start below 65536 when one more is counted.
pub const MAX_COUNTED_SIDE: u32 = 65528;

/// The position of the next marker byte from `pos` on: the byte after an `FF` that is
/// neither stuffing nor another `FF`.
pub open spec fn next_marker(bytes: Seq<u8>, pos: int) -> Option<int>
    decreases bytes.len() - pos,
{
    if pos + 1 >= bytes.len() {
        None
    } else if bytes[pos] == 0xFF && bytes[pos + 1] != 0x00 && bytes[pos + 1] != 0xFF {
        Some(pos + 1)
    } else {
        next_marker(bytes, pos + 1)
    }
}

/// A marker byte stands behind the position from which it is looked for.
pub proof fn lemma_next_marker(bytes: Seq<u8>, pos: int)
    ensures
        next_marker(bytes, pos) matches Some(q) ==> pos < q < bytes.len(),
    decreases bytes.len() - pos,
{
    if pos + 1 < bytes.len() {
        lemma_next_marker(bytes, pos + 1);
    }
}

/// The number in the two bytes at `k`, the high byte first.
pub open spec fn pair_at(bytes: Seq<u8>, k: int) -> int {
    256 * bytes[k] + bytes[k + 1]
}

/// The segment whose marker is at `q` has a length, and it is not shorter than the
/// length itself.
pub open spec fn has_length(bytes: Seq<u8>, q: int) -> bool {
    q + 2 < bytes.len() && pair_at(bytes, q + 1) >= 2
}

/// Where the segment whose marker is at `q` ends.
pub open spec fn segment_end(bytes: Seq<u8>, q: int) -> int {
    q + 1 + pair_at(bytes, q + 1)
}

/// A frame header at `f` is there as a whole.
pub open spec fn frame_whole(bytes: Seq<u8>, f: int) -> bool {
    f + 8 < bytes.len() && f + 9 + 3 * bytes[f + 8] <= bytes.len()
}

/// Rows of the frame at `f`.
pub open spec fn frame_height(bytes: Seq<u8>, f: int) -> int {
    pair_at(bytes, f + 4)
}

/// Columns of the frame at `f`.
pub open spec fn frame_width(bytes: Seq<u8>, f: int) -> int {
    pair_at(bytes, f + 6)
}

/// Number of components of the frame at `f`.
pub open spec fn frame_components(bytes: Seq<u8>, f: int) -> int {
    bytes[f + 8] as int
}

/// Identifier of component `c`.
pub open spec fn component_id(bytes: Seq<u8>, f: int, c: int) -> u8 {
    bytes[f + 9 + 3 * c]
}

/// Horizontal sampling factor of component `c`.
pub open spec fn component_h(bytes: Seq<u8>, f: int, c: int) -> int {
    bytes[f + 10 + 3 * c] as int / 16
}

/// Vertical sampling factor of component `c`.
pub open spec fn component_v(bytes: Seq<u8>, f: int, c: int) -> int {
    bytes[f + 10 + 3 * c] as int % 16
}

/// Bytes per pixel in the largest buffer that the decoder takes for the frame at `f`.
pub open spec fn buffer_unit(bytes: Seq<u8>, f: int) -> int {
    let n = frame_components(bytes, f);
    if bytes[f] == 0xC3 {
        4 * n
    } else if bytes[f] == 0xC2 && n < 2 {
        2
    } else {
        n
    }
}

/// The picture of the frame at `f`, filled up to whole blocks, takes buffers that no
/// address reaches.
pub open spec fn unreachable_buffers(bytes: Seq<u8>, f: int) -> bool {
    2 * buffer_unit(bytes, f) * ((frame_width(bytes, f) + 32) * (frame_height(bytes, f) + 32))
        > usize::MAX
}

/// A side of the frame at `f` is longer than can be counted in every scan.
pub open spec fn is_large(bytes: Seq<u8>, f: int) -> bool {
    frame_height(bytes, f) > MAX_COUNTED_SIDE || frame_width(bytes, f) > MAX_COUNTED_SIDE
}

/// A scan header at `s` is there as a whole.
pub open spec fn scan_whole(bytes: Seq<u8>, s: int) -> bool {
    s + 3 < bytes.len() && s + 7 + 2 * bytes[s + 3] <= bytes.len()
}

/// Number of components of the scan at `s`.
pub open spec fn scan_components(bytes: Seq<u8>, s: int) -> int {
    bytes[s + 3] as int
}

/// Identifier of the component that the scan at `s` names in place `k`.
pub open spec fn scan_id(bytes: Seq<u8>, s: int, k: int) -> u8 {
    bytes[s + 4 + 2 * k]
}

/// The scan at `s` names the component `id`.
pub open spec fn scan_names(bytes: Seq<u8>, s: int, id: u8) -> bool {
    exists|k: int| 0 <= k < scan_components(bytes, s) && #[trigger] scan_id(bytes, s, k) == id
}

/// The scan at `s` brings coefficient `j` to its last bit. A frame that is not
/// progressive has all coefficients in one scan.
pub open spec fn scan_brings(bytes: Seq<u8>, f: int, s: int, j: int) -> bool {
    let tail = s + 4 + 2 * scan_components(bytes, s);
    &&& bytes[tail + 2] % 16 == 0
    &&& bytes[f] != 0xC2 || bytes[tail] <= j <= bytes[tail + 1]
}

/// The coefficients that are there after the scan at `s`, where those in `known` were
/// there before it. There are 64 of each component.
pub open spec fn known_after(bytes: Seq<u8>, f: int, s: int, known: Seq<bool>) -> Seq<bool> {
    Seq::new(
        known.len(),
        |i: int|
            known[i] || scan_names(bytes, s, component_id(bytes, f, i / 64)) && scan_brings(
                bytes,
                f,
                s,
                i % 64,
            ),
    )
}

/// All coefficients of component `c` are there.
pub open spec fn complete(known: Seq<bool>, c: int) -> bool {
    forall|i: int| 64 * c <= i < 64 * c + 64 ==> #[trigger] known[i]
}

/// No component has more rows of blocks than `c`.
pub open spec fn tallest(bytes: Seq<u8>, f: int, c: int) -> bool {
    forall|d: int|
        0 <= d < frame_components(bytes, f) ==> #[trigger] component_v(bytes, f, d)
            <= component_v(bytes, f, c)
}

/// No component has more columns of blocks than `c`.
pub open spec fn widest(bytes: Seq<u8>, f: int, c: int) -> bool {
    forall|d: int|
        0 <= d < frame_components(bytes, f) ==> #[trigger] component_h(bytes, f, d)
            <= component_h(bytes, f, c)
}

/// A scan of component `c` alone counts its blocks beyond sixteen bits. Three blocks
/// to a unit come to 8193 of them along a side; and the scan that completes the
/// component counts one row further.
pub open spec fn component_overflows(
    bytes: Seq<u8>,
    f: int,
    c: int,
    completes: bool,
) -> bool {
    ||| frame_width(bytes, f) > MAX_COUNTED_SIDE && widest(bytes, f, c) && component_h(bytes, f, c)
        == 3
    ||| frame_height(bytes, f) > MAX_COUNTED_SIDE && tallest(bytes, f, c) && (completes
        || component_v(bytes, f, c) == 3)
}

/// The scan at `s` of the frame at `f` counts blocks beyond sixteen bits. Lossless
/// frames have no blocks, and a scan of several components counts units of them.
pub open spec fn scan_overflows(bytes: Seq<u8>, f: int, s: int, known: Seq<bool>) -> bool {
    &&& bytes[f] != 0xC3
    &&& scan_components(bytes, s) == 1
    &&& exists|c: int|
        0 <= c < frame_components(bytes, f) && #[trigger] component_id(bytes, f, c) == scan_id(
            bytes,
            s,
            0,
        ) && component_overflows(
            bytes,
            f,
            c,
            !complete(known, c) && complete(known_after(bytes, f, s, known), c),
        )
}

/// Markers of segments that the decoder reads and passes over: tables, the restart
/// interval, comments and application data.
pub open spec fn is_side_segment(m: u8) -> bool {
    m == 0xC4 || m == 0xDB || m == 0xDD || m == 0xFE || 0xE0 <= m <= 0xEF
}

/// Following the markers from `pos` on leads to a frame or a scan that the decoder
/// cannot count through. `frame` is where the frame header stood, once it was met;
/// `known` are the coefficients that came so far. The decoder refuses a second frame
/// header and more than four components, and stops at any other marker.
pub open spec fn overflows_from(
    bytes: Seq<u8>,
    pos: int,
    frame: Option<int>,
    known: Seq<bool>,
) -> bool
    decreases (if pos < bytes.len() { bytes.len() - pos } else { 0 }),
{
    match next_marker(bytes, pos) {
        None => false,
        Some(q) => {
            proof {
                lemma_next_marker(bytes, pos);
            }
            let m = bytes[q];
            if 0xD0 <= m <= 0xD7 {
                overflows_from(bytes, q + 1, frame, known)
            } else if !has_length(bytes, q) {
                false
            } else if is_side_segment(m) {
                overflows_from(bytes, segment_end(bytes, q), frame, known)
            } else if 0xC0 <= m <= 0xC3 {
                &&& frame is None
                &&& frame_whole(bytes, q)
                &&& frame_components(bytes, q) <= 4
                &&& unreachable_buffers(bytes, q) || is_large(bytes, q) && overflows_from(
                    bytes,
                    segment_end(bytes, q),
                    Some(q),
                    Seq::new((64 * frame_components(bytes, q)) as nat, |i: int| false),
                )
            } else if m == 0xDA {
                match frame {
                    None => false,
                    Some(f) => {
                        &&& scan_whole(bytes, q)
                        &&& scan_components(bytes, q) <= 4
                        &&& scan_overflows(bytes, f, q, known) || overflows_from(
                            bytes,
                            segment_end(bytes, q),
                            frame,
                            known_after(bytes, f, q, known),
                        )
                    },
                }
            } else {
                false
            }
        },
    }
}

/// The decoder can count through the sequence.
pub open spec fn countable(bytes: Seq<u8>) -> bool {
    !overflows_from(bytes, 2, None, Seq::empty())
}

fn find_marker(bytes: &[u8], pos: usize) -> (q: Option<usize>)
    ensures
        next_marker(bytes@, pos as int) == match q {
            Some(k) => Some(k as int),
            None => None,
        },
        q matches Some(k) ==> pos < k < bytes@.len(),
{
    let mut k: usize = pos;
    while k < bytes.len() && bytes.len() - k > 1
        invariant
            pos <= k,
            next_marker(bytes@, pos as int) == next_marker(bytes@, k as int),
        decreases bytes@.len() - k,
    {
        if bytes[k] == 0xFF && bytes[k + 1] != 0x00 && bytes[k + 1] != 0xFF {
            return Some(k + 1);
        }
        k = k + 1;
    }
    None
}

fn read_pair(bytes: &[u8], k: usize) -> (n: usize)
    requires
        k + 1 < bytes@.len() <= usize::MAX,
    ensures
        n == pair_at(bytes@, k as int),
        n <= 65535,
{
    256 * bytes[k] as usize + bytes[k + 1] as usize
}

fn needs_unreachable_buffers(bytes: &[u8], f: usize) -> (r: bool)
    requires
        bytes@.len() <= usize::MAX,
        frame_whole(bytes@, f as int),
    ensures
        r == unreachable_buffers(bytes@, f as int),
{
    let height: u64 = read_pair(bytes, f + 4) as u64;
    let width: u64 = read_pair(bytes, f + 6) as u64;
    let n: u64 = bytes[f + 8] as u64;
    let unit: u64 = if bytes[f] == 0xC3 {
        4 * n
    } else if bytes[f] == 0xC2 && n < 2 {
        2
    } else {
        n
    };
    proof {
        assert(0 <= (width + 32) * (height + 32) <= 65567 * 65567) by (nonlinear_arith)
            requires
                0 <= width <= 65535,
                0 <= height <= 65535,
        ;
        let area = (width + 32) * (height + 32);
        assert(0 <= 2 * unit * area <= 2040 * (65567 * 65567)) by (nonlinear_arith)
            requires
                0 <= unit <= 1020,
                0 <= area <= 65567 * 65567,
        ;
    }
    2 * unit * ((width + 32) * (height + 32)) > usize::MAX as u64
}

fn names_component(bytes: &[u8], s: usize, id: u8) -> (r: bool)
    requires
        bytes@.len() <= usize::MAX,
        scan_whole(bytes@, s as int),
    ensures
        r == scan_names(bytes@, s as int, id),
{
    let n: usize = bytes[s + 3] as usize;
    let mut k: usize = 0;
    while k < n
        invariant
            bytes@.len() <= usize::MAX,
            scan_whole(bytes@, s as int),
            n == scan_components(bytes@, s as int),
            k <= n,
            forall|j: int| 0 <= j < k ==> #[trigger] scan_id(bytes@, s as int, j) != id,
        decreases n - k,
    {
        if bytes[s + 4 + 2 * k] == id {
            assert(scan_id(bytes@, s as int, k as int) == id);
            return true;
        }
        k = k + 1;
    }
    false
}

fn brings(bytes: &[u8], f: usize, s: usize, j: usize) -> (r: bool)
    requires
        bytes@.len() <= usize::MAX,
        f < bytes@.len(),
        scan_whole(bytes@, s as int),
    ensures
        r == scan_brings(bytes@, f as int, s as int, j as int),
{
    let tail: usize = s + 4 + 2 * bytes[s + 3] as usize;
    bytes[tail + 2] % 16 == 0 && (bytes[f] != 0xC2 || bytes[tail] as usize <= j && j
        <= bytes[tail + 1] as usize)
}

fn add_scan(bytes: &[u8], f: usize, s: usize, known: &Vec<bool>) -> (after: Vec<bool>)
    requires
        bytes@.len() <= usize::MAX,
        frame_whole(bytes@, f as int),
        scan_whole(bytes@, s as int),
        known@.len() == 64 * frame_components(bytes@, f as int),
    ensures
        after@ == known_after(bytes@, f as int, s as int, known@),
{
    let mut after: Vec<bool> = Vec::new();
    let mut i: usize = 0;
    while i < known.len()
        invariant
            bytes@.len() <= usize::MAX,
            frame_whole(bytes@, f as int),
            scan_whole(bytes@, s as int),
            known@.len() == 64 * frame_components(bytes@, f as int),
            i <= known@.len(),
            after@.len() == i,
            forall|k: int|
                0 <= k < i ==> after@[k] == known_after(bytes@, f as int, s as int, known@)[k],
        decreases known@.len() - i,
    {
        let named = names_component(bytes, s, bytes[f + 9 + 3 * (i / 64)]);
        let brought = brings(bytes, f, s, i % 64);
        after.push(known[i] || named && brought);
        i = i + 1;
    }
    assert(after@ =~= known_after(bytes@, f as int, s as int, known@));
    after
}

fn is_complete(known: &Vec<bool>, c: usize) -> (r: bool)
    requires
        c < 256,
        64 * c + 64 <= known@.len(),
    ensures
        r == complete(known@, c as int),
{
    let mut i: usize = 64 * c;
    while i < 64 * c + 64
        invariant
            c < 256,
            64 * c + 64 <= known@.len(),
            64 * c <= i <= 64 * c + 64,
            forall|k: int| 64 * c <= k < i ==> #[trigger] known@[k],
        decreases 64 * c + 64 - i,
    {
        if !known[i] {
            return false;
        }
        i = i + 1;
    }
    true
}

fn is_tallest(bytes: &[u8], f: usize, c: usize) -> (r: bool)
    requires
        bytes@.len() <= usize::MAX,
        frame_whole(bytes@, f as int),
        c < frame_components(bytes@, f as int),
    ensures
        r == tallest(bytes@, f as int, c as int),
{
    let n: usize = bytes[f + 8] as usize;
    let mut d: usize = 0;
    while d < n
        invariant
            bytes@.len() <= usize::MAX,
            frame_whole(bytes@, f as int),
            c < n == frame_components(bytes@, f as int),
            d <= n,
            forall|k: int|
                0 <= k < d ==> #[trigger] component_v(bytes@, f as int, k) <= component_v(
                    bytes@,
                    f as int,
                    c as int,
                ),
        decreases n - d,
    {
        if bytes[f + 10 + 3 * d] % 16 > bytes[f + 10 + 3 * c] % 16 {
            assert(component_v(bytes@, f as int, d as int) > component_v(
                bytes@,
                f as int,
                c as int,
            ));
            return false;
        }
        d = d + 1;
    }
    true
}

fn is_widest(bytes: &[u8], f: usize, c: usize) -> (r: bool)
    requires
        bytes@.len() <= usize::MAX,
        frame_whole(bytes@, f as int),
        c < frame_components(bytes@, f as int),
    ensures
        r == widest(bytes@, f as int, c as int),
{
    let n: usize = bytes[f + 8] as usize;
    let mut d: usize = 0;
    while d < n
        invariant
            bytes@.len() <= usize::MAX,
            frame_whole(bytes@, f as int),
            c < n == frame_components(bytes@, f as int),
            d <= n,
            forall|k: int|
                0 <= k < d ==> #[trigger] component_h(bytes@, f as int, k) <= component_h(
                    bytes@,
                    f as int,
                    c as int,
                ),
        decreases n - d,
    {
        if bytes[f + 10 + 3 * d] / 16 > bytes[f + 10 + 3 * c] / 16 {
            assert(component_h(bytes@, f as int, d as int) > component_h(
                bytes@,
                f as int,
                c as int,
            ));
            return false;
        }
        d = d + 1;
    }
    true
}

fn does_component_overflow(bytes: &[u8], f: usize, c: usize, completes: bool) -> (r: bool)
    requires
        bytes@.len() <= usize::MAX,
        frame_whole(bytes@, f as int),
        c < frame_components(bytes@, f as int),
    ensures
        r == component_overflows(bytes@, f as int, c as int, completes),
{
    let height: usize = read_pair(bytes, f + 4);
    let width: usize = read_pair(bytes, f + 6);
    let h: u8 = bytes[f + 10 + 3 * c] / 16;
    let v: u8 = bytes[f + 10 + 3 * c] % 16;
    if width > MAX_COUNTED_SIDE as usize && h == 3 && is_widest(bytes, f, c) {
        return true;
    }
    height > MAX_COUNTED_SIDE as usize && (completes || v == 3) && is_tallest(bytes, f, c)
}

fn does_scan_overflow(
    bytes: &[u8],
    f: usize,
    s: usize,
    known: &Vec<bool>,
    after: &Vec<bool>,
) -> (r: bool)
    requires
        bytes@.len() <= usize::MAX,
        frame_whole(bytes@, f as int),
        scan_whole(bytes@, s as int),
        known@.len() == 64 * frame_components(bytes@, f as int),
        after@ == known_after(bytes@, f as int, s as int, known@),
    ensures
        r == scan_overflows(bytes@, f as int, s as int, known@),
{
    if bytes[f] == 0xC3 || bytes[s + 3] != 1 {
        return false;
    }
    let n: usize = bytes[f + 8] as usize;
    let mut c: usize = 0;
    while c < n
        invariant
            bytes@.len() <= usize::MAX,
            frame_whole(bytes@, f as int),
            scan_whole(bytes@, s as int),
            known@.len() == 64 * frame_components(bytes@, f as int),
            after@ == known_after(bytes@, f as int, s as int, known@),
            bytes@[f as int] != 0xC3,
            scan_components(bytes@, s as int) == 1,
            n == frame_components(bytes@, f as int),
            c <= n,
            forall|k: int|
                0 <= k < c && #[trigger] component_id(bytes@, f as int, k) == scan_id(
                    bytes@,
                    s as int,
                    0,
                ) ==> !component_overflows(
                    bytes@,
                    f as int,
                    k,
                    !complete(known@, k) && complete(after@, k),
                ),
        decreases n - c,
    {
        if bytes[f + 9 + 3 * c] == bytes[s + 4] {
            assert(component_id(bytes@, f as int, c as int) == scan_id(bytes@, s as int, 0));
            let completes = !is_complete(known, c) && is_complete(after, c);
            if does_component_overflow(bytes, f, c, completes) {
                return true;
            }
        }
        c = c + 1;
    }
    false
}

/// Whether the decoder can count through a JPEG byte sequence.
pub fn is_countable(bytes: &[u8]) -> (r: bool)
    ensures
        r == countable(bytes@),
{
    let mut pos: usize = 2;
    let mut frame: Option<usize> = None;
    let mut known: Vec<bool> = Vec::new();
    loop
        invariant
            overflows_from(bytes@, 2, None, Seq::empty()) == overflows_from(
                bytes@,
                pos as int,
                match frame {
                    Some(f) => Some(f as int),
                    None => None,
                },
                known@,
            ),
            frame matches Some(f) ==> frame_whole(bytes@, f as int) && known@.len() == 64
                * frame_components(bytes@, f as int),
        decreases (if pos < bytes@.len() { bytes@.len() - pos } else { 0 }),
    {
        let q: usize = match find_marker(bytes, pos) {
            Some(q) => q,
            None => {
                return true;
            },
        };
        let m: u8 = bytes[q];
        if 0xD0 <= m && m <= 0xD7 {
            pos = q + 1;
            continue;
        }
        if bytes.len() - q <= 2 {
            return true;
        }
        let length: usize = read_pair(bytes, q + 1);
        if length < 2 {
            return true;
        }
        if m == 0xC4 || m == 0xDB || m == 0xDD || m == 0xFE || 0xE0 <= m && m <= 0xEF {
        } else if 0xC0 <= m && m <= 0xC3 {
            if frame.is_some() || bytes.len() - q <= 8 || bytes.len() - q < 9 + 3 * bytes[q
                + 8] as usize || bytes[q + 8] > 4 {
                return true;
            }
            if needs_unreachable_buffers(bytes, q) {
                return false;
            }
            if read_pair(bytes, q + 4) <= MAX_COUNTED_SIDE as usize && read_pair(bytes, q + 6)
                <= MAX_COUNTED_SIDE as usize {
                return true;
            }
            frame = Some(q);
            known = none_known(64 * bytes[q + 8] as usize);
        } else if m == 0xDA {
            match frame {
                None => {
                    return true;
                },
                Some(f) => {
                    if bytes.len() - q <= 3 || bytes.len() - q < 7 + 2 * bytes[q + 3] as usize
                        || bytes[q + 3] > 4 {
                        return true;
                    }
                    let after = add_scan(bytes, f, q, &known);
                    if does_scan_overflow(bytes, f, q, &known, &after) {
                        return false;
                    }
                    known = after;
                },
            }
        } else {
            return true;
        }
        if bytes.len() - q - 1 < length {
            proof {
                let met = match frame {
                    Some(f) => Some(f as int),
                    None => None,
                };
                assert(next_marker(bytes@, q + 1 + length) is None);
                assert(!overflows_from(bytes@, q + 1 + length, met, known@));
            }
            return true;
        }
        pos = q + 1 + length;
    }
}

fn none_known(count: usize) -> (known: Vec<bool>)
    ensures
        known@ == Seq::new(count as nat, |i: int| false),
{
    let mut known: Vec<bool> = Vec::new();
    while known.len() < count
        invariant
            known@.len() <= count,
            forall|i: int| 0 <= i < known@.len() ==> !#[trigger] known@[i],
        decreases count - known@.len(),
    {
        known.push(false);
    }
    assert(known@ =~= Seq::new(count as nat, |i: int| false));
    known
}

} // verus!
