//! The chunks of a standard MIDI file, on their own or inside a `RIFF` file.
//!
//! A header's timing starts with a byte that, from 128 up, stands for a negative
//! number. The least one has no positive counterpart, so such a header cannot be
//! read; what matters of a file is where the first of them stands.

use crate::net::u32_at;
use vstd::prelude::*;

verus! {

/// What stands at a place of a file, as a reader takes it.
pub enum Piece {
    /// The file ends here.
    End,
    /// A chunk that is cut off, or a header that makes no sense: reading ends here.
    Broken,
    /// A header whose timing cannot be read.
    Trap,
    /// A header; the next chunk stands there.
    Header(int),
    /// A track; the next chunk stands there.
    Track(int),
    /// A chunk that is passed over; the next one stands there.
    Other(int),
}

/// These four letters stand at `o`.
pub open spec fn tagged(b: Seq<u8>, o: int, tag: Seq<u8>) -> bool {
    &&& o + 4 <= b.len()
    &&& b[o] == tag[0]
    &&& b[o + 1] == tag[1]
    &&& b[o + 2] == tag[2]
    &&& b[o + 3] == tag[3]
}

/// "MThd".
pub open spec fn header_tag() -> Seq<u8> {
    seq![77, 84, 104, 100]
}

/// "MTrk".
pub open spec fn track_tag() -> Seq<u8> {
    seq![77, 84, 114, 107]
}

/// "RIFF".
pub open spec fn riff_tag() -> Seq<u8> {
    seq![82, 73, 70, 70]
}

/// "RMID".
pub open spec fn rmid_tag() -> Seq<u8> {
    seq![82, 77, 73, 68]
}

/// "data".
pub open spec fn data_tag() -> Seq<u8> {
    seq![100, 97, 116, 97]
}

/// The number in four bytes, the highest first.
pub open spec fn be32_at(b: Seq<u8>, o: int) -> int {
    16777216 * b[o] + 65536 * b[o + 1] + 256 * b[o + 2] + b[o + 3]
}

/// Where `len` bytes from `o` end, or `hi` if there are not that many.
pub open spec fn end_of(o: int, len: int, hi: int) -> int {
    if o + len <= hi {
        o + len
    } else {
        hi
    }
}

/// The frames per second that a timing may count by.
pub open spec fn is_fps(n: int) -> bool {
    n == 24 || n == 25 || n == 29 || n == 30
}

/// A header whose contents stand from `o` to `end`: the format (0, 1 or 2), the number
/// of tracks and the timing, in two bytes each.
pub open spec fn header_at(b: Seq<u8>, o: int, end: int) -> Piece {
    if end - o < 6 || 256 * b[o] + b[o + 1] > 2 {
        Piece::Broken
    } else if b[o + 4] == 128 {
        Piece::Trap
    } else if b[o + 4] > 128 && !is_fps(256 - b[o + 4]) {
        Piece::Broken
    } else {
        Piece::Header(end)
    }
}

/// The chunk at `o` of a file that ends at `hi`: four letters, its length in four
/// bytes, and its contents, which may be cut off.
pub open spec fn piece_at(b: Seq<u8>, o: int, hi: int) -> Piece {
    if o >= hi {
        Piece::End
    } else if o + 8 > hi {
        Piece::Broken
    } else {
        let end = end_of(o + 8, be32_at(b, o + 4), hi);
        if tagged(b, o, header_tag()) {
            header_at(b, o + 8, end)
        } else if tagged(b, o, track_tag()) {
            Piece::Track(end)
        } else {
            Piece::Other(end)
        }
    }
}

/// The first header that a reader comes to whose timing cannot be read: where it
/// stands, and whether a header came before it. A reader gives up where a chunk is
/// broken, or where a track comes before any header.
pub open spec fn trap_from(b: Seq<u8>, o: int, hi: int, begun: bool) -> Option<(int, bool)>
    decreases hi - o,
{
    match piece_at(b, o, hi) {
        Piece::End => None,
        Piece::Broken => None,
        Piece::Trap => Some((o, begun)),
        Piece::Header(n) => if n > o {
            trap_from(b, n, hi, true)
        } else {
            None
        },
        Piece::Track(n) => if begun && n > o {
            trap_from(b, n, hi, begun)
        } else {
            None
        },
        Piece::Other(n) => if n > o {
            trap_from(b, n, hi, begun)
        } else {
            None
        },
    }
}

/// The contents of the first "data" chunk from `p` on, of a `RIFF` file that ends at
/// `hi`. Numbers there have their lowest byte first, and a chunk of odd length is
/// followed by a byte that does not count.
pub open spec fn riff_data(b: Seq<u8>, p: int, hi: int) -> Option<(int, int)>
    decreases hi - p,
{
    if p + 8 > hi {
        None
    } else {
        let len = u32_at(b, p + 4);
        let end = end_of(p + 8, len, hi);
        if tagged(b, p, data_tag()) {
            Some((p + 8, end))
        } else if end < p + 8 {
            None
        } else {
            riff_data(
                b,
                if len % 2 == 1 && end < hi {
                    end + 1
                } else {
                    end
                },
                hi,
            )
        }
    }
}

/// Where the standard MIDI file stands in the bytes, if they look like one: it is all
/// of them, or the "data" chunk of a `RIFF` file of the form "RMID".
pub open spec fn smf_part(b: Seq<u8>) -> Option<(int, int)> {
    if tagged(b, 0, header_tag()) {
        Some((0, b.len() as int))
    } else if tagged(b, 0, riff_tag()) && b.len() >= 8 {
        let hi = end_of(8, u32_at(b, 4), b.len() as int);
        if hi >= 12 && tagged(b, 8, rmid_tag()) {
            riff_data(b, 12, hi)
        } else {
            None
        }
    } else {
        None
    }
}

/// The first header that cannot be read, in the whole of a file.
pub open spec fn trap(b: Seq<u8>) -> Option<(int, bool)> {
    match smf_part(b) {
        None => None,
        Some((lo, hi)) => trap_from(b, lo, hi, false),
    }
}

/// No header that a reader of the bytes comes to has a timing that cannot be read.
pub open spec fn readable(bytes: Seq<u8>) -> bool {
    trap(bytes) is None
}

// ---- finding it -----------------------------------------------------------------------------

fn read_be32(b: &[u8], o: usize) -> (r: u32)
    requires
        o + 4 <= b@.len(),
    ensures
        r == be32_at(b@, o as int),
{
    assert(b@.len() == b.len());
    16777216 * b[o] as u32 + 65536 * b[o + 1] as u32 + 256 * b[o + 2] as u32 + b[o + 3] as u32
}

fn read_le32(b: &[u8], o: usize) -> (r: u32)
    requires
        o + 4 <= b@.len(),
    ensures
        r == u32_at(b@, o as int),
{
    assert(b@.len() == b.len());
    b[o] as u32 + 256 * b[o + 1] as u32 + 65536 * b[o + 2] as u32 + 16777216 * b[o + 3] as u32
}

fn is_tagged(b: &[u8], o: usize, tag: [u8; 4]) -> (r: bool)
    requires
        o <= b@.len(),
    ensures
        r == tagged(b@, o as int, tag@),
{
    b.len() - o >= 4 && b[o] == tag[0] && b[o + 1] == tag[1] && b[o + 2] == tag[2] && b[o + 3]
        == tag[3]
}

fn end_at(o: usize, len: u32, hi: usize) -> (r: usize)
    requires
        o <= hi,
    ensures
        r == end_of(o as int, len as int, hi as int),
        o <= r <= hi,
{
    if len as usize <= hi - o {
        o + len as usize
    } else {
        hi
    }
}

/// What a chunk is.
enum Chunk {
    End,
    Broken,
    Trap,
    Header(usize),
    Track(usize),
    Other(usize),
}

impl Chunk {
    spec fn is(&self, p: Piece) -> bool {
        match self {
            Chunk::End => p is End,
            Chunk::Broken => p is Broken,
            Chunk::Trap => p is Trap,
            Chunk::Header(n) => p == Piece::Header(*n as int),
            Chunk::Track(n) => p == Piece::Track(*n as int),
            Chunk::Other(n) => p == Piece::Other(*n as int),
        }
    }

    spec fn within(&self, o: int, hi: int) -> bool {
        match self {
            Chunk::Header(n) => o < *n <= hi,
            Chunk::Track(n) => o < *n <= hi,
            Chunk::Other(n) => o < *n <= hi,
            _ => true,
        }
    }
}

fn read_chunk(b: &[u8], o: usize, hi: usize) -> (r: Chunk)
    requires
        o <= hi <= b@.len(),
    ensures
        r.is(piece_at(b@, o as int, hi as int)),
        r.within(o as int, hi as int),
{
    if o >= hi {
        return Chunk::End;
    }
    if hi - o < 8 {
        return Chunk::Broken;
    }
    assert(b@.len() == b.len());
    let end: usize = end_at(o + 8, read_be32(b, o + 4), hi);
    assert([77u8, 84u8, 104u8, 100u8]@ =~= header_tag());
    assert([77u8, 84u8, 114u8, 107u8]@ =~= track_tag());
    if is_tagged(b, o, [77, 84, 104, 100]) {
        let at: usize = o + 8;
        if end - at < 6 || 256 * b[at] as u32 + b[at + 1] as u32 > 2 {
            return Chunk::Broken;
        }
        let t: u8 = b[at + 4];
        if t == 128 {
            Chunk::Trap
        } else if t > 128 && !(t == 232 || t == 231 || t == 227 || t == 226) {
            Chunk::Broken
        } else {
            Chunk::Header(end)
        }
    } else if is_tagged(b, o, [77, 84, 114, 107]) {
        Chunk::Track(end)
    } else {
        Chunk::Other(end)
    }
}

fn find_part(b: &[u8]) -> (r: Option<(usize, usize)>)
    ensures
        match r {
            Some((lo, hi)) => smf_part(b@) == Some((lo as int, hi as int)) && lo <= hi
                <= b@.len(),
            None => smf_part(b@) is None,
        },
{
    let n: usize = b.len();
    assert([77u8, 84u8, 104u8, 100u8]@ =~= header_tag());
    assert([82u8, 73u8, 70u8, 70u8]@ =~= riff_tag());
    assert([82u8, 77u8, 73u8, 68u8]@ =~= rmid_tag());
    assert([100u8, 97u8, 116u8, 97u8]@ =~= data_tag());
    if is_tagged(b, 0, [77, 84, 104, 100]) {
        return Some((0, n));
    }
    if !is_tagged(b, 0, [82, 73, 70, 70]) || n < 8 {
        return None;
    }
    let hi: usize = end_at(8, read_le32(b, 4), n);
    if hi < 12 || !is_tagged(b, 8, [82, 77, 73, 68]) {
        return None;
    }
    let mut p: usize = 12;
    while hi - p >= 8
        invariant
            12 <= p <= hi <= b@.len(),
            [100u8, 97u8, 116u8, 97u8]@ == data_tag(),
            smf_part(b@) == riff_data(b@, p as int, hi as int),
        decreases hi - p,
    {
        assert(b@.len() == b.len());
        let len: u32 = read_le32(b, p + 4);
        let end: usize = end_at(p + 8, len, hi);
        if is_tagged(b, p, [100, 97, 116, 97]) {
            return Some((p + 8, end));
        }
        p = if len % 2 == 1 && end < hi {
            end + 1
        } else {
            end
        };
    }
    None
}

/// The first header that cannot be read: where it stands, and whether a header came
/// before it.
pub fn find_trap(b: &[u8]) -> (r: Option<(usize, bool)>)
    ensures
        match r {
            Some((at, begun)) => trap(b@) == Some((at as int, begun)) && at < b@.len(),
            None => trap(b@) is None,
        },
{
    let (lo, hi): (usize, usize) = match find_part(b) {
        None => {
            return None;
        },
        Some(p) => p,
    };
    let mut o: usize = lo;
    let mut begun: bool = false;
    loop
        invariant
            o <= hi <= b@.len(),
            trap(b@) == trap_from(b@, o as int, hi as int, begun),
        decreases hi - o,
    {
        match read_chunk(b, o, hi) {
            Chunk::End => {
                return None;
            },
            Chunk::Broken => {
                return None;
            },
            Chunk::Trap => {
                return Some((o, begun));
            },
            Chunk::Header(n) => {
                begun = true;
                o = n;
            },
            Chunk::Track(n) => {
                if !begun {
                    return None;
                }
                o = n;
            },
            Chunk::Other(n) => {
                o = n;
            },
        }
    }
}

/// Whether every header that a reader of the bytes comes to can be read.
pub fn is_readable(bytes: &[u8]) -> (r: bool)
    ensures
        r == readable(bytes@),
{
    find_trap(bytes).is_none()
}

// ---- reading up to it ------------------------------------------------------------------------

proof fn lemma_trap_place(b: Seq<u8>, o: int, hi: int, begun: bool)
    requires
        trap_from(b, o, hi, begun) is Some,
    ensures
        o <= (trap_from(b, o, hi, begun)->0).0,
        (trap_from(b, o, hi, begun)->0).0 + 8 <= hi,
    decreases hi - o,
{
    match piece_at(b, o, hi) {
        Piece::Header(n) => {
            lemma_trap_place(b, n, hi, true);
        },
        Piece::Track(n) => {
            lemma_trap_place(b, n, hi, begun);
        },
        Piece::Other(n) => {
            lemma_trap_place(b, n, hi, begun);
        },
        _ => {},
    }
}

/// The chunks before the trap stay what they are when the file is cut there.
proof fn lemma_no_trap_before(b: Seq<u8>, o: int, hi: int, begun: bool, at: int)
    requires
        0 <= o,
        hi <= b.len(),
        trap_from(b, o, hi, begun) matches Some(t) && t.0 == at,
    ensures
        trap_from(b.take(at), o, at, begun) is None,
    decreases hi - o,
{
    lemma_trap_place(b, o, hi, begun);
    let c = b.take(at);
    match piece_at(b, o, hi) {
        Piece::Header(n) => {
            lemma_trap_place(b, n, hi, true);
            lemma_no_trap_before(b, n, hi, true, at);
            assert(piece_at(c, o, at) == Piece::Header(n));
        },
        Piece::Track(n) => {
            lemma_trap_place(b, n, hi, begun);
            lemma_no_trap_before(b, n, hi, begun, at);
            assert(piece_at(c, o, at) == Piece::Track(n));
        },
        Piece::Other(n) => {
            lemma_trap_place(b, n, hi, begun);
            lemma_no_trap_before(b, n, hi, begun, at);
            assert(piece_at(c, o, at) == Piece::Other(n));
        },
        _ => {},
    }
}

proof fn lemma_data_place(b: Seq<u8>, p: int, hi: int)
    requires
        riff_data(b, p, hi) is Some,
    ensures
        p + 8 <= (riff_data(b, p, hi)->0).0 <= (riff_data(b, p, hi)->0).1 <= hi,
    decreases hi - p,
{
    let len = u32_at(b, p + 4);
    let end = end_of(p + 8, len, hi);
    if !tagged(b, p, data_tag()) {
        lemma_data_place(
            b,
            if len % 2 == 1 && end < hi {
                end + 1
            } else {
                end
            },
            hi,
        );
    }
}

/// The "data" chunk starts where it did when the file is cut inside it.
proof fn lemma_data_cut(b: Seq<u8>, p: int, hi: int, at: int)
    requires
        0 <= p,
        hi <= b.len(),
        riff_data(b, p, hi) matches Some(d) && d.0 <= at < d.1,
    ensures
        riff_data(b.take(at), p, at) == Some(((riff_data(b, p, hi)->0).0, at)),
    decreases hi - p,
{
    lemma_data_place(b, p, hi);
    let c = b.take(at);
    let len = u32_at(b, p + 4);
    let end = end_of(p + 8, len, hi);
    assert(u32_at(c, p + 4) == len);
    assert(tagged(c, p, data_tag()) == tagged(b, p, data_tag()));
    if !tagged(b, p, data_tag()) {
        let next = if len % 2 == 1 && end < hi {
            end + 1
        } else {
            end
        };
        lemma_data_place(b, next, hi);
        lemma_data_cut(b, next, hi, at);
    }
}

/// What stands before the first header that cannot be read can be read, if a header
/// came before it.
pub proof fn law_cut_is_readable(b: Seq<u8>)
    requires
        trap(b) matches Some(t) && t.1,
    ensures
        readable(b.take((trap(b)->0).0)),
{
    let (lo, hi) = smf_part(b)->0;
    let at = (trap(b)->0).0;
    let c = b.take(at);
    if tagged(b, 0, header_tag()) {
        lemma_trap_place(b, lo, hi, false);
        lemma_begun_place(b, lo, hi, false);
        lemma_no_trap_before(b, lo, hi, false, at);
        assert(smf_part(c) == Some((0int, at)));
    } else {
        let end = end_of(8, u32_at(b, 4), b.len() as int);
        lemma_data_place(b, 12, end);
        lemma_trap_place(b, lo, hi, false);
        lemma_no_trap_before(b, lo, hi, false, at);
        lemma_data_cut(b, 12, end, at);
        assert(u32_at(c, 4) == u32_at(b, 4));
        assert(tagged(c, 0, riff_tag()) && tagged(c, 8, rmid_tag()));
        assert(!tagged(c, 0, header_tag()));
        assert(smf_part(c) == Some((lo, at)));
    }
}

/// A header in front of the trap takes eight bytes at least.
proof fn lemma_begun_place(b: Seq<u8>, o: int, hi: int, begun: bool)
    requires
        !begun,
        trap_from(b, o, hi, begun) matches Some(t) && t.1,
    ensures
        o + 8 <= (trap_from(b, o, hi, begun)->0).0,
    decreases hi - o,
{
    match piece_at(b, o, hi) {
        Piece::Header(n) => {
            lemma_trap_place(b, n, hi, true);
        },
        Piece::Other(n) => {
            lemma_trap_place(b, n, hi, begun);
        },
        _ => {},
    }
}

/// What stops a reader is a header: four letters, a length of at least six bytes that are
/// there, a format of 0, 1 or 2, and a timing whose first byte is 128. It stands in the part
/// of the file that is read.
pub proof fn law_what_cannot_be_read_is_a_header(b: Seq<u8>, o: int, hi: int, begun: bool)
    requires
        0 <= o,
        hi <= b.len(),
        trap_from(b, o, hi, begun) is Some,
    ensures
        ({
            let at = (trap_from(b, o, hi, begun)->0).0;
            &&& o <= at
            &&& at + 14 <= hi
            &&& b[at] == 77 && b[at + 1] == 84 && b[at + 2] == 104 && b[at + 3] == 100
            &&& b[at + 8] == 0 && b[at + 9] <= 2
            &&& b[at + 12] == 128
        }),
        begun ==> (trap_from(b, o, hi, begun)->0).1,
    decreases hi - o,
{
    match piece_at(b, o, hi) {
        Piece::Header(n) => {
            law_what_cannot_be_read_is_a_header(b, n, hi, true);
        },
        Piece::Track(n) => {
            law_what_cannot_be_read_is_a_header(b, n, hi, begun);
        },
        Piece::Other(n) => {
            law_what_cannot_be_read_is_a_header(b, n, hi, begun);
        },
        _ => {},
    }
}

/// A reader goes from chunk to chunk: where every chunk before the `n`th is whole, each
/// stands eight bytes and its own length behind the one before it, none of them is a header
/// that cannot be read or makes no sense, and no track comes before a header, a header at the
/// `n`th place whose timing starts with 128 is what stops it.
pub proof fn law_chunks_are_passed_one_by_one(
    b: Seq<u8>,
    at: Seq<int>,
    hi: int,
    begun: bool,
    first: int,
)
    requires
        at.len() > 0,
        0 <= at[0],
        0 <= first <= at.len() - 1,
        hi <= b.len(),
        forall|j: int|
            0 <= j < at.len() - 1 ==> #[trigger] at[j] + 8 + be32_at(b, at[j] + 4) == at[j + 1],
        at.last() + 14 <= hi,
        tagged(b, at.last(), seq![77, 84, 104, 100]),
        be32_at(b, at.last() + 4) >= 6,
        256 * b[at.last() + 8] + b[at.last() + 9] <= 2,
        b[at.last() + 12] == 128,
        forall|j: int|
            0 <= j < at.len() - 1 && tagged(b, #[trigger] at[j], seq![77, 84, 104, 100]) ==> {
                &&& be32_at(b, at[j] + 4) >= 6
                &&& 256 * b[at[j] + 8] + b[at[j] + 9] <= 2
                &&& b[at[j] + 12] < 128
            },
        forall|j: int|
            0 <= j < at.len() - 1 && tagged(b, #[trigger] at[j], seq![77, 84, 114, 107]) ==> begun
                || first < j,
        first < at.len() - 1 ==> tagged(b, at[first], seq![77, 84, 104, 100]),
    ensures
        trap_from(b, at[0], hi, begun) matches Some((o, led)) && o == at.last() && (begun || first
            < at.len() - 1 ==> led),
    decreases at.len(),
{
    let o = at[0];
    assert(header_tag() =~= seq![77, 84, 104, 100]);
    assert(track_tag() =~= seq![77, 84, 114, 107]);
    if at.len() > 1 {
        let rest = at.drop_first();
        lemma_chunks_in_order(b, at, 1);
        assert(at[0] + 8 + be32_at(b, at[0] + 4) == at[1]);
        assert forall|j: int| 0 <= j < rest.len() - 1 implies #[trigger] rest[j] + 8 + be32_at(
            b,
            rest[j] + 4,
        ) == rest[j + 1] by {
            assert(at[j + 1] + 8 + be32_at(b, at[j + 1] + 4) == at[j + 1 + 1]);
        }
        let opens = tagged(b, o, header_tag());
        let now = begun || opens;
        let f: int = if first > 0 {
            first - 1
        } else {
            rest.len() - 1
        };
        assert forall|j: int| 0 <= j < rest.len() - 1 && tagged(
            b,
            #[trigger] rest[j],
            seq![77, 84, 114, 107],
        ) implies now || f < j by {
            assert(rest[j] == at[j + 1]);
        }
        assert forall|j: int| 0 <= j < rest.len() - 1 && tagged(
            b,
            #[trigger] rest[j],
            seq![77, 84, 104, 100],
        ) implies {
            &&& be32_at(b, rest[j] + 4) >= 6
            &&& 256 * b[rest[j] + 8] + b[rest[j] + 9] <= 2
            &&& b[rest[j] + 12] < 128
        } by {
            assert(rest[j] == at[j + 1]);
        }
        law_chunks_are_passed_one_by_one(b, rest, hi, now, f);
    }
}

proof fn lemma_chunks_in_order(b: Seq<u8>, at: Seq<int>, k: int)
    requires
        0 <= k < at.len(),
        forall|j: int|
            0 <= j < at.len() - 1 ==> #[trigger] at[j] + 8 + be32_at(b, at[j] + 4) == at[j + 1],
    ensures
        at[k] <= at.last(),
    decreases at.len() - k,
{
    if k < at.len() - 1 {
        assert(at[k] + 8 + be32_at(b, at[k] + 4) == at[k + 1]);
        lemma_chunks_in_order(b, at, k + 1);
    }
}

/// A file is read from its start where it starts as a standard MIDI file, and otherwise only
/// inside a `RIFF` file of the form "RMID"; anything else is not read at all, so nothing in it
/// stops a reader.
pub proof fn law_only_midi_is_read(b: Seq<u8>)
    ensures
        tagged(b, 0, seq![77, 84, 104, 100]) ==> trap(b) == trap_from(b, 0, b.len() as int, false),
        !tagged(b, 0, seq![77, 84, 104, 100]) && !(tagged(b, 0, seq![82, 73, 70, 70]) && tagged(
            b,
            8,
            seq![82, 77, 73, 68],
        )) ==> trap(b) is None,
{
    assert(header_tag() =~= seq![77, 84, 104, 100]);
    assert(riff_tag() =~= seq![82, 73, 70, 70]);
    assert(rmid_tag() =~= seq![82, 77, 73, 68]);
}

/// The chunks of a `RIFF` file are passed over, each with the byte that fills an odd one up,
/// until the first that is called "data": its contents are read, as far as the file goes.
pub proof fn law_data_is_found_behind_other_chunks(b: Seq<u8>, at: Seq<int>, hi: int)
    requires
        at.len() > 0,
        0 <= at[0],
        hi <= b.len(),
        forall|j: int|
            0 <= j < at.len() - 1 ==> #[trigger] at[j] + 8 + u32_at(b, at[j] + 4) + u32_at(
                b,
                at[j] + 4,
            ) % 2 == at[j + 1],
        forall|j: int|
            0 <= j < at.len() - 1 ==> !tagged(b, #[trigger] at[j], seq![100, 97, 116, 97]),
        at.last() + 8 <= hi,
        tagged(b, at.last(), seq![100, 97, 116, 97]),
    ensures
        riff_data(b, at[0], hi) == Some(
            (
                at.last() + 8,
                if at.last() + 8 + u32_at(b, at.last() + 4) <= hi {
                    at.last() + 8 + u32_at(b, at.last() + 4)
                } else {
                    hi
                },
            ),
        ),
    decreases at.len(),
{
    assert(data_tag() =~= seq![100, 97, 116, 97]);
    if at.len() > 1 {
        let rest = at.drop_first();
        assert(at[0] + 8 + u32_at(b, at[0] + 4) + u32_at(b, at[0] + 4) % 2 == at[1]);
        lemma_riff_in_order(b, at, 1);
        assert forall|j: int| 0 <= j < rest.len() - 1 implies #[trigger] rest[j] + 8 + u32_at(
            b,
            rest[j] + 4,
        ) + u32_at(b, rest[j] + 4) % 2 == rest[j + 1] by {
            assert(at[j + 1] + 8 + u32_at(b, at[j + 1] + 4) + u32_at(b, at[j + 1] + 4) % 2 == at[j + 1
                + 1]);
        }
        assert forall|j: int| 0 <= j < rest.len() - 1 implies !tagged(
            b,
            #[trigger] rest[j],
            seq![100, 97, 116, 97],
        ) by {
            assert(rest[j] == at[j + 1]);
        }
        law_data_is_found_behind_other_chunks(b, rest, hi);
    }
}

proof fn lemma_riff_in_order(b: Seq<u8>, at: Seq<int>, k: int)
    requires
        0 <= k < at.len(),
        forall|j: int|
            0 <= j < at.len() - 1 ==> #[trigger] at[j] + 8 + u32_at(b, at[j] + 4) + u32_at(
                b,
                at[j] + 4,
            ) % 2 == at[j + 1],
    ensures
        at[k] <= at.last(),
    decreases at.len() - k,
{
    if k < at.len() - 1 {
        assert(at[k] + 8 + u32_at(b, at[k] + 4) + u32_at(b, at[k] + 4) % 2 == at[k + 1]);
        lemma_riff_in_order(b, at, k + 1);
    }
}

/// Reading ends at the end, where less is left than a chunk starts with, at a track that comes
/// before any header, and at a header that is too short, of a format above 2, or timed in
/// frames of which nobody counts so many: nothing behind any of these stops a reader.
pub proof fn law_reading_ends_where_nothing_makes_sense(b: Seq<u8>, o: int, hi: int, begun: bool)
    requires
        0 <= o,
        hi <= b.len(),
        ({
            let head = tagged(b, o, seq![77, 84, 104, 100]);
            ||| o + 8 > hi
            ||| !begun && tagged(b, o, seq![77, 84, 114, 107])
            ||| head && (o + 14 > hi || be32_at(b, o + 4) < 6)
            ||| head && 256 * b[o + 8] + b[o + 9] > 2
            ||| head && b[o + 12] > 128 && b[o + 12] != 232 && b[o + 12] != 231 && b[o + 12] != 227
                && b[o + 12] != 226
        }),
    ensures
        trap_from(b, o, hi, begun) is None,
{
    assert(header_tag() =~= seq![77, 84, 104, 100]);
    assert(track_tag() =~= seq![77, 84, 114, 107]);
}

} // verus!
