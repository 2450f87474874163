//! Which PNG files can be handed to the decoder.
//!
//! A PNG file is a signature of eight bytes and chunks after it: four bytes for the length of
//! the data, four for the kind, the data, and four for a checksum. The first chunk is the header,
//! with the width in bytes 16 to 19 and the kind of colours in byte 25.

use vstd::prelude::*;

verus! {

/// The longest file that is decoded: in it, frames can be counted in 32 bits.
pub const LONGEST_FILE: u64 = 0x20_0000_0000;

/// The widest picture that is decoded where memory is counted in 32 bits.
pub const WIDEST_PICTURE: u32 = 0x1000_0000;

/// The kind of colours that are taken from a palette.
pub const INDEXED: u8 = 3;

/// The most bytes of a palette: 256 colours.
pub const LONGEST_PALETTE: u32 = 768;

/// Memory is counted in 32 bits.
pub open spec fn counts_in_32_bits() -> bool {
    usize::MAX <= u32::MAX
}

/// The bytes begin as those of a PNG file do.
pub open spec fn begins_as_png(file: Seq<u8>) -> bool {
    file.len() >= 8 && file.take(8) =~= seq![137u8, 80, 78, 71, 13, 10, 26, 10]
}

/// Four bytes as a number, the highest first.
pub open spec fn number_at(file: Seq<u8>, at: int) -> int {
    file[at] * 0x100_0000 + file[at + 1] * 0x1_0000 + file[at + 2] * 0x100 + file[at + 3]
}

/// The kind of the chunk at a place.
pub open spec fn kind_at(file: Seq<u8>, at: int) -> Seq<u8> {
    file.subrange(at + 4, at + 8)
}

/// The chunk holds the palette: `PLTE`.
pub open spec fn is_palette(kind: Seq<u8>) -> bool {
    kind =~= seq![80u8, 76, 84, 69]
}

/// The chunk says how many frames there are: `acTL`.
pub open spec fn is_animation(kind: Seq<u8>) -> bool {
    kind =~= seq![97u8, 99, 84, 76]
}

/// The chunk holds pixels: `IDAT` or `fdAT`.
pub open spec fn is_data(kind: Seq<u8>) -> bool {
    kind =~= seq![73u8, 68, 65, 84] || kind =~= seq![102u8, 100, 65, 84]
}

/// The decoder can take the chunk at a place: a palette that colours are taken from has whole
/// colours, and not too many, and the frames can be counted with one more.
pub open spec fn chunk_fits(file: Seq<u8>, at: int) -> bool {
    let kind = kind_at(file, at);
    &&& is_palette(kind) && file.len() > 25 && file[25] == INDEXED ==> number_at(file, at) % 3 == 0
        && number_at(file, at) <= LONGEST_PALETTE
    &&& is_animation(kind) && counts_in_32_bits() && at + 12 <= file.len() ==> number_at(
        file,
        at + 8,
    ) < u32::MAX
}

/// The decoder can take every chunk from a place on, up to the first that holds pixels.
pub open spec fn chunks_fit(file: Seq<u8>, at: int) -> bool
    decreases file.len() - at,
    when at >= 0
{
    let next = at + 12 + number_at(file, at);
    at + 8 > file.len() || is_data(kind_at(file, at)) || (chunk_fits(file, at) && (next
        > file.len() || chunks_fit(file, next)))
}

/// The decoder can take the file.
pub open spec fn can_decode(file: Seq<u8>) -> bool {
    &&& file.len() <= LONGEST_FILE
    &&& chunks_fit(file, 8)
    &&& counts_in_32_bits() && file.len() >= 20 ==> number_at(file, 16) <= WIDEST_PICTURE
}

fn read_number(file: &[u8], at: usize) -> (n: u32)
    requires
        at + 4 <= file@.len(),
    ensures
        n == number_at(file@, at as int),
{
    file[at] as u32 * 0x100_0000 + file[at + 1] as u32 * 0x1_0000 + file[at + 2] as u32 * 0x100
        + file[at + 3] as u32
}

/// Whether the bytes begin as those of a PNG file do.
pub fn is_png(file: &[u8]) -> (r: bool)
    ensures
        r == begins_as_png(file@),
{
    if file.len() < 8 {
        return false;
    }
    proof {
        let head = file@.take(8);
        let mark = seq![137u8, 80, 78, 71, 13, 10, 26, 10];
        assert(forall|i: int| 0 <= i < 8 ==> head[i] == file@[i]);
        assert(mark.len() == 8);
        if head == mark {
            assert(head[0] == mark[0] && head[1] == mark[1] && head[2] == mark[2] && head[3]
                == mark[3] && head[4] == mark[4] && head[5] == mark[5] && head[6] == mark[6]
                && head[7] == mark[7]);
        }
    }
    file[0] == 137 && file[1] == 80 && file[2] == 78 && file[3] == 71 && file[4] == 13 && file[5]
        == 10 && file[6] == 26 && file[7] == 10
}

/// Whether the kind of the chunk at a place is the given one.
fn is_kind(file: &[u8], at: usize, kind: (u8, u8, u8, u8)) -> (r: bool)
    requires
        at + 8 <= file@.len(),
    ensures
        r == (kind_at(file@, at as int) =~= seq![kind.0, kind.1, kind.2, kind.3]),
{
    let len: usize = file.len();
    proof {
        assert(at + 7 < len);
        let have = kind_at(file@, at as int);
        let want = seq![kind.0, kind.1, kind.2, kind.3];
        assert(forall|i: int| 0 <= i < 4 ==> have[i] == file@[at + 4 + i]);
        if have == want {
            assert(have[0] == want[0] && have[1] == want[1] && have[2] == want[2] && have[3]
                == want[3]);
        }
    }
    file[at + 4] == kind.0 && file[at + 5] == kind.1 && file[at + 6] == kind.2 && file[at + 7]
        == kind.3
}

/// Whether the decoder can take the file.
pub fn is_decodable(file: &[u8]) -> (r: bool)
    ensures
        r == can_decode(file@),
{
    let len: usize = file.len();
    let narrow: bool = usize::MAX as u128 <= u32::MAX as u128;
    if len as u128 > LONGEST_FILE as u128 {
        return false;
    }
    if narrow && len >= 20 && read_number(file, 16) > WIDEST_PICTURE {
        return false;
    }
    let indexed: bool = len > 25 && file[25] == INDEXED;
    if len < 8 {
        return true;
    }
    let mut at: usize = 8;
    while len - at >= 8
        invariant
            len == file@.len(),
            8 <= at <= len,
            narrow == counts_in_32_bits(),
            indexed == (file@.len() > 25 && file@[25] == INDEXED),
            chunks_fit(file@, 8) == chunks_fit(file@, at as int),
            file@.len() <= LONGEST_FILE,
            counts_in_32_bits() && file@.len() >= 20 ==> number_at(file@, 16) <= WIDEST_PICTURE,
        decreases len - at,
    {
        if is_kind(file, at, (73, 68, 65, 84)) || is_kind(file, at, (102, 100, 65, 84)) {
            return true;
        }
        let length: u32 = read_number(file, at);
        if is_kind(file, at, (80, 76, 84, 69)) && indexed && !(length % 3 == 0 && length
            <= LONGEST_PALETTE) {
            return false;
        }
        if is_kind(file, at, (97, 99, 84, 76)) && narrow && len - at >= 12 && read_number(
            file,
            at + 8,
        ) == u32::MAX {
            return false;
        }
        let rest: usize = len - at;
        if rest < 12 || length as u128 > (rest - 12) as u128 {
            return true;
        }
        at = at + 12 + length as usize;
    }
    true
}

} // verus!
