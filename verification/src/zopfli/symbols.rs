//! The fixed symbol tables of the DEFLATE format.

use vstd::prelude::*;
use libc::{c_int, size_t};

verus! {

/// Number of literal and length symbols.
pub const ZOPFLI_NUM_LL: size_t = 288;

/// Number of distance symbols.
pub const ZOPFLI_NUM_D: size_t = 32;

/// Size of the window that a match can reach back into.
pub const ZOPFLI_WINDOW_SIZE: size_t = 32768;

/// Mask that reduces a position to its place in the window.
pub const ZOPFLI_WINDOW_MASK: size_t = 32767;

/// Longest match.
pub const ZOPFLI_MAX_MATCH: size_t = 258;

/// Shortest match.
pub const ZOPFLI_MIN_MATCH: size_t = 3;

/// Number of sublengths kept per position in the match cache.
pub const ZOPFLI_CACHE_LENGTH: size_t = 8;

/// The length symbol of each length from 0 to 258.
const LENGTH_SYMBOL_TABLE: [c_int; 259] = [
    0, 0, 0, 257, 258, 259, 260, 261, 262, 263, 264, 265, 265, 266, 266, 267,
    267, 268, 268, 269, 269, 269, 269, 270, 270, 270, 270, 271, 271, 271, 271, 272,
    272, 272, 272, 273, 273, 273, 273, 273, 273, 273, 273, 274, 274, 274, 274, 274,
    274, 274, 274, 275, 275, 275, 275, 275, 275, 275, 275, 276, 276, 276, 276, 276,
    276, 276, 276, 277, 277, 277, 277, 277, 277, 277, 277, 277, 277, 277, 277, 277,
    277, 277, 277, 278, 278, 278, 278, 278, 278, 278, 278, 278, 278, 278, 278, 278,
    278, 278, 278, 279, 279, 279, 279, 279, 279, 279, 279, 279, 279, 279, 279, 279,
    279, 279, 279, 280, 280, 280, 280, 280, 280, 280, 280, 280, 280, 280, 280, 280,
    280, 280, 280, 281, 281, 281, 281, 281, 281, 281, 281, 281, 281, 281, 281, 281,
    281, 281, 281, 281, 281, 281, 281, 281, 281, 281, 281, 281, 281, 281, 281, 281,
    281, 281, 281, 282, 282, 282, 282, 282, 282, 282, 282, 282, 282, 282, 282, 282,
    282, 282, 282, 282, 282, 282, 282, 282, 282, 282, 282, 282, 282, 282, 282, 282,
    282, 282, 282, 283, 283, 283, 283, 283, 283, 283, 283, 283, 283, 283, 283, 283,
    283, 283, 283, 283, 283, 283, 283, 283, 283, 283, 283, 283, 283, 283, 283, 283,
    283, 283, 283, 284, 284, 284, 284, 284, 284, 284, 284, 284, 284, 284, 284, 284,
    284, 284, 284, 284, 284, 284, 284, 284, 284, 284, 284, 284, 284, 284, 284, 284,
    284, 284, 285,
];

/// The number of extra bits of each length from 0 to 258.
const LENGTH_EXTRA_BITS: [c_int; 259] = [
    0, 0, 0, 0, 0, 0, 0, 0, 0, 0, 0, 1, 1, 1, 1, 1,
    1, 1, 1, 2, 2, 2, 2, 2, 2, 2, 2, 2, 2, 2, 2, 2,
    2, 2, 2, 3, 3, 3, 3, 3, 3, 3, 3, 3, 3, 3, 3, 3,
    3, 3, 3, 3, 3, 3, 3, 3, 3, 3, 3, 3, 3, 3, 3, 3,
    3, 3, 3, 4, 4, 4, 4, 4, 4, 4, 4, 4, 4, 4, 4, 4,
    4, 4, 4, 4, 4, 4, 4, 4, 4, 4, 4, 4, 4, 4, 4, 4,
    4, 4, 4, 4, 4, 4, 4, 4, 4, 4, 4, 4, 4, 4, 4, 4,
    4, 4, 4, 4, 4, 4, 4, 4, 4, 4, 4, 4, 4, 4, 4, 4,
    4, 4, 4, 5, 5, 5, 5, 5, 5, 5, 5, 5, 5, 5, 5, 5,
    5, 5, 5, 5, 5, 5, 5, 5, 5, 5, 5, 5, 5, 5, 5, 5,
    5, 5, 5, 5, 5, 5, 5, 5, 5, 5, 5, 5, 5, 5, 5, 5,
    5, 5, 5, 5, 5, 5, 5, 5, 5, 5, 5, 5, 5, 5, 5, 5,
    5, 5, 5, 5, 5, 5, 5, 5, 5, 5, 5, 5, 5, 5, 5, 5,
    5, 5, 5, 5, 5, 5, 5, 5, 5, 5, 5, 5, 5, 5, 5, 5,
    5, 5, 5, 5, 5, 5, 5, 5, 5, 5, 5, 5, 5, 5, 5, 5,
    5, 5, 5, 5, 5, 5, 5, 5, 5, 5, 5, 5, 5, 5, 5, 5,
    5, 5, 0,
];

/// The symbol that DEFLATE gives a match length: symbols 257 to 264 stand for one length
/// each from 3 on, then four symbols each for runs of 2, 4, 8, 16 and 32 lengths, and 285 for
/// the longest match, 258. Lengths below 3 have no symbol and give 0.
pub open spec fn length_symbol(length: int) -> int {
    if length < 3 {
        0
    } else if length <= 10 {
        254 + length
    } else if length <= 18 {
        265 + (length - 11) / 2
    } else if length <= 34 {
        269 + (length - 19) / 4
    } else if length <= 66 {
        273 + (length - 35) / 8
    } else if length <= 130 {
        277 + (length - 67) / 16
    } else if length <= 257 {
        281 + (length - 131) / 32
    } else {
        285
    }
}

/// The number of extra bits that follow the symbol of a match length: the binary logarithm
/// of the number of lengths that share the symbol.
pub open spec fn length_extra_bits(length: int) -> int {
    if length <= 10 {
        0
    } else if length <= 18 {
        1
    } else if length <= 34 {
        2
    } else if length <= 66 {
        3
    } else if length <= 130 {
        4
    } else if length <= 257 {
        5
    } else {
        0
    }
}

/// Gets the symbol for the given length, cfr. the DEFLATE spec.
/// Returns symbol in range [257-285] (inclusive) for a length from 3 on.
#[allow(non_snake_case)]
pub fn ZopfliGetLengthSymbol(length: c_int) -> (symbol: c_int)
    requires
        0 <= length <= 258,
    ensures
        symbol == length_symbol(length as int),
        length >= 3 ==> 257 <= symbol <= 285,
{
    LENGTH_SYMBOL_TABLE[length as usize]
}

/// Gets the amount of extra bits for the given length, cfr. the DEFLATE spec.
#[allow(non_snake_case)]
pub fn ZopfliGetLengthExtraBits(l: c_int) -> (bits: c_int)
    requires
        0 <= l <= 258,
    ensures
        bits == length_extra_bits(l as int),
        0 <= bits <= 5,
{
    LENGTH_EXTRA_BITS[l as usize]
}

/// The symbol that DEFLATE gives a match distance: symbols 0 to 3 stand for the distances 1
/// to 4, and from there on two symbols share each power of two, up to symbol 29 for the
/// distances above 24576. Distance 0 gives -1, and a distance below 0 gives 29.
pub open spec fn dist_symbol(dist: int) -> int {
    if dist < 0 {
        29
    } else if dist <= 4 {
        dist - 1
    } else if dist <= 6 {
        4
    } else if dist <= 8 {
        5
    } else if dist <= 12 {
        6
    } else if dist <= 16 {
        7
    } else if dist <= 24 {
        8
    } else if dist <= 32 {
        9
    } else if dist <= 48 {
        10
    } else if dist <= 64 {
        11
    } else if dist <= 96 {
        12
    } else if dist <= 128 {
        13
    } else if dist <= 192 {
        14
    } else if dist <= 256 {
        15
    } else if dist <= 384 {
        16
    } else if dist <= 512 {
        17
    } else if dist <= 768 {
        18
    } else if dist <= 1024 {
        19
    } else if dist <= 1536 {
        20
    } else if dist <= 2048 {
        21
    } else if dist <= 3072 {
        22
    } else if dist <= 4096 {
        23
    } else if dist <= 6144 {
        24
    } else if dist <= 8192 {
        25
    } else if dist <= 12288 {
        26
    } else if dist <= 16384 {
        27
    } else if dist <= 24576 {
        28
    } else {
        29
    }
}

/// The number of extra bits that follow the symbol of a match distance: none up to distance
/// 4, then one more for each power of two that the distance passes, 13 at most.
pub open spec fn dist_extra_bits(dist: int) -> int {
    if dist < 5 {
        0
    } else if dist <= 8 {
        1
    } else if dist <= 16 {
        2
    } else if dist <= 32 {
        3
    } else if dist <= 64 {
        4
    } else if dist <= 128 {
        5
    } else if dist <= 256 {
        6
    } else if dist <= 512 {
        7
    } else if dist <= 1024 {
        8
    } else if dist <= 2048 {
        9
    } else if dist <= 4096 {
        10
    } else if dist <= 8192 {
        11
    } else if dist <= 16384 {
        12
    } else {
        13
    }
}

/// Gets the symbol for the given dist, cfr. the DEFLATE spec.
#[allow(non_snake_case)]
pub fn ZopfliGetDistSymbol(dist: c_int) -> (symbol: c_int)
    ensures
        symbol == dist_symbol(dist as int),
        dist >= 1 ==> 0 <= symbol <= 29,
{
    match dist {
        0..=4 => dist - 1,
        5..=6 => 4,
        7..=8 => 5,
        9..=12 => 6,
        13..=16 => 7,
        17..=24 => 8,
        25..=32 => 9,
        33..=48 => 10,
        49..=64 => 11,
        65..=96 => 12,
        97..=128 => 13,
        129..=192 => 14,
        193..=256 => 15,
        257..=384 => 16,
        385..=512 => 17,
        513..=768 => 18,
        769..=1024 => 19,
        1025..=1536 => 20,
        1537..=2048 => 21,
        2049..=3072 => 22,
        3073..=4096 => 23,
        4097..=6144 => 24,
        6145..=8192 => 25,
        8193..=12288 => 26,
        12289..=16384 => 27,
        16385..=24576 => 28,
        _ => 29,
    }
}

/// Gets the amount of extra bits for the given dist, cfr. the DEFLATE spec.
#[allow(non_snake_case)]
pub fn ZopfliGetDistExtraBits(dist: c_int) -> (bits: c_int)
    ensures
        bits == dist_extra_bits(dist as int),
        0 <= bits <= 13,
{
    if dist < 5 {
        0
    } else {
        match dist {
            5..=8 => 1,
            9..=16 => 2,
            17..=32 => 3,
            33..=64 => 4,
            65..=128 => 5,
            129..=256 => 6,
            257..=512 => 7,
            513..=1024 => 8,
            1025..=2048 => 9,
            2049..=4096 => 10,
            4097..=8192 => 11,
            8193..=16384 => 12,
            _ => 13,
        }
    }
}

} // verus!
