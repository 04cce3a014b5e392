//! The probability-estimation tables of the arithmetic decoder
//! (ITU-T T.82, Table 24), indexed by the adaptive state of a context.
//! Every table has 113 entries; a state outside them reads as 0.

use vstd::prelude::*;

verus! {
/// Size of the less probable symbol's sub-interval for a state.
pub open spec fn lsz_spec(state: u32) -> u32 {
    if state == 0 { 0x5a1d } else if state == 1 { 0x2586 } else if state == 2 { 0x1114 } else if state == 3 { 0x080b } else 
    if state == 4 { 0x03d8 } else if state == 5 { 0x01da } else if state == 6 { 0x00e5 } else if state == 7 { 0x006f } else 
    if state == 8 { 0x0036 } else if state == 9 { 0x001a } else if state == 10 { 0x000d } else if state == 11 { 0x0006 } else 
    if state == 12 { 0x0003 } else if state == 13 { 0x0001 } else if state == 14 { 0x5a7f } else if state == 15 { 0x3f25 } else 
    if state == 16 { 0x2cf2 } else if state == 17 { 0x207c } else if state == 18 { 0x17b9 } else if state == 19 { 0x1182 } else 
    if state == 20 { 0x0cef } else if state == 21 { 0x09a1 } else if state == 22 { 0x072f } else if state == 23 { 0x055c } else 
    if state == 24 { 0x0406 } else if state == 25 { 0x0303 } else if state == 26 { 0x0240 } else if state == 27 { 0x01b1 } else 
    if state == 28 { 0x0144 } else if state == 29 { 0x00f5 } else if state == 30 { 0x00b7 } else if state == 31 { 0x008a } else 
    if state == 32 { 0x0068 } else if state == 33 { 0x004e } else if state == 34 { 0x003b } else if state == 35 { 0x002c } else 
    if state == 36 { 0x5ae1 } else if state == 37 { 0x484c } else if state == 38 { 0x3a0d } else if state == 39 { 0x2ef1 } else 
    if state == 40 { 0x261f } else if state == 41 { 0x1f33 } else if state == 42 { 0x19a8 } else if state == 43 { 0x1518 } else 
    if state == 44 { 0x1177 } else if state == 45 { 0x0e74 } else if state == 46 { 0x0bfb } else if state == 47 { 0x09f8 } else 
    if state == 48 { 0x0861 } else if state == 49 { 0x0706 } else if state == 50 { 0x05cd } else if state == 51 { 0x04de } else 
    if state == 52 { 0x040f } else if state == 53 { 0x0363 } else if state == 54 { 0x02d4 } else if state == 55 { 0x025c } else 
    if state == 56 { 0x01f8 } else if state == 57 { 0x01a4 } else if state == 58 { 0x0160 } else if state == 59 { 0x0125 } else 
    if state == 60 { 0x00f6 } else if state == 61 { 0x00cb } else if state == 62 { 0x00ab } else if state == 63 { 0x008f } else 
    if state == 64 { 0x5b12 } else if state == 65 { 0x4d04 } else if state == 66 { 0x412c } else if state == 67 { 0x37d8 } else 
    if state == 68 { 0x2fe8 } else if state == 69 { 0x293c } else if state == 70 { 0x2379 } else if state == 71 { 0x1edf } else 
    if state == 72 { 0x1aa9 } else if state == 73 { 0x174e } else if state == 74 { 0x1424 } else if state == 75 { 0x119c } else 
    if state == 76 { 0x0f6b } else if state == 77 { 0x0d51 } else if state == 78 { 0x0bb6 } else if state == 79 { 0x0a40 } else 
    if state == 80 { 0x5832 } else if state == 81 { 0x4d1c } else if state == 82 { 0x438e } else if state == 83 { 0x3bdd } else 
    if state == 84 { 0x34ee } else if state == 85 { 0x2eae } else if state == 86 { 0x299a } else if state == 87 { 0x2516 } else 
    if state == 88 { 0x5570 } else if state == 89 { 0x4ca9 } else if state == 90 { 0x44d9 } else if state == 91 { 0x3e22 } else 
    if state == 92 { 0x3824 } else if state == 93 { 0x32b4 } else if state == 94 { 0x2e17 } else if state == 95 { 0x56a8 } else 
    if state == 96 { 0x4f46 } else if state == 97 { 0x47e5 } else if state == 98 { 0x41cf } else if state == 99 { 0x3c3d } else 
    if state == 100 { 0x375e } else if state == 101 { 0x5231 } else if state == 102 { 0x4c0f } else if state == 103 { 0x4639 } else 
    if state == 104 { 0x415e } else if state == 105 { 0x5627 } else if state == 106 { 0x50e7 } else if state == 107 { 0x4b85 } else 
    if state == 108 { 0x5597 } else if state == 109 { 0x504f } else if state == 110 { 0x5a10 } else if state == 111 { 0x5522 } else 
    if state == 112 { 0x59eb } else { 0 }
}
/// Executable lookup of [`lsz_spec`].
pub fn lsz(state: u32) -> (r: u32)
    ensures
        r == lsz_spec(state),
{
    match state {
        0 => 0x5a1d,
        1 => 0x2586,
        2 => 0x1114,
        3 => 0x080b,
        4 => 0x03d8,
        5 => 0x01da,
        6 => 0x00e5,
        7 => 0x006f,
        8 => 0x0036,
        9 => 0x001a,
        10 => 0x000d,
        11 => 0x0006,
        12 => 0x0003,
        13 => 0x0001,
        14 => 0x5a7f,
        15 => 0x3f25,
        16 => 0x2cf2,
        17 => 0x207c,
        18 => 0x17b9,
        19 => 0x1182,
        20 => 0x0cef,
        21 => 0x09a1,
        22 => 0x072f,
        23 => 0x055c,
        24 => 0x0406,
        25 => 0x0303,
        26 => 0x0240,
        27 => 0x01b1,
        28 => 0x0144,
        29 => 0x00f5,
        30 => 0x00b7,
        31 => 0x008a,
        32 => 0x0068,
        33 => 0x004e,
        34 => 0x003b,
        35 => 0x002c,
        36 => 0x5ae1,
        37 => 0x484c,
        38 => 0x3a0d,
        39 => 0x2ef1,
        40 => 0x261f,
        41 => 0x1f33,
        42 => 0x19a8,
        43 => 0x1518,
        44 => 0x1177,
        45 => 0x0e74,
        46 => 0x0bfb,
        47 => 0x09f8,
        48 => 0x0861,
        49 => 0x0706,
        50 => 0x05cd,
        51 => 0x04de,
        52 => 0x040f,
        53 => 0x0363,
        54 => 0x02d4,
        55 => 0x025c,
        56 => 0x01f8,
        57 => 0x01a4,
        58 => 0x0160,
        59 => 0x0125,
        60 => 0x00f6,
        61 => 0x00cb,
        62 => 0x00ab,
        63 => 0x008f,
        64 => 0x5b12,
        65 => 0x4d04,
        66 => 0x412c,
        67 => 0x37d8,
        68 => 0x2fe8,
        69 => 0x293c,
        70 => 0x2379,
        71 => 0x1edf,
        72 => 0x1aa9,
        73 => 0x174e,
        74 => 0x1424,
        75 => 0x119c,
        76 => 0x0f6b,
        77 => 0x0d51,
        78 => 0x0bb6,
        79 => 0x0a40,
        80 => 0x5832,
        81 => 0x4d1c,
        82 => 0x438e,
        83 => 0x3bdd,
        84 => 0x34ee,
        85 => 0x2eae,
        86 => 0x299a,
        87 => 0x2516,
        88 => 0x5570,
        89 => 0x4ca9,
        90 => 0x44d9,
        91 => 0x3e22,
        92 => 0x3824,
        93 => 0x32b4,
        94 => 0x2e17,
        95 => 0x56a8,
        96 => 0x4f46,
        97 => 0x47e5,
        98 => 0x41cf,
        99 => 0x3c3d,
        100 => 0x375e,
        101 => 0x5231,
        102 => 0x4c0f,
        103 => 0x4639,
        104 => 0x415e,
        105 => 0x5627,
        106 => 0x50e7,
        107 => 0x4b85,
        108 => 0x5597,
        109 => 0x504f,
        110 => 0x5a10,
        111 => 0x5522,
        112 => 0x59eb,
        _ => 0,
    }
}

/// Next state after a less probable symbol.
pub open spec fn nlps_spec(state: u32) -> u32 {
    if state == 0 { 1 } else if state == 1 { 14 } else if state == 2 { 16 } else if state == 3 { 18 } else 
    if state == 4 { 20 } else if state == 5 { 23 } else if state == 6 { 25 } else if state == 7 { 28 } else 
    if state == 8 { 30 } else if state == 9 { 33 } else if state == 10 { 35 } else if state == 11 { 9 } else 
    if state == 12 { 10 } else if state == 13 { 12 } else if state == 14 { 15 } else if state == 15 { 36 } else 
    if state == 16 { 38 } else if state == 17 { 39 } else if state == 18 { 40 } else if state == 19 { 42 } else 
    if state == 20 { 43 } else if state == 21 { 45 } else if state == 22 { 46 } else if state == 23 { 48 } else 
    if state == 24 { 49 } else if state == 25 { 51 } else if state == 26 { 52 } else if state == 27 { 54 } else 
    if state == 28 { 56 } else if state == 29 { 57 } else if state == 30 { 59 } else if state == 31 { 60 } else 
    if state == 32 { 62 } else if state == 33 { 63 } else if state == 34 { 32 } else if state == 35 { 33 } else 
    if state == 36 { 37 } else if state == 37 { 64 } else if state == 38 { 65 } else if state == 39 { 67 } else 
    if state == 40 { 68 } else if state == 41 { 69 } else if state == 42 { 70 } else if state == 43 { 72 } else 
    if state == 44 { 73 } else if state == 45 { 74 } else if state == 46 { 75 } else if state == 47 { 77 } else 
    if state == 48 { 78 } else if state == 49 { 79 } else if state == 50 { 48 } else if state == 51 { 50 } else 
    if state == 52 { 50 } else if state == 53 { 51 } else if state == 54 { 52 } else if state == 55 { 53 } else 
    if state == 56 { 54 } else if state == 57 { 55 } else if state == 58 { 56 } else if state == 59 { 57 } else 
    if state == 60 { 58 } else if state == 61 { 59 } else if state == 62 { 61 } else if state == 63 { 61 } else 
    if state == 64 { 65 } else if state == 65 { 80 } else if state == 66 { 81 } else if state == 67 { 82 } else 
    if state == 68 { 83 } else if state == 69 { 84 } else if state == 70 { 86 } else if state == 71 { 87 } else 
    if state == 72 { 87 } else if state == 73 { 72 } else if state == 74 { 72 } else if state == 75 { 74 } else 
    if state == 76 { 74 } else if state == 77 { 75 } else if state == 78 { 77 } else if state == 79 { 77 } else 
    if state == 80 { 80 } else if state == 81 { 88 } else if state == 82 { 89 } else if state == 83 { 90 } else 
    if state == 84 { 91 } else if state == 85 { 92 } else if state == 86 { 93 } else if state == 87 { 86 } else 
    if state == 88 { 88 } else if state == 89 { 95 } else if state == 90 { 96 } else if state == 91 { 97 } else 
    if state == 92 { 99 } else if state == 93 { 99 } else if state == 94 { 93 } else if state == 95 { 95 } else 
    if state == 96 { 101 } else if state == 97 { 102 } else if state == 98 { 103 } else if state == 99 { 104 } else 
    if state == 100 { 99 } else if state == 101 { 105 } else if state == 102 { 106 } else if state == 103 { 107 } else 
    if state == 104 { 103 } else if state == 105 { 105 } else if state == 106 { 108 } else if state == 107 { 109 } else 
    if state == 108 { 110 } else if state == 109 { 111 } else if state == 110 { 110 } else if state == 111 { 112 } else 
    if state == 112 { 112 } else { 0 }
}
/// Executable lookup of [`nlps_spec`].
pub fn nlps(state: u32) -> (r: u32)
    ensures
        r == nlps_spec(state),
{
    match state {
        0 => 1,
        1 => 14,
        2 => 16,
        3 => 18,
        4 => 20,
        5 => 23,
        6 => 25,
        7 => 28,
        8 => 30,
        9 => 33,
        10 => 35,
        11 => 9,
        12 => 10,
        13 => 12,
        14 => 15,
        15 => 36,
        16 => 38,
        17 => 39,
        18 => 40,
        19 => 42,
        20 => 43,
        21 => 45,
        22 => 46,
        23 => 48,
        24 => 49,
        25 => 51,
        26 => 52,
        27 => 54,
        28 => 56,
        29 => 57,
        30 => 59,
        31 => 60,
        32 => 62,
        33 => 63,
        34 => 32,
        35 => 33,
        36 => 37,
        37 => 64,
        38 => 65,
        39 => 67,
        40 => 68,
        41 => 69,
        42 => 70,
        43 => 72,
        44 => 73,
        45 => 74,
        46 => 75,
        47 => 77,
        48 => 78,
        49 => 79,
        50 => 48,
        51 => 50,
        52 => 50,
        53 => 51,
        54 => 52,
        55 => 53,
        56 => 54,
        57 => 55,
        58 => 56,
        59 => 57,
        60 => 58,
        61 => 59,
        62 => 61,
        63 => 61,
        64 => 65,
        65 => 80,
        66 => 81,
        67 => 82,
        68 => 83,
        69 => 84,
        70 => 86,
        71 => 87,
        72 => 87,
        73 => 72,
        74 => 72,
        75 => 74,
        76 => 74,
        77 => 75,
        78 => 77,
        79 => 77,
        80 => 80,
        81 => 88,
        82 => 89,
        83 => 90,
        84 => 91,
        85 => 92,
        86 => 93,
        87 => 86,
        88 => 88,
        89 => 95,
        90 => 96,
        91 => 97,
        92 => 99,
        93 => 99,
        94 => 93,
        95 => 95,
        96 => 101,
        97 => 102,
        98 => 103,
        99 => 104,
        100 => 99,
        101 => 105,
        102 => 106,
        103 => 107,
        104 => 103,
        105 => 105,
        106 => 108,
        107 => 109,
        108 => 110,
        109 => 111,
        110 => 110,
        111 => 112,
        112 => 112,
        _ => 0,
    }
}

/// Next state after a more probable symbol.
pub open spec fn nmps_spec(state: u32) -> u32 {
    if state == 0 { 1 } else if state == 1 { 2 } else if state == 2 { 3 } else if state == 3 { 4 } else 
    if state == 4 { 5 } else if state == 5 { 6 } else if state == 6 { 7 } else if state == 7 { 8 } else 
    if state == 8 { 9 } else if state == 9 { 10 } else if state == 10 { 11 } else if state == 11 { 12 } else 
    if state == 12 { 13 } else if state == 13 { 13 } else if state == 14 { 15 } else if state == 15 { 16 } else 
    if state == 16 { 17 } else if state == 17 { 18 } else if state == 18 { 19 } else if state == 19 { 20 } else 
    if state == 20 { 21 } else if state == 21 { 22 } else if state == 22 { 23 } else if state == 23 { 24 } else 
    if state == 24 { 25 } else if state == 25 { 26 } else if state == 26 { 27 } else if state == 27 { 28 } else 
    if state == 28 { 29 } else if state == 29 { 30 } else if state == 30 { 31 } else if state == 31 { 32 } else 
    if state == 32 { 33 } else if state == 33 { 34 } else if state == 34 { 35 } else if state == 35 { 9 } else 
    if state == 36 { 37 } else if state == 37 { 38 } else if state == 38 { 39 } else if state == 39 { 40 } else 
    if state == 40 { 41 } else if state == 41 { 42 } else if state == 42 { 43 } else if state == 43 { 44 } else 
    if state == 44 { 45 } else if state == 45 { 46 } else if state == 46 { 47 } else if state == 47 { 48 } else 
    if state == 48 { 49 } else if state == 49 { 50 } else if state == 50 { 51 } else if state == 51 { 52 } else 
    if state == 52 { 53 } else if state == 53 { 54 } else if state == 54 { 55 } else if state == 55 { 56 } else 
    if state == 56 { 57 } else if state == 57 { 58 } else if state == 58 { 59 } else if state == 59 { 60 } else 
    if state == 60 { 61 } else if state == 61 { 62 } else if state == 62 { 63 } else if state == 63 { 32 } else 
    if state == 64 { 65 } else if state == 65 { 66 } else if state == 66 { 67 } else if state == 67 { 68 } else 
    if state == 68 { 69 } else if state == 69 { 70 } else if state == 70 { 71 } else if state == 71 { 72 } else 
    if state == 72 { 73 } else if state == 73 { 74 } else if state == 74 { 75 } else if state == 75 { 76 } else 
    if state == 76 { 77 } else if state == 77 { 78 } else if state == 78 { 79 } else if state == 79 { 48 } else 
    if state == 80 { 81 } else if state == 81 { 82 } else if state == 82 { 83 } else if state == 83 { 84 } else 
    if state == 84 { 85 } else if state == 85 { 86 } else if state == 86 { 87 } else if state == 87 { 71 } else 
    if state == 88 { 89 } else if state == 89 { 90 } else if state == 90 { 91 } else if state == 91 { 92 } else 
    if state == 92 { 93 } else if state == 93 { 94 } else if state == 94 { 86 } else if state == 95 { 96 } else 
    if state == 96 { 97 } else if state == 97 { 98 } else if state == 98 { 99 } else if state == 99 { 100 } else 
    if state == 100 { 93 } else if state == 101 { 102 } else if state == 102 { 103 } else if state == 103 { 104 } else 
    if state == 104 { 99 } else if state == 105 { 106 } else if state == 106 { 107 } else if state == 107 { 103 } else 
    if state == 108 { 109 } else if state == 109 { 107 } else if state == 110 { 111 } else if state == 111 { 109 } else 
    if state == 112 { 111 } else { 0 }
}
/// Executable lookup of [`nmps_spec`].
pub fn nmps(state: u32) -> (r: u32)
    ensures
        r == nmps_spec(state),
{
    match state {
        0 => 1,
        1 => 2,
        2 => 3,
        3 => 4,
        4 => 5,
        5 => 6,
        6 => 7,
        7 => 8,
        8 => 9,
        9 => 10,
        10 => 11,
        11 => 12,
        12 => 13,
        13 => 13,
        14 => 15,
        15 => 16,
        16 => 17,
        17 => 18,
        18 => 19,
        19 => 20,
        20 => 21,
        21 => 22,
        22 => 23,
        23 => 24,
        24 => 25,
        25 => 26,
        26 => 27,
        27 => 28,
        28 => 29,
        29 => 30,
        30 => 31,
        31 => 32,
        32 => 33,
        33 => 34,
        34 => 35,
        35 => 9,
        36 => 37,
        37 => 38,
        38 => 39,
        39 => 40,
        40 => 41,
        41 => 42,
        42 => 43,
        43 => 44,
        44 => 45,
        45 => 46,
        46 => 47,
        47 => 48,
        48 => 49,
        49 => 50,
        50 => 51,
        51 => 52,
        52 => 53,
        53 => 54,
        54 => 55,
        55 => 56,
        56 => 57,
        57 => 58,
        58 => 59,
        59 => 60,
        60 => 61,
        61 => 62,
        62 => 63,
        63 => 32,
        64 => 65,
        65 => 66,
        66 => 67,
        67 => 68,
        68 => 69,
        69 => 70,
        70 => 71,
        71 => 72,
        72 => 73,
        73 => 74,
        74 => 75,
        75 => 76,
        76 => 77,
        77 => 78,
        78 => 79,
        79 => 48,
        80 => 81,
        81 => 82,
        82 => 83,
        83 => 84,
        84 => 85,
        85 => 86,
        86 => 87,
        87 => 71,
        88 => 89,
        89 => 90,
        90 => 91,
        91 => 92,
        92 => 93,
        93 => 94,
        94 => 86,
        95 => 96,
        96 => 97,
        97 => 98,
        98 => 99,
        99 => 100,
        100 => 93,
        101 => 102,
        102 => 103,
        103 => 104,
        104 => 99,
        105 => 106,
        106 => 107,
        107 => 103,
        108 => 109,
        109 => 107,
        110 => 111,
        111 => 109,
        112 => 111,
        _ => 0,
    }
}

/// 1 where a less probable symbol swaps the sense of the more probable symbol.
pub open spec fn switch_spec(state: u32) -> u32 {
    if state == 0 { 1 } else if state == 1 { 0 } else if state == 2 { 0 } else if state == 3 { 0 } else 
    if state == 4 { 0 } else if state == 5 { 0 } else if state == 6 { 0 } else if state == 7 { 0 } else 
    if state == 8 { 0 } else if state == 9 { 0 } else if state == 10 { 0 } else if state == 11 { 0 } else 
    if state == 12 { 0 } else if state == 13 { 1 } else if state == 14 { 0 } else if state == 15 { 0 } else 
    if state == 16 { 0 } else if state == 17 { 0 } else if state == 18 { 0 } else if state == 19 { 0 } else 
    if state == 20 { 0 } else if state == 21 { 0 } else if state == 22 { 0 } else if state == 23 { 0 } else 
    if state == 24 { 0 } else if state == 25 { 0 } else if state == 26 { 0 } else if state == 27 { 0 } else 
    if state == 28 { 0 } else if state == 29 { 0 } else if state == 30 { 0 } else if state == 31 { 0 } else 
    if state == 32 { 0 } else if state == 33 { 0 } else if state == 34 { 0 } else if state == 35 { 1 } else 
    if state == 36 { 0 } else if state == 37 { 0 } else if state == 38 { 0 } else if state == 39 { 0 } else 
    if state == 40 { 0 } else if state == 41 { 0 } else if state == 42 { 0 } else if state == 43 { 0 } else 
    if state == 44 { 0 } else if state == 45 { 0 } else if state == 46 { 0 } else if state == 47 { 0 } else 
    if state == 48 { 0 } else if state == 49 { 0 } else if state == 50 { 0 } else if state == 51 { 0 } else 
    if state == 52 { 0 } else if state == 53 { 0 } else if state == 54 { 0 } else if state == 55 { 0 } else 
    if state == 56 { 0 } else if state == 57 { 0 } else if state == 58 { 0 } else if state == 59 { 0 } else 
    if state == 60 { 0 } else if state == 61 { 0 } else if state == 62 { 0 } else if state == 63 { 1 } else 
    if state == 64 { 0 } else if state == 65 { 0 } else if state == 66 { 0 } else if state == 67 { 0 } else 
    if state == 68 { 0 } else if state == 69 { 0 } else if state == 70 { 0 } else if state == 71 { 0 } else 
    if state == 72 { 0 } else if state == 73 { 0 } else if state == 74 { 0 } else if state == 75 { 0 } else 
    if state == 76 { 0 } else if state == 77 { 0 } else if state == 78 { 0 } else if state == 79 { 0 } else 
    if state == 80 { 0 } else if state == 81 { 1 } else if state == 82 { 0 } else if state == 83 { 0 } else 
    if state == 84 { 0 } else if state == 85 { 0 } else if state == 86 { 0 } else if state == 87 { 0 } else 
    if state == 88 { 0 } else if state == 89 { 0 } else if state == 90 { 0 } else if state == 91 { 0 } else 
    if state == 92 { 0 } else if state == 93 { 0 } else if state == 94 { 0 } else if state == 95 { 0 } else 
    if state == 96 { 0 } else if state == 97 { 0 } else if state == 98 { 1 } else if state == 99 { 0 } else 
    if state == 100 { 0 } else if state == 101 { 0 } else if state == 102 { 0 } else if state == 103 { 0 } else 
    if state == 104 { 0 } else if state == 105 { 0 } else if state == 106 { 0 } else if state == 107 { 0 } else 
    if state == 108 { 0 } else if state == 109 { 0 } else if state == 110 { 0 } else { 0 }
}
/// Executable lookup of [`switch_spec`].
pub fn switch(state: u32) -> (r: u32)
    ensures
        r == switch_spec(state),
{
    match state {
        0 => 1,
        1 => 0,
        2 => 0,
        3 => 0,
        4 => 0,
        5 => 0,
        6 => 0,
        7 => 0,
        8 => 0,
        9 => 0,
        10 => 0,
        11 => 0,
        12 => 0,
        13 => 1,
        14 => 0,
        15 => 0,
        16 => 0,
        17 => 0,
        18 => 0,
        19 => 0,
        20 => 0,
        21 => 0,
        22 => 0,
        23 => 0,
        24 => 0,
        25 => 0,
        26 => 0,
        27 => 0,
        28 => 0,
        29 => 0,
        30 => 0,
        31 => 0,
        32 => 0,
        33 => 0,
        34 => 0,
        35 => 1,
        36 => 0,
        37 => 0,
        38 => 0,
        39 => 0,
        40 => 0,
        41 => 0,
        42 => 0,
        43 => 0,
        44 => 0,
        45 => 0,
        46 => 0,
        47 => 0,
        48 => 0,
        49 => 0,
        50 => 0,
        51 => 0,
        52 => 0,
        53 => 0,
        54 => 0,
        55 => 0,
        56 => 0,
        57 => 0,
        58 => 0,
        59 => 0,
        60 => 0,
        61 => 0,
        62 => 0,
        63 => 1,
        64 => 0,
        65 => 0,
        66 => 0,
        67 => 0,
        68 => 0,
        69 => 0,
        70 => 0,
        71 => 0,
        72 => 0,
        73 => 0,
        74 => 0,
        75 => 0,
        76 => 0,
        77 => 0,
        78 => 0,
        79 => 0,
        80 => 0,
        81 => 1,
        82 => 0,
        83 => 0,
        84 => 0,
        85 => 0,
        86 => 0,
        87 => 0,
        88 => 0,
        89 => 0,
        90 => 0,
        91 => 0,
        92 => 0,
        93 => 0,
        94 => 0,
        95 => 0,
        96 => 0,
        97 => 0,
        98 => 1,
        99 => 0,
        100 => 0,
        101 => 0,
        102 => 0,
        103 => 0,
        104 => 0,
        105 => 0,
        106 => 0,
        107 => 0,
        108 => 0,
        109 => 0,
        110 => 0,
        _ => 0,
    }
}

/// Facts about the reachable states 0..113 used by the decoder: the
/// next-state tables stay inside them, the interval sizes are positive
/// and below 0x8000, and `switch` is a flag.
pub proof fn lemma_table_ranges(state: u32)
    requires
        state < 113,
    ensures
        nlps_spec(state) < 113,
        nmps_spec(state) < 113,
        1 <= lsz_spec(state) <= 0x5b12,
        switch_spec(state) <= 1,
{
}

} // verus!
