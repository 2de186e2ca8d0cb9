use vstd::prelude::*;

verus! {

/// Marker for "no move played yet"; one past the last point.
pub const NO_MOVE: u32 = 93;

/// Row `i` of the adjacency table: the neighbours of point `i`, each stored
/// as its index plus one, padded with `0`.
pub open spec fn board_row(i: u32) -> Seq<u32> {
    match i {
        0u32 => seq![2u32, 24u32, 25u32, 0u32, 0u32, 0u32, 0u32],
        1u32 => seq![1u32, 3u32, 25u32, 26u32, 0u32, 0u32, 0u32],
        2u32 => seq![2u32, 4u32, 26u32, 27u32, 0u32, 0u32, 0u32],
        3u32 => seq![3u32, 5u32, 27u32, 28u32, 0u32, 0u32, 0u32],
        4u32 => seq![4u32, 6u32, 28u32, 29u32, 0u32, 0u32, 0u32],
        5u32 => seq![5u32, 7u32, 29u32, 30u32, 0u32, 0u32, 0u32],
        6u32 => seq![6u32, 8u32, 30u32, 31u32, 0u32, 0u32, 0u32],
        7u32 => seq![7u32, 9u32, 31u32, 32u32, 0u32, 0u32, 0u32],
        8u32 => seq![8u32, 10u32, 32u32, 0u32, 0u32, 0u32, 0u32],
        9u32 => seq![9u32, 11u32, 32u32, 33u32, 0u32, 0u32, 0u32],
        10u32 => seq![10u32, 12u32, 33u32, 34u32, 0u32, 0u32, 0u32],
        11u32 => seq![11u32, 13u32, 34u32, 35u32, 0u32, 0u32, 0u32],
        12u32 => seq![12u32, 14u32, 35u32, 36u32, 0u32, 0u32, 0u32],
        13u32 => seq![13u32, 15u32, 36u32, 37u32, 0u32, 0u32, 0u32],
        14u32 => seq![14u32, 16u32, 37u32, 38u32, 0u32, 0u32, 0u32],
        15u32 => seq![15u32, 17u32, 38u32, 39u32, 0u32, 0u32, 0u32],
        16u32 => seq![16u32, 18u32, 39u32, 0u32, 0u32, 0u32, 0u32],
        17u32 => seq![17u32, 19u32, 39u32, 40u32, 0u32, 0u32, 0u32],
        18u32 => seq![18u32, 20u32, 40u32, 41u32, 0u32, 0u32, 0u32],
        19u32 => seq![19u32, 21u32, 41u32, 42u32, 0u32, 0u32, 0u32],
        20u32 => seq![20u32, 22u32, 42u32, 43u32, 0u32, 0u32, 0u32],
        21u32 => seq![21u32, 23u32, 43u32, 44u32, 0u32, 0u32, 0u32],
        22u32 => seq![22u32, 24u32, 44u32, 45u32, 0u32, 0u32, 0u32],
        23u32 => seq![1u32, 23u32, 25u32, 45u32, 0u32, 0u32, 0u32],
        24u32 => seq![1u32, 2u32, 24u32, 26u32, 45u32, 46u32, 0u32],
        25u32 => seq![2u32, 3u32, 25u32, 27u32, 46u32, 47u32, 0u32],
        26u32 => seq![3u32, 4u32, 26u32, 28u32, 47u32, 48u32, 0u32],
        27u32 => seq![4u32, 5u32, 27u32, 29u32, 48u32, 49u32, 0u32],
        28u32 => seq![5u32, 6u32, 28u32, 30u32, 49u32, 50u32, 0u32],
        29u32 => seq![6u32, 7u32, 29u32, 31u32, 50u32, 51u32, 0u32],
        30u32 => seq![7u32, 8u32, 30u32, 32u32, 51u32, 52u32, 0u32],
        31u32 => seq![8u32, 9u32, 10u32, 31u32, 33u32, 52u32, 0u32],
        32u32 => seq![10u32, 11u32, 32u32, 34u32, 52u32, 53u32, 0u32],
        33u32 => seq![11u32, 12u32, 33u32, 35u32, 53u32, 54u32, 0u32],
        34u32 => seq![12u32, 13u32, 34u32, 36u32, 54u32, 55u32, 0u32],
        35u32 => seq![13u32, 14u32, 35u32, 37u32, 55u32, 56u32, 0u32],
        36u32 => seq![14u32, 15u32, 36u32, 38u32, 56u32, 57u32, 0u32],
        37u32 => seq![15u32, 16u32, 37u32, 39u32, 57u32, 58u32, 0u32],
        38u32 => seq![16u32, 17u32, 18u32, 38u32, 40u32, 58u32, 0u32],
        39u32 => seq![18u32, 19u32, 39u32, 41u32, 58u32, 59u32, 0u32],
        40u32 => seq![19u32, 20u32, 40u32, 42u32, 59u32, 60u32, 0u32],
        41u32 => seq![20u32, 21u32, 41u32, 43u32, 60u32, 61u32, 0u32],
        42u32 => seq![21u32, 22u32, 42u32, 44u32, 61u32, 62u32, 0u32],
        43u32 => seq![22u32, 23u32, 43u32, 45u32, 62u32, 63u32, 0u32],
        44u32 => seq![23u32, 24u32, 25u32, 44u32, 46u32, 63u32, 0u32],
        45u32 => seq![25u32, 26u32, 45u32, 47u32, 63u32, 64u32, 0u32],
        46u32 => seq![26u32, 27u32, 46u32, 48u32, 64u32, 65u32, 0u32],
        47u32 => seq![27u32, 28u32, 47u32, 49u32, 65u32, 66u32, 0u32],
        48u32 => seq![28u32, 29u32, 48u32, 50u32, 66u32, 67u32, 0u32],
        49u32 => seq![29u32, 30u32, 49u32, 51u32, 67u32, 68u32, 0u32],
        50u32 => seq![30u32, 31u32, 50u32, 52u32, 68u32, 69u32, 0u32],
        51u32 => seq![31u32, 32u32, 33u32, 51u32, 53u32, 69u32, 0u32],
        52u32 => seq![33u32, 34u32, 52u32, 54u32, 69u32, 70u32, 0u32],
        53u32 => seq![34u32, 35u32, 53u32, 55u32, 70u32, 71u32, 0u32],
        54u32 => seq![35u32, 36u32, 54u32, 56u32, 71u32, 72u32, 0u32],
        55u32 => seq![36u32, 37u32, 55u32, 57u32, 72u32, 73u32, 0u32],
        56u32 => seq![37u32, 38u32, 56u32, 58u32, 73u32, 74u32, 0u32],
        57u32 => seq![38u32, 39u32, 40u32, 57u32, 59u32, 74u32, 0u32],
        58u32 => seq![40u32, 41u32, 58u32, 60u32, 74u32, 75u32, 0u32],
        59u32 => seq![41u32, 42u32, 59u32, 61u32, 75u32, 76u32, 0u32],
        60u32 => seq![42u32, 43u32, 60u32, 62u32, 76u32, 77u32, 0u32],
        61u32 => seq![43u32, 44u32, 61u32, 63u32, 77u32, 78u32, 0u32],
        62u32 => seq![44u32, 45u32, 46u32, 62u32, 64u32, 78u32, 0u32],
        63u32 => seq![46u32, 47u32, 63u32, 65u32, 78u32, 79u32, 0u32],
        64u32 => seq![47u32, 48u32, 64u32, 66u32, 79u32, 80u32, 0u32],
        65u32 => seq![48u32, 49u32, 65u32, 67u32, 80u32, 81u32, 0u32],
        66u32 => seq![49u32, 50u32, 66u32, 68u32, 81u32, 82u32, 0u32],
        67u32 => seq![50u32, 51u32, 67u32, 69u32, 82u32, 83u32, 0u32],
        68u32 => seq![51u32, 52u32, 53u32, 68u32, 70u32, 83u32, 0u32],
        69u32 => seq![53u32, 54u32, 69u32, 71u32, 83u32, 84u32, 0u32],
        70u32 => seq![54u32, 55u32, 70u32, 72u32, 84u32, 85u32, 0u32],
        71u32 => seq![55u32, 56u32, 71u32, 73u32, 85u32, 86u32, 0u32],
        72u32 => seq![56u32, 57u32, 72u32, 74u32, 86u32, 87u32, 0u32],
        73u32 => seq![57u32, 58u32, 59u32, 73u32, 75u32, 87u32, 0u32],
        74u32 => seq![59u32, 60u32, 74u32, 76u32, 87u32, 88u32, 0u32],
        75u32 => seq![60u32, 61u32, 75u32, 77u32, 88u32, 89u32, 0u32],
        76u32 => seq![61u32, 62u32, 76u32, 78u32, 89u32, 90u32, 0u32],
        77u32 => seq![62u32, 63u32, 64u32, 77u32, 79u32, 90u32, 0u32],
        78u32 => seq![64u32, 65u32, 78u32, 80u32, 90u32, 91u32, 0u32],
        79u32 => seq![65u32, 66u32, 79u32, 81u32, 91u32, 92u32, 0u32],
        80u32 => seq![66u32, 67u32, 80u32, 82u32, 92u32, 0u32, 0u32],
        81u32 => seq![67u32, 68u32, 81u32, 83u32, 92u32, 0u32, 0u32],
        82u32 => seq![68u32, 69u32, 70u32, 82u32, 84u32, 92u32, 0u32],
        83u32 => seq![70u32, 71u32, 83u32, 85u32, 92u32, 93u32, 0u32],
        84u32 => seq![71u32, 72u32, 84u32, 86u32, 93u32, 0u32, 0u32],
        85u32 => seq![72u32, 73u32, 85u32, 87u32, 93u32, 0u32, 0u32],
        86u32 => seq![73u32, 74u32, 75u32, 86u32, 88u32, 93u32, 0u32],
        87u32 => seq![75u32, 76u32, 87u32, 89u32, 91u32, 93u32, 0u32],
        88u32 => seq![76u32, 77u32, 88u32, 90u32, 91u32, 0u32, 0u32],
        89u32 => seq![77u32, 78u32, 79u32, 89u32, 91u32, 0u32, 0u32],
        90u32 => seq![79u32, 80u32, 88u32, 89u32, 90u32, 92u32, 93u32],
        91u32 => seq![80u32, 81u32, 82u32, 83u32, 84u32, 91u32, 93u32],
        92u32 => seq![84u32, 85u32, 86u32, 87u32, 88u32, 91u32, 92u32],
        _ => seq![0u32, 0u32, 0u32, 0u32, 0u32, 0u32, 0u32],
    }
}

/// The `k`-th neighbour slot of point `i` (index plus one, or `0`).
pub open spec fn slot(i: int, k: int) -> int {
    board_row(i as u32)[k] as int
}

/// Points `i` and `j` are adjacent on the board.
pub open spec fn adjacent(i: int, j: int) -> bool {
    &&& 0 <= i < 93
    &&& 0 <= j < 93
    &&& exists|k: int| 0 <= k < 7 && #[trigger] slot(i, k) == j + 1
}

/// The mask of side `s` (0, 1 or 2). Side 0 runs from corner 0 to corner 8,
/// side 1 from corner 8 to corner 16, side 2 from corner 16 round to corner 0;
/// each corner lies on two sides.
pub open spec fn side_mask(s: int) -> u128 {
    if s == 0 {
        511u128
    } else if s == 1 {
        130816u128
    } else {
        16711681u128
    }
}

/// Whether bit `i` of the board mask `b` is set.
pub open spec fn in_mask(b: u128, i: int) -> bool {
    0 <= i < 128 && b & (1u128 << (i as u128)) != 0
}

/// Every slot of the table names a point of the board or is empty.
pub proof fn lemma_slot_bound(i: int, k: int)
    requires
        0 <= k < 7,
    ensures
        0 <= slot(i, k) <= 93,
{
}

/// The neighbour table row of point `i`; the row of the "no move" marker
/// (93) is empty.
pub fn neighbours(i: u32) -> (row: [u32; 7])
    requires
        i <= 93,
    ensures
        row@ == board_row(i),
        forall|k: int| 0 <= k < 7 ==> #[trigger] row@[k] <= 93,
{
    let row: [u32; 7] = match i {
        0 => [2, 24, 25, 0, 0, 0, 0],
        1 => [1, 3, 25, 26, 0, 0, 0],
        2 => [2, 4, 26, 27, 0, 0, 0],
        3 => [3, 5, 27, 28, 0, 0, 0],
        4 => [4, 6, 28, 29, 0, 0, 0],
        5 => [5, 7, 29, 30, 0, 0, 0],
        6 => [6, 8, 30, 31, 0, 0, 0],
        7 => [7, 9, 31, 32, 0, 0, 0],
        8 => [8, 10, 32, 0, 0, 0, 0],
        9 => [9, 11, 32, 33, 0, 0, 0],
        10 => [10, 12, 33, 34, 0, 0, 0],
        11 => [11, 13, 34, 35, 0, 0, 0],
        12 => [12, 14, 35, 36, 0, 0, 0],
        13 => [13, 15, 36, 37, 0, 0, 0],
        14 => [14, 16, 37, 38, 0, 0, 0],
        15 => [15, 17, 38, 39, 0, 0, 0],
        16 => [16, 18, 39, 0, 0, 0, 0],
        17 => [17, 19, 39, 40, 0, 0, 0],
        18 => [18, 20, 40, 41, 0, 0, 0],
        19 => [19, 21, 41, 42, 0, 0, 0],
        20 => [20, 22, 42, 43, 0, 0, 0],
        21 => [21, 23, 43, 44, 0, 0, 0],
        22 => [22, 24, 44, 45, 0, 0, 0],
        23 => [1, 23, 25, 45, 0, 0, 0],
        24 => [1, 2, 24, 26, 45, 46, 0],
        25 => [2, 3, 25, 27, 46, 47, 0],
        26 => [3, 4, 26, 28, 47, 48, 0],
        27 => [4, 5, 27, 29, 48, 49, 0],
        28 => [5, 6, 28, 30, 49, 50, 0],
        29 => [6, 7, 29, 31, 50, 51, 0],
        30 => [7, 8, 30, 32, 51, 52, 0],
        31 => [8, 9, 10, 31, 33, 52, 0],
        32 => [10, 11, 32, 34, 52, 53, 0],
        33 => [11, 12, 33, 35, 53, 54, 0],
        34 => [12, 13, 34, 36, 54, 55, 0],
        35 => [13, 14, 35, 37, 55, 56, 0],
        36 => [14, 15, 36, 38, 56, 57, 0],
        37 => [15, 16, 37, 39, 57, 58, 0],
        38 => [16, 17, 18, 38, 40, 58, 0],
        39 => [18, 19, 39, 41, 58, 59, 0],
        40 => [19, 20, 40, 42, 59, 60, 0],
        41 => [20, 21, 41, 43, 60, 61, 0],
        42 => [21, 22, 42, 44, 61, 62, 0],
        43 => [22, 23, 43, 45, 62, 63, 0],
        44 => [23, 24, 25, 44, 46, 63, 0],
        45 => [25, 26, 45, 47, 63, 64, 0],
        46 => [26, 27, 46, 48, 64, 65, 0],
        47 => [27, 28, 47, 49, 65, 66, 0],
        48 => [28, 29, 48, 50, 66, 67, 0],
        49 => [29, 30, 49, 51, 67, 68, 0],
        50 => [30, 31, 50, 52, 68, 69, 0],
        51 => [31, 32, 33, 51, 53, 69, 0],
        52 => [33, 34, 52, 54, 69, 70, 0],
        53 => [34, 35, 53, 55, 70, 71, 0],
        54 => [35, 36, 54, 56, 71, 72, 0],
        55 => [36, 37, 55, 57, 72, 73, 0],
        56 => [37, 38, 56, 58, 73, 74, 0],
        57 => [38, 39, 40, 57, 59, 74, 0],
        58 => [40, 41, 58, 60, 74, 75, 0],
        59 => [41, 42, 59, 61, 75, 76, 0],
        60 => [42, 43, 60, 62, 76, 77, 0],
        61 => [43, 44, 61, 63, 77, 78, 0],
        62 => [44, 45, 46, 62, 64, 78, 0],
        63 => [46, 47, 63, 65, 78, 79, 0],
        64 => [47, 48, 64, 66, 79, 80, 0],
        65 => [48, 49, 65, 67, 80, 81, 0],
        66 => [49, 50, 66, 68, 81, 82, 0],
        67 => [50, 51, 67, 69, 82, 83, 0],
        68 => [51, 52, 53, 68, 70, 83, 0],
        69 => [53, 54, 69, 71, 83, 84, 0],
        70 => [54, 55, 70, 72, 84, 85, 0],
        71 => [55, 56, 71, 73, 85, 86, 0],
        72 => [56, 57, 72, 74, 86, 87, 0],
        73 => [57, 58, 59, 73, 75, 87, 0],
        74 => [59, 60, 74, 76, 87, 88, 0],
        75 => [60, 61, 75, 77, 88, 89, 0],
        76 => [61, 62, 76, 78, 89, 90, 0],
        77 => [62, 63, 64, 77, 79, 90, 0],
        78 => [64, 65, 78, 80, 90, 91, 0],
        79 => [65, 66, 79, 81, 91, 92, 0],
        80 => [66, 67, 80, 82, 92, 0, 0],
        81 => [67, 68, 81, 83, 92, 0, 0],
        82 => [68, 69, 70, 82, 84, 92, 0],
        83 => [70, 71, 83, 85, 92, 93, 0],
        84 => [71, 72, 84, 86, 93, 0, 0],
        85 => [72, 73, 85, 87, 93, 0, 0],
        86 => [73, 74, 75, 86, 88, 93, 0],
        87 => [75, 76, 87, 89, 91, 93, 0],
        88 => [76, 77, 88, 90, 91, 0, 0],
        89 => [77, 78, 79, 89, 91, 0, 0],
        90 => [79, 80, 88, 89, 90, 92, 93],
        91 => [80, 81, 82, 83, 84, 91, 93],
        92 => [84, 85, 86, 87, 88, 91, 92],
        _ => [0, 0, 0, 0, 0, 0, 0],
    };
    row
}

/// The mask of side `s`.
pub fn side(s: usize) -> (mask: u128)
    requires
        s < 3,
    ensures
        mask == side_mask(s as int),
{
    if s == 0 {
        511
    } else if s == 1 {
        130816
    } else {
        16711681
    }
}

} // verus!
