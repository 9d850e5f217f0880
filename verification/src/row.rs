//! The row-collapse operation at the heart of the game: compress the
//! non-empty cells of a row to the left, merge adjacent equal tiles once,
//! and compress again.

use vstd::prelude::*;

verus! {

use vstd::arithmetic::power2::pow2;
use vstd::arithmetic::power2::lemma_pow2_unfold;
use vstd::arithmetic::power2::lemma_pow2_pos;

/// The non-zero entries of a row, in their original order.
pub open spec fn nonzeros(row: Seq<u8>) -> Seq<u8>
    decreases row.len(),
{
    if row.len() == 0 {
        Seq::empty()
    } else if row[0] == 0 {
        nonzeros(row.skip(1))
    } else {
        seq![row[0]] + nonzeros(row.skip(1))
    }
}

/// A run of `n` empty cells.
pub open spec fn zeros(n: nat) -> Seq<u8> {
    Seq::new(n, |i: int| 0u8)
}

/// Compression: empty cells removed, the order of the tiles kept, and the
/// freed trailing space padded with empty cells.
pub open spec fn compress_spec(row: Seq<u8>) -> Seq<u8> {
    nonzeros(row) + zeros((row.len() - nonzeros(row).len()) as nat)
}

proof fn lemma_nonzeros_len(row: Seq<u8>)
    ensures
        nonzeros(row).len() <= row.len(),
    decreases row.len(),
{
    if row.len() > 0 {
        lemma_nonzeros_len(row.skip(1));
    }
}

proof fn lemma_nonzeros_append(a: Seq<u8>, b: Seq<u8>)
    ensures
        nonzeros(a + b) == nonzeros(a) + nonzeros(b),
    decreases a.len(),
{
    if a.len() == 0 {
        assert(a + b =~= b);
        assert(nonzeros(a) + nonzeros(b) =~= nonzeros(b));
    } else {
        assert((a + b).skip(1) =~= a.skip(1) + b);
        lemma_nonzeros_append(a.skip(1), b);
        if a[0] != 0 {
            assert(seq![a[0]] + (nonzeros(a.skip(1)) + nonzeros(b))
                =~= (seq![a[0]] + nonzeros(a.skip(1))) + nonzeros(b));
        }
    }
}

/// Compression of the `i + 1`-cell prefix extends compression of the
/// `i`-cell prefix by the cell at `i`, if that cell is not empty.
proof fn lemma_nonzeros_take_step(row: Seq<u8>, i: int)
    requires
        0 <= i < row.len(),
    ensures
        nonzeros(row.take(i + 1)) == nonzeros(row.take(i)) + (if row[i] == 0 {
            Seq::<u8>::empty()
        } else {
            seq![row[i]]
        }),
{
    assert(row.take(i + 1) =~= row.take(i) + seq![row[i]]);
    lemma_nonzeros_append(row.take(i), seq![row[i]]);
    let s = seq![row[i]];
    assert(s.skip(1) =~= Seq::<u8>::empty());
    assert(nonzeros(Seq::<u8>::empty()) =~= Seq::<u8>::empty());
    if row[i] == 0 {
        assert(nonzeros(s) =~= Seq::<u8>::empty());
        assert(nonzeros(row.take(i)) + Seq::<u8>::empty() =~= nonzeros(row.take(i)));
        assert(nonzeros(row.take(i + 1)) =~= nonzeros(row.take(i)) + Seq::<u8>::empty());
    } else {
        assert(nonzeros(s) =~= s + Seq::<u8>::empty());
        assert(nonzeros(s) =~= s);
        assert(nonzeros(row.take(i + 1)) =~= nonzeros(row.take(i)) + s);
    }
}

/// Removes all empty cells of `row`, keeps the relative order of the tiles,
/// and pads the freed trailing space with empty cells.
pub fn compress_row(row: &Vec<u8>) -> (res: Vec<u8>)
    ensures
        res@ == compress_spec(row@),
        res@.len() == row@.len(),
{
    let mut out: Vec<u8> = Vec::new();
    let mut i: usize = 0;
    while i < row.len()
        invariant
            i <= row@.len(),
            out@ == nonzeros(row@.take(i as int)),
        decreases row@.len() - i,
    {
        proof {
            lemma_nonzeros_take_step(row@, i as int);
        }
        if row[i] != 0 {
            out.push(row[i]);
            proof {
                assert(out@ =~= nonzeros(row@.take(i as int)) + seq![row@[i as int]]);
            }
        } else {
            proof {
                assert(nonzeros(row@.take(i as int)) + Seq::<u8>::empty()
                    =~= nonzeros(row@.take(i as int)));
            }
        }
        i += 1;
    }
    proof {
        assert(row@.take(row@.len() as int) =~= row@);
        lemma_nonzeros_len(row@);
    }
    let mut j: usize = out.len();
    while j < row.len()
        invariant
            nonzeros(row@).len() <= j <= row@.len(),
            out@ == nonzeros(row@) + zeros((j - nonzeros(row@).len()) as nat),
        decreases row@.len() - j,
    {
        out.push(0);
        proof {
            assert(out@ =~= nonzeros(row@)
                + zeros((j + 1 - nonzeros(row@).len()) as nat));
        }
        j += 1;
    }
    proof {
        assert(out@ =~= compress_spec(row@));
    }
    out
}

/// One merge pass, left to right: two adjacent equal tiles become one tile
/// of the next exponent and an empty cell; the scan resumes after the pair,
/// so a freshly merged tile never merges again in the same pass.
pub open spec fn merge_spec(row: Seq<u8>) -> Seq<u8>
    decreases row.len(),
{
    if row.len() < 2 {
        row
    } else if row[0] != 0 && row[0] == row[1] {
        seq![(row[0] + 1) as u8, 0u8] + merge_spec(row.skip(2))
    } else {
        seq![row[0]] + merge_spec(row.skip(1))
    }
}

/// The full row-collapse: compress, merge once, compress again.
pub open spec fn collapse_spec(row: Seq<u8>) -> Seq<u8> {
    compress_spec(merge_spec(compress_spec(row)))
}

proof fn lemma_merge_len(row: Seq<u8>)
    ensures
        merge_spec(row).len() == row.len(),
    decreases row.len(),
{
    if row.len() >= 2 {
        if row[0] != 0 && row[0] == row[1] {
            lemma_merge_len(row.skip(2));
        } else {
            lemma_merge_len(row.skip(1));
        }
    }
}

/// Every tile of the compressed row is a tile of the original row, so an
/// exponent bound on the row carries over to its compression.
proof fn lemma_compress_bound(row: Seq<u8>, bound: u8)
    requires
        forall|k: int| 0 <= k < row.len() ==> row[k] < bound,
        bound > 0,
    ensures
        forall|k: int| 0 <= k < compress_spec(row).len() ==> compress_spec(row)[k] < bound,
{
    lemma_nonzeros_bound(row, bound);
    lemma_nonzeros_len(row);
}

proof fn lemma_nonzeros_bound(row: Seq<u8>, bound: u8)
    requires
        forall|k: int| 0 <= k < row.len() ==> row[k] < bound,
    ensures
        forall|k: int| 0 <= k < nonzeros(row).len() ==> nonzeros(row)[k] < bound,
    decreases row.len(),
{
    if row.len() > 0 {
        assert(forall|k: int| 0 <= k < row.skip(1).len() ==> row.skip(1)[k] < bound);
        lemma_nonzeros_bound(row.skip(1), bound);
        if row[0] == 0 {
            assert(nonzeros(row) == nonzeros(row.skip(1)));
        } else {
            assert(nonzeros(row) == seq![row[0]] + nonzeros(row.skip(1)));
            assert forall|k: int| 0 <= k < nonzeros(row).len() implies nonzeros(row)[k]
                < bound by {
                if k == 0 {
                    assert(nonzeros(row)[0] == row[0]);
                } else {
                    assert(nonzeros(row)[k] == nonzeros(row.skip(1))[k - 1]);
                }
            }
        }
    }
}

/// Applies the row-collapse operation to one row: compress, merge adjacent
/// equal tiles once, and compress again.
pub fn combine_row(row: &Vec<u8>) -> (res: Vec<u8>)
    requires
        forall|k: int| 0 <= k < row@.len() ==> row@[k] < 255,
    ensures
        res@ == collapse_spec(row@),
        res@.len() == row@.len(),
{
    let mut mid = compress_row(row);
    let ghost c = mid@;
    proof {
        lemma_compress_bound(row@, 255);
        lemma_merge_len(c);
        assert(c.skip(0) =~= c);
        assert(mid@.take(0) =~= Seq::<u8>::empty());
        assert(Seq::<u8>::empty() + merge_spec(c) =~= merge_spec(c));
    }
    let mut i: usize = 0;
    while i < mid.len() && i + 1 < mid.len()
        invariant
            mid@.len() == c.len(),
            i <= c.len(),
            forall|k: int| 0 <= k < c.len() ==> c[k] < 255,
            mid@.skip(i as int) == c.skip(i as int),
            merge_spec(c) == mid@.take(i as int) + merge_spec(c.skip(i as int)),
        decreases c.len() - i,
    {
        let ghost pre = mid@;
        proof {
            assert(mid@[i as int] == c[i as int]) by {
                assert(c.skip(i as int)[0] == c[i as int]);
            }
            assert(mid@[i + 1] == c[i + 1]) by {
                assert(c.skip(i as int)[1] == c[i + 1]);
            }
        }
        if mid[i] != 0 && mid[i] == mid[i + 1] {
            let v = mid[i] + 1;
            mid[i] = v;
            mid[i + 1] = 0;
            proof {
                assert(c.skip(i as int).skip(2) =~= c.skip(i + 2));
                assert(merge_spec(c.skip(i as int))
                    == seq![(c[i as int] + 1) as u8, 0u8] + merge_spec(c.skip(i + 2)));
                assert(mid@.take(i + 2) =~= pre.take(i as int)
                    + seq![(c[i as int] + 1) as u8, 0u8]);
                assert(mid@.take(i + 2) + merge_spec(c.skip(i + 2))
                    =~= pre.take(i as int)
                        + (seq![(c[i as int] + 1) as u8, 0u8] + merge_spec(c.skip(i + 2))));
                assert(mid@.skip(i + 2) =~= c.skip(i + 2));
            }
            i += 2;
        } else {
            proof {
                assert(c.skip(i as int).skip(1) =~= c.skip(i + 1));
                assert(merge_spec(c.skip(i as int))
                    == seq![c[i as int]] + merge_spec(c.skip(i + 1)));
                assert(mid@.take(i + 1) =~= mid@.take(i as int) + seq![c[i as int]]);
                assert(mid@.take(i + 1) + merge_spec(c.skip(i + 1))
                    =~= mid@.take(i as int) + (seq![c[i as int]] + merge_spec(c.skip(i + 1))));
                assert(mid@.skip(i + 1) =~= c.skip(i + 1));
            }
            i += 1;
        }
    }
    proof {
        assert(c.skip(i as int).len() < 2);
        assert(merge_spec(c.skip(i as int)) == c.skip(i as int));
        assert(mid@ =~= mid@.take(i as int) + mid@.skip(i as int));
        assert(mid@ == merge_spec(c));
    }
    compress_row(&mid)
}

proof fn lemma_nonzeros_all_nonzero(row: Seq<u8>)
    ensures
        forall|k: int| 0 <= k < nonzeros(row).len() ==> nonzeros(row)[k] != 0,
    decreases row.len(),
{
    if row.len() > 0 {
        lemma_nonzeros_all_nonzero(row.skip(1));
        if row[0] == 0 {
            assert(nonzeros(row) == nonzeros(row.skip(1)));
        } else {
            assert(nonzeros(row) == seq![row[0]] + nonzeros(row.skip(1)));
            assert forall|k: int| 0 <= k < nonzeros(row).len() implies nonzeros(row)[k]
                != 0 by {
                if k == 0 {
                    assert(nonzeros(row)[0] == row[0]);
                } else {
                    assert(nonzeros(row)[k] == nonzeros(row.skip(1))[k - 1]);
                }
            }
        }
    }
}

proof fn lemma_nonzeros_id(row: Seq<u8>)
    requires
        forall|k: int| 0 <= k < row.len() ==> row[k] != 0,
    ensures
        nonzeros(row) == row,
    decreases row.len(),
{
    if row.len() > 0 {
        assert(forall|k: int| 0 <= k < row.skip(1).len() ==> row.skip(1)[k] != 0);
        lemma_nonzeros_id(row.skip(1));
        assert(seq![row[0]] + row.skip(1) =~= row);
    }
}

/// Compressing an already compressed row changes nothing.
pub proof fn lemma_compress_idempotent(row: Seq<u8>)
    ensures
        compress_spec(compress_spec(row)) == compress_spec(row),
{
    let nz = nonzeros(row);
    lemma_nonzeros_len(row);
    let pad = zeros((row.len() - nz.len()) as nat);
    lemma_nonzeros_append(nz, pad);
    lemma_nonzeros_all_nonzero(row);
    lemma_nonzeros_id(nz);
    assert(nonzeros(pad) =~= Seq::<u8>::empty()) by {
        lemma_nonzeros_zero_row(pad);
    }
    assert(nz + Seq::<u8>::empty() =~= nz);
    assert(nonzeros(compress_spec(row)) == nz);
    assert(compress_spec(compress_spec(row)) =~= compress_spec(row));
}

proof fn lemma_nonzeros_zero_row(row: Seq<u8>)
    requires
        forall|k: int| 0 <= k < row.len() ==> row[k] == 0,
    ensures
        nonzeros(row).len() == 0,
    decreases row.len(),
{
    if row.len() > 0 {
        assert(forall|k: int| 0 <= k < row.skip(1).len() ==> row.skip(1)[k] == 0);
        lemma_nonzeros_zero_row(row.skip(1));
    }
}

/// The value of the tile an exponent stands for: `2^e` for a tile, nothing
/// for an empty cell.
pub open spec fn tile_value(e: u8) -> nat {
    if e == 0 {
        0
    } else {
        pow2(e as nat)
    }
}

/// The combined value of all tiles of a row.
pub open spec fn row_value_sum(row: Seq<u8>) -> nat
    decreases row.len(),
{
    if row.len() == 0 {
        0
    } else {
        tile_value(row[0]) + row_value_sum(row.skip(1))
    }
}

/// How many cells of a row hold a tile.
pub open spec fn row_tile_count(row: Seq<u8>) -> nat
    decreases row.len(),
{
    if row.len() == 0 {
        0
    } else {
        (if row[0] == 0 {
            0nat
        } else {
            1nat
        }) + row_tile_count(row.skip(1))
    }
}

proof fn lemma_row_sum_append(a: Seq<u8>, b: Seq<u8>)
    ensures
        row_value_sum(a + b) == row_value_sum(a) + row_value_sum(b),
        row_tile_count(a + b) == row_tile_count(a) + row_tile_count(b),
    decreases a.len(),
{
    if a.len() == 0 {
        assert(a + b =~= b);
    } else {
        assert((a + b).skip(1) =~= a.skip(1) + b);
        assert((a + b)[0] == a[0]);
        lemma_row_sum_append(a.skip(1), b);
    }
}

proof fn lemma_row_sum_single(x: u8)
    ensures
        row_value_sum(seq![x]) == tile_value(x),
        row_tile_count(seq![x]) == if x == 0 {
            0nat
        } else {
            1nat
        },
{
    assert(seq![x].skip(1) =~= Seq::<u8>::empty());
    assert(row_value_sum(Seq::<u8>::empty()) == 0);
    assert(row_tile_count(Seq::<u8>::empty()) == 0);
}

proof fn lemma_nonzeros_sums(row: Seq<u8>)
    ensures
        row_value_sum(nonzeros(row)) == row_value_sum(row),
        row_tile_count(nonzeros(row)) == row_tile_count(row),
    decreases row.len(),
{
    if row.len() > 0 {
        lemma_nonzeros_sums(row.skip(1));
        if row[0] != 0 {
            lemma_row_sum_append(seq![row[0]], nonzeros(row.skip(1)));
            lemma_row_sum_single(row[0]);
        }
    }
}

proof fn lemma_zeros_sums(n: nat)
    ensures
        row_value_sum(zeros(n)) == 0,
        row_tile_count(zeros(n)) == 0,
    decreases n,
{
    if n > 0 {
        lemma_zeros_sums((n - 1) as nat);
        assert(zeros(n).skip(1) =~= zeros((n - 1) as nat));
    }
}

/// Compression reorders cells only: the tile count and the combined tile
/// value of a row are untouched.
proof fn lemma_compress_sums(row: Seq<u8>)
    ensures
        row_value_sum(compress_spec(row)) == row_value_sum(row),
        row_tile_count(compress_spec(row)) == row_tile_count(row),
{
    lemma_nonzeros_len(row);
    lemma_nonzeros_sums(row);
    lemma_zeros_sums((row.len() - nonzeros(row).len()) as nat);
    lemma_row_sum_append(nonzeros(row), zeros((row.len() - nonzeros(row).len()) as nat));
}

/// The merge pass conserves the combined tile value (two tiles of value
/// `2^e` become one of value `2^(e+1)`) and never increases the tile count.
proof fn lemma_merge_sums(row: Seq<u8>)
    requires
        forall|k: int| 0 <= k < row.len() ==> row[k] < 255,
    ensures
        row_value_sum(merge_spec(row)) == row_value_sum(row),
        row_tile_count(merge_spec(row)) <= row_tile_count(row),
    decreases row.len(),
{
    if row.len() >= 2 {
        if row[0] != 0 && row[0] == row[1] {
            assert(forall|k: int| 0 <= k < row.skip(2).len() ==> row.skip(2)[k] < 255);
            lemma_merge_sums(row.skip(2));
            let pair = seq![(row[0] + 1) as u8, 0u8];
            lemma_row_sum_append(pair, merge_spec(row.skip(2)));
            assert(pair.skip(1) =~= seq![0u8]);
            lemma_row_sum_single(0u8);
            assert(row_value_sum(pair)
                == tile_value(pair[0]) + row_value_sum(pair.skip(1)));
            assert(row_tile_count(pair)
                == 1 + row_tile_count(pair.skip(1)));
            assert(row_value_sum(pair) == tile_value((row[0] + 1) as u8));
            assert(row_tile_count(pair) == 1);
            assert(tile_value((row[0] + 1) as u8) == tile_value(row[0]) + tile_value(row[1]))
                by {
                lemma_pow2_unfold((row[0] + 1) as nat);
            }
            assert(row.skip(1).skip(1) =~= row.skip(2));
            assert(row.skip(1)[0] == row[1]);
            assert(row_value_sum(row) == tile_value(row[0]) + row_value_sum(row.skip(1)));
            assert(row_value_sum(row.skip(1))
                == tile_value(row[1]) + row_value_sum(row.skip(1).skip(1)));
            assert(row_tile_count(row) == 1 + row_tile_count(row.skip(1)));
            assert(row_tile_count(row.skip(1))
                == 1 + row_tile_count(row.skip(1).skip(1)));
        } else {
            assert(forall|k: int| 0 <= k < row.skip(1).len() ==> row.skip(1)[k] < 255);
            lemma_merge_sums(row.skip(1));
            lemma_row_sum_append(seq![row[0]], merge_spec(row.skip(1)));
            lemma_row_sum_single(row[0]);
        }
    }
}

proof fn lemma_merge_id(row: Seq<u8>)
    requires
        forall|k: int| 0 <= k < row.len() ==> row[k] != 0,
        forall|k: int| #![trigger row[k]] 0 <= k < row.len() - 1 ==> row[k] != row[k + 1],
    ensures
        merge_spec(row) == row,
    decreases row.len(),
{
    if row.len() >= 2 {
        assert(row[0] != row[1]);
        assert(forall|k: int| 0 <= k < row.skip(1).len() ==> row.skip(1)[k] != 0);
        assert forall|k: int|
            #![trigger row.skip(1)[k]]
            0 <= k < row.skip(1).len() - 1 implies row.skip(1)[k] != row.skip(1)[k + 1] by {
            assert(row[k + 1] != row[k + 2]);
        }
        lemma_merge_id(row.skip(1));
        assert(seq![row[0]] + row.skip(1) =~= row);
    }
}

/// A row with no empty cell and no two adjacent equal tiles is a fixed
/// point of the row-collapse.
pub proof fn lemma_collapse_identity(row: Seq<u8>)
    requires
        forall|k: int| 0 <= k < row.len() ==> row[k] != 0,
        forall|k: int| #![trigger row[k]] 0 <= k < row.len() - 1 ==> row[k] != row[k + 1],
    ensures
        collapse_spec(row) == row,
{
    lemma_nonzeros_id(row);
    assert(compress_spec(row) =~= row);
    lemma_merge_id(row);
}

/// Row-collapse keeps the length of the row.
pub proof fn lemma_collapse_len(row: Seq<u8>)
    ensures
        collapse_spec(row).len() == row.len(),
{
    lemma_nonzeros_len(row);
    lemma_merge_len(compress_spec(row));
    lemma_nonzeros_len(merge_spec(compress_spec(row)));
}

/// Row-collapse never increases the number of tiles in a row and conserves
/// the combined value of its tiles: each merge replaces two equal tiles by
/// one of twice the value.
pub proof fn lemma_collapse_conserves(row: Seq<u8>)
    requires
        forall|k: int| 0 <= k < row.len() ==> row[k] < 255,
    ensures
        row_tile_count(collapse_spec(row)) <= row_tile_count(row),
        row_value_sum(collapse_spec(row)) == row_value_sum(row),
{
    lemma_compress_sums(row);
    lemma_compress_bound(row, 255);
    lemma_merge_sums(compress_spec(row));
    lemma_compress_sums(merge_spec(compress_spec(row)));
}

} // verus!
