//! The enumerator: the ordered boolean assignment vectors of a truth
//! table. Row index `i` of a table over `n` variables holds the
//! big-endian bits of `2^n - 1 - i`, so the first row is all-true,
//! the last all-false, and the rows count down in binary.

use vstd::prelude::*;
use vstd::arithmetic::power2::pow2;
use vstd::arithmetic::power2::lemma_pow2_unfold;
use vstd::arithmetic::power2::lemma_pow2_strictly_increases;
use vstd::arithmetic::div_mod::lemma_div_denominator;

verus! {

/// Bit `j` (counting from the least significant) of `v`.
pub open spec fn nth_bit(v: nat, j: nat) -> bool {
    (v / pow2(j)) % 2 == 1
}

/// The big-endian bits of `v`, `width` of them: index 0 holds the
/// most significant bit, index `width - 1` the least.
pub open spec fn spec_bits(v: nat, width: nat) -> Seq<bool> {
    Seq::new(width, |i: int| nth_bit(v, (width - 1 - i) as nat))
}

/// Row `i` of the canonical enumeration over `width` variables: the
/// bits of `2^width - 1 - i`.
pub open spec fn spec_row(width: nat, i: int) -> Seq<bool> {
    spec_bits((pow2(width) - 1 - i) as nat, width)
}

/// The ordered input rows of a table over `variables` variables:
/// all `2^variables` boolean vectors, counting down from all-true to
/// all-false.
pub fn get_truth_table(variables: usize) -> (rows: Vec<Vec<bool>>)
    requires
        pow2(variables as nat) <= usize::MAX as nat,
    ensures
        rows@.len() == pow2(variables as nat),
        forall|i: int| 0 <= i < rows@.len() ==> rows@[i]@ == spec_row(variables as nat, i),
{
    let max = pow2_exec(variables);
    let mut rows: Vec<Vec<bool>> = Vec::new();
    let mut n: usize = max;
    while n > 0
        invariant
            n <= max,
            max as nat == pow2(variables as nat),
            pow2(variables as nat) <= usize::MAX as nat,
            rows@.len() == max - n,
            forall|i: int| 0 <= i < rows@.len() ==> rows@[i]@ == spec_row(variables as nat, i),
        decreases n,
    {
        n = n - 1;
        let row = bits(n, variables);
        rows.push(row);
        assert(rows@[max - 1 - n] == row);
        assert(row@ == spec_row(variables as nat, max - 1 - n as int));
    }
    rows
}

/// `2^e`, for `2^e` within the machine's range.
fn pow2_exec(e: usize) -> (r: usize)
    requires
        pow2(e as nat) <= usize::MAX as nat,
    ensures
        r as nat == pow2(e as nat),
{
    let mut r: usize = 1;
    let mut j: usize = 0;
    proof {
        vstd::arithmetic::power2::lemma2_to64();
    }
    while j < e
        invariant
            j <= e,
            r as nat == pow2(j as nat),
            pow2(e as nat) <= usize::MAX as nat,
        decreases e - j,
    {
        proof {
            lemma_pow2_unfold(j as nat + 1);
            if j + 1 < e {
                lemma_pow2_strictly_increases(j as nat + 1, e as nat);
            }
            assert(2 * pow2(j as nat) <= usize::MAX as nat);
        }
        r = r * 2;
        j = j + 1;
    }
    r
}

/// The big-endian bits of `n`, `nbits` of them, as [`spec_bits`]
/// gives them; bits of `n` above the width are dropped.
fn bits(n: usize, nbits: usize) -> (out: Vec<bool>)
    ensures
        out@ == spec_bits(n as nat, nbits as nat),
{
    let mut out: Vec<bool> = Vec::new();
    let mut i: usize = 0;
    while i < nbits
        invariant
            i <= nbits,
            out@.len() == i,
            forall|j: int| 0 <= j < i ==> out@[j] == false,
        decreases nbits - i,
    {
        out.push(false);
        i = i + 1;
    }
    let mut v: usize = n;
    let mut i: usize = 0;
    proof {
        vstd::arithmetic::power2::lemma2_to64();
    }
    while i < nbits
        invariant
            i <= nbits,
            out@.len() == nbits,
            v as nat == n as nat / pow2(i as nat),
            forall|j: int| nbits - i <= j < nbits ==> out@[j] == nth_bit(
                n as nat,
                (nbits - 1 - j) as nat,
            ),
            forall|j: int| 0 <= j < nbits - i ==> out@[j] == false,
        decreases nbits - i,
    {
        assert(nth_bit(n as nat, i as nat) == (v % 2 == 1));
        if v % 2 == 1 {
            out.set(nbits - 1 - i, true);
        }
        proof {
            vstd::arithmetic::power2::lemma_pow2_pos(i as nat);
            lemma_pow2_unfold(i as nat + 1);
            lemma_div_denominator(n as int, pow2(i as nat) as int, 2);
            assert(v as nat / 2 == n as nat / pow2(i as nat + 1));
        }
        v = v / 2;
        i = i + 1;
    }
    assert(out@ =~= spec_bits(n as nat, nbits as nat));
    out
}

} // verus!
