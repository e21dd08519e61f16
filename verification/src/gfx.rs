//! The integer side of sprite batching: index buffers and buffer growth.

use vstd::prelude::*;

verus! {

/// The vertex, within its quad, that the `j`-th index of a quad names: two
/// triangles (0, 1, 2) and (2, 1, 3) over the quad's four vertices.
pub open spec fn quad_corner(j: int) -> int {
    if j == 0 {
        0
    } else if j == 1 {
        1
    } else if j == 2 {
        2
    } else if j == 3 {
        2
    } else if j == 4 {
        1
    } else {
        3
    }
}

/// Entry `i` of the index buffer: quad `i / 6`, whose vertices start at
/// `4 * (i / 6)`.
pub open spec fn quad_index(i: int) -> int {
    4 * (i / 6) + quad_corner(i % 6)
}

/// The index buffer for `quads` quads: six indices per quad, in quad order.
/// Every index must fit in `u32`.
pub fn quad_indices(quads: u32) -> (r: Vec<u32>)
    requires
        quads == 0 || 4 * (quads - 1) + 3 <= u32::MAX,
    ensures
        r@.len() == 6 * quads,
        forall|i: int| 0 <= i < r@.len() ==> #[trigger] r@[i] == quad_index(i),
        forall|q: int|
            0 <= q < quads ==> {
                &&& #[trigger] r@[6 * q] == 4 * q
                &&& r@[6 * q + 1] == 4 * q + 1
                &&& r@[6 * q + 2] == 4 * q + 2
                &&& r@[6 * q + 3] == 4 * q + 2
                &&& r@[6 * q + 4] == 4 * q + 1
                &&& r@[6 * q + 5] == 4 * q + 3
            },
        forall|i: int| 0 <= i < r@.len() ==> #[trigger] r@[i] < 4 * quads,
{
    let mut out: Vec<u32> = Vec::new();
    let mut q: u32 = 0;
    while q < quads
        invariant
            q <= quads,
            quads == 0 || 4 * (quads - 1) + 3 <= u32::MAX,
            out@.len() == 6 * q,
            forall|i: int| 0 <= i < out@.len() ==> #[trigger] out@[i] == quad_index(i),
        decreases quads - q,
    {
        let base = 4 * q;
        let ghost start = out@.len() as int;
        out.push(base);
        out.push(base + 1);
        out.push(base + 2);
        out.push(base + 2);
        out.push(base + 1);
        out.push(base + 3);
        assert forall|i: int| 0 <= i < out@.len() implies #[trigger] out@[i] == quad_index(i) by {
            if i >= start {
                assert((i - start) == i % 6 && q == i / 6) by (nonlinear_arith)
                    requires
                        start == 6 * q,
                        start <= i < start + 6,
                ;
            }
        }
        q = q + 1;
    }
    assert forall|qq: int| 0 <= qq < quads implies {
        &&& #[trigger] out@[6 * qq] == 4 * qq
        &&& out@[6 * qq + 1] == 4 * qq + 1
        &&& out@[6 * qq + 2] == 4 * qq + 2
        &&& out@[6 * qq + 3] == 4 * qq + 2
        &&& out@[6 * qq + 4] == 4 * qq + 1
        &&& out@[6 * qq + 5] == 4 * qq + 3
    } by {
        assert forall|j: int| 0 <= j < 6 implies #[trigger] ((6 * qq + j) / 6) == qq && (6 * qq + j) % 6 == j by {
            assert((6 * qq + j) / 6 == qq && (6 * qq + j) % 6 == j) by (nonlinear_arith)
                requires
                    0 <= j < 6,
                    0 <= qq,
            ;
        }
        assert(out@[6 * qq] == quad_index(6 * qq));
        assert(out@[6 * qq + 1] == quad_index(6 * qq + 1));
        assert(out@[6 * qq + 2] == quad_index(6 * qq + 2));
        assert(out@[6 * qq + 3] == quad_index(6 * qq + 3));
        assert(out@[6 * qq + 4] == quad_index(6 * qq + 4));
        assert(out@[6 * qq + 5] == quad_index(6 * qq + 5));
    }
    assert forall|i: int| 0 <= i < out@.len() implies #[trigger] out@[i] < 4 * quads by {
        let qq = i / 6;
        let j = i % 6;
        assert(i == 6 * qq + j && 0 <= j < 6 && 0 <= qq < quads) by (nonlinear_arith)
            requires
                0 <= i < 6 * quads,
                qq == i / 6,
                j == i % 6,
        ;
        assert(out@[6 * qq] == 4 * qq);
    }
    out
}

/// A power of two.
pub open spec fn is_pow2(p: int) -> bool {
    exists|k: nat| p == vstd::arithmetic::power2::pow2(k)
}

/// The capacity, in quads, after `len` sprites are batched into buffers
/// holding `cap`: unchanged if they fit, otherwise the smallest power of
/// two that holds them all.
pub fn grown_capacity(len: u64, cap: u64) -> (r: u64)
    requires
        len <= 0x8000_0000_0000_0000,
    ensures
        len <= cap ==> r == cap,
        len > cap ==> is_pow2(r as int) && r >= len && (r == 1 || r / 2 < len),
{
    if len <= cap {
        return cap;
    }
    let mut p: u64 = 1;
    let ghost mut k: nat = 0;
    proof {
        vstd::arithmetic::power2::lemma2_to64();
    }
    while p < len
        invariant
            p == vstd::arithmetic::power2::pow2(k),
            p == 1 || p / 2 < len,
            len <= 0x8000_0000_0000_0000,
            k <= 63,
            p >= 1,
        decreases 63 - k,
    {
        proof {
            vstd::arithmetic::power2::lemma2_to64();
            vstd::arithmetic::power2::lemma2_to64_rest();
            vstd::arithmetic::power2::lemma_pow2_unfold(k + 1);
            if k == 63 {
                assert(p == 0x8000_0000_0000_0000);
            }
            if k + 1 < 63 {
                vstd::arithmetic::power2::lemma_pow2_strictly_increases(k + 1, 63);
            }
        }
        p = p * 2;
        proof {
            k = k + 1;
        }
    }
    p
}

} // verus!
