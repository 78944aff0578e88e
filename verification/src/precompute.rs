//! Tables of powers of the evaluation points, computed once and shared.

use crate::polynomial::{is_power_row, is_power_table, powers_of};
use crate::scalar::{all_canonical, Scalar};
use vstd::prelude::*;

verus! {

/// There are `n` rows, and every row has `t + 1` canonical entries.
pub open spec fn has_shape(table: Seq<Vec<Scalar>>, n: nat, t: nat) -> bool {
    &&& table.len() == n
    &&& forall|i: int|
        0 <= i < n ==> (#[trigger] table[i]).len() == t + 1 && all_canonical(table[i]@)
}

/// The table for `(n, t)`: one row for each `i` of `1, .., n`, which holds
/// `i^0, i^1, .., i^t` and stands at position `i - 1`.
pub fn gen_powers(n: usize, t: usize) -> (r: Vec<Vec<Scalar>>)
    requires
        t < usize::MAX,
    ensures
        is_power_table(r@, n as nat, t as nat),
        has_shape(r@, n as nat, t as nat),
{
    let mut out: Vec<Vec<Scalar>> = Vec::new();
    let mut i: usize = 0;
    while i < n
        invariant
            i <= n,
            t < usize::MAX,
            out.len() == i,
            forall|q: int|
                0 <= q < i ==> {
                    &&& is_power_row((#[trigger] out[q])@, q + 1, (t + 1) as nat)
                    &&& out[q].len() == t + 1
                    &&& all_canonical(out[q]@)
                },
        decreases n - i,
    {
        out.push(powers_of(i + 1, t + 1));
        i += 1;
    }
    out
}

/// Whether a table has the sizes that `(n, t)` asks for: `n` rows of at least
/// `t + 1` entries each.
pub fn check_table(table: &Vec<Vec<Scalar>>, n: usize, t: usize) -> (r: bool)
    ensures
        r == (table.len() == n && forall|i: int|
            0 <= i < table.len() ==> (#[trigger] table[i]).len() >= t + 1),
{
    if table.len() != n {
        return false;
    }
    let mut i: usize = 0;
    while i < table.len()
        invariant
            i <= table.len(),
            forall|q: int| 0 <= q < i ==> (#[trigger] table[q]).len() >= t + 1,
        decreases table.len() - i,
    {
        if table[i].len() <= t {
            return false;
        }
        i += 1;
    }
    true
}

/// The tables for the parameter sets in common use.
#[derive(Debug, PartialEq, Eq)]
pub struct XPowTable {
    pub n16_t7: Vec<Vec<Scalar>>,
    pub n32_t15: Vec<Vec<Scalar>>,
    pub n64_t31: Vec<Vec<Scalar>>,
    pub n128_t63: Vec<Vec<Scalar>>,
    pub n256_t127: Vec<Vec<Scalar>>,
    pub n512_t255: Vec<Vec<Scalar>>,
    pub n1024_t511: Vec<Vec<Scalar>>,
    pub n2048_t1023: Vec<Vec<Scalar>>,
    pub n4096_t2047: Vec<Vec<Scalar>>,
}

impl XPowTable {
    /// Each table is the table of powers for the parameters in its name.
    pub open spec fn wf(&self) -> bool {
        &&& is_power_table(self.n16_t7@, 16, 7)
        &&& is_power_table(self.n32_t15@, 32, 15)
        &&& is_power_table(self.n64_t31@, 64, 31)
        &&& is_power_table(self.n128_t63@, 128, 63)
        &&& is_power_table(self.n256_t127@, 256, 127)
        &&& is_power_table(self.n512_t255@, 512, 255)
        &&& is_power_table(self.n1024_t511@, 1024, 511)
        &&& is_power_table(self.n2048_t1023@, 2048, 1023)
        &&& is_power_table(self.n4096_t2047@, 4096, 2047)
    }

    /// All nine tables, computed.
    pub fn new() -> (r: Self)
        ensures
            r.wf(),
    {
        XPowTable {
            n16_t7: gen_powers(16, 7),
            n32_t15: gen_powers(32, 15),
            n64_t31: gen_powers(64, 31),
            n128_t63: gen_powers(128, 63),
            n256_t127: gen_powers(256, 127),
            n512_t255: gen_powers(512, 255),
            n1024_t511: gen_powers(1024, 511),
            n2048_t1023: gen_powers(2048, 1023),
            n4096_t2047: gen_powers(4096, 2047),
        }
    }

    /// The table that `self` holds for `(n, t)`, if it holds one.
    pub open spec fn stored(&self, n: usize, t: usize) -> Option<Vec<Vec<Scalar>>> {
        if n == 16 && t == 7 {
            Some(self.n16_t7)
        } else if n == 32 && t == 15 {
            Some(self.n32_t15)
        } else if n == 64 && t == 31 {
            Some(self.n64_t31)
        } else if n == 128 && t == 63 {
            Some(self.n128_t63)
        } else if n == 256 && t == 127 {
            Some(self.n256_t127)
        } else if n == 512 && t == 255 {
            Some(self.n512_t255)
        } else if n == 1024 && t == 511 {
            Some(self.n1024_t511)
        } else if n == 2048 && t == 1023 {
            Some(self.n2048_t1023)
        } else if n == 4096 && t == 2047 {
            Some(self.n4096_t2047)
        } else {
            None
        }
    }

    /// The table for `(n, t)`: the one that `table` holds for that pair, or a
    /// freshly computed one where it holds none.
    pub fn from_params(table: Self, n: usize, t: usize) -> (r: Vec<Vec<Scalar>>)
        requires
            t < usize::MAX,
        ensures
            table.stored(n, t) matches Some(found) ==> r == found,
            table.stored(n, t) is None ==> is_power_table(r@, n as nat, t as nat) && has_shape(
                r@,
                n as nat,
                t as nat,
            ),
            table.wf() ==> is_power_table(r@, n as nat, t as nat),
    {
        if n == 16 && t == 7 {
            table.n16_t7
        } else if n == 32 && t == 15 {
            table.n32_t15
        } else if n == 64 && t == 31 {
            table.n64_t31
        } else if n == 128 && t == 63 {
            table.n128_t63
        } else if n == 256 && t == 127 {
            table.n256_t127
        } else if n == 512 && t == 255 {
            table.n512_t255
        } else if n == 1024 && t == 511 {
            table.n1024_t511
        } else if n == 2048 && t == 1023 {
            table.n2048_t1023
        } else if n == 4096 && t == 2047 {
            table.n4096_t2047
        } else {
            gen_powers(n, t)
        }
    }
}

} // verus!
