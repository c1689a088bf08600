use vstd::prelude::*;

verus! {

/// `x` advanced to the next multiple of `n`; an aligned `x` still advances by a full `n`.
pub open spec fn round_spec(x: int, n: int) -> int {
    x + (n - x % n)
}

/// Rounds `x` up to the next multiple of `n`, always advancing by at least one byte.
pub fn round(x: u64, n: u64) -> (r: u64)
    requires
        n > 0,
        round_spec(x as int, n as int) <= u64::MAX,
    ensures
        r == round_spec(x as int, n as int),
        r > x,
        r % n == 0,
        r - x <= n,
{
    proof {
        vstd::arithmetic::div_mod::lemma_fundamental_div_mod(x as int, n as int);
        vstd::arithmetic::div_mod::lemma_mod_bound(x as int, n as int);
        vstd::arithmetic::div_mod::lemma_mod_multiples_vanish(
            (x / n) as int + 1,
            0,
            n as int,
        );
        assert((x + (n - x % n)) == n * ((x / n) + 1)) by (nonlinear_arith)
            requires
                x == n * (x / n) + x % n,
        ;
        vstd::arithmetic::div_mod::lemma_mod_multiples_basic((x / n) as int + 1, n as int);
    }
    x + (n - x % n)
}

/// A byte range `[offset, offset + length)` of the container.
///
/// Two arrays compare equal, and are ordered, by their offsets alone.
#[derive(Copy, Clone, Debug)]
pub struct Array {
    pub length: u64,
    pub offset: u64,
}

impl Array {
    /// The first byte past the range.
    pub open spec fn end_spec(self) -> int {
        self.offset + self.length
    }

    /// Whether the two ranges share a position: `a.offset < b.end ∧ b.offset < a.end`.
    pub open spec fn overlaps(self, other: Array) -> bool {
        self.offset < other.end_spec() && other.offset < self.end_spec()
    }

    /// The range as a `usize` range, for indexing a buffer.
    pub fn to_range(self) -> (r: std::ops::Range<usize>)
        requires
            self.end_spec() <= usize::MAX,
        ensures
            r.start == self.offset,
            r.end == self.end_spec(),
    {
        (self.offset as usize)..((self.offset + self.length) as usize)
    }

    /// The first byte past the range.
    pub fn end(&self) -> (r: u64)
        requires
            self.end_spec() <= u64::MAX,
        ensures
            r == self.end_spec(),
    {
        self.offset + self.length
    }
}

impl PartialEq for Array {
    fn eq(&self, other: &Array) -> (r: bool) {
        self.offset == other.offset
    }
}

impl vstd::std_specs::cmp::PartialEqSpecImpl for Array {
    open spec fn obeys_eq_spec() -> bool {
        true
    }

    open spec fn eq_spec(&self, other: &Array) -> bool {
        self.offset == other.offset
    }
}

impl Eq for Array {
}

/// How two arrays order: by their offsets alone.
pub open spec fn offset_order(a: &Array, b: &Array) -> Option<std::cmp::Ordering> {
    if a.offset < b.offset {
        Some(std::cmp::Ordering::Less)
    } else if a.offset == b.offset {
        Some(std::cmp::Ordering::Equal)
    } else {
        Some(std::cmp::Ordering::Greater)
    }
}

impl PartialOrd for Array {
    fn partial_cmp(&self, other: &Array) -> (r: Option<std::cmp::Ordering>) {
        if self.offset < other.offset {
            Some(std::cmp::Ordering::Less)
        } else if self.offset == other.offset {
            Some(std::cmp::Ordering::Equal)
        } else {
            Some(std::cmp::Ordering::Greater)
        }
    }
}

impl vstd::std_specs::cmp::PartialOrdSpecImpl for Array {
    open spec fn obeys_partial_cmp_spec() -> bool {
        true
    }

    open spec fn partial_cmp_spec(&self, other: &Array) -> Option<std::cmp::Ordering> {
        offset_order(self, other)
    }
}

} // verus!
