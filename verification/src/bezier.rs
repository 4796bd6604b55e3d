use vstd::arithmetic::power2::{lemma2_to64, lemma_pow2_strictly_increases, pow2};
use vstd::prelude::*;

verus! {

/// The binomial coefficient C(n, k), by Pascal's rule, with the
/// boundary columns fixed at 1 and everything right of the diagonal 0.
pub open spec fn binom(n: nat, k: nat) -> nat
    decreases n,
{
    if k == 0 || k == n {
        1
    } else if k > n {
        0
    } else {
        binom((n - 1) as nat, (k - 1) as nat) + binom((n - 1) as nat, k)
    }
}

/// The binomial coefficients are symmetric: C(n, k) == C(n, n - k).
pub proof fn lemma_binom_symmetry(n: nat, k: nat)
    requires
        k <= n,
    ensures
        binom(n, k) == binom(n, (n - k) as nat),
    decreases n,
{
    if k != 0 && k != n {
        lemma_binom_symmetry((n - 1) as nat, (k - 1) as nat);
        lemma_binom_symmetry((n - 1) as nat, k);
    }
}

/// The boundary columns of Pascal's triangle are 1: C(n, 0) == C(n, n) == 1.
pub proof fn lemma_binom_edges(n: nat)
    ensures
        binom(n, 0) == 1,
        binom(n, n) == 1,
{
}

/// Every entry of row n is at most 2^n (each row sums to 2^n).
proof fn lemma_binom_le_pow2(n: nat, k: nat)
    ensures
        binom(n, k) <= pow2(n),
    decreases n,
{
    if k == 0 || k == n || k > n {
        vstd::arithmetic::power2::lemma_pow2_pos(n);
    } else {
        lemma_binom_le_pow2((n - 1) as nat, (k - 1) as nat);
        lemma_binom_le_pow2((n - 1) as nat, k);
        assert(pow2(n) == 2 * pow2((n - 1) as nat)) by {
            vstd::arithmetic::power2::lemma_pow2_unfold(n);
        }
    }
}

/// Memoized Pascal's triangle: row n holds C(n, 0) ..= C(n, n).
/// Rows are built lazily, never shrunk and never recomputed.
#[derive(Debug, Clone)]
pub struct PascalTable {
    tab: Vec<Vec<usize>>,
}

impl PascalTable {
    /// The table holds complete, correct rows 0 up to its length.
    pub closed spec fn wf(&self) -> bool {
        &&& 1 <= self.tab@.len()
        &&& forall|n: int|
            0 <= n < self.tab@.len() ==> (#[trigger] self.tab@[n])@.len() == n + 1
        &&& forall|n: int, k: int|
            0 <= n < self.tab@.len() && 0 <= k <= n ==> (#[trigger] self.tab@[n]@[k]) == binom(
                n as nat,
                k as nat,
            )
    }

    /// The rows the table currently holds, as mathematical sequences.
    pub closed spec fn rows(&self) -> Seq<Seq<usize>> {
        self.tab@.map_values(|row: Vec<usize>| row@)
    }

    /// Appends the next row, computed from the last one by Pascal's rule.
    fn push_next_row(&mut self)
        requires
            old(self).wf(),
            1 <= old(self).tab@.len() <= 31,
        ensures
            final(self).wf(),
            final(self).tab@.len() == old(self).tab@.len() + 1,
            forall|i: int|
                0 <= i < old(self).tab@.len() ==> final(self).tab@[i] == old(self).tab@[i],
    {
        let n = self.tab.len();
        let mut new_row: Vec<usize> = Vec::new();
        new_row.push(1);
        let mut i: usize = 1;
        while i < n
            invariant
                self.wf(),
                self.tab@.len() == n,
                1 <= n <= 31,
                1 <= i <= n,
                new_row@.len() == i,
                forall|k: int| 0 <= k < i ==> (#[trigger] new_row@[k]) == binom(n as nat, k as nat),
            decreases n - i,
        {
            proof {
                lemma_binom_le_pow2((n - 1) as nat, (i - 1) as nat);
                lemma_binom_le_pow2((n - 1) as nat, i as nat);
                lemma_pow2_strictly_increases((n - 1) as nat, 31);
                lemma2_to64();
            }
            let sum = self.tab[n - 1][i - 1] + self.tab[n - 1][i];
            new_row.push(sum);
            i += 1;
        }
        new_row.push(1);
        assert(new_row@[n as int] == binom(n as nat, n as nat));
        self.tab.push(new_row);
        assert forall|a: int, k: int|
            0 <= a < self.tab@.len() && 0 <= k <= a implies (#[trigger] self.tab@[a]@[k]) == binom(
            a as nat,
            k as nat,
        ) by {
            if a < n {
                assert(self.tab@[a] == old(self).tab@[a]);
            }
        }
    }

    /// A fresh table with rows 0 ..= 6 precomputed.
    pub fn new() -> (t: Self)
        ensures
            t.wf(),
            t.rows().len() == 7,
    {
        let mut row0: Vec<usize> = Vec::new();
        row0.push(1);
        let mut t = Self { tab: Vec::new() };
        t.tab.push(row0);
        while t.tab.len() < 7
            invariant
                t.wf(),
                1 <= t.tab@.len() <= 7,
            decreases 7 - t.tab@.len(),
        {
            t.push_next_row();
        }
        t
    }

    /// Looks C(n, k) up, extending the table row by row if row n is not
    /// there yet. Growth is monotonic: existing rows are kept untouched.
    pub fn get(&mut self, n: usize, k: usize) -> (c: usize)
        requires
            old(self).wf(),
            k <= n,
            n <= 31,
        ensures
            final(self).wf(),
            c == binom(n as nat, k as nat),
            final(self).rows().len() >= old(self).rows().len(),
            final(self).rows().len() > n,
            forall|i: int|
                0 <= i < old(self).rows().len() ==> final(self).rows()[i]
                    == old(self).rows()[i],
    {
        while n >= self.tab.len()
            invariant
                self.wf(),
                n <= 31,
                1 <= self.tab@.len(),
                self.tab@.len() >= old(self).tab@.len(),
                forall|i: int|
                    0 <= i < old(self).tab@.len() ==> self.tab@[i] == old(self).tab@[i],
            decreases n + 1 - self.tab@.len(),
        {
            self.push_next_row();
        }
        self.tab[n][k]
    }
}

/// Looks a binomial coefficient up in an explicitly passed cache.
pub fn binomial(table: &mut PascalTable, n: usize, k: usize) -> (c: usize)
    requires
        old(table).wf(),
        k <= n,
        n <= 31,
    ensures
        final(table).wf(),
        c == binom(n as nat, k as nat),
{
    table.get(n, k)
}

} // verus!
