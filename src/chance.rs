use vstd::arithmetic::div_mod::{lemma_div_by_multiple, lemma_div_is_ordered, lemma_fundamental_div_mod, lemma_mod_pos_bound};
use vstd::arithmetic::power::pow;
use vstd::prelude::*;

use crate::game::{dice_battles, AttackGame, Move, PlayerMove};
use crate::map::lemma_from_idx_idx;
use rand_xoshiro::Xoshiro256StarStar;

verus! {

#[verifier::external_type_specification]
#[verifier::external_body]
pub struct ExXoshiro256StarStar(Xoshiro256StarStar);

/// Relies on `RngCore::next_u32` of rand_xoshiro's `Xoshiro256StarStar`: it
/// advances the generator and hands back a pseudo-random `u32`, of which
/// nothing more is promised.
#[verifier::external_body]
pub(crate) fn next_u32(rng: &mut Xoshiro256StarStar) -> (r: u32) {
    rand_xoshiro::rand_core::RngCore::next_u32(rng)
}

/// Scale of the alias thresholds: a draw keeps its column with probability
/// `threshold / ALIAS_SCALE`.
pub const ALIAS_SCALE: u32 = 0x2000_0000;

/// Sum of the eight weights of an alias table.
pub open spec fn weight_sum(w: Seq<u32>) -> int {
    w[0] + w[1] + w[2] + w[3] + w[4] + w[5] + w[6] + w[7]
}

#[derive(Clone, Copy, PartialEq, Eq, Structural, Debug)]
enum Fullness {
    Over,
    Under,
    Exact,
}

spec fn fullness_of(u: int, s: int) -> Fullness {
    if u > s {
        Fullness::Over
    } else if u < s {
        Fullness::Under
    } else {
        Fullness::Exact
    }
}

fn fullness(value: u32, sum: u32) -> (r: Fullness)
    ensures
        r == fullness_of(value as int, sum as int),
{
    if value > sum {
        Fullness::Over
    } else if value < sum {
        Fullness::Under
    } else {
        Fullness::Exact
    }
}

/// What column `i` still has to hand on (over full) or to receive (under full).
spec fn excess_term(u: Seq<u32>, st: Seq<Fullness>, s: int, i: int) -> int {
    if st[i] == Fullness::Exact {
        0
    } else {
        u[i] - s
    }
}

/// Mass still to be moved between the first `n` columns; over all columns
/// it stays zero while the table is built.
spec fn excess(u: Seq<u32>, st: Seq<Fullness>, s: int, n: int) -> int
    decreases n,
{
    if n <= 0 {
        0
    } else {
        excess(u, st, s, n - 1) + excess_term(u, st, s, n - 1)
    }
}

spec fn pending_term(st: Seq<Fullness>, i: int) -> int {
    if st[i] == Fullness::Exact {
        0
    } else {
        1
    }
}

/// Number of the first `n` columns not yet settled.
spec fn pending(st: Seq<Fullness>, n: int) -> int
    decreases n,
{
    if n <= 0 {
        0
    } else {
        pending(st, n - 1) + pending_term(st, n - 1)
    }
}

/// Sum of the first `n` thresholds.
spec fn threshold_sum(u: Seq<u32>, n: int) -> int
    decreases n,
{
    if n <= 0 {
        0
    } else {
        threshold_sum(u, n - 1) + u[n - 1]
    }
}

/// When no column is settled early, the excess is the thresholds' total less `n` full columns.
proof fn lemma_excess_all_pending(u: Seq<u32>, st: Seq<Fullness>, s: int, n: int)
    requires
        n >= 0,
        forall|i: int| 0 <= i < n ==> #[trigger] excess_term(u, st, s, i) == u[i] - s,
    ensures
        excess(u, st, s, n) == threshold_sum(u, n) - n * s,
    decreases n,
{
    if n > 0 {
        lemma_excess_all_pending(u, st, s, n - 1);
        assert(excess_term(u, st, s, n - 1) == u[n - 1] - s);
        assert(excess(u, st, s, n) == excess(u, st, s, n - 1) + excess_term(u, st, s, n - 1));
        assert(threshold_sum(u, n) == threshold_sum(u, n - 1) + u[n - 1]);
        assert((n - 1) * s + s == n * s) by (nonlinear_arith);
        assert(excess(u, st, s, n - 1) == threshold_sum(u, n - 1) - (n - 1) * s);
    } else {
        assert(n * s == 0) by (nonlinear_arith)
            requires
                n == 0,
        ;
    }
}

/// Changing the columns `o` and `un` changes the excess by what their terms change.
proof fn lemma_excess_change(u: Seq<u32>, st: Seq<Fullness>, u2: Seq<u32>, st2: Seq<Fullness>, s: int, o: int, un: int, n: int)
    requires
        o != un,
        forall|i: int| 0 <= i < n && i != o && i != un ==> excess_term(u2, st2, s, i) == excess_term(u, st, s, i),
    ensures
        excess(u2, st2, s, n) == excess(u, st, s, n)
            + (if 0 <= o < n { excess_term(u2, st2, s, o) - excess_term(u, st, s, o) } else { 0 })
            + (if 0 <= un < n { excess_term(u2, st2, s, un) - excess_term(u, st, s, un) } else { 0 }),
    decreases n,
{
    if n > 0 {
        lemma_excess_change(u, st, u2, st2, s, o, un, n - 1);
    }
}

/// Settling column `un` and changing nothing else but column `o` lowers the count of pending columns.
proof fn lemma_pending_change(st: Seq<Fullness>, st2: Seq<Fullness>, o: int, un: int, n: int)
    requires
        o != un,
        forall|i: int| 0 <= i < n && i != o && i != un ==> pending_term(st2, i) == pending_term(st, i),
        0 <= un < n,
        pending_term(st, un) == 1,
        pending_term(st2, un) == 0,
        0 <= o < n,
        pending_term(st2, o) <= pending_term(st, o),
    ensures
        pending(st2, n) < pending(st, n),
        pending(st2, n) >= 0,
    decreases n,
{
    if n - 1 != o && n - 1 != un {
        lemma_pending_change(st, st2, o, un, n - 1);
    } else {
        lemma_pending_bounds(st2, n - 1);
        lemma_pending_bounds(st, n - 1);
        if n - 1 == o {
            if un < n - 1 {
                lemma_pending_le(st, st2, o, un, n - 1);
            }
        } else {
            lemma_pending_le_weak(st, st2, o, n - 1);
        }
    }
}

proof fn lemma_pending_bounds(st: Seq<Fullness>, n: int)
    ensures
        0 <= pending(st, n),
    decreases n,
{
    if n > 0 {
        lemma_pending_bounds(st, n - 1);
    }
}

/// Below `n`, the pending count can only drop when only `x` and `y` change and neither grows.
proof fn lemma_pending_le(st: Seq<Fullness>, st2: Seq<Fullness>, x: int, y: int, n: int)
    requires
        forall|i: int| 0 <= i < n && i != x && i != y ==> pending_term(st2, i) == pending_term(st, i),
        0 <= x && 0 <= y,
        x < n ==> pending_term(st2, x) <= pending_term(st, x),
        y < n ==> pending_term(st2, y) < pending_term(st, y),
        y < n,
    ensures
        pending(st2, n) < pending(st, n),
    decreases n,
{
    if n - 1 != y {
        lemma_pending_le(st, st2, x, y, n - 1);
    } else {
        lemma_pending_le_weak(st, st2, x, n - 1);
    }
}

proof fn lemma_pending_le_weak(st: Seq<Fullness>, st2: Seq<Fullness>, x: int, n: int)
    requires
        forall|i: int| 0 <= i < n && i != x ==> pending_term(st2, i) <= pending_term(st, i),
        0 <= x < n ==> pending_term(st2, x) <= pending_term(st, x),
    ensures
        pending(st2, n) <= pending(st, n),
    decreases n,
{
    if n > 0 {
        lemma_pending_le_weak(st, st2, x, n - 1);
    }
}

/// An excess made of terms of one sign has that sign, strictly if one term is strict.
proof fn lemma_excess_sign(u: Seq<u32>, st: Seq<Fullness>, s: int, n: int, positive: bool)
    requires
        forall|i: int| 0 <= i < n ==> if positive {
            excess_term(u, st, s, i) >= 0
        } else {
            excess_term(u, st, s, i) <= 0
        },
    ensures
        positive ==> excess(u, st, s, n) >= 0,
        !positive ==> excess(u, st, s, n) <= 0,
        positive && (exists|i: int| 0 <= i < n && excess_term(u, st, s, i) > 0) ==> excess(u, st, s, n) > 0,
        !positive && (exists|i: int| 0 <= i < n && excess_term(u, st, s, i) < 0) ==> excess(u, st, s, n) < 0,
    decreases n,
{
    if n > 0 {
        lemma_excess_sign(u, st, s, n - 1, positive);
    }
}

/// What holds of column `i` while the table is built from weights `w` summing to `s`.
spec fn column_inv(u: Seq<u32>, k: Seq<u32>, st: Seq<Fullness>, w: Seq<u32>, s: int, i: int) -> bool {
    &&& u[i] <= 8 * s
    &&& (st[i] != Fullness::Exact ==> st[i] == fullness_of(u[i] as int, s))
    &&& (st[i] == Fullness::Exact ==> u[i] <= s)
    &&& (u[i] > 0 ==> w[i] > 0)
    &&& k[i] < 8
    &&& (k[i] != i ==> w[k[i] as int] > 0 && st[i] == Fullness::Exact)
    &&& (k[i] == i && st[i] == Fullness::Exact ==> u[i] == s)
    &&& (st[i] != Fullness::Exact ==> k[i] == i)
}

/// What column `i` gives to outcome `j`: all of its threshold to itself while
/// pending; once settled, its threshold to itself and the rest of the column
/// to its alias.
spec fn column_share(u: Seq<u32>, k: Seq<u32>, st: Seq<Fullness>, s: int, i: int, j: int) -> int {
    if st[i] == Fullness::Exact {
        (if i == j {
            u[i] as int
        } else {
            0
        }) + (if k[i] == j {
            s - u[i]
        } else {
            0
        })
    } else if i == j {
        u[i] as int
    } else {
        0
    }
}

/// Mass that the first `n` columns give to outcome `j`.
spec fn mass(u: Seq<u32>, k: Seq<u32>, st: Seq<Fullness>, s: int, j: int, n: int) -> int
    decreases n,
{
    if n <= 0 {
        0
    } else {
        mass(u, k, st, s, j, n - 1) + column_share(u, k, st, s, n - 1, j)
    }
}

/// Mass that the first `n` columns of a finished table, with columns of
/// height `s`, give to outcome `j`.
pub open spec fn settled_mass(u: Seq<u32>, k: Seq<u32>, s: int, j: int, n: int) -> int
    decreases n,
{
    if n <= 0 {
        0
    } else {
        settled_mass(u, k, s, j, n - 1) + (if n - 1 == j {
            u[n - 1] as int
        } else {
            0
        }) + (if k[n - 1] == j {
            s - u[n - 1]
        } else {
            0
        })
    }
}

proof fn lemma_mass_change(
    u: Seq<u32>,
    k: Seq<u32>,
    st: Seq<Fullness>,
    u2: Seq<u32>,
    k2: Seq<u32>,
    st2: Seq<Fullness>,
    s: int,
    j: int,
    o: int,
    un: int,
    n: int,
)
    requires
        o != un,
        forall|i: int| 0 <= i < n && i != o && i != un ==> column_share(u2, k2, st2, s, i, j) == column_share(u, k, st, s, i, j),
    ensures
        mass(u2, k2, st2, s, j, n) == mass(u, k, st, s, j, n) + (if 0 <= o < n {
            column_share(u2, k2, st2, s, o, j) - column_share(u, k, st, s, o, j)
        } else {
            0
        }) + (if 0 <= un < n {
            column_share(u2, k2, st2, s, un, j) - column_share(u, k, st, s, un, j)
        } else {
            0
        }),
    decreases n,
{
    if n > 0 {
        lemma_mass_change(u, k, st, u2, k2, st2, s, j, o, un, n - 1);
    }
}

proof fn lemma_mass_diagonal(u: Seq<u32>, k: Seq<u32>, st: Seq<Fullness>, s: int, j: int, n: int)
    requires
        forall|i: int| 0 <= i < n ==> column_share(u, k, st, s, i, j) == if i == j {
            u[i] as int
        } else {
            0
        },
    ensures
        mass(u, k, st, s, j, n) == if 0 <= j < n {
            u[j] as int
        } else {
            0
        },
    decreases n,
{
    if n > 0 {
        lemma_mass_diagonal(u, k, st, s, j, n - 1);
    }
}

proof fn lemma_mass_settled(u: Seq<u32>, k: Seq<u32>, st: Seq<Fullness>, s: int, j: int, n: int)
    requires
        forall|i: int| 0 <= i < n ==> st[i] == Fullness::Exact,
    ensures
        mass(u, k, st, s, j, n) == settled_mass(u, k, s, j, n),
    decreases n,
{
    if n > 0 {
        lemma_mass_settled(u, k, st, s, j, n - 1);
    }
}

/// What holds of column `j` of a finished table with thresholds out of `scale`.
spec fn final_col(u: Seq<u32>, k: Seq<u32>, w: Seq<u32>, scale: int, j: int) -> bool {
    &&& u[j] <= scale
    &&& (u[j] > 0 ==> w[j] > 0)
    &&& k[j] < 8
    &&& (k[j] != j ==> w[k[j] as int] > 0)
    &&& (k[j] == j ==> u[j] == scale)
}

spec fn build_inv(u: Seq<u32>, k: Seq<u32>, st: Seq<Fullness>, w: Seq<u32>, s: int) -> bool {
    &&& u.len() == 8
    &&& k.len() == 8
    &&& st.len() == 8
    &&& w.len() == 8
    &&& 0 < s < ALIAS_SCALE
    &&& excess(u, st, s, 8) == 0
    &&& forall|j: int| 0 <= j < 8 ==> #[trigger] mass(u, k, st, s, j, 8) == 8 * w[j]
    &&& forall|i: int| 0 <= i < 8 ==> #[trigger] column_inv(u, k, st, w, s, i)
}

/// Moving the surplus of an over-full column into an under-full one keeps the
/// table consistent and settles at least one more column.
proof fn lemma_step(u: Seq<u32>, k: Seq<u32>, st: Seq<Fullness>, w: Seq<u32>, s: int, o: int, un: int)
    requires
        build_inv(u, k, st, w, s),
        0 <= o < 8,
        0 <= un < 8,
        st[o] == Fullness::Over,
        st[un] == Fullness::Under,
    ensures
        ({
            let moved = (u[o] + u[un] - s) as u32;
            let u2 = u.update(o, moved);
            let k2 = k.update(un, o as u32);
            let st2 = st.update(un, Fullness::Exact).update(o, fullness_of(moved as int, s));
            &&& build_inv(u2, k2, st2, w, s)
            &&& pending(st2, 8) < pending(st, 8)
            &&& u[o] + u[un] - s <= 8 * s
        }),
{
    let moved = (u[o] + u[un] - s) as u32;
    let u2 = u.update(o, moved);
    let k2 = k.update(un, o as u32);
    let st2 = st.update(un, Fullness::Exact).update(o, fullness_of(moved as int, s));
    assert(column_inv(u, k, st, w, s, o));
    assert(column_inv(u, k, st, w, s, un));
    assert forall|i: int| 0 <= i < 8 implies #[trigger] column_inv(u2, k2, st2, w, s, i) by {
        assert(column_inv(u, k, st, w, s, i));
    }
    lemma_excess_change(u, st, u2, st2, s, o, un, 8);
    lemma_pending_change(st, st2, o, un, 8);
    assert forall|j: int| 0 <= j < 8 implies #[trigger] mass(u2, k2, st2, s, j, 8) == 8 * w[j] by {
        assert forall|i: int| 0 <= i < 8 && i != o && i != un implies column_share(u2, k2, st2, s, i, j) == column_share(u, k, st, s, i, j) by {}
        lemma_mass_change(u, k, st, u2, k2, st2, s, j, o, un, 8);
        assert(mass(u, k, st, s, j, 8) == 8 * w[j]);
    }
}

/// With no mass left to move, an over-full column comes with an under-full
/// one and the other way round.
proof fn lemma_pairs(u: Seq<u32>, k: Seq<u32>, st: Seq<Fullness>, w: Seq<u32>, s: int)
    requires
        build_inv(u, k, st, w, s),
    ensures
        (exists|i: int| 0 <= i < 8 && st[i] == Fullness::Over) <==> (exists|i: int| 0 <= i < 8 && st[i] == Fullness::Under),
{
    assert forall|i: int| 0 <= i < 8 implies (st[i] == Fullness::Over ==> excess_term(u, st, s, i) > 0) && (st[i] == Fullness::Under ==> excess_term(u, st, s, i) < 0) && (st[i] == Fullness::Exact ==> excess_term(u, st, s, i) == 0) by {
        assert(column_inv(u, k, st, w, s, i));
    }
    if exists|i: int| 0 <= i < 8 && st[i] == Fullness::Over {
        if !exists|i: int| 0 <= i < 8 && st[i] == Fullness::Under {
            lemma_excess_sign(u, st, s, 8, true);
        }
    }
    if exists|i: int| 0 <= i < 8 && st[i] == Fullness::Under {
        if !exists|i: int| 0 <= i < 8 && st[i] == Fullness::Over {
            lemma_excess_sign(u, st, s, 8, false);
        }
    }
}

/// Walker's alias table over eight outcomes: a draw picks a column uniformly,
/// keeps it below the column's threshold and takes its alias otherwise.
pub struct WeightedAlias {
    u_table: [u32; 8],
    k_table: [u32; 8],
    weights: Ghost<Seq<u32>>,
}

impl WeightedAlias {
    /// The weights that the table was built from.
    pub closed spec fn weights(self) -> Seq<u32> {
        self.weights@
    }

    /// Thresholds are within scale, and a draw can only land on an outcome
    /// of positive weight.
    pub closed spec fn wf(self) -> bool {
        &&& self.weights@.len() == 8
        &&& forall|i: int| 0 <= i < 8 ==> #[trigger] final_col(self.u_table@, self.k_table@, self.weights@, ALIAS_SCALE as int, i)
    }

    /// Draws out of 2^32 random values that select outcome `j`: each column
    /// takes an eighth of the values, keeps `threshold` of its `ALIAS_SCALE`
    /// and hands the rest to its alias.
    pub closed spec fn outcome_mass(self, j: int) -> int {
        settled_mass(self.u_table@, self.k_table@, ALIAS_SCALE as int, j, 8)
    }

    /// The outcomes of a built table share all the 2^32 random values between
    /// them: their probabilities add up to one.
    pub proof fn lemma_outcome_masses_total(&self)
        requires
            self.wf(),
        ensures
            self.outcome_mass(0) + self.outcome_mass(1) + self.outcome_mass(2) + self.outcome_mass(3) + self.outcome_mass(4)
                + self.outcome_mass(5) + self.outcome_mass(6) + self.outcome_mass(7) == 0x1_0000_0000,
    {
        assert forall|i: int| 0 <= i < 8 implies self.k_table@[i] < 8 by {
            assert(final_col(self.u_table@, self.k_table@, self.weights@, ALIAS_SCALE as int, i));
        }
        lemma_mass_total(self.u_table@, self.k_table@, ALIAS_SCALE as int, 8);
        reveal_with_fuel(mass_total, 9);
    }

    /// Builds the table for eight integer weights. Each outcome's share of
    /// the draws is within 2^-29 of its share of the weights.
    #[verifier::rlimit(50)]
    pub fn new(weights: [u32; 8]) -> (r: WeightedAlias)
        requires
            0 < weight_sum(weights@) < ALIAS_SCALE,
        ensures
            r.wf(),
            r.weights() == weights@,
            forall|j: int| 0 <= j < 8 ==> {
                &&& -8 * weight_sum(weights@) <= #[trigger] r.outcome_mass(j) * weight_sum(weights@) - 8 * weights@[j]
                    * ALIAS_SCALE
                &&& r.outcome_mass(j) * weight_sum(weights@) - 8 * weights@[j] * ALIAS_SCALE <= 8 * weight_sum(weights@)
            },
    {
        let ghost w = weights@;
        let sum = weights[0] + weights[1] + weights[2] + weights[3] + weights[4] + weights[5] + weights[6]
            + weights[7];
        let mut u_table: [u32; 8] = [
            8 * weights[0],
            8 * weights[1],
            8 * weights[2],
            8 * weights[3],
            8 * weights[4],
            8 * weights[5],
            8 * weights[6],
            8 * weights[7],
        ];
        let mut k_table: [u32; 8] = [0, 1, 2, 3, 4, 5, 6, 7];
        let mut fullness_table: [Fullness; 8] = [
            fullness(u_table[0], sum),
            fullness(u_table[1], sum),
            fullness(u_table[2], sum),
            fullness(u_table[3], sum),
            fullness(u_table[4], sum),
            fullness(u_table[5], sum),
            fullness(u_table[6], sum),
            fullness(u_table[7], sum),
        ];
        assert(build_inv(u_table@, k_table@, fullness_table@, w, sum as int)) by {
            assert forall|i: int| 0 <= i < 8 implies #[trigger] excess_term(u_table@, fullness_table@, sum as int, i)
                == u_table@[i] - sum by {}
            lemma_excess_all_pending(u_table@, fullness_table@, sum as int, 8);
            reveal_with_fuel(threshold_sum, 9);
            assert forall|i: int| 0 <= i < 8 implies #[trigger] column_inv(u_table@, k_table@, fullness_table@, w, sum as int, i) by {}
            assert forall|j: int| 0 <= j < 8 implies #[trigger] mass(u_table@, k_table@, fullness_table@, sum as int, j, 8) == 8 * w[j] by {
                lemma_mass_diagonal(u_table@, k_table@, fullness_table@, sum as int, j, 8);
            }
        }
        let (settled_u, settled_k) = settle(u_table, k_table, fullness_table, sum, Ghost(w));
        u_table = settled_u;
        k_table = settled_k;
        let ghost settled = u_table@;
        rescale(&mut u_table, &k_table, sum, Ghost(w));
        proof {
            assert forall|j: int| 0 <= j < 8 implies {
                &&& -8 * sum <= #[trigger] settled_mass(u_table@, k_table@, ALIAS_SCALE as int, j, 8) * sum - 8 * w[j] * ALIAS_SCALE
                &&& settled_mass(u_table@, k_table@, ALIAS_SCALE as int, j, 8) * sum - 8 * w[j] * ALIAS_SCALE <= 8 * sum
            } by {
                assert forall|i: int| 0 <= i < 8 && k_table@[i] == i implies settled[i] == sum && u_table@[i] == ALIAS_SCALE by {
                    assert(final_col(settled, k_table@, w, sum as int, i));
                    assert(final_col(u_table@, k_table@, w, ALIAS_SCALE as int, i));
                }
                lemma_rescaled_mass(settled, u_table@, k_table@, sum as int, ALIAS_SCALE as int, j, 8);
                assert(settled_mass(settled, k_table@, sum as int, j, 8) == 8 * w[j]);
                assert(settled_mass(settled, k_table@, sum as int, j, 8) * ALIAS_SCALE == 8 * w[j] * ALIAS_SCALE);
            }
        }
        WeightedAlias { u_table, k_table, weights: Ghost(w) }
    }

    /// The outcome that the random value `value` selects: its low three bits
    /// pick a column, which is kept when the other bits fall below its
    /// threshold and otherwise gives way to its alias.
    pub closed spec fn draw(self, value: u32) -> int {
        let i = (value & 7u32) as int;
        if ((value >> 3u32) as int) < self.u_table@[i] {
            i
        } else {
            self.k_table@[i] as int
        }
    }

    /// The outcome that the random value `value` selects.
    pub fn sample_value(&self, value: u32) -> (r: usize)
        requires
            self.wf(),
        ensures
            r == self.draw(value),
            r < 8,
            self.weights()[r as int] > 0,
    {
        let i = (value & 7) as usize;
        let y = value >> 3;
        assert(value & 7 < 8) by (bit_vector);
        assert(value >> 3 < 0x2000_0000) by (bit_vector);
        assert(final_col(self.u_table@, self.k_table@, self.weights@, ALIAS_SCALE as int, i as int));
        if y < self.u_table[i] {
            i
        } else {
            self.k_table[i] as usize
        }
    }

    /// Draws an outcome with probability proportional to its weight.
    pub fn sample(&self, rng: &mut Xoshiro256StarStar) -> (r: usize)
        requires
            self.wf(),
        ensures
            exists|value: u32| r == self.draw(value),
            r < 8,
            self.weights()[r as int] > 0,
    {
        let value = next_u32(rng);
        let r = self.sample_value(value);
        assert(r == self.draw(value));
        r
    }
}

/// Moves mass from over-full to under-full columns until every column is settled.
fn settle(u_init: [u32; 8], k_init: [u32; 8], fullness_init: [Fullness; 8], sum: u32, w: Ghost<Seq<u32>>) -> (r: (
    [u32; 8],
    [u32; 8],
))
    requires
        build_inv(u_init@, k_init@, fullness_init@, w@, sum as int),
    ensures
        forall|j: int| 0 <= j < 8 ==> #[trigger] final_col(r.0@, r.1@, w@, sum as int, j),
        forall|j: int| 0 <= j < 8 ==> #[trigger] settled_mass(r.0@, r.1@, sum as int, j, 8) == 8 * w@[j],
{
    let mut u_table = u_init;
    let mut k_table = k_init;
    let mut fullness_table = fullness_init;
    let ghost w = w@;
    loop
        invariant
            build_inv(u_table@, k_table@, fullness_table@, w, sum as int),
        ensures
            build_inv(u_table@, k_table@, fullness_table@, w, sum as int),
            forall|i: int| 0 <= i < 8 ==> fullness_table@[i] == Fullness::Exact,
        decreases pending(fullness_table@, 8),
    {
        let ghost u_start = u_table@;
        let ghost k_start = k_table@;
        let ghost st_start = fullness_table@;
        let mut overfull: Option<usize> = None;
        let mut underfull: Option<usize> = None;
        let mut i: usize = 0;
        while i < 8
            invariant
                i <= 8,
                u_table@ == u_start,
                k_table@ == k_start,
                fullness_table@ == st_start,
                overfull is Some ==> overfull->0 < 8 && fullness_table@[overfull->0 as int] == Fullness::Over,
                overfull is None ==> forall|j: int| 0 <= j < i ==> fullness_table@[j] != Fullness::Over,
                underfull is Some ==> underfull->0 < 8 && fullness_table@[underfull->0 as int] == Fullness::Under,
                underfull is None ==> forall|j: int| 0 <= j < i ==> fullness_table@[j] != Fullness::Under,
            decreases 8 - i,
        {
            match fullness_table[i] {
                Fullness::Over => overfull = Some(i),
                Fullness::Under => underfull = Some(i),
                Fullness::Exact => {},
            }
            i = i + 1;
        }
        proof {
            lemma_pairs(u_table@, k_table@, fullness_table@, w, sum as int);
        }
        match (overfull, underfull) {
            (Some(o), Some(un)) => {
                let ghost u0 = u_table@;
                let ghost k0 = k_table@;
                let ghost st0 = fullness_table@;
                proof {
                    lemma_step(u_table@, k_table@, fullness_table@, w, sum as int, o as int, un as int);
                    assert(column_inv(u_table@, k_table@, fullness_table@, w, sum as int, o as int));
                    assert(column_inv(u_table@, k_table@, fullness_table@, w, sum as int, un as int));
                }
                k_table[un] = o as u32;
                let moved = u_table[o] - (sum - u_table[un]);
                u_table[o] = moved;
                fullness_table[un] = Fullness::Exact;
                let f = fullness(moved, sum);
                fullness_table[o] = f;
                assert(u_table@ == u0.update(o as int, ((u0[o as int] + u0[un as int] - sum) as u32)));
                assert(k_table@ == k0.update(un as int, o as u32));
                assert(fullness_table@ == st0.update(un as int, Fullness::Exact).update(
                    o as int,
                    fullness_of(moved as int, sum as int),
                ));
                assert(pending(fullness_table@, 8) < pending(st0, 8));
                proof {
                    lemma_pending_bounds(st0, 8);
                    lemma_pending_bounds(fullness_table@, 8);
                }
                assert(st0 == st_start);
                assert(pending(fullness_table@, 8) < pending(st_start, 8));
            },
            (None, None) => {
                break ;
            },
            _ => {
                assert(false);
                break ;
            },
        }
    }
    assert forall|j: int| 0 <= j < 8 implies #[trigger] final_col(u_table@, k_table@, w, sum as int, j) by {
        assert(column_inv(u_table@, k_table@, fullness_table@, w, sum as int, j));
    }
    assert forall|j: int| 0 <= j < 8 implies #[trigger] settled_mass(u_table@, k_table@, sum as int, j, 8) == 8 * w[j] by {
        lemma_mass_settled(u_table@, k_table@, fullness_table@, sum as int, j, 8);
        assert(mass(u_table@, k_table@, fullness_table@, sum as int, j, 8) == 8 * w[j]);
    }
    (u_table, k_table)
}

/// Rescales thresholds out of `sum` to thresholds out of `ALIAS_SCALE`.
fn rescale(u_table: &mut [u32; 8], k_table: &[u32; 8], sum: u32, w: Ghost<Seq<u32>>)
    requires
        0 < sum < ALIAS_SCALE,
        forall|j: int| 0 <= j < 8 ==> #[trigger] final_col(old(u_table)@, k_table@, w@, sum as int, j),
    ensures
        forall|j: int| 0 <= j < 8 ==> #[trigger] final_col(final(u_table)@, k_table@, w@, ALIAS_SCALE as int, j),
        forall|j: int| 0 <= j < 8 ==> #[trigger] rounded_down(
            old(u_table)@[j] as int,
            final(u_table)@[j] as int,
            sum as int,
            ALIAS_SCALE as int,
        ),
{
    let mut i: usize = 0;
    while i < 8
        invariant
            0 < sum < ALIAS_SCALE,
            i <= 8,
            forall|j: int| 0 <= j < 8 ==> #[trigger] final_col(old(u_table)@, k_table@, w@, sum as int, j),
            forall|j: int| i <= j < 8 ==> u_table@[j] == old(u_table)@[j],
            forall|j: int| 0 <= j < i ==> #[trigger] final_col(u_table@, k_table@, w@, ALIAS_SCALE as int, j),
            forall|j: int| 0 <= j < i ==> #[trigger] rounded_down(
                old(u_table)@[j] as int,
                u_table@[j] as int,
                sum as int,
                ALIAS_SCALE as int,
            ),
        decreases 8 - i,
    {
        let u = u_table[i];
        let scaled = (u as u64 * 0x2000_0000u64) / sum as u64;
        proof {
            assert(final_col(old(u_table)@, k_table@, w@, sum as int, i as int));
            lemma_scale(u as int, sum as int);
            let x = u as int * ALIAS_SCALE;
            let d = sum as int;
            lemma_fundamental_div_mod(x, d);
            lemma_mod_pos_bound(x, d);
            assert(rounded_down(u as int, x / d, d, ALIAS_SCALE as int)) by (nonlinear_arith)
                requires
                    x == d * (x / d) + (x % d),
                    0 <= x % d < d,
                    x == u * ALIAS_SCALE,
            ;
        }
        let ghost before = u_table@;
        u_table[i] = scaled as u32;
        assert forall|j: int| 0 <= j < i + 1 implies #[trigger] final_col(u_table@, k_table@, w@, ALIAS_SCALE as int, j) by {
            if j < i {
                assert(final_col(before, k_table@, w@, ALIAS_SCALE as int, j));
                assert(rounded_down(old(u_table)@[j] as int, before[j] as int, sum as int, ALIAS_SCALE as int));
            }
        }
        i = i + 1;
    }
}

/// Integer weights of the dice outcomes when `attackers` dice meet `defenders`
/// dice. Entry `i` stands for `i / (defenders + 1)` attackers and
/// `i % (defenders + 1)` defenders lost; each weight counts the rolls of all
/// dice that give the outcome.
pub open spec fn outcome_weights(attackers: int, defenders: int) -> Seq<u32> {
    if attackers == 1 && defenders == 1 {
        seq![0u32, 15, 21, 0, 0, 0, 0, 0]
    } else if attackers == 1 {
        seq![0u32, 55, 0, 161, 0, 0, 0, 0]
    } else if attackers == 2 && defenders == 1 {
        seq![0u32, 125, 91, 0, 0, 0, 0, 0]
    } else if attackers == 2 {
        seq![0u32, 0, 295, 0, 420, 0, 581, 0]
    } else if defenders == 1 {
        seq![0u32, 855, 441, 0, 0, 0, 0, 0]
    } else {
        seq![0u32, 0, 2890, 0, 2611, 0, 2275, 0]
    }
}

/// Attackers and defenders lost in outcome `i` when `defenders` dice defend.
pub open spec fn outcome_of(defenders: int, i: int) -> (int, int) {
    (i / (defenders + 1), i % (defenders + 1))
}

/// For every pairing of dice, the outcome weights count every roll of the
/// dice exactly once: the outcome probabilities add up to one.
pub proof fn lemma_outcome_weights_total(attackers: int, defenders: int)
    requires
        1 <= attackers <= 3,
        1 <= defenders <= 2,
    ensures
        weight_sum(outcome_weights(attackers, defenders)) == pow(6, (attackers + defenders) as nat),
{
    reveal_with_fuel(pow, 6);
}

/// An outcome of positive weight loses as many troops in all as the fewer
/// dice rolled.
pub proof fn lemma_outcome_split(attackers: int, defenders: int, i: int)
    requires
        1 <= attackers <= 3,
        1 <= defenders <= 2,
        0 <= i < 8,
        outcome_weights(attackers, defenders)[i] > 0,
    ensures
        outcome_of(defenders, i).0 + outcome_of(defenders, i).1 == if attackers < defenders {
            attackers
        } else {
            defenders
        },
        outcome_of(defenders, i).0 <= attackers,
        outcome_of(defenders, i).1 <= defenders,
{
    if attackers == 1 && defenders == 1 {
        if i == 0 {
            assert(outcome_of(1, 0) == (0int, 0int));
        }
        if i == 1 {
            assert(outcome_of(1, 1) == (0int, 1int));
        }
        if i == 2 {
            assert(outcome_of(1, 2) == (1int, 0int));
        }
        if i == 3 {
            assert(outcome_of(1, 3) == (1int, 1int));
        }
        if i == 4 {
            assert(outcome_of(1, 4) == (2int, 0int));
        }
        if i == 5 {
            assert(outcome_of(1, 5) == (2int, 1int));
        }
        if i == 6 {
            assert(outcome_of(1, 6) == (3int, 0int));
        }
        if i == 7 {
            assert(outcome_of(1, 7) == (3int, 1int));
        }
    }
    if attackers == 1 && defenders == 2 {
        if i == 0 {
            assert(outcome_of(2, 0) == (0int, 0int));
        }
        if i == 1 {
            assert(outcome_of(2, 1) == (0int, 1int));
        }
        if i == 2 {
            assert(outcome_of(2, 2) == (0int, 2int));
        }
        if i == 3 {
            assert(outcome_of(2, 3) == (1int, 0int));
        }
        if i == 4 {
            assert(outcome_of(2, 4) == (1int, 1int));
        }
        if i == 5 {
            assert(outcome_of(2, 5) == (1int, 2int));
        }
        if i == 6 {
            assert(outcome_of(2, 6) == (2int, 0int));
        }
        if i == 7 {
            assert(outcome_of(2, 7) == (2int, 1int));
        }
    }
    if attackers == 2 && defenders == 1 {
        if i == 0 {
            assert(outcome_of(1, 0) == (0int, 0int));
        }
        if i == 1 {
            assert(outcome_of(1, 1) == (0int, 1int));
        }
        if i == 2 {
            assert(outcome_of(1, 2) == (1int, 0int));
        }
        if i == 3 {
            assert(outcome_of(1, 3) == (1int, 1int));
        }
        if i == 4 {
            assert(outcome_of(1, 4) == (2int, 0int));
        }
        if i == 5 {
            assert(outcome_of(1, 5) == (2int, 1int));
        }
        if i == 6 {
            assert(outcome_of(1, 6) == (3int, 0int));
        }
        if i == 7 {
            assert(outcome_of(1, 7) == (3int, 1int));
        }
    }
    if attackers == 2 && defenders == 2 {
        if i == 0 {
            assert(outcome_of(2, 0) == (0int, 0int));
        }
        if i == 1 {
            assert(outcome_of(2, 1) == (0int, 1int));
        }
        if i == 2 {
            assert(outcome_of(2, 2) == (0int, 2int));
        }
        if i == 3 {
            assert(outcome_of(2, 3) == (1int, 0int));
        }
        if i == 4 {
            assert(outcome_of(2, 4) == (1int, 1int));
        }
        if i == 5 {
            assert(outcome_of(2, 5) == (1int, 2int));
        }
        if i == 6 {
            assert(outcome_of(2, 6) == (2int, 0int));
        }
        if i == 7 {
            assert(outcome_of(2, 7) == (2int, 1int));
        }
    }
    if attackers == 3 && defenders == 1 {
        if i == 0 {
            assert(outcome_of(1, 0) == (0int, 0int));
        }
        if i == 1 {
            assert(outcome_of(1, 1) == (0int, 1int));
        }
        if i == 2 {
            assert(outcome_of(1, 2) == (1int, 0int));
        }
        if i == 3 {
            assert(outcome_of(1, 3) == (1int, 1int));
        }
        if i == 4 {
            assert(outcome_of(1, 4) == (2int, 0int));
        }
        if i == 5 {
            assert(outcome_of(1, 5) == (2int, 1int));
        }
        if i == 6 {
            assert(outcome_of(1, 6) == (3int, 0int));
        }
        if i == 7 {
            assert(outcome_of(1, 7) == (3int, 1int));
        }
    }
    if attackers == 3 && defenders == 2 {
        if i == 0 {
            assert(outcome_of(2, 0) == (0int, 0int));
        }
        if i == 1 {
            assert(outcome_of(2, 1) == (0int, 1int));
        }
        if i == 2 {
            assert(outcome_of(2, 2) == (0int, 2int));
        }
        if i == 3 {
            assert(outcome_of(2, 3) == (1int, 0int));
        }
        if i == 4 {
            assert(outcome_of(2, 4) == (1int, 1int));
        }
        if i == 5 {
            assert(outcome_of(2, 5) == (1int, 2int));
        }
        if i == 6 {
            assert(outcome_of(2, 6) == (2int, 0int));
        }
        if i == 7 {
            assert(outcome_of(2, 7) == (2int, 1int));
        }
    }
}

/// Integer weights of the dice outcomes when `attackers` dice meet `defenders` dice.
pub fn table_weights(attackers: usize, defenders: usize) -> (r: [u32; 8])
    requires
        1 <= attackers <= 3,
        1 <= defenders <= 2,
    ensures
        r@ == outcome_weights(attackers as int, defenders as int),
{
    let r: [u32; 8] = if attackers == 1 && defenders == 1 {
        [0, 15, 21, 0, 0, 0, 0, 0]
    } else if attackers == 1 {
        [0, 55, 0, 161, 0, 0, 0, 0]
    } else if attackers == 2 && defenders == 1 {
        [0, 125, 91, 0, 0, 0, 0, 0]
    } else if attackers == 2 {
        [0, 0, 295, 0, 420, 0, 581, 0]
    } else if defenders == 1 {
        [0, 855, 441, 0, 0, 0, 0, 0]
    } else {
        [0, 0, 2890, 0, 2611, 0, 2275, 0]
    };
    assert(r@ =~= outcome_weights(attackers as int, defenders as int));
    r
}

/// Position of the table for `attackers` and `defenders` dice.
pub open spec fn table_index(attackers: int, defenders: int) -> int {
    (attackers - 1) * 2 + (defenders - 1)
}

/// The six alias tables of the dice outcomes, built once at start-up.
pub struct ChanceTables {
    tables: Vec<WeightedAlias>,
}

impl ChanceTables {
    /// Each table samples the outcome weights of its pairing of dice.
    pub closed spec fn wf(self) -> bool {
        &&& self.tables@.len() == 6
        &&& forall|a: int, d: int| 1 <= a <= 3 && 1 <= d <= 2 ==> {
            &&& (#[trigger] self.tables@[table_index(a, d)]).wf()
            &&& self.tables@[table_index(a, d)].weights() == outcome_weights(a, d)
        }
    }

    /// Builds the six tables.
    pub fn new() -> (r: ChanceTables)
        ensures
            r.wf(),
    {
        let mut tables: Vec<WeightedAlias> = Vec::new();
        let mut a: usize = 1;
        while a <= 3
            invariant
                1 <= a <= 4,
                tables@.len() == (a - 1) * 2,
                forall|x: int, d: int| 1 <= x < a && 1 <= d <= 2 ==> {
                    &&& (#[trigger] tables@[table_index(x, d)]).wf()
                    &&& tables@[table_index(x, d)].weights() == outcome_weights(x, d)
                },
            decreases 4 - a,
        {
            let mut d: usize = 1;
            while d <= 2
                invariant
                    1 <= a <= 3,
                    1 <= d <= 3,
                    tables@.len() == (a - 1) * 2 + (d - 1),
                    forall|x: int, y: int| 1 <= x <= a && 1 <= y <= 2 && table_index(x, y) < tables@.len() ==> {
                        &&& (#[trigger] tables@[table_index(x, y)]).wf()
                        &&& tables@[table_index(x, y)].weights() == outcome_weights(x, y)
                    },
                decreases 3 - d,
            {
                let weights = table_weights(a, d);
                proof {
                    lemma_outcome_weights_total(a as int, d as int);
                    reveal_with_fuel(pow, 6);
                }
                tables.push(WeightedAlias::new(weights));
                d = d + 1;
            }
            a = a + 1;
        }
        ChanceTables { tables }
    }

    /// Draws the dice outcome, `(attackers lost, defenders lost)`, of `attackers`
    /// dice against `defenders` dice.
    pub fn sample(&self, attackers: usize, defenders: usize, rng: &mut Xoshiro256StarStar) -> (r: (u8, u8))
        requires
            self.wf(),
            1 <= attackers <= 3,
            1 <= defenders <= 2,
        ensures
            r.0 + r.1 == if attackers < defenders {
                attackers
            } else {
                defenders
            },
            r.0 <= attackers,
            r.1 <= defenders,
            outcome_weights(attackers as int, defenders as int)[r.0 * (defenders + 1) + r.1] > 0,
    {
        let index = (attackers - 1) * 2 + (defenders - 1);
        assert(index == table_index(attackers as int, defenders as int));
        let table = &self.tables[index];
        assert(self.tables@[table_index(attackers as int, defenders as int)].wf());
        assert(table.wf() && table.weights() == outcome_weights(attackers as int, defenders as int));
        let i = table.sample(rng);
        proof {
            lemma_outcome_split(attackers as int, defenders as int, i as int);
            let d = defenders as int + 1;
            lemma_fundamental_div_mod(i as int, d);
            assert((i as int / d) * d + (i as int % d) == i) by (nonlinear_arith)
                requires
                    i == d * (i as int / d) + (i as int % d),
            ;
        }
        ((i / (defenders + 1)) as u8, (i % (defenders + 1)) as u8)
    }
}

/// Rolls the dice for the attack `mov` with as many dice as each side may use.
pub fn resolve_chance(tables: &ChanceTables, game: &AttackGame, mov: PlayerMove, rng: &mut Xoshiro256StarStar) -> (r: Move)
    requires
        tables.wf(),
        game@.wf(),
        game@.is_attack(mov),
    ensures
        r is Chance,
        r->Chance_0 + r->Chance_1 == dice_battles(game@.troops_at(mov.origin), game@.troops_at(mov.dest)),
        r->Chance_0 <= game@.troops_at(mov.origin) - 1,
        r->Chance_0 <= 3,
        r->Chance_1 <= game@.troops_at(mov.dest),
        r->Chance_1 <= 2,
{
    let origin_troops = game.troops(mov.origin);
    let dest_troops = game.troops(mov.dest);
    let num_attackers: usize = if origin_troops - 1 < 3 {
        (origin_troops - 1) as usize
    } else {
        3
    };
    let num_defenders: usize = if dest_troops < 2 {
        dest_troops as usize
    } else {
        2
    };
    proof {
        lemma_from_idx_idx(mov.dest);
    }
    let (attackers_lost, defenders_lost) = tables.sample(num_attackers, num_defenders, rng);
    Move::Chance(attackers_lost, defenders_lost)
}

/// Rescaling every column from height `s` to height `scale`, rounding each
/// threshold down, moves the mass of each outcome by less than a column.
proof fn lemma_rescaled_mass(u: Seq<u32>, u2: Seq<u32>, k: Seq<u32>, s: int, scale: int, j: int, n: int)
    requires
        0 <= n <= u.len(),
        n <= u2.len(),
        n <= k.len(),
        s > 0,
        forall|i: int| 0 <= i < n ==> #[trigger] rounded_down(u[i] as int, u2[i] as int, s, scale),
        forall|i: int| 0 <= i < n && k[i] == i ==> u[i] == s && u2[i] == scale,
    ensures
        -n * s <= settled_mass(u2, k, scale, j, n) * s - settled_mass(u, k, s, j, n) * scale <= n * s,
    decreases n,
{
    if n > 0 {
        let i = n - 1;
        lemma_rescaled_mass(u, u2, k, s, scale, j, n - 1);
        assert(rounded_down(u[i] as int, u2[i] as int, s, scale));
        let a = settled_mass(u2, k, scale, j, n - 1);
        let b = settled_mass(u, k, s, j, n - 1);
        let t2 = (if i == j {
            u2[i] as int
        } else {
            0
        }) + (if k[i] == j {
            scale - u2[i]
        } else {
            0
        });
        let t = (if i == j {
            u[i] as int
        } else {
            0
        }) + (if k[i] == j {
            s - u[i]
        } else {
            0
        });
        assert((a + t2) * s - (b + t) * scale == (a * s - b * scale) + (t2 * s - t * scale)) by (nonlinear_arith);
        assert(-s <= t2 * s - t * scale <= s) by (nonlinear_arith)
            requires
                t2 == (if i == j {
                    u2[i] as int
                } else {
                    0
                }) + (if k[i] == j {
                    scale - u2[i]
                } else {
                    0
                }),
                t == (if i == j {
                    u[i] as int
                } else {
                    0
                }) + (if k[i] == j {
                    s - u[i]
                } else {
                    0
                }),
                u2[i] * s <= u[i] * scale < u2[i] * s + s,
                k[i] == i ==> u[i] == s && u2[i] == scale,
                s > 0,
        ;
        assert(-n * s == -(n - 1) * s - s) by (nonlinear_arith);
        assert(n * s == (n - 1) * s + s) by (nonlinear_arith);
    }
}

/// What column `i` of a finished table gives to the first `big_j` outcomes.
spec fn column_total(u: Seq<u32>, k: Seq<u32>, s: int, i: int, big_j: int) -> int
    decreases big_j,
{
    if big_j <= 0 {
        0
    } else {
        column_total(u, k, s, i, big_j - 1) + (if i == big_j - 1 {
            u[i] as int
        } else {
            0
        }) + (if k[i] == big_j - 1 {
            s - u[i]
        } else {
            0
        })
    }
}

/// Mass that the first `m` columns give to the first `big_j` outcomes.
spec fn mass_total(u: Seq<u32>, k: Seq<u32>, s: int, big_j: int, m: int) -> int
    decreases big_j,
{
    if big_j <= 0 {
        0
    } else {
        mass_total(u, k, s, big_j - 1, m) + settled_mass(u, k, s, big_j - 1, m)
    }
}

proof fn lemma_column_total(u: Seq<u32>, k: Seq<u32>, s: int, i: int, big_j: int)
    requires
        big_j >= 0,
    ensures
        column_total(u, k, s, i, big_j) == (if 0 <= i < big_j {
            u[i] as int
        } else {
            0
        }) + (if 0 <= k[i] < big_j {
            s - u[i]
        } else {
            0
        }),
    decreases big_j,
{
    if big_j > 0 {
        lemma_column_total(u, k, s, i, big_j - 1);
    }
}

proof fn lemma_mass_total_step(u: Seq<u32>, k: Seq<u32>, s: int, big_j: int, m: int)
    requires
        m > 0,
        big_j >= 0,
    ensures
        mass_total(u, k, s, big_j, m) == mass_total(u, k, s, big_j, m - 1) + column_total(u, k, s, m - 1, big_j),
    decreases big_j,
{
    if big_j > 0 {
        lemma_mass_total_step(u, k, s, big_j - 1, m);
    }
}

proof fn lemma_mass_total(u: Seq<u32>, k: Seq<u32>, s: int, m: int)
    requires
        0 <= m <= 8,
        forall|i: int| 0 <= i < m ==> k[i] < 8,
    ensures
        mass_total(u, k, s, 8, m) == m * s,
    decreases m,
{
    if m == 0 {
        reveal_with_fuel(mass_total, 9);
    } else {
        lemma_mass_total(u, k, s, m - 1);
        lemma_mass_total_step(u, k, s, 8, m);
        lemma_column_total(u, k, s, m - 1, 8);
        assert((m - 1) * s + s == m * s) by (nonlinear_arith);
    }
}

/// `r` is `u` out of `s` rescaled to `scale` and rounded down.
spec fn rounded_down(u: int, r: int, s: int, scale: int) -> bool {
    r * s <= u * scale < r * s + s
}

/// A threshold `u` out of `s` rescaled to `ALIAS_SCALE` stays within scale,
/// stays positive, and is full exactly when `u` was.
proof fn lemma_scale(u: int, s: int)
    requires
        0 <= u <= s,
        0 < s < ALIAS_SCALE,
    ensures
        (u * ALIAS_SCALE) / s <= ALIAS_SCALE,
        u > 0 ==> (u * ALIAS_SCALE) / s > 0,
        u == s ==> (u * ALIAS_SCALE) / s == ALIAS_SCALE,
{
    let k = ALIAS_SCALE as int;
    assert(u * k <= s * k) by (nonlinear_arith)
        requires
            u <= s,
            k > 0,
    ;
    lemma_div_is_ordered(u * k, s * k, s);
    lemma_div_by_multiple(k, s);
    assert(s * k == k * s) by (nonlinear_arith);
    if u > 0 {
        assert(u * k >= s) by (nonlinear_arith)
            requires
                u >= 1,
                k > s,
                s > 0,
        ;
        lemma_div_is_ordered(s, u * k, s);
        lemma_div_by_multiple(1, s);
    }
}

} // verus!
