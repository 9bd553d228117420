//! The mathematical model of the rank computation.
//!
//! Everything here is specification-level: integer sequences stand for rank
//! vectors, and the power iteration is written as a recurrence
//! (`ranks_after`) that the executable engine is proved to compute exactly.

use vstd::prelude::*;

verus! {

/// Fixed-point scale: `SCALE` units of rank mass make one whole unit,
/// so a rank value `x` stands for the real number `x / SCALE`.
pub const SCALE: u64 = 1_000_000_000;

/// Damping factors are given in parts per million: `PPM` parts make one.
pub const PPM: u64 = 1_000_000;

/// The integers a sequence of machine words holds.
pub open spec fn view64(s: Seq<u64>) -> Seq<int> {
    Seq::new(s.len(), |i: int| s[i] as int)
}

/// Sum of an integer sequence.
pub open spec fn seq_sum(s: Seq<int>) -> int
    decreases s.len(),
{
    if s.len() == 0 {
        0
    } else {
        s[0] + seq_sum(s.drop_first())
    }
}

/// All entries of a sequence are non-negative.
pub open spec fn all_nonneg(s: Seq<int>) -> bool {
    forall|i: int| 0 <= i < s.len() ==> #[trigger] s[i] >= 0
}

/// Every edge target of the graph is a valid node index.
pub open spec fn valid_graph(g: Seq<Seq<usize>>) -> bool {
    forall|u: int, k: int|
        0 <= u < g.len() && 0 <= k < g[u].len() ==> #[trigger] g[u][k] < g.len()
}

/// A sequence of `n` zeros.
pub open spec fn zeros(n: nat) -> Seq<int> {
    Seq::new(n, |i: int| 0)
}

/// The node indices `0, 1, ..., n - 1`.
pub open spec fn all_nodes(n: nat) -> Seq<usize> {
    Seq::new(n, |i: int| i as usize)
}

/// The targets node `u` spreads its mass over. A dangling node (no outgoing
/// edges) redistributes its mass uniformly over every node of the graph:
/// that is this library's explicit policy for zero out-degree, chosen so
/// that no mass is silently lost and no division by zero arises.
pub open spec fn targets_of(g: Seq<Seq<usize>>, u: int) -> Seq<usize> {
    if g[u].len() == 0 {
        all_nodes(g.len())
    } else {
        g[u]
    }
}

/// The mass node `u` sends along each of its targets: its current rank
/// divided (rounding down) by the number of targets.
pub open spec fn contrib_of(g: Seq<Seq<usize>>, r: Seq<int>, u: int) -> int {
    r[u] / (targets_of(g, u).len() as int)
}

/// `acc` after adding `c` at position `t[j]` for each `j < k`, in order.
pub open spec fn scatter(acc: Seq<int>, t: Seq<usize>, c: int, k: int) -> Seq<int>
    decreases k,
{
    if k <= 0 {
        acc
    } else {
        let prev = scatter(acc, t, c, k - 1);
        prev.update(t[k - 1] as int, prev[t[k - 1] as int] + c)
    }
}

/// The accumulator after the first `u` nodes have spread their mass.
pub open spec fn distribute_upto(g: Seq<Seq<usize>>, r: Seq<int>, u: int) -> Seq<int>
    decreases u,
{
    if u <= 0 {
        zeros(g.len())
    } else {
        scatter(
            distribute_upto(g, r, u - 1),
            targets_of(g, u - 1),
            contrib_of(g, r, u - 1),
            targets_of(g, u - 1).len() as int,
        )
    }
}

/// The teleport share every node receives each iteration:
/// `(1 - damping) / n` in fixed-point units.
pub open spec fn tele_of(d: int, n: nat) -> int {
    (PPM as int - d) * (SCALE as int) / (PPM as int * n as int)
}

/// One accumulator slot after damping: `x * damping + (1 - damping) / n`.
pub open spec fn damped(x: int, d: int, n: nat) -> int {
    x * d / (PPM as int) + tele_of(d, n)
}

/// Damping applied to every accumulator slot.
pub open spec fn damp(acc: Seq<int>, d: int, n: nat) -> Seq<int> {
    Seq::new(acc.len(), |v: int| damped(acc[v], d, n))
}

/// One full iteration: every node spreads its mass, then damping is applied.
pub open spec fn step(g: Seq<Seq<usize>>, r: Seq<int>, d: int) -> Seq<int> {
    damp(distribute_upto(g, r, g.len() as int), d, g.len())
}

/// The initial rank vector: `1 / n` (rounded down) for every node.
pub open spec fn uniform_init(n: nat) -> Seq<int> {
    Seq::new(n, |i: int| SCALE as int / n as int)
}

/// The rank vector after exactly `k` iterations, starting from the uniform
/// distribution. This recurrence is what the executable engine computes.
pub open spec fn ranks_after(g: Seq<Seq<usize>>, d: int, k: nat) -> Seq<int>
    decreases k,
{
    if k == 0 {
        uniform_init(g.len())
    } else {
        step(g, ranks_after(g, d, (k - 1) as nat), d)
    }
}

// ---------------------------------------------------------------------------
// Facts about machine-word sequences.
// ---------------------------------------------------------------------------

pub proof fn lemma_view64_nonneg(s: Seq<u64>)
    ensures
        all_nonneg(view64(s)),
{
    assert forall|i: int| 0 <= i < view64(s).len() implies #[trigger] view64(s)[i] >= 0 by {
        assert(view64(s)[i] == s[i] as int);
    }
}

pub proof fn lemma_view64_update(s: Seq<u64>, i: int, x: u64)
    requires
        0 <= i < s.len(),
    ensures
        view64(s.update(i, x)) == view64(s).update(i, x as int),
{
    assert(view64(s.update(i, x)) =~= view64(s).update(i, x as int));
}

// ---------------------------------------------------------------------------
// Facts about sums.
// ---------------------------------------------------------------------------

pub proof fn lemma_sum_nonneg(s: Seq<int>)
    requires
        all_nonneg(s),
    ensures
        seq_sum(s) >= 0,
    decreases s.len(),
{
    if s.len() > 0 {
        lemma_sum_nonneg(s.drop_first());
    }
}

pub proof fn lemma_elem_le_sum(s: Seq<int>, i: int)
    requires
        all_nonneg(s),
        0 <= i < s.len(),
    ensures
        s[i] <= seq_sum(s),
    decreases i,
{
    if i == 0 {
        lemma_sum_nonneg(s.drop_first());
    } else {
        lemma_elem_le_sum(s.drop_first(), i - 1);
    }
}

pub proof fn lemma_sum_update(s: Seq<int>, i: int, v: int)
    requires
        0 <= i < s.len(),
    ensures
        seq_sum(s.update(i, v)) == seq_sum(s) - s[i] + v,
    decreases i,
{
    if i == 0 {
        assert(s.update(0, v).drop_first() =~= s.drop_first());
    } else {
        lemma_sum_update(s.drop_first(), i - 1, v);
        assert(s.update(i, v).drop_first() =~= s.drop_first().update(i - 1, v));
    }
}

pub proof fn lemma_sum_push(s: Seq<int>, v: int)
    ensures
        seq_sum(s.push(v)) == seq_sum(s) + v,
    decreases s.len(),
{
    if s.len() == 0 {
        assert(s.push(v)[0] == v);
        assert(s.push(v).drop_first() =~= Seq::<int>::empty());
        assert(seq_sum(Seq::<int>::empty()) == 0);
        assert(seq_sum(s.push(v)) == v + seq_sum(s.push(v).drop_first()));
    } else {
        lemma_sum_push(s.drop_first(), v);
        assert(s.push(v)[0] == s[0]);
        assert(s.push(v).drop_first() =~= s.drop_first().push(v));
        assert(seq_sum(s.push(v)) == s[0] + seq_sum(s.push(v).drop_first()));
    }
}

pub proof fn lemma_sum_const(n: nat, c: int)
    ensures
        seq_sum(Seq::new(n, |i: int| c)) == n * c,
    decreases n,
{
    if n == 0 {
    } else {
        lemma_sum_const((n - 1) as nat, c);
        assert(Seq::new(n, |i: int| c).drop_first() =~= Seq::new((n - 1) as nat, |i: int| c));
        assert((n - 1) * c + c == n * c) by (nonlinear_arith);
    }
}

pub proof fn lemma_sum_prefix_le(s: Seq<int>, u: int)
    requires
        all_nonneg(s),
        0 <= u <= s.len(),
    ensures
        seq_sum(s.subrange(0, u)) <= seq_sum(s),
    decreases s.len() - u,
{
    if u == s.len() {
        assert(s.subrange(0, u) =~= s);
    } else {
        lemma_sum_prefix_le(s, u + 1);
        assert(s.subrange(0, u + 1) =~= s.subrange(0, u).push(s[u]));
        lemma_sum_push(s.subrange(0, u), s[u]);
    }
}

// ---------------------------------------------------------------------------
// Division facts used throughout.
// ---------------------------------------------------------------------------

/// Rounding down while dividing never manufactures mass: `d * (x / d) <= x`.
pub proof fn lemma_div_mul_le(x: int, d: int)
    requires
        x >= 0,
        d > 0,
    ensures
        d * (x / d) <= x,
        x / d >= 0,
{
    vstd::arithmetic::div_mod::lemma_fundamental_div_mod(x, d);
    vstd::arithmetic::div_mod::lemma_mod_bound(x, d);
    vstd::arithmetic::div_mod::lemma_div_pos_is_pos(x, d);
}

// ---------------------------------------------------------------------------
// Facts about the distribution pass.
// ---------------------------------------------------------------------------

/// Scattering `k` copies of `c` adds exactly `k * c` to the total and keeps
/// every entry non-negative.
pub proof fn lemma_scatter_props(acc: Seq<int>, t: Seq<usize>, c: int, k: int)
    requires
        0 <= k <= t.len(),
        forall|j: int| 0 <= j < k ==> (#[trigger] t[j]) < acc.len(),
        c >= 0,
        all_nonneg(acc),
    ensures
        scatter(acc, t, c, k).len() == acc.len(),
        seq_sum(scatter(acc, t, c, k)) == seq_sum(acc) + k * c,
        all_nonneg(scatter(acc, t, c, k)),
    decreases k,
{
    if k <= 0 {
        assert(k * c == 0) by (nonlinear_arith)
            requires
                k == 0,
        ;
    } else {
        lemma_scatter_props(acc, t, c, k - 1);
        let prev = scatter(acc, t, c, k - 1);
        let j = t[k - 1] as int;
        assert(0 <= j < prev.len());
        let cur = prev.update(j, prev[j] + c);
        assert(scatter(acc, t, c, k) == cur);
        lemma_sum_update(prev, j, prev[j] + c);
        assert((k - 1) * c + c == k * c) by (nonlinear_arith);
        assert forall|i: int| 0 <= i < cur.len() implies #[trigger] cur[i] >= 0 by {
            if i != j {
                assert(cur[i] == prev[i]);
            }
        }
    }
}

/// After the first `u` nodes have spread their mass, the accumulator holds
/// at most the mass those `u` nodes held, and nothing negative.
pub proof fn lemma_distribute_props(g: Seq<Seq<usize>>, r: Seq<int>, u: int)
    requires
        valid_graph(g),
        g.len() <= usize::MAX,
        r.len() == g.len(),
        all_nonneg(r),
        0 <= u <= g.len(),
    ensures
        distribute_upto(g, r, u).len() == g.len(),
        all_nonneg(distribute_upto(g, r, u)),
        seq_sum(distribute_upto(g, r, u)) <= seq_sum(r.subrange(0, u)),
    decreases u,
{
    if u == 0 {
        lemma_sum_const(g.len(), 0);
        assert(zeros(g.len()) =~= Seq::new(g.len(), |i: int| 0));
        assert(r.subrange(0, 0) =~= Seq::<int>::empty());
    } else {
        lemma_distribute_props(g, r, u - 1);
        let acc = distribute_upto(g, r, u - 1);
        let t = targets_of(g, u - 1);
        let deg = t.len() as int;
        let c = contrib_of(g, r, u - 1);
        assert(forall|j: int| 0 <= j < deg ==> (#[trigger] t[j]) < acc.len());
        lemma_div_mul_le(r[u - 1], deg);
        lemma_scatter_props(acc, t, c, deg);
        assert(r.subrange(0, u) =~= r.subrange(0, u - 1).push(r[u - 1]));
        lemma_sum_push(r.subrange(0, u - 1), r[u - 1]);
    }
}

/// The teleport share is non-negative and `n` of them cost at most the
/// undamped share of one whole unit of mass.
pub proof fn lemma_tele_bound(d: int, n: nat)
    requires
        0 < d < PPM,
        n >= 1,
    ensures
        tele_of(d, n) >= 0,
        tele_of(d, n) <= SCALE,
        n * ((PPM as int) * tele_of(d, n)) <= (PPM as int - d) * (SCALE as int),
{
    let p = PPM as int;
    let s = SCALE as int;
    let a = (p - d) * s;
    let pn = p * (n as int);
    let tele = tele_of(d, n);
    assert(a >= 0 && a <= p * s && pn > 0 && pn >= p) by (nonlinear_arith)
        requires
            a == (p - d) * s,
            pn == p * (n as int),
            0 < d < p,
            s > 0,
            n >= 1,
    ;
    lemma_div_mul_le(a, pn);
    assert(tele == a / pn);
    assert(pn * tele <= a);
    assert(n * (p * tele) == pn * tele) by (nonlinear_arith)
        requires
            pn == p * (n as int),
    ;
    assert(n * (p * tele) <= a);
    assert(tele <= s) by (nonlinear_arith)
        requires
            pn * tele <= a,
            a <= p * s,
            tele >= 0,
            pn >= p,
            p > 0,
            s > 0,
    ;
}

/// Damping a slot keeps it non-negative, and the damped total obeys
/// `PPM * sum(damped) <= d * sum(acc) + len * (PPM * teleport)`.
pub proof fn lemma_damp_sum(acc: Seq<int>, d: int, n: nat)
    requires
        0 < d < PPM,
        n >= 1,
        all_nonneg(acc),
    ensures
        damp(acc, d, n).len() == acc.len(),
        all_nonneg(damp(acc, d, n)),
        (PPM as int) * seq_sum(damp(acc, d, n)) <= d * seq_sum(acc) + acc.len() * (
        (PPM as int) * tele_of(d, n)),
    decreases acc.len(),
{
    let p = PPM as int;
    let tele = tele_of(d, n);
    lemma_tele_bound(d, n);
    if acc.len() == 0 {
        assert(seq_sum(damp(acc, d, n)) == 0);
    } else {
        let x = acc[0];
        lemma_damp_sum(acc.drop_first(), d, n);
        assert(damp(acc, d, n).drop_first() =~= damp(acc.drop_first(), d, n));
        assert(x * d >= 0) by (nonlinear_arith)
            requires
                x >= 0,
                d > 0,
        ;
        lemma_div_mul_le(x * d, p);
        // Head slot: PPM * damped(x) <= d * x + PPM * tele.
        assert(p * damped(x, d, n) <= d * x + p * tele) by (nonlinear_arith)
            requires
                damped(x, d, n) == x * d / p + tele,
                p * (x * d / p) <= x * d,
                p > 0,
        ;
        let rest = acc.drop_first();
        let m = rest.len() as int;
        assert(seq_sum(damp(acc, d, n)) == damped(x, d, n) + seq_sum(damp(rest, d, n)));
        assert(p * seq_sum(damp(acc, d, n)) <= d * seq_sum(acc) + acc.len() * (p * tele))
            by (nonlinear_arith)
            requires
                seq_sum(damp(acc, d, n)) == damped(x, d, n) + seq_sum(damp(rest, d, n)),
                seq_sum(acc) == x + seq_sum(rest),
                p * damped(x, d, n) <= d * x + p * tele,
                p * seq_sum(damp(rest, d, n)) <= d * seq_sum(rest) + m * (p * tele),
                acc.len() == m + 1,
        ;
    }
}

/// One full iteration keeps the total mass within one whole unit.
pub proof fn lemma_step_props(g: Seq<Seq<usize>>, r: Seq<int>, d: int)
    requires
        valid_graph(g),
        1 <= g.len() <= usize::MAX,
        r.len() == g.len(),
        all_nonneg(r),
        seq_sum(r) <= SCALE,
        0 < d < PPM,
    ensures
        step(g, r, d).len() == g.len(),
        all_nonneg(step(g, r, d)),
        seq_sum(step(g, r, d)) <= SCALE,
    decreases g.len(),
{
    let p = PPM as int;
    let s = SCALE as int;
    let n = g.len();
    let acc = distribute_upto(g, r, n as int);
    lemma_distribute_props(g, r, n as int);
    assert(r.subrange(0, n as int) =~= r);
    lemma_damp_sum(acc, d, n);
    lemma_tele_bound(d, n);
    vstd::arithmetic::mul::lemma_mul_inequality(seq_sum(acc), s, d);
    assert(seq_sum(step(g, r, d)) <= s) by (nonlinear_arith)
        requires
            p * seq_sum(step(g, r, d)) <= d * seq_sum(acc) + n * (p * tele_of(d, n)),
            seq_sum(acc) * d <= s * d,
            n * (p * tele_of(d, n)) <= (p - d) * s,
            p > 0,
            d > 0,
            s > 0,
    ;
}

/// A graph with no nodes always ranks to the empty vector.
pub proof fn lemma_ranks_after_empty(g: Seq<Seq<usize>>, d: int, k: nat)
    requires
        g.len() == 0,
    ensures
        ranks_after(g, d, k).len() == 0,
    decreases k,
{
    if k > 0 {
        lemma_ranks_after_empty(g, d, (k - 1) as nat);
        assert(distribute_upto(g, ranks_after(g, d, (k - 1) as nat), 0).len() == 0);
    }
}

/// The uniform start: `n` equal shares, each `1 / n`, together at most one.
pub proof fn lemma_uniform_props(n: nat)
    requires
        n >= 1,
    ensures
        uniform_init(n).len() == n,
        all_nonneg(uniform_init(n)),
        seq_sum(uniform_init(n)) <= SCALE,
{
    let s = SCALE as int;
    let c = s / n as int;
    lemma_div_mul_le(s, n as int);
    assert(uniform_init(n) =~= Seq::new(n, |i: int| c));
    lemma_sum_const(n, c);
    assert(n * c <= s) by (nonlinear_arith)
        requires
            (n as int) * c <= s,
    ;
}

/// After any number of iterations the rank vector has one entry per node,
/// every entry non-negative, and total mass at most one whole unit.
pub proof fn lemma_ranks_after_props(g: Seq<Seq<usize>>, d: int, k: nat)
    requires
        valid_graph(g),
        1 <= g.len() <= usize::MAX,
        0 < d < PPM,
    ensures
        ranks_after(g, d, k).len() == g.len(),
        all_nonneg(ranks_after(g, d, k)),
        0 <= seq_sum(ranks_after(g, d, k)) <= SCALE,
    decreases k,
{
    if k == 0 {
        lemma_uniform_props(g.len());
        lemma_sum_nonneg(uniform_init(g.len()));
    } else {
        lemma_ranks_after_props(g, d, (k - 1) as nat);
        lemma_step_props(g, ranks_after(g, d, (k - 1) as nat), d);
        lemma_sum_nonneg(ranks_after(g, d, k));
    }
}

} // verus!
