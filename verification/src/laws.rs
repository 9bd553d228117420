//! General laws of the ranking, stated over the model and proved once and
//! for all. The executable `engine::PageRank::rank` pins its result to
//! `model::ranks_after`, so each law transfers directly to the engine.

use vstd::prelude::*;

use crate::model::{
    all_nonneg, contrib_of, damp, damped, distribute_upto, lemma_distribute_props,
    lemma_ranks_after_props, ranks_after, scatter, seq_sum, step, targets_of, tele_of,
    uniform_init, valid_graph, zeros, PPM, SCALE,
};

verus! {

/// With an iteration count of zero the result is the uniform vector:
/// every one of the `n` nodes holds `1 / n` of the mass, that is,
/// `SCALE / n` fixed-point units.
pub proof fn lemma_zero_iterations_uniform(g: Seq<Seq<usize>>, d: int)
    ensures
        ranks_after(g, d, 0) == uniform_init(g.len()),
        forall|i: int|
            0 <= i < g.len() ==> #[trigger] ranks_after(g, d, 0)[i] == SCALE as int / (
            g.len() as int),
{
    assert forall|i: int|
        0 <= i < g.len() implies #[trigger] ranks_after(g, d, 0)[i] == SCALE as int / (
    g.len() as int) by {
        assert(uniform_init(g.len())[i] == SCALE as int / (g.len() as int));
    }
}

/// Conservation, one direction: for every valid graph and every iteration
/// count, no entry of the rank vector is negative and the total mass never
/// exceeds one whole unit. (Rounding down can only lose mass, never create
/// it; the lower end of the drift is a matter of the floor divisions and is
/// exercised by tests.)
pub proof fn lemma_total_mass_bounded(g: Seq<Seq<usize>>, d: int, k: nat)
    requires
        valid_graph(g),
        1 <= g.len() <= usize::MAX,
        0 < d < PPM,
    ensures
        ranks_after(g, d, k).len() == g.len(),
        all_nonneg(ranks_after(g, d, k)),
        0 <= seq_sum(ranks_after(g, d, k)) <= SCALE,
{
    lemma_ranks_after_props(g, d, k);
}

/// A single node with one self-loop keeps the full unit of rank at every
/// iteration count: its whole mass returns to it and damping hands back
/// exactly what it took, with no rounding loss.
pub proof fn lemma_isolated_self_loop_keeps_rank(d: int, k: nat)
    requires
        0 < d < PPM,
    ensures
        ranks_after(seq![seq![0usize]], d, k) == seq![SCALE as int],
    decreases k,
{
    let g = seq![seq![0usize]];
    let p = PPM as int;
    let s = SCALE as int;
    assert(g.len() == 1);
    assert(g[0].len() == 1);
    if k == 0 {
        vstd::arithmetic::div_mod::lemma_div_basics(s);
        assert(uniform_init(1)[0] == s / 1);
        assert(ranks_after(g, d, 0) =~= seq![s]);
    } else {
        lemma_isolated_self_loop_keeps_rank(d, (k - 1) as nat);
        let prev = ranks_after(g, d, (k - 1) as nat);
        assert(prev[0] == s);
        // The distribution pass routes the whole mass back to node 0.
        let t = targets_of(g, 0);
        assert(t == g[0]);
        vstd::arithmetic::div_mod::lemma_div_basics(s);
        assert(contrib_of(g, prev, 0) == s);
        assert(distribute_upto(g, prev, 0) == zeros(1));
        assert(scatter(zeros(1), t, s, 0) == zeros(1));
        assert(zeros(1)[0] == 0);
        assert(t[0] == 0usize);
        let acc1 = distribute_upto(g, prev, 1);
        assert(acc1 == zeros(1).update(0, 0 + s));
        assert(acc1 =~= seq![s]);
        // Damping: s * d / p == 1000 * d and the teleport share is
        // 1000 * (p - d), because s == 1000 * p exactly.
        assert(s == 1000 * p);
        assert(s * d == (1000 * d) * p) by (nonlinear_arith)
            requires
                s == 1000 * p,
        ;
        vstd::arithmetic::div_mod::lemma_div_by_multiple(1000 * d, p);
        assert(s * d / p == 1000 * d);
        assert((p - d) * s == (1000 * (p - d)) * p) by (nonlinear_arith)
            requires
                s == 1000 * p,
        ;
        vstd::arithmetic::div_mod::lemma_div_by_multiple(1000 * (p - d), p);
        assert(p * 1 == p);
        assert(tele_of(d, 1) == 1000 * (p - d));
        assert(damped(s, d, 1) == 1000 * d + 1000 * (p - d));
        assert(damped(s, d, 1) == s);
        assert(damp(acc1, d, 1)[0] == damped(s, d, 1));
        assert(step(g, prev, d) =~= seq![s]);
        assert(ranks_after(g, d, k) == step(g, prev, d));
    }
}

/// Positivity: after at least one iteration every node holds at least the
/// teleport share `(1 - damping) / n` — however the links point, no node's
/// rank falls below what teleportation alone guarantees it.
pub proof fn lemma_every_node_keeps_teleport_share(g: Seq<Seq<usize>>, d: int, k: nat)
    requires
        valid_graph(g),
        1 <= g.len() <= usize::MAX,
        0 < d < PPM,
        k >= 1,
    ensures
        forall|i: int|
            0 <= i < g.len() ==> #[trigger] ranks_after(g, d, k)[i] >= tele_of(d, g.len()),
{
    let n = g.len();
    lemma_ranks_after_props(g, d, (k - 1) as nat);
    let prev = ranks_after(g, d, (k - 1) as nat);
    lemma_distribute_props(g, prev, n as int);
    let acc = distribute_upto(g, prev, n as int);
    assert(ranks_after(g, d, k) == damp(acc, d, n));
    assert forall|i: int|
        0 <= i < n implies #[trigger] ranks_after(g, d, k)[i] >= tele_of(d, n) by {
        assert(damp(acc, d, n)[i] == damped(acc[i], d, n));
        assert(acc[i] >= 0);
        assert(acc[i] * d >= 0) by (nonlinear_arith)
            requires
                acc[i] >= 0,
                d > 0,
        ;
        vstd::arithmetic::div_mod::lemma_div_pos_is_pos(acc[i] * d, PPM as int);
    }
}

/// Determinism: the rank vector is a function of the graph and the
/// configuration alone. Two results of the same ranking are equal — and
/// since the engine's `rank` pins its result to `ranks_after`, two calls
/// on the same graph and engine return identical vectors.
pub proof fn lemma_rank_deterministic(
    g: Seq<Seq<usize>>,
    d: int,
    k: nat,
    r1: Seq<int>,
    r2: Seq<int>,
)
    requires
        r1 == ranks_after(g, d, k),
        r2 == ranks_after(g, d, k),
    ensures
        r1 == r2,
{
}

} // verus!
