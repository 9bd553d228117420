//! The rank engine: holds the damping factor and the iteration count, and
//! computes the rank vector of a graph by power iteration, exactly as the
//! recurrence `model::ranks_after` states.

use vstd::prelude::*;

use crate::graph::Graph;
use crate::model::{
    all_nodes, all_nonneg, damp, damped, distribute_upto, lemma_distribute_props,
    lemma_div_mul_le, lemma_elem_le_sum, lemma_ranks_after_empty, lemma_step_props,
    lemma_sum_prefix_le, lemma_sum_push, lemma_sum_update, lemma_tele_bound, lemma_uniform_props,
    lemma_view64_nonneg, lemma_view64_update, ranks_after, scatter, seq_sum, step, targets_of,
    tele_of, uniform_init, valid_graph, view64, zeros, PPM, SCALE,
};

verus! {

/// Why a configuration was rejected at construction.
#[derive(Clone, Copy, Debug, PartialEq, Eq, Structural)]
pub enum ConfigError {
    /// The damping factor must lie strictly between 0 and 1, that is,
    /// strictly between 0 and `PPM` parts per million.
    InvalidDamping,
}

/// The rank engine. Owns its configuration — a damping factor in parts per
/// million and a fixed iteration count — and is immutable once built, so it
/// may be reused across any number of graphs.
pub struct PageRank {
    damping_ppm: u64,
    iterations: u64,
}

impl PageRank {
    #[verifier::type_invariant]
    spec fn wf(&self) -> bool {
        0 < self.damping_ppm < PPM
    }

    /// The damping factor, in parts per million.
    pub closed spec fn damping(&self) -> u64 {
        self.damping_ppm
    }

    /// How many iterations `rank` performs.
    pub closed spec fn iter_count(&self) -> u64 {
        self.iterations
    }

    /// Accepts a damping factor strictly between 0 and `PPM` parts per
    /// million and any iteration count; rejects every other damping factor.
    pub fn new(damping_ppm: u64, iterations: u64) -> (r: Result<PageRank, ConfigError>)
        ensures
            match r {
                Ok(e) => 0 < damping_ppm < PPM && e.damping() == damping_ppm && e.iter_count()
                    == iterations,
                Err(c) => c == ConfigError::InvalidDamping && !(0 < damping_ppm < PPM),
            },
    {
        if damping_ppm == 0 || damping_ppm >= PPM {
            Err(ConfigError::InvalidDamping)
        } else {
            Ok(PageRank { damping_ppm, iterations })
        }
    }

    /// The damping factor this engine was built with, in parts per million.
    pub fn damping_parts_per_million(&self) -> (r: u64)
        ensures
            r == self.damping(),
    {
        self.damping_ppm
    }

    /// The iteration count this engine was built with.
    pub fn iteration_count(&self) -> (r: u64)
        ensures
            r == self.iter_count(),
    {
        self.iterations
    }

    /// The rank vector of `graph`: one fixed-point value per node (in
    /// `SCALE` units), after exactly `iter_count` power iterations from the
    /// uniform start. The result is pinned down by the recurrence
    /// `ranks_after`, so it is a pure function of graph and configuration.
    pub fn rank(&self, graph: &Graph) -> (r: Vec<u64>)
        ensures
            r@.len() == graph@.len(),
            view64(r@) == ranks_after(graph@, self.damping() as int, self.iter_count() as nat),
            seq_sum(view64(r@)) <= SCALE,
    {
        proof {
            use_type_invariant(&*self);
            use_type_invariant(&*graph);
        }
        let ghost d = self.damping() as int;
        let ghost total = self.iter_count() as nat;
        let n = graph.node_count();
        if n == 0 {
            let out: Vec<u64> = Vec::new();
            proof {
                lemma_ranks_after_empty(graph@, d, total);
                assert(view64(out@) =~= ranks_after(graph@, d, total));
            }
            return out;
        }
        let share = SCALE / (n as u64);
        let mut ranks: Vec<u64> = Vec::new();
        let mut i: usize = 0;
        while i < n
            invariant
                i <= n,
                ranks@.len() == i,
                share == SCALE / (n as u64),
                forall|j: int| 0 <= j < i ==> ranks@[j] == share,
            decreases n - i,
        {
            ranks.push(share);
            i += 1;
        }
        proof {
            assert(view64(ranks@) =~= uniform_init(n as nat));
            assert(view64(ranks@) == ranks_after(graph@, d, 0));
            lemma_uniform_props(n as nat);
        }
        let mut it: u64 = 0;
        let iters = self.iterations;
        while it < iters
            invariant
                it <= iters,
                iters == self.iter_count(),
                0 < self.damping() < PPM,
                d == self.damping() as int,
                valid_graph(graph@),
                n == graph@.len(),
                1 <= n,
                ranks@.len() == n,
                view64(ranks@) == ranks_after(graph@, d, it as nat),
                seq_sum(view64(ranks@)) <= SCALE,
            decreases iters - it,
        {
            let next = self.step_ranks(graph, &ranks);
            proof {
                lemma_step_props(graph@, view64(ranks@), d);
                assert(ranks_after(graph@, d, (it + 1) as nat) == step(
                    graph@,
                    ranks_after(graph@, d, it as nat),
                    d,
                ));
            }
            ranks = next;
            it += 1;
        }
        ranks
    }

    /// One full iteration: every node spreads its mass over its targets
    /// (a dangling node spreads it uniformly over all nodes), then damping
    /// and the teleport share are applied to every slot.
    fn step_ranks(&self, graph: &Graph, ranks: &Vec<u64>) -> (out: Vec<u64>)
        requires
            valid_graph(graph@),
            ranks@.len() == graph@.len(),
            1 <= graph@.len(),
            seq_sum(view64(ranks@)) <= SCALE,
            0 < self.damping() < PPM,
        ensures
            out@.len() == graph@.len(),
            view64(out@) == step(graph@, view64(ranks@), self.damping() as int),
    {
        let n = graph.node_count();
        let ghost g = graph@;
        let ghost rv = view64(ranks@);
        let ghost d = self.damping() as int;
        proof {
            lemma_view64_nonneg(ranks@);
        }
        let mut acc: Vec<u64> = Vec::new();
        let mut i: usize = 0;
        while i < n
            invariant
                i <= n,
                acc@.len() == i,
                forall|j: int| 0 <= j < i ==> acc@[j] == 0u64,
            decreases n - i,
        {
            acc.push(0);
            i += 1;
        }
        proof {
            assert(view64(acc@) =~= zeros(n as nat));
            assert(view64(acc@) == distribute_upto(g, rv, 0));
        }
        let mut u: usize = 0;
        while u < n
            invariant
                u <= n,
                n == g.len(),
                g == graph@,
                rv == view64(ranks@),
                ranks@.len() == n,
                valid_graph(g),
                all_nonneg(rv),
                seq_sum(rv) <= SCALE,
                acc@.len() == n,
                view64(acc@) == distribute_upto(g, rv, u as int),
            decreases n - u,
        {
            let ghost acc0 = view64(acc@);
            let ghost sum0 = seq_sum(acc0);
            proof {
                lemma_distribute_props(g, rv, u as int);
                assert(rv.subrange(0, u + 1) =~= rv.subrange(0, u as int).push(rv[u as int]));
                lemma_sum_push(rv.subrange(0, u as int), rv[u as int]);
                lemma_sum_prefix_le(rv, u + 1);
                // sum0 + rv[u] <= seq_sum(rv) <= SCALE
                lemma_elem_le_sum(rv, u as int);
            }
            let deg = graph.out_degree(u);
            let ru = ranks[u];
            if deg == 0 {
                let c = ru / (n as u64);
                let ghost t = all_nodes(n as nat);
                proof {
                    assert(targets_of(g, u as int) =~= t);
                    lemma_div_mul_le(rv[u as int], n as int);
                    vstd::arithmetic::div_mod::lemma_div_nonincreasing(rv[u as int], n as int);
                    assert(n * (c as int) <= rv[u as int]);
                    assert(sum0 + n * (c as int) <= SCALE);
                }
                let mut v: usize = 0;
                while v < n
                    invariant
                        v <= n,
                        n == g.len(),
                        acc@.len() == n,
                        u < n,
                        t == all_nodes(n as nat),
                        c as int == rv[u as int] / n as int,
                        c <= SCALE,
                        acc0 == distribute_upto(g, rv, u as int),
                        sum0 == seq_sum(acc0),
                        sum0 + n * (c as int) <= SCALE,
                        view64(acc@) == scatter(acc0, t, c as int, v as int),
                        seq_sum(view64(acc@)) == sum0 + v * (c as int),
                    decreases n - v,
                {
                    proof {
                        lemma_view64_nonneg(acc@);
                        lemma_elem_le_sum(view64(acc@), v as int);
                        assert((v + 1) * (c as int) == v * (c as int) + c) by (nonlinear_arith);
                        vstd::arithmetic::mul::lemma_mul_inequality(
                            v as int + 1,
                            n as int,
                            c as int,
                        );
                        // acc[v] <= sum0 + v*c; (v+1)*c <= n*c; so acc[v] + c <= SCALE
                    }
                    let a = acc[v];
                    let ghost before = acc@;
                    acc.set(v, a + c);
                    proof {
                        let prev = scatter(acc0, t, c as int, v as int);
                        assert(t[v as int] == v as usize);
                        lemma_view64_update(before, v as int, (a + c) as u64);
                        lemma_sum_update(prev, v as int, (a + c) as int);
                        assert(view64(acc@) == scatter(acc0, t, c as int, (v + 1) as int));
                    }
                    v += 1;
                }
                proof {
                    assert(view64(acc@) == distribute_upto(g, rv, (u + 1) as int));
                }
            } else {
                let c = ru / (deg as u64);
                let ghost t = g[u as int];
                proof {
                    assert(targets_of(g, u as int) == t);
                    lemma_div_mul_le(rv[u as int], deg as int);
                    vstd::arithmetic::div_mod::lemma_div_nonincreasing(rv[u as int], deg as int);
                    assert(deg * (c as int) <= rv[u as int]);
                    assert(sum0 + deg * (c as int) <= SCALE);
                }
                let mut k: usize = 0;
                while k < deg
                    invariant
                        k <= deg,
                        n == g.len(),
                        g == graph@,
                        acc@.len() == n,
                        u < n,
                        valid_graph(g),
                        t == g[u as int],
                        deg == t.len(),
                        c as int == rv[u as int] / deg as int,
                        c <= SCALE,
                        acc0 == distribute_upto(g, rv, u as int),
                        sum0 == seq_sum(acc0),
                        sum0 + deg * (c as int) <= SCALE,
                        view64(acc@) == scatter(acc0, t, c as int, k as int),
                        seq_sum(view64(acc@)) == sum0 + k * (c as int),
                    decreases deg - k,
                {
                    let tgt = graph.target(u, k);
                    proof {
                        lemma_view64_nonneg(acc@);
                        lemma_elem_le_sum(view64(acc@), tgt as int);
                        assert((k + 1) * (c as int) == k * (c as int) + c) by (nonlinear_arith);
                        vstd::arithmetic::mul::lemma_mul_inequality(
                            k as int + 1,
                            deg as int,
                            c as int,
                        );
                        // acc[tgt] <= sum0 + k*c; (k+1)*c <= deg*c; so acc[tgt] + c <= SCALE
                    }
                    let a = acc[tgt];
                    let ghost before = acc@;
                    acc.set(tgt, a + c);
                    proof {
                        let prev = scatter(acc0, t, c as int, k as int);
                        lemma_view64_update(before, tgt as int, (a + c) as u64);
                        lemma_sum_update(prev, tgt as int, (a + c) as int);
                        assert(view64(acc@) == scatter(acc0, t, c as int, (k + 1) as int));
                    }
                    k += 1;
                }
                proof {
                    assert(view64(acc@) == distribute_upto(g, rv, (u + 1) as int));
                }
            }
            u += 1;
        }
        proof {
            lemma_distribute_props(g, rv, n as int);
            assert(rv.subrange(0, n as int) =~= rv);
        }
        let ghost accv = view64(acc@);
        let dppm = self.damping_ppm;
        proof {
            assert(((PPM - dppm) as int) * (SCALE as int) >= 0 && ((PPM - dppm) as int) * (
            SCALE as int) <= 1_000_000_000_000_000int) by (nonlinear_arith)
                requires
                    0 <= (PPM - dppm) as int <= 1_000_000int,
            ;
            assert(1 <= (PPM as int) * (n as int) <= 18_446_744_073_709_551_615_000_000int)
                by (nonlinear_arith)
                requires
                    1 <= n as int <= 18_446_744_073_709_551_615int,
            ;
        }
        let tele128: u128 = ((PPM - dppm) as u128) * (SCALE as u128) / ((PPM as u128) * (n
            as u128));
        proof {
            lemma_tele_bound(d, n as nat);
            assert(tele128 == tele_of(d, n as nat));
        }
        let tele: u64 = tele128 as u64;
        let mut out: Vec<u64> = Vec::new();
        let mut v: usize = 0;
        while v < n
            invariant
                v <= n,
                out@.len() == v,
                n == g.len(),
                acc@.len() == n,
                accv == view64(acc@),
                all_nonneg(accv),
                seq_sum(accv) <= SCALE,
                dppm as int == d,
                0 < d < PPM,
                tele as int == tele_of(d, n as nat),
                tele <= SCALE,
                forall|j: int| 0 <= j < v ==> view64(out@)[j] == damped(accv[j], d, n as nat),
            decreases n - v,
        {
            let x = acc[v];
            proof {
                lemma_elem_le_sum(accv, v as int);
                // x <= SCALE
                assert((x as int) * d >= 0 && (x as int) * d <= 1_000_000_000_000_000int)
                    by (nonlinear_arith)
                    requires
                        0 <= x as int <= 1_000_000_000int,
                        0 <= d <= 1_000_000int,
                ;
                lemma_div_mul_le((x as int) * d, PPM as int);
            }
            let q128: u128 = (x as u128) * (dppm as u128) / (PPM as u128);
            proof {
                assert(q128 as int == (x as int) * d / (PPM as int));
                assert((x as int) * d <= (x as int) * (PPM as int)) by (nonlinear_arith)
                    requires
                        0 <= x as int,
                        0 < d < PPM as int,
                ;
                assert(q128 <= x) by (nonlinear_arith)
                    requires
                        (PPM as int) * (q128 as int) <= (x as int) * d,
                        (x as int) * d <= (x as int) * (PPM as int),
                        q128 as int >= 0,
                        PPM as int > 0,
                        x as int >= 0,
                ;
            }
            let q = q128 as u64;
            let ghost obefore = out@;
            out.push(q + tele);
            proof {
                assert forall|j: int| 0 <= j < v + 1 implies view64(out@)[j] == damped(
                    accv[j],
                    d,
                    n as nat,
                ) by {
                    if j < v {
                        assert(out@[j] == obefore[j]);
                        assert(view64(obefore)[j] == damped(accv[j], d, n as nat));
                    } else {
                        assert(out@[j] == q + tele);
                        assert(accv[j] == x as int);
                    }
                }
            }
            v += 1;
        }
        proof {
            assert(view64(out@) =~= damp(accv, d, n as nat));
        }
        out
    }
}

} // verus!
