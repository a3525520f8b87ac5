//! The constraint solver: one relaxation pass over the link table.
//!
//! Links are processed sequentially in table order, each correction
//! visible to the links after it. For one link, both endpoints are
//! pulled toward satisfying the rest length — each non-fixed endpoint by
//! half the error — and a moved endpoint's velocity is re-derived from
//! its implied previous position (position minus velocity), so the
//! correction carries into the motion instead of being a silent jump.
//! Two coincident endpoints (distance zero) leave the link skipped for
//! the step.

use vstd::prelude::*;
use crate::fixed::{
    div_q, div_trunc, iabs, isqrt, lemma_div_trunc_bound, sat, sat_s, sqrt_floor, SAT_MAX,
    SQRT_IN_MAX,
};
use crate::integrator::advanced;
use crate::state::{
    link_ok, links_ok, lstates, particle_ok, particles_ok, pstates, CState, LState, PState,
    Particle, Simulation, V2S, Vec2,
};

verus! {

/// An endpoint moved by the correction `(cx, cy)`, its velocity
/// re-derived from the implied previous position.
pub open spec fn corrected(p: PState, cx: int, cy: int) -> PState {
    let npx = sat_s(p.pos.x + cx);
    let npy = sat_s(p.pos.y + cy);
    PState {
        pos: V2S { x: npx, y: npy },
        vel: V2S { x: sat_s(npx - (p.pos.x - p.vel.x)), y: sat_s(npy - (p.pos.y - p.vel.y)) },
        acc: p.acc,
        half_extent: p.half_extent,
        fixed: p.fixed,
    }
}

/// One link's relaxation: the owner is pulled back and the other
/// particle pulled forward along the difference vector, each by half
/// the distance error; fixed endpoints do not move, and a degenerate
/// link (coincident endpoints) or an invalid one is skipped.
pub open spec fn apply_link(ps: Seq<PState>, l: LState) -> Seq<PState> {
    if !(0 <= l.owner && l.owner < ps.len() && 0 <= l.other && l.other < ps.len() && l.owner
        != l.other) {
        ps
    } else {
        let pi = ps[l.owner];
        let pj = ps[l.other];
        let dx = pi.pos.x - pj.pos.x;
        let dy = pi.pos.y - pj.pos.y;
        let dist = sqrt_floor(dx * dx + dy * dy);
        if dist == 0 {
            ps
        } else {
            let delta = dist - l.rest_length;
            let cx = div_trunc(dx * delta, 2 * dist);
            let cy = div_trunc(dy * delta, 2 * dist);
            let ps1 = if pi.fixed {
                ps
            } else {
                ps.update(l.owner, corrected(pi, -cx, -cy))
            };
            if pj.fixed {
                ps1
            } else {
                ps1.update(l.other, corrected(pj, cx, cy))
            }
        }
    }
}

/// The store after the first `k` links' relaxations.
pub open spec fn relax_upto(ps: Seq<PState>, ls: Seq<LState>, k: int) -> Seq<PState>
    decreases k,
{
    if k <= 0 {
        ps
    } else {
        apply_link(relax_upto(ps, ls, k - 1), ls[k - 1])
    }
}

/// The store after one full relaxation pass, links in table order.
pub open spec fn relaxed(ps: Seq<PState>, ls: Seq<LState>) -> Seq<PState> {
    relax_upto(ps, ls, ls.len() as int)
}

/// One whole simulation step: the integrator's sub-steps, then one
/// relaxation pass.
pub open spec fn stepped(ps: Seq<PState>, ls: Seq<LState>, c: CState) -> Seq<PState> {
    relaxed(advanced(ps, c), ls)
}

/// A link's relaxation keeps the store's length and every scalar band.
pub proof fn lemma_apply_link_ok(ps: Seq<PState>, l: LState)
    requires
        particles_ok(ps),
    ensures
        particles_ok(apply_link(ps, l)),
        apply_link(ps, l).len() == ps.len(),
{
    let r = apply_link(ps, l);
    assert forall|t: int| 0 <= t < r.len() implies particle_ok(#[trigger] r[t]) by {
        assert(particle_ok(ps[t]));
    }
}

impl Simulation {
    /// Run one relaxation pass over every link, in table order. The
    /// result is a function of the stored particle state and the link
    /// order alone; fixed particles, the link table and the
    /// configuration are untouched.
    pub fn relax(&mut self)
        requires
            old(self).wf(),
        ensures
            final(self).wf(),
            final(self)@.particles == relaxed(old(self)@.particles, old(self)@.links),
            final(self)@.links == old(self)@.links,
            final(self)@.config == old(self)@.config,
    {
        let ghost ps0 = self@.particles;
        let ghost ls = self@.links;
        let ghost c = self@.config;
        let n = self.particles.len();
        let m = self.links.len();
        let mut k: usize = 0;
        while k < m
            invariant
                n == self.particles@.len(),
                m == self.links@.len(),
                k <= m,
                ps0.len() == n,
                ls == lstates(self.links@),
                self.links@ == old(self).links@,
                self.config == old(self).config,
                links_ok(ls, n as int),
                particles_ok(pstates(self.particles@)),
                pstates(self.particles@) == relax_upto(ps0, ls, k as int),
            decreases m - k,
        {
            let ghost prev = pstates(self.particles@);
            let l = self.links[k];
            assert(l@ == ls[k as int]);
            assert(link_ok(l@, n as int));
            let pi = self.particles[l.owner];
            let pj = self.particles[l.other];
            assert(pi@ == prev[l.owner as int] && pj@ == prev[l.other as int]);
            assert(particle_ok(pi@) && particle_ok(pj@));
            let dx: i128 = pi.pos.x - pj.pos.x;
            let dy: i128 = pi.pos.y - pj.pos.y;
            proof {
                assert(0 <= dx as int * (dx as int) && dx as int * (dx as int) <= 4 * (
                SAT_MAX as int) * (SAT_MAX as int) && 0 <= dy as int * (dy as int) && dy as int * (
                dy as int) <= 4 * (SAT_MAX as int) * (SAT_MAX as int) && dx as int * (dx as int)
                    + dy as int * (dy as int) <= SQRT_IN_MAX as int) by (nonlinear_arith)
                    requires
                        iabs(dx as int) <= 2 * (SAT_MAX as int),
                        iabs(dy as int) <= 2 * (SAT_MAX as int),
                ;
            }
            let d2: i128 = dx * dx + dy * dy;
            let dist: i128 = isqrt(d2);
            if dist > 0 {
                let delta: i128 = dist - l.rest_length;
                let two_dist: i128 = 2 * dist;
                proof {
                    assert(iabs(dx as int * (delta as int)) <= 8 * (SAT_MAX as int) * (
                    SAT_MAX as int) && iabs(dy as int * (delta as int)) <= 8 * (SAT_MAX as int) * (
                    SAT_MAX as int)) by (nonlinear_arith)
                        requires
                            iabs(dx as int) <= 2 * (SAT_MAX as int),
                            iabs(dy as int) <= 2 * (SAT_MAX as int),
                            iabs(delta as int) <= 4 * (SAT_MAX as int),
                    ;
                    assert(8 * (SAT_MAX as int) * (SAT_MAX as int) < i128::MAX as int)
                        by (nonlinear_arith);
                    assert(iabs(dx as int * (delta as int)) <= iabs(dx as int * (delta as int)) * (
                    two_dist as int) && iabs(dy as int * (delta as int)) <= iabs(
                        dy as int * (delta as int),
                    ) * (two_dist as int)) by (nonlinear_arith)
                        requires
                            1 <= two_dist as int,
                    ;
                    lemma_div_trunc_bound(
                        dx as int * (delta as int),
                        two_dist as int,
                        iabs(dx as int * (delta as int)),
                    );
                    lemma_div_trunc_bound(
                        dy as int * (delta as int),
                        two_dist as int,
                        iabs(dy as int * (delta as int)),
                    );
                }
                let cx: i128 = div_q(dx * delta, two_dist);
                let cy: i128 = div_q(dy * delta, two_dist);
                if !pi.fixed {
                    let npx = sat(pi.pos.x - cx);
                    let npy = sat(pi.pos.y - cy);
                    let nvx = sat(npx - (pi.pos.x - pi.vel.x));
                    let nvy = sat(npy - (pi.pos.y - pi.vel.y));
                    self.particles[l.owner] = Particle {
                        pos: Vec2 { x: npx, y: npy },
                        vel: Vec2 { x: nvx, y: nvy },
                        acc: pi.acc,
                        half_extent: pi.half_extent,
                        fixed: pi.fixed,
                    };
                    assert(self.particles@[l.owner as int]@ == corrected(
                        pi@,
                        -(cx as int),
                        -(cy as int),
                    ));
                }
                if !pj.fixed {
                    let npx = sat(pj.pos.x + cx);
                    let npy = sat(pj.pos.y + cy);
                    let nvx = sat(npx - (pj.pos.x - pj.vel.x));
                    let nvy = sat(npy - (pj.pos.y - pj.vel.y));
                    self.particles[l.other] = Particle {
                        pos: Vec2 { x: npx, y: npy },
                        vel: Vec2 { x: nvx, y: nvy },
                        acc: pj.acc,
                        half_extent: pj.half_extent,
                        fixed: pj.fixed,
                    };
                    assert(self.particles@[l.other as int]@ == corrected(
                        pj@,
                        cx as int,
                        cy as int,
                    ));
                }
            }
            proof {
                let ghost target = apply_link(prev, ls[k as int]);
                assert forall|t: int| 0 <= t < n implies #[trigger] pstates(self.particles@)[t]
                    == target[t] by {
                    assert(pstates(self.particles@)[t] == self.particles@[t]@);
                }
                assert(pstates(self.particles@) =~= target);
                assert forall|t: int| 0 <= t < n implies particle_ok(
                    #[trigger] pstates(self.particles@)[t],
                ) by {
                    lemma_apply_link_ok(prev, ls[k as int]);
                }
            }
            k += 1;
        }
    }

    /// Advance one simulation step: the integrator's sub-steps, then
    /// one relaxation pass over the links.
    pub fn step(&mut self)
        requires
            old(self).wf(),
        ensures
            final(self).wf(),
            final(self)@.particles == stepped(
                old(self)@.particles,
                old(self)@.links,
                old(self)@.config,
            ),
            final(self)@.links == old(self)@.links,
            final(self)@.config == old(self)@.config,
    {
        self.advance();
        self.relax();
    }
}

} // verus!
