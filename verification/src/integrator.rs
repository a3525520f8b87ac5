//! The integrator: one simulation step's worth of fixed-size sub-steps.
//!
//! Each sub-step moves every non-fixed particle by its velocity,
//! reflects the velocity (scaled by the restitution coefficient) on any
//! axis where the candidate position would leave the world rectangle —
//! cancelling that axis' position update — then applies linear drag and
//! the particle's constant acceleration to the velocity.

use vstd::prelude::*;
use crate::fixed::{
    div_trunc, iabs, in_range, lemma_div_trunc_bound, mul_scale, mul_scale_s, sat, sat_s, abs_i128,
    div_q, SAT_MAX, SCALE,
};
use crate::state::{
    config_ok, particle_ok, particles_ok, pstates, CState, PState, Particle, Simulation, V2S, Vec2,
};

verus! {

/// The candidate position one sub-step of movement proposes on an axis.
pub open spec fn candidate_pos(pos: int, vel: int, dt: int) -> int {
    sat_s(pos + mul_scale_s(vel, dt))
}

/// Whether the candidate position would put the particle's extent past
/// the world's half-extent on this axis.
pub open spec fn axis_collides(pos: int, vel: int, he: int, wh: int, dt: int) -> bool {
    iabs(candidate_pos(pos, vel, dt)) + he > wh
}

/// The axis position after the sub-step: the candidate, unless it
/// collided, in which case the old position is kept.
pub open spec fn axis_pos_after(pos: int, vel: int, he: int, wh: int, dt: int) -> int {
    if axis_collides(pos, vel, he, wh, dt) {
        pos
    } else {
        candidate_pos(pos, vel, dt)
    }
}

/// A reflected axis velocity: reversed and scaled by restitution.
pub open spec fn reflected_vel(vel: int, restitution: int) -> int {
    mul_scale_s(-vel, restitution)
}

/// The axis velocity after boundary handling.
pub open spec fn axis_vel_bounced(pos: int, vel: int, he: int, wh: int, dt: int, r: int) -> int {
    if axis_collides(pos, vel, he, wh, dt) {
        reflected_vel(vel, r)
    } else {
        vel
    }
}

/// The fixed-point factor linear drag leaves on a velocity.
pub open spec fn drag_factor(drag: int, dt: int) -> int {
    SCALE as int - mul_scale_s(drag, dt)
}

/// A velocity after drag.
pub open spec fn dragged_vel(vel: int, drag: int, dt: int) -> int {
    mul_scale_s(vel, drag_factor(drag, dt))
}

/// A velocity after the constant acceleration is added.
pub open spec fn accelerated_vel(vel: int, acc: int) -> int {
    sat_s(vel + acc)
}

/// One integration sub-step of a single particle: movement and boundary
/// handling per axis, then drag, then acceleration. A fixed particle is
/// untouched.
pub open spec fn substep_particle(p: PState, c: CState) -> PState {
    if p.fixed {
        p
    } else {
        let vbx = axis_vel_bounced(
            p.pos.x,
            p.vel.x,
            p.half_extent.x,
            c.world_half.x,
            c.time_step,
            c.restitution,
        );
        let vby = axis_vel_bounced(
            p.pos.y,
            p.vel.y,
            p.half_extent.y,
            c.world_half.y,
            c.time_step,
            c.restitution,
        );
        PState {
            pos: V2S {
                x: axis_pos_after(p.pos.x, p.vel.x, p.half_extent.x, c.world_half.x, c.time_step),
                y: axis_pos_after(p.pos.y, p.vel.y, p.half_extent.y, c.world_half.y, c.time_step),
            },
            vel: V2S {
                x: accelerated_vel(dragged_vel(vbx, c.drag, c.time_step), p.acc.x),
                y: accelerated_vel(dragged_vel(vby, c.drag, c.time_step), p.acc.y),
            },
            acc: p.acc,
            half_extent: p.half_extent,
            fixed: p.fixed,
        }
    }
}

/// One sub-step of the whole store: particles do not interact here.
pub open spec fn substep_all(ps: Seq<PState>, c: CState) -> Seq<PState> {
    ps.map_values(|p: PState| substep_particle(p, c))
}

/// How many sub-steps one `advance` runs: the whole number of time
/// steps that fit in one unit of time.
pub open spec fn substeps_of(c: CState) -> int {
    div_trunc(SCALE as int, c.time_step)
}

/// The store after `k` sub-steps.
pub open spec fn advance_upto(ps: Seq<PState>, c: CState, k: int) -> Seq<PState>
    decreases k,
{
    if k <= 0 {
        ps
    } else {
        substep_all(advance_upto(ps, c, k - 1), c)
    }
}

/// The store after one full `advance` call.
pub open spec fn advanced(ps: Seq<PState>, c: CState) -> Seq<PState> {
    advance_upto(ps, c, substeps_of(c))
}

/// A sub-step keeps every particle scalar in the stored band.
pub proof fn lemma_substep_particle_ok(p: PState, c: CState)
    requires
        particle_ok(p),
        config_ok(c),
    ensures
        particle_ok(substep_particle(p, c)),
{
    if !p.fixed {
        lemma_drag_factor_in_band(c.drag, c.time_step);
        assert(iabs(-p.vel.x * c.restitution) <= iabs(p.vel.x) * (SCALE as int)
            && iabs(-p.vel.y * c.restitution) <= iabs(p.vel.y) * (SCALE as int)) by (nonlinear_arith)
            requires
                0 <= c.restitution <= SCALE as int,
        ;
        lemma_div_trunc_bound(-p.vel.x * c.restitution, SCALE as int, iabs(p.vel.x));
        lemma_div_trunc_bound(-p.vel.y * c.restitution, SCALE as int, iabs(p.vel.y));
        let vbx = axis_vel_bounced(
            p.pos.x,
            p.vel.x,
            p.half_extent.x,
            c.world_half.x,
            c.time_step,
            c.restitution,
        );
        let vby = axis_vel_bounced(
            p.pos.y,
            p.vel.y,
            p.half_extent.y,
            c.world_half.y,
            c.time_step,
            c.restitution,
        );
        assert(in_range(vbx) && in_range(vby));
        lemma_dragged_vel_in_band(vbx, c.drag, c.time_step);
        lemma_dragged_vel_in_band(vby, c.drag, c.time_step);
    }
}

/// The drag factor lies between zero and one.
pub proof fn lemma_drag_factor_in_band(drag: int, dt: int)
    requires
        0 <= drag <= SCALE as int,
        0 <= dt <= SCALE as int,
    ensures
        0 <= drag_factor(drag, dt) <= SCALE as int,
{
    assert(iabs(drag * dt) <= (SCALE as int) * (SCALE as int)) by (nonlinear_arith)
        requires
            0 <= drag <= SCALE as int,
            0 <= dt <= SCALE as int,
    ;
    lemma_div_trunc_bound(drag * dt, SCALE as int, SCALE as int);
    assert(drag * dt >= 0) by (nonlinear_arith)
        requires
            0 <= drag,
            0 <= dt,
    ;
    assert(div_trunc(drag * dt, SCALE as int) >= 0) by {
        vstd::arithmetic::div_mod::lemma_div_pos_is_pos(drag * dt, SCALE as int);
    }
}

/// Drag never grows a velocity's magnitude.
pub proof fn lemma_dragged_vel_in_band(vel: int, drag: int, dt: int)
    requires
        in_range(vel),
        0 <= drag <= SCALE as int,
        0 <= dt <= SCALE as int,
    ensures
        iabs(dragged_vel(vel, drag, dt)) <= iabs(vel),
        in_range(dragged_vel(vel, drag, dt)),
{
    lemma_drag_factor_in_band(drag, dt);
    let f = drag_factor(drag, dt);
    assert(iabs(vel * f) <= iabs(vel) * (SCALE as int)) by (nonlinear_arith)
        requires
            0 <= f <= SCALE as int,
    ;
    lemma_div_trunc_bound(vel * f, SCALE as int, iabs(vel));
}

impl Simulation {
    /// Advance the simulation by one unit of time, in `substeps_of`
    /// fixed-size sub-steps. Fixed particles, the link table and the
    /// configuration are untouched.
    pub fn advance(&mut self)
        requires
            old(self).wf(),
        ensures
            final(self).wf(),
            final(self)@.particles == advanced(old(self)@.particles, old(self)@.config),
            final(self)@.links == old(self)@.links,
            final(self)@.config == old(self)@.config,
    {
        let ghost ps00 = self@.particles;
        let ghost c = self@.config;
        let n_sub: i128 = div_q(SCALE, self.config.time_step);
        proof {
            vstd::arithmetic::div_mod::lemma_div_pos_is_pos(SCALE as int, c.time_step);
        }
        let mut s: i128 = 0;
        while s < n_sub
            invariant
                0 <= s as int <= substeps_of(c),
                n_sub as int == substeps_of(c),
                config_ok(c),
                self.config@ == c,
                self.links@ == old(self).links@,
                particles_ok(pstates(self.particles@)),
                self.particles@.len() == ps00.len(),
                pstates(self.particles@) == advance_upto(ps00, c, s as int),
            decreases n_sub as int - s as int,
        {
            self.substep();
            proof {
                assert(pstates(self.particles@) == advance_upto(ps00, c, s as int + 1));
            }
            s = s + 1;
        }
    }

    /// One integration sub-step over the whole particle store.
    fn substep(&mut self)
        requires
            particles_ok(pstates(old(self).particles@)),
            config_ok(old(self).config@),
        ensures
            particles_ok(pstates(final(self).particles@)),
            pstates(final(self).particles@) == substep_all(
                pstates(old(self).particles@),
                old(self).config@,
            ),
            final(self).links@ == old(self).links@,
            final(self).config == old(self).config,
    {
        let ghost ps0 = pstates(self.particles@);
        let ghost c = self.config@;
        let dt: i128 = self.config.time_step;
        let drag_f: i128 = SCALE - mul_scale(self.config.drag, dt);
        proof {
            lemma_drag_factor_in_band(c.drag, c.time_step);
        }
        let n = self.particles.len();
        let mut i: usize = 0;
        while i < n
            invariant
                n == self.particles@.len(),
                i <= n,
                config_ok(c),
                self.config@ == c,
                dt as int == c.time_step,
                drag_f as int == drag_factor(c.drag, c.time_step),
                0 <= drag_f as int <= SCALE as int,
                self.links@ == old(self).links@,
                self.config == old(self).config,
                ps0 == pstates(old(self).particles@),
                ps0.len() == n,
                forall|j: int| 0 <= j < n ==> particle_ok(#[trigger] ps0[j]),
                forall|j: int| i <= j < n ==> #[trigger] self.particles@[j]@ == ps0[j],
                forall|j: int|
                    0 <= j < i ==> #[trigger] self.particles@[j]@ == substep_particle(ps0[j], c),
            decreases n - i,
        {
            let p = self.particles[i];
            assert(p@ == ps0[i as int]);
            if !p.fixed {
                let cand_x = sat(p.pos.x + mul_scale(p.vel.x, dt));
                let cand_y = sat(p.pos.y + mul_scale(p.vel.y, dt));
                let coll_x = abs_i128(cand_x) + p.half_extent.x > self.config.world_half.x;
                let coll_y = abs_i128(cand_y) + p.half_extent.y > self.config.world_half.y;
                let npx: i128 = if coll_x {
                    p.pos.x
                } else {
                    cand_x
                };
                let npy: i128 = if coll_y {
                    p.pos.y
                } else {
                    cand_y
                };
                let vx1: i128 = if coll_x {
                    mul_scale(-p.vel.x, self.config.restitution)
                } else {
                    p.vel.x
                };
                let vy1: i128 = if coll_y {
                    mul_scale(-p.vel.y, self.config.restitution)
                } else {
                    p.vel.y
                };
                let vx2 = mul_scale(vx1, drag_f);
                let vy2 = mul_scale(vy1, drag_f);
                let vx3 = sat(vx2 + p.acc.x);
                let vy3 = sat(vy2 + p.acc.y);
                let np = Particle {
                    pos: Vec2 { x: npx, y: npy },
                    vel: Vec2 { x: vx3, y: vy3 },
                    acc: p.acc,
                    half_extent: p.half_extent,
                    fixed: p.fixed,
                };
                self.particles[i] = np;
                assert(np@ == substep_particle(ps0[i as int], c));
            } else {
                assert(p@ == substep_particle(ps0[i as int], c));
            }
            i += 1;
        }
        proof {
            assert forall|j: int| 0 <= j < n implies #[trigger] pstates(self.particles@)[j]
                == substep_all(ps0, c)[j] by {
                assert(pstates(self.particles@)[j] == self.particles@[j]@);
            }
            assert(pstates(self.particles@) =~= substep_all(ps0, c));
            assert forall|j: int| 0 <= j < n implies particle_ok(
                #[trigger] pstates(self.particles@)[j],
            ) by {
                lemma_substep_particle_ok(ps0[j], c);
            }
        }
    }
}

} // verus!
