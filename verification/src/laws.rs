//! Laws of the simulation, stated and proved over the step models.

use vstd::prelude::*;
use crate::fixed::{iabs, lemma_mul_scale_identity, mul_scale_s, sat_s, SAT_MAX, SCALE};
use crate::integrator::{advance_upto, advanced, axis_collides, substep_particle, substeps_of};
use crate::solver::{apply_link, relax_upto, relaxed, stepped};
use crate::state::{config_ok, particle_ok, CState, LState, PState};

verus! {

/// The store after `n` whole simulation steps.
pub open spec fn run_steps(ps: Seq<PState>, ls: Seq<LState>, c: CState, n: nat) -> Seq<PState>
    decreases n,
{
    if n == 0 {
        ps
    } else {
        stepped(run_steps(ps, ls, c, (n - 1) as nat), ls, c)
    }
}

/// The integrator's sub-steps keep the store's length.
pub proof fn lemma_advance_upto_len(ps: Seq<PState>, c: CState, k: int)
    ensures
        advance_upto(ps, c, k).len() == ps.len(),
    decreases k,
{
    if k > 0 {
        lemma_advance_upto_len(ps, c, k - 1);
    }
}

/// A link's relaxation keeps the store's length.
pub proof fn lemma_apply_link_len(ps: Seq<PState>, l: LState)
    ensures
        apply_link(ps, l).len() == ps.len(),
{
}

/// A relaxation pass keeps the store's length.
pub proof fn lemma_relax_upto_len(ps: Seq<PState>, ls: Seq<LState>, k: int)
    ensures
        relax_upto(ps, ls, k).len() == ps.len(),
    decreases k,
{
    if k > 0 {
        lemma_relax_upto_len(ps, ls, k - 1);
        lemma_apply_link_len(relax_upto(ps, ls, k - 1), ls[k - 1]);
    }
}

/// Whole steps keep the store's length.
pub proof fn lemma_run_steps_len(ps: Seq<PState>, ls: Seq<LState>, c: CState, n: nat)
    ensures
        run_steps(ps, ls, c, n).len() == ps.len(),
    decreases n,
{
    if n > 0 {
        lemma_run_steps_len(ps, ls, c, (n - 1) as nat);
        lemma_advance_upto_len(run_steps(ps, ls, c, (n - 1) as nat), c, substeps_of(c));
        lemma_relax_upto_len(
            advanced(run_steps(ps, ls, c, (n - 1) as nat), c),
            ls,
            ls.len() as int,
        );
    }
}

/// The integrator never touches a fixed particle.
pub proof fn lemma_advance_upto_fixed(ps: Seq<PState>, c: CState, k: int, i: int)
    requires
        0 <= i < ps.len(),
        ps[i].fixed,
    ensures
        advance_upto(ps, c, k)[i] == ps[i],
    decreases k,
{
    if k > 0 {
        lemma_advance_upto_fixed(ps, c, k - 1, i);
        lemma_advance_upto_len(ps, c, k - 1);
    }
}

/// A link's relaxation never touches a fixed particle.
pub proof fn lemma_apply_link_fixed(ps: Seq<PState>, l: LState, i: int)
    requires
        0 <= i < ps.len(),
        ps[i].fixed,
    ensures
        apply_link(ps, l)[i] == ps[i],
{
}

/// A relaxation pass never touches a fixed particle.
pub proof fn lemma_relax_upto_fixed(ps: Seq<PState>, ls: Seq<LState>, k: int, i: int)
    requires
        0 <= i < ps.len(),
        ps[i].fixed,
    ensures
        relax_upto(ps, ls, k)[i] == ps[i],
    decreases k,
{
    if k > 0 {
        lemma_relax_upto_fixed(ps, ls, k - 1, i);
        lemma_relax_upto_len(ps, ls, k - 1);
        lemma_apply_link_fixed(relax_upto(ps, ls, k - 1), ls[k - 1], i);
    }
}

/// The fixed-particle invariant: a particle with `fixed` set holds
/// exactly the same position, velocity — indeed the same whole state —
/// after any number of simulation steps.
pub proof fn lemma_fixed_particles_invariant(
    ps: Seq<PState>,
    ls: Seq<LState>,
    c: CState,
    n: nat,
    i: int,
)
    requires
        0 <= i < ps.len(),
        ps[i].fixed,
    ensures
        run_steps(ps, ls, c, n)[i] == ps[i],
    decreases n,
{
    if n > 0 {
        let prev = run_steps(ps, ls, c, (n - 1) as nat);
        lemma_fixed_particles_invariant(ps, ls, c, (n - 1) as nat, i);
        lemma_run_steps_len(ps, ls, c, (n - 1) as nat);
        lemma_advance_upto_fixed(prev, c, substeps_of(c), i);
        lemma_advance_upto_len(prev, c, substeps_of(c));
        lemma_relax_upto_fixed(advanced(prev, c), ls, ls.len() as int, i);
    }
}

/// A particle's extent stays inside the world's half-extent on an axis.
pub open spec fn axis_contained(pos: int, he: int, wh: int) -> bool {
    iabs(pos) + he <= wh
}

/// The particle's rectangle lies inside the world rectangle.
pub open spec fn contained(p: PState, c: CState) -> bool {
    axis_contained(p.pos.x, p.half_extent.x, c.world_half.x) && axis_contained(
        p.pos.y,
        p.half_extent.y,
        c.world_half.y,
    )
}

/// One integrator sub-step keeps a contained particle contained: a
/// candidate position past the boundary is cancelled, any other is
/// itself contained.
pub proof fn lemma_substep_contained(p: PState, c: CState)
    requires
        contained(p, c),
    ensures
        contained(substep_particle(p, c), c),
{
}

/// The integrator keeps every contained non-fixed particle contained,
/// over any number of sub-steps; fixed particles are untouched.
pub proof fn lemma_advance_upto_contained(ps: Seq<PState>, c: CState, k: int)
    requires
        forall|i: int| 0 <= i < ps.len() && !ps[i].fixed ==> contained(#[trigger] ps[i], c),
    ensures
        forall|i: int|
            0 <= i < ps.len() && !ps[i].fixed ==> contained(
                #[trigger] advance_upto(ps, c, k)[i],
                c,
            ),
        forall|i: int|
            0 <= i < ps.len() ==> #[trigger] advance_upto(ps, c, k)[i].fixed == ps[i].fixed,
    decreases k,
{
    if k > 0 {
        lemma_advance_upto_contained(ps, c, k - 1);
        lemma_advance_upto_len(ps, c, k - 1);
        let prev = advance_upto(ps, c, k - 1);
        assert forall|i: int| 0 <= i < ps.len() && !ps[i].fixed implies contained(
            #[trigger] advance_upto(ps, c, k)[i],
            c,
        ) by {
            lemma_substep_contained(prev[i], c);
        }
    }
}

/// Boundary containment: in a simulation without links, a non-fixed
/// particle whose rectangle starts inside the world rectangle stays
/// inside it over any number of whole steps. (A link's correction is
/// not boundary-checked, so the law is stated of link-free stores.)
pub proof fn lemma_boundary_containment(ps: Seq<PState>, ls: Seq<LState>, c: CState, n: nat)
    requires
        ls.len() == 0,
        forall|i: int| 0 <= i < ps.len() && !ps[i].fixed ==> contained(#[trigger] ps[i], c),
    ensures
        forall|i: int|
            0 <= i < ps.len() && !ps[i].fixed ==> contained(
                #[trigger] run_steps(ps, ls, c, n)[i],
                c,
            ),
        forall|i: int|
            0 <= i < ps.len() ==> #[trigger] run_steps(ps, ls, c, n)[i].fixed == ps[i].fixed,
    decreases n,
{
    if n > 0 {
        lemma_boundary_containment(ps, ls, c, (n - 1) as nat);
        let prev = run_steps(ps, ls, c, (n - 1) as nat);
        lemma_run_steps_len(ps, ls, c, (n - 1) as nat);
        lemma_advance_upto_contained(prev, c, substeps_of(c));
        lemma_advance_upto_len(prev, c, substeps_of(c));
    }
}

/// Link order determinism: a relaxation pass is a pure function of the
/// particle store and the link table in its stored order — two runs
/// from the same state give the same result; no unspecified ordering
/// enters.
pub proof fn lemma_relax_deterministic(
    ps1: Seq<PState>,
    ls1: Seq<LState>,
    ps2: Seq<PState>,
    ls2: Seq<LState>,
)
    requires
        ps1 == ps2,
        ls1 == ls2,
    ensures
        relaxed(ps1, ls1) == relaxed(ps2, ls2),
{
}

/// Degenerate distance: a link whose endpoints coincide is skipped by
/// the relaxation pass — the store is returned unchanged, no scalar is
/// disturbed.
pub proof fn lemma_coincident_link_skipped(ps: Seq<PState>, l: LState)
    requires
        0 <= l.owner < ps.len(),
        0 <= l.other < ps.len(),
        l.owner != l.other,
        ps[l.owner].pos == ps[l.other].pos,
    ensures
        apply_link(ps, l) == ps,
{
}

/// The trajectory of one particle alone under the integrator's
/// sub-steps.
pub open spec fn traj(p: PState, c: CState, n: nat) -> PState
    decreases n,
{
    if n == 0 {
        p
    } else {
        substep_particle(traj(p, c, (n - 1) as nat), c)
    }
}

/// The integrator has no inter-particle coupling: each particle's state
/// after `k` sub-steps is its own trajectory, whatever the rest of the
/// store holds.
pub proof fn lemma_advance_no_coupling(ps: Seq<PState>, c: CState, k: int, i: int)
    requires
        0 <= i < ps.len(),
        0 <= k,
    ensures
        advance_upto(ps, c, k)[i] == traj(ps[i], c, k as nat),
    decreases k,
{
    if k > 0 {
        lemma_advance_no_coupling(ps, c, k - 1, i);
        lemma_advance_upto_len(ps, c, k - 1);
    }
}

/// The sub-steps leave a particle's acceleration, extent and anchor
/// flag alone.
pub proof fn lemma_traj_statics(p: PState, c: CState, n: nat)
    ensures
        traj(p, c, n).fixed == p.fixed,
        traj(p, c, n).acc == p.acc,
        traj(p, c, n).half_extent == p.half_extent,
    decreases n,
{
    if n > 0 {
        lemma_traj_statics(p, c, (n - 1) as nat);
    }
}

/// Positions accumulated by a constant-acceleration sequence: the sum
/// of the per-sub-step movements of a velocity that grows by `a` each
/// sub-step.
pub open spec fn free_pos_sum(v0: int, a: int, dt: int, n: nat) -> int
    decreases n,
{
    if n == 0 {
        0
    } else {
        free_pos_sum(v0, a, dt, (n - 1) as nat) + mul_scale_s(v0 + (n - 1) * a, dt)
    }
}

/// The accumulated movement is bounded by the largest velocity reached.
proof fn lemma_free_pos_sum_bound(v0: int, a: int, dt: int, n: nat)
    requires
        0 <= dt <= SCALE as int,
    ensures
        iabs(free_pos_sum(v0, a, dt, n)) <= n * (iabs(v0) + n * iabs(a)),
    decreases n,
{
    if n > 0 {
        let m = (n - 1) as nat;
        lemma_free_pos_sum_bound(v0, a, dt, m);
        crate::fixed::lemma_mul_scale_mag(v0 + m * a, dt);
        assert(iabs(m * a) == m * iabs(a)) by (nonlinear_arith)
            requires
                0 <= m,
        ;
        assert(m * (iabs(v0) + m * iabs(a)) + (iabs(v0) + m * iabs(a)) <= n * (iabs(v0) + n * iabs(
            a,
        ))) by (nonlinear_arith)
            requires
                m == n - 1,
                0 <= m,
                0 <= iabs(v0),
                0 <= iabs(a),
        ;
    }
}

/// Momentum consistency: a free particle (not fixed, no links, zero
/// drag) that never meets the boundary gains exactly its constant
/// acceleration in velocity each sub-step, and moves by the closed-form
/// constant-acceleration sum — provided its scalars stay far enough
/// from the saturation band.
pub proof fn lemma_free_particle_motion(p: PState, c: CState, n: nat)
    requires
        config_ok(c),
        particle_ok(p),
        !p.fixed,
        c.drag == 0,
        iabs(p.vel.x) + n * iabs(p.acc.x) <= SAT_MAX as int,
        iabs(p.vel.y) + n * iabs(p.acc.y) <= SAT_MAX as int,
        iabs(p.pos.x) + n * (iabs(p.vel.x) + n * iabs(p.acc.x)) <= SAT_MAX as int,
        iabs(p.pos.y) + n * (iabs(p.vel.y) + n * iabs(p.acc.y)) <= SAT_MAX as int,
        forall|k: nat|
            k < n ==> !axis_collides(
                #[trigger] traj(p, c, k).pos.x,
                traj(p, c, k).vel.x,
                p.half_extent.x,
                c.world_half.x,
                c.time_step,
            ),
        forall|k: nat|
            k < n ==> !axis_collides(
                #[trigger] traj(p, c, k).pos.y,
                traj(p, c, k).vel.y,
                p.half_extent.y,
                c.world_half.y,
                c.time_step,
            ),
    ensures
        traj(p, c, n).vel.x == p.vel.x + n * p.acc.x,
        traj(p, c, n).vel.y == p.vel.y + n * p.acc.y,
        traj(p, c, n).pos.x == p.pos.x + free_pos_sum(p.vel.x, p.acc.x, c.time_step, n),
        traj(p, c, n).pos.y == p.pos.y + free_pos_sum(p.vel.y, p.acc.y, c.time_step, n),
    decreases n,
{
    if n > 0 {
        let m = (n - 1) as nat;
        assert(m * iabs(p.acc.x) <= n * iabs(p.acc.x) && m * iabs(p.acc.y) <= n * iabs(p.acc.y)
            && m * (iabs(p.vel.x) + m * iabs(p.acc.x)) <= n * (iabs(p.vel.x) + n * iabs(p.acc.x))
            && m * (iabs(p.vel.y) + m * iabs(p.acc.y)) <= n * (iabs(p.vel.y) + n * iabs(p.acc.y))
            && m * iabs(p.acc.x) + iabs(p.acc.x) == n * iabs(p.acc.x) && m * iabs(p.acc.y) + iabs(
            p.acc.y,
        ) == n * iabs(p.acc.y) && m * (iabs(p.vel.x) + m * iabs(p.acc.x)) + (iabs(p.vel.x) + m
            * iabs(p.acc.x)) <= n * (iabs(p.vel.x) + n * iabs(p.acc.x)) && m * (iabs(p.vel.y) + m
            * iabs(p.acc.y)) + (iabs(p.vel.y) + m * iabs(p.acc.y)) <= n * (iabs(p.vel.y) + n * iabs(
            p.acc.y,
        ))) by (nonlinear_arith)
            requires
                m == n - 1,
                0 <= m,
                0 <= iabs(p.acc.x),
                0 <= iabs(p.acc.y),
                0 <= iabs(p.vel.x),
                0 <= iabs(p.vel.y),
        ;
        lemma_free_particle_motion(p, c, m);
        lemma_traj_statics(p, c, m);
        let q = traj(p, c, m);
        assert(iabs(m * p.acc.x) == m * iabs(p.acc.x) && iabs(m * p.acc.y) == m * iabs(p.acc.y))
            by (nonlinear_arith)
            requires
                0 <= m,
        ;
        assert(iabs(q.vel.x) <= iabs(p.vel.x) + m * iabs(p.acc.x));
        assert(iabs(q.vel.y) <= iabs(p.vel.y) + m * iabs(p.acc.y));
        lemma_free_pos_sum_bound(p.vel.x, p.acc.x, c.time_step, m);
        lemma_free_pos_sum_bound(p.vel.y, p.acc.y, c.time_step, m);
        crate::fixed::lemma_mul_scale_mag(q.vel.x, c.time_step);
        crate::fixed::lemma_mul_scale_mag(q.vel.y, c.time_step);
        // no collision at sub-step m, so the candidate position commits
        assert(!axis_collides(q.pos.x, q.vel.x, p.half_extent.x, c.world_half.x, c.time_step));
        assert(!axis_collides(q.pos.y, q.vel.y, p.half_extent.y, c.world_half.y, c.time_step));
        // zero drag leaves the velocity untouched
        lemma_mul_scale_identity(q.vel.x);
        lemma_mul_scale_identity(q.vel.y);
        // the saturating operations act as exact arithmetic here
        assert(sat_s(q.pos.x + mul_scale_s(q.vel.x, c.time_step)) == q.pos.x + mul_scale_s(
            q.vel.x,
            c.time_step,
        ));
        assert(sat_s(q.pos.y + mul_scale_s(q.vel.y, c.time_step)) == q.pos.y + mul_scale_s(
            q.vel.y,
            c.time_step,
        ));
        assert(sat_s(q.vel.x + p.acc.x) == q.vel.x + p.acc.x);
        assert(sat_s(q.vel.y + p.acc.y) == q.vel.y + p.acc.y);
        assert(traj(p, c, n).vel.x == q.vel.x + p.acc.x);
        assert(q.vel.x + p.acc.x == p.vel.x + n * p.acc.x) by (nonlinear_arith)
            requires
                q.vel.x == p.vel.x + (n - 1) * p.acc.x,
        ;
        assert(q.vel.y + p.acc.y == p.vel.y + n * p.acc.y) by (nonlinear_arith)
            requires
                q.vel.y == p.vel.y + (n - 1) * p.acc.y,
        ;
    }
}

} // verus!
