//! The particle store, the link table, the world configuration, and the
//! validating constructor of a simulation.
//!
//! Particles are identified by their index in the store; a link is a
//! symmetric distance constraint between an owning particle and one
//! other particle. Construction rejects malformed scenes: a link that
//! names a missing particle, a self-link, and out-of-band scalars.

use vstd::prelude::*;
use crate::fixed::{in_range, SAT_MAX, SCALE};

verus! {

/// A two-component fixed-point vector (sub-unit scalars).
#[derive(Clone, Copy, PartialEq, Eq, Structural, Debug)]
pub struct Vec2 {
    pub x: i128,
    pub y: i128,
}

/// The mathematical value of a `Vec2`.
pub ghost struct V2S {
    pub x: int,
    pub y: int,
}

impl View for Vec2 {
    type V = V2S;

    open spec fn view(&self) -> V2S {
        V2S { x: self.x as int, y: self.y as int }
    }
}

/// A point mass: kinematic state plus its collision half-extent and an
/// anchor flag. A fixed particle is never moved by the simulation.
#[derive(Clone, Copy, PartialEq, Eq, Structural, Debug)]
pub struct Particle {
    pub pos: Vec2,
    pub vel: Vec2,
    pub acc: Vec2,
    pub half_extent: Vec2,
    pub fixed: bool,
}

/// The mathematical value of a `Particle`.
pub ghost struct PState {
    pub pos: V2S,
    pub vel: V2S,
    pub acc: V2S,
    pub half_extent: V2S,
    pub fixed: bool,
}

impl View for Particle {
    type V = PState;

    open spec fn view(&self) -> PState {
        PState {
            pos: self.pos@,
            vel: self.vel@,
            acc: self.acc@,
            half_extent: self.half_extent@,
            fixed: self.fixed,
        }
    }
}

/// A distance constraint: the owning particle is pulled toward keeping
/// `rest_length` between itself and `other`.
#[derive(Clone, Copy, PartialEq, Eq, Structural, Debug)]
pub struct Link {
    pub owner: usize,
    pub other: usize,
    pub rest_length: i128,
}

/// The mathematical value of a `Link`.
pub ghost struct LState {
    pub owner: int,
    pub other: int,
    pub rest_length: int,
}

impl View for Link {
    type V = LState;

    open spec fn view(&self) -> LState {
        LState {
            owner: self.owner as int,
            other: self.other as int,
            rest_length: self.rest_length as int,
        }
    }
}

/// World parameters: the rectangular world's half-extents, the
/// integration time step, the drag coefficient and the boundary
/// restitution coefficient (the last three in fixed-point, `SCALE`
/// standing for one).
#[derive(Clone, Copy, PartialEq, Eq, Structural, Debug)]
pub struct Config {
    pub world_half: Vec2,
    pub time_step: i128,
    pub drag: i128,
    pub restitution: i128,
}

/// The mathematical value of a `Config`.
pub ghost struct CState {
    pub world_half: V2S,
    pub time_step: int,
    pub drag: int,
    pub restitution: int,
}

impl View for Config {
    type V = CState;

    open spec fn view(&self) -> CState {
        CState {
            world_half: self.world_half@,
            time_step: self.time_step as int,
            drag: self.drag as int,
            restitution: self.restitution as int,
        }
    }
}

/// Why a scene was rejected at construction.
#[derive(Clone, Copy, PartialEq, Eq, Structural, Debug)]
pub enum SimError {
    /// A configuration scalar is outside its accepted band.
    InvalidConfig,
    /// A particle scalar is outside the stored band, or a half-extent
    /// is negative.
    InvalidParticle,
    /// A link names a particle index that does not exist.
    MissingParticle,
    /// A link connects a particle to itself.
    SelfLink,
    /// A link's rest length is negative or outside the stored band.
    InvalidRestLength,
}

/// Both components of a vector lie in the stored band.
pub open spec fn v2_in_range(v: V2S) -> bool {
    in_range(v.x) && in_range(v.y)
}

/// Every scalar of the particle is stored-band; half-extents are
/// non-negative.
pub open spec fn particle_ok(p: PState) -> bool {
    v2_in_range(p.pos) && v2_in_range(p.vel) && v2_in_range(p.acc) && v2_in_range(p.half_extent)
        && 0 <= p.half_extent.x && 0 <= p.half_extent.y
}

/// The configuration bands: a positive time step of at most one unit of
/// time, and drag and restitution coefficients between zero and one.
pub open spec fn config_ok(c: CState) -> bool {
    0 <= c.world_half.x && c.world_half.x <= SAT_MAX as int && 0 <= c.world_half.y
        && c.world_half.y <= SAT_MAX as int && 1 <= c.time_step && c.time_step <= SCALE as int && 0
        <= c.drag && c.drag <= SCALE as int && 0 <= c.restitution && c.restitution <= SCALE as int
}

/// A link is valid for a store of `n` particles.
pub open spec fn link_ok(l: LState, n: int) -> bool {
    0 <= l.owner && l.owner < n && 0 <= l.other && l.other < n && l.owner != l.other && 0
        <= l.rest_length && l.rest_length <= SAT_MAX as int
}

/// The mathematical values of a particle store.
pub open spec fn pstates(ps: Seq<Particle>) -> Seq<PState> {
    ps.map_values(|p: Particle| p@)
}

/// The mathematical values of a link table.
pub open spec fn lstates(ls: Seq<Link>) -> Seq<LState> {
    ls.map_values(|l: Link| l@)
}

/// Every particle of the store is valid.
pub open spec fn particles_ok(ps: Seq<PState>) -> bool {
    forall|i: int| 0 <= i < ps.len() ==> particle_ok(#[trigger] ps[i])
}

/// Every link of the table is valid for a store of `n` particles.
pub open spec fn links_ok(ls: Seq<LState>, n: int) -> bool {
    forall|i: int| 0 <= i < ls.len() ==> link_ok(#[trigger] ls[i], n)
}

/// A whole scene is valid.
pub open spec fn scene_ok(ps: Seq<PState>, ls: Seq<LState>, c: CState) -> bool {
    config_ok(c) && particles_ok(ps) && links_ok(ls, ps.len() as int)
}

/// The rejection reported for one invalid link.
pub open spec fn link_error(l: LState, n: int) -> SimError {
    if !(0 <= l.owner && l.owner < n && 0 <= l.other && l.other < n) {
        SimError::MissingParticle
    } else if l.owner == l.other {
        SimError::SelfLink
    } else {
        SimError::InvalidRestLength
    }
}

/// The rejection reported for the first invalid link at or after `k`.
pub open spec fn first_link_error_from(ls: Seq<LState>, n: int, k: int) -> SimError
    decreases ls.len() - k,
{
    if k < 0 || k >= ls.len() {
        SimError::MissingParticle
    } else if !link_ok(ls[k], n) {
        link_error(ls[k], n)
    } else {
        first_link_error_from(ls, n, k + 1)
    }
}

/// The rejection a whole invalid scene is answered with: the
/// configuration is checked first, then every particle, then each link
/// in table order.
pub open spec fn scene_error(ps: Seq<PState>, ls: Seq<LState>, c: CState) -> SimError {
    if !config_ok(c) {
        SimError::InvalidConfig
    } else if !particles_ok(ps) {
        SimError::InvalidParticle
    } else {
        first_link_error_from(ls, ps.len() as int, 0)
    }
}

proof fn lemma_first_link_error_from(ls: Seq<LState>, n: int, j: int, k: int)
    requires
        0 <= j <= k < ls.len(),
        forall|i: int| j <= i < k ==> link_ok(#[trigger] ls[i], n),
        !link_ok(ls[k], n),
    ensures
        first_link_error_from(ls, n, j) == link_error(ls[k], n),
    decreases k - j,
{
    if j < k {
        lemma_first_link_error_from(ls, n, j + 1, k);
    }
}

/// The simulation: a particle store, a link table and the world
/// configuration.
pub struct Simulation {
    pub particles: Vec<Particle>,
    pub links: Vec<Link>,
    pub config: Config,
}

/// The mathematical value of a `Simulation`.
pub ghost struct SimState {
    pub particles: Seq<PState>,
    pub links: Seq<LState>,
    pub config: CState,
}

impl View for Simulation {
    type V = SimState;

    open spec fn view(&self) -> SimState {
        SimState {
            particles: pstates(self.particles@),
            links: lstates(self.links@),
            config: self.config@,
        }
    }
}

/// The particle's scalars all lie in the stored band.
fn particle_in_band(p: &Particle) -> (b: bool)
    ensures
        b == particle_ok(p@),
{
    p.pos.x >= -SAT_MAX && p.pos.x <= SAT_MAX && p.pos.y >= -SAT_MAX && p.pos.y <= SAT_MAX
        && p.vel.x >= -SAT_MAX && p.vel.x <= SAT_MAX && p.vel.y >= -SAT_MAX && p.vel.y <= SAT_MAX
        && p.acc.x >= -SAT_MAX && p.acc.x <= SAT_MAX && p.acc.y >= -SAT_MAX && p.acc.y <= SAT_MAX
        && p.half_extent.x >= 0 && p.half_extent.x <= SAT_MAX && p.half_extent.y >= 0
        && p.half_extent.y <= SAT_MAX
}

impl Simulation {
    /// The simulation's stored state is a valid scene.
    pub open spec fn wf(&self) -> bool {
        scene_ok(self@.particles, self@.links, self@.config)
    }

    /// Build a simulation from initial scene data, rejecting malformed
    /// scenes: construction succeeds exactly on valid ones, and an
    /// invalid scene is answered with the error `scene_error` names.
    pub fn new(particles: Vec<Particle>, links: Vec<Link>, config: Config) -> (r: Result<
        Simulation,
        SimError,
    >)
        ensures
            r is Ok <==> scene_ok(pstates(particles@), lstates(links@), config@),
            r matches Ok(w) ==> w@.particles == pstates(particles@) && w@.links == lstates(links@)
                && w@.config == config@ && w.wf(),
            r matches Err(e) ==> e == scene_error(pstates(particles@), lstates(links@), config@),
    {
        if !(config.time_step >= 1 && config.time_step <= SCALE && config.drag >= 0 && config.drag
            <= SCALE && config.restitution >= 0 && config.restitution <= SCALE
            && config.world_half.x >= 0 && config.world_half.x <= SAT_MAX && config.world_half.y
            >= 0 && config.world_half.y <= SAT_MAX) {
            return Err(SimError::InvalidConfig);
        }
        let n = particles.len();
        let mut i: usize = 0;
        while i < n
            invariant
                n == particles@.len(),
                i <= n,
                config_ok(config@),
                forall|j: int| 0 <= j < i ==> particle_ok(#[trigger] pstates(particles@)[j]),
            decreases n - i,
        {
            if !particle_in_band(&particles[i]) {
                assert(!particle_ok(pstates(particles@)[i as int]));
                return Err(SimError::InvalidParticle);
            }
            assert(particle_ok(pstates(particles@)[i as int]));
            i += 1;
        }
        assert(particles_ok(pstates(particles@)));
        let m = links.len();
        let mut k: usize = 0;
        while k < m
            invariant
                m == links@.len(),
                n == particles@.len(),
                k <= m,
                config_ok(config@),
                particles_ok(pstates(particles@)),
                forall|j: int| 0 <= j < k ==> link_ok(#[trigger] lstates(links@)[j], n as int),
            decreases m - k,
        {
            let l = links[k];
            assert(lstates(links@)[k as int] == l@);
            if l.owner >= n || l.other >= n {
                proof {
                    lemma_first_link_error_from(lstates(links@), n as int, 0, k as int);
                }
                return Err(SimError::MissingParticle);
            }
            if l.owner == l.other {
                proof {
                    lemma_first_link_error_from(lstates(links@), n as int, 0, k as int);
                }
                return Err(SimError::SelfLink);
            }
            if l.rest_length < 0 || l.rest_length > SAT_MAX {
                proof {
                    lemma_first_link_error_from(lstates(links@), n as int, 0, k as int);
                }
                return Err(SimError::InvalidRestLength);
            }
            assert(link_ok(lstates(links@)[k as int], n as int));
            k += 1;
        }
        assert(links_ok(lstates(links@), n as int));
        Ok(Simulation { particles, links, config })
    }

    /// How many particles the store holds.
    pub fn particle_count(&self) -> (r: usize)
        ensures
            r == self@.particles.len(),
    {
        self.particles.len()
    }

    /// How many links the table holds.
    pub fn link_count(&self) -> (r: usize)
        ensures
            r == self@.links.len(),
    {
        self.links.len()
    }

    /// The per-step output for a renderer: every particle's current
    /// position, in store order.
    pub fn positions(&self) -> (r: Vec<Vec2>)
        ensures
            r@.len() == self@.particles.len(),
            forall|i: int| 0 <= i < r@.len() ==> #[trigger] r@[i]@ == self@.particles[i].pos,
    {
        let n = self.particles.len();
        let mut out: Vec<Vec2> = Vec::new();
        let mut i: usize = 0;
        while i < n
            invariant
                n == self.particles@.len(),
                i <= n,
                out@.len() == i,
                forall|j: int| 0 <= j < i ==> #[trigger] out@[j]@ == pstates(self.particles@)[j].pos,
            decreases n - i,
        {
            out.push(self.particles[i].pos);
            i += 1;
        }
        out
    }

    /// Read one particle's current state.
    pub fn particle(&self, i: usize) -> (p: Particle)
        requires
            i < self@.particles.len(),
        ensures
            p@ == self@.particles[i as int],
    {
        self.particles[i]
    }
}

} // verus!
