//! The detector and gain stage that the dynamics processors share.

use crate::contract::block::IoMode;
use crate::contract::context::SubBlock;
use crate::contract::error::DspError;
use crate::contract::param::{conventional, ParamId, ParamInfo, Unit};
use crate::contract::spec::ProcessSpec;
use crate::contract::traits::{column, key_column, model_after, rendered, FrameModel};
use crate::dsp::lanes::{lemma_frames_are_mapped, map_run, mapped_run};
use crate::dsp::sanitize::{
    finite_or_zero, flush_denormal, flushed, lemma_flushing_keeps, sane,
};
use crate::number::{
    at_most, exact, larger, lemma_compare, lemma_readings, max_of, nil, ordered, size, unit, Order,
    Real, Sample,
};
use vstd::prelude::*;

verus! {

/// Number of the id of the ratio. Dynamics processors declare the threshold
/// first and the ratio second.
pub const CONTROL_A: u32 = 1;

/// The level below which expansion curves are not evaluated.
pub open spec fn env_floor<R: Real>() -> R {
    R::decimal_of(1, -10)
}

/// The one-pole coefficient of a time constant of `ms` at `fs`.
pub open spec fn one_pole<R: Real>(ms: R, fs: R) -> R {
    if ms.alike(nil()) {
        unit()
    } else {
        unit::<R>().diff(
            R::decimal_of(-1, 0).quot(ms.prod(R::decimal_of(1, -3)).prod(fs)).exponential(),
        )
    }
}

/// One-pole coefficient for a time constant of `ms` milliseconds at the sample
/// rate `fs`.
pub fn one_pole_coeff<R: Real>(ms: R, fs: R) -> (r: R)
    ensures
        r == one_pole(ms, fs),
{
    if ms.equals(R::zero()) {
        R::one()
    } else {
        let samples = ms.times(R::decimal(1, -3)).times(fs);
        R::one().minus(R::decimal(-1, 0).over(samples).exp())
    }
}

/// A dB-domain control.
pub open spec fn db_control<R: Real>(
    id: u32,
    name: &'static str,
    range: (R, R),
    default: R,
) -> ParamInfo<R> {
    conventional(ParamId(id), name, range, default, Unit::Db)
}

/// Declare a dB-domain control.
pub fn db_param<R: Real>(
    id: u32,
    name: &'static str,
    range: (R, R),
    default: R,
) -> (r: ParamInfo<R>)
    ensures
        r == db_control(id, name, range, default),
{
    ParamInfo::new(ParamId(id), name, range, default, Unit::Db)
}

/// The ratio control, from 1 to 20.
pub open spec fn ratio_control<R: Real>(default: R) -> ParamInfo<R> {
    conventional(
        ParamId(CONTROL_A),
        "ratio",
        (unit(), R::decimal_of(20, 0)),
        default,
        Unit::Linear,
    )
}

/// Declare the ratio control.
pub fn ratio_param<R: Real>(default: R) -> (r: ParamInfo<R>)
    ensures
        r == ratio_control(default),
{
    ParamInfo::new(ParamId(CONTROL_A), "ratio", (R::one(), R::decimal(20, 0)), default, Unit::Linear)
}

// ---------------------------------------------------------------------------
// Detection
// ---------------------------------------------------------------------------

/// The state of a dynamics processor.
pub struct DynamicsModel<R> {
    /// Detection reads sidechain bus 0 instead of the main input.
    pub use_sidechain: bool,
    /// Attack coefficient.
    pub atk: R,
    /// Release coefficient.
    pub rel: R,
    /// Linked detection envelope.
    pub env: R,
}

/// The largest magnitude among the first `n` samples of a frame.
pub open spec fn frame_level<T: Sample>(x: Seq<T>, n: nat) -> T::Real
    decreases n,
{
    if n == 0 {
        nil()
    } else {
        larger(frame_level::<T>(x, (n - 1) as nat), sane(x[n - 1].value()).magnitude())
    }
}

/// The frame that detection reads: the key where one is used and has channels.
pub open spec fn detected_frame<T: Sample>(
    use_sidechain: bool,
    x: Seq<T>,
    key: Seq<Seq<T>>,
) -> Seq<T> {
    if use_sidechain && key.len() > 0 && key[0].len() > 0 {
        key[0]
    } else {
        x
    }
}

/// The envelope after a frame of level `level`: attack where it rises, release
/// where it falls.
pub open spec fn followed<R: Real>(m: DynamicsModel<R>, level: R) -> R {
    let coeff = if m.env.below(level) {
        m.atk
    } else {
        m.rel
    };
    flushed(m.env.sum(level.diff(m.env).prod(coeff)))
}

/// The state after a frame.
pub open spec fn dynamics_next<T: Sample>(
    m: DynamicsModel<T::Real>,
    x: Seq<T>,
    key: Seq<Seq<T>>,
) -> DynamicsModel<T::Real> {
    let seen = detected_frame::<T>(m.use_sidechain, x, key);
    DynamicsModel { env: followed(m, frame_level::<T>(seen, seen.len())), ..m }
}

/// The state after `n` frames of a range.
pub open spec fn dynamics_after<T: Sample>(
    m: DynamicsModel<T::Real>,
    x: Seq<Seq<T>>,
    key: Seq<Seq<Seq<T>>>,
    n: nat,
) -> DynamicsModel<T::Real>
    decreases n,
{
    if n == 0 {
        m
    } else {
        dynamics_next::<T>(
            dynamics_after::<T>(m, x, key, (n - 1) as nat),
            column(x, n - 1),
            key_column(key, n - 1),
        )
    }
}

/// The frame `x` scaled by `gain`.
pub open spec fn scaled_frame<T: Sample>(x: Seq<T>, gain: T::Real) -> Seq<T> {
    Seq::new(x.len(), |c: int| T::stored(sane(x[c].value()).prod(gain)))
}

/// The state after a reset.
pub open spec fn dynamics_rest<R: Real>(m: DynamicsModel<R>) -> DynamicsModel<R> {
    DynamicsModel { env: nil(), ..m }
}

/// How preparing is answered.
pub open spec fn dynamics_outcome<R: Real>(attack_ms: R, release_ms: R, spec: ProcessSpec) -> Result<
    (),
    DspError,
> {
    if spec.sample_rate == 0 {
        Err(DspError::UnsupportedSpec("sample rate must be non-zero"))
    } else if !attack_ms.finite() || attack_ms.below(nil()) {
        Err(DspError::InvalidParam("dynamics attack_ms must be finite and non-negative"))
    } else if !release_ms.finite() || release_ms.below(nil()) {
        Err(DspError::InvalidParam("dynamics release_ms must be finite and non-negative"))
    } else {
        Ok(())
    }
}

/// Linked peak detection, attack and release smoothing of the detected level,
/// optional sidechain input, and linked gain application.
#[derive(Clone, Debug)]
pub struct DynamicsCore<T: Sample> {
    pub attack_ms: T::Real,
    pub release_ms: T::Real,
    pub use_sidechain: bool,
    pub fs: T::Real,
    /// Attack coefficient.
    pub atk: T::Real,
    /// Release coefficient.
    pub rel: T::Real,
    /// Linked detection envelope.
    pub env: T::Real,
}

impl<T: Sample> DynamicsCore<T> {
    /// A core as built from these settings and not yet prepared.
    pub open spec fn configured_by(
        &self,
        attack_ms: T::Real,
        release_ms: T::Real,
        use_sidechain: bool,
    ) -> bool {
        *self == (DynamicsCore::<T> {
            attack_ms,
            release_ms,
            use_sidechain,
            fs: nil(),
            atk: nil(),
            rel: nil(),
            env: nil(),
        })
    }

    /// This core prepared for `spec`.
    pub open spec fn readied(&self, spec: ProcessSpec) -> Self {
        let fs = T::Real::natural(spec.sample_rate as u64);
        DynamicsCore {
            fs,
            atk: one_pole(self.attack_ms, fs),
            rel: one_pole(self.release_ms, fs),
            env: nil(),
            ..*self
        }
    }

    /// The state as contracts speak of it.
    pub open spec fn model(&self) -> DynamicsModel<T::Real> {
        DynamicsModel {
            use_sidechain: self.use_sidechain,
            atk: self.atk,
            rel: self.rel,
            env: self.env,
        }
    }

    /// A core with the given times.
    pub fn new(attack_ms: T::Real, release_ms: T::Real, use_sidechain: bool) -> (r: Self)
        ensures
            r.configured_by(attack_ms, release_ms, use_sidechain),
    {
        let zero = T::Real::zero();
        Self { attack_ms, release_ms, use_sidechain, fs: zero, atk: zero, rel: zero, env: zero }
    }

    /// Configure for `spec`.
    pub fn prepare(&mut self, spec: ProcessSpec) -> (r: Result<(), DspError>)
        ensures
            r == dynamics_outcome(old(self).attack_ms, old(self).release_ms, spec),
            r is Err ==> *final(self) == *old(self),
            r is Ok ==> *final(self) == old(self).readied(spec),
    {
        let zero = T::Real::zero();
        if spec.sample_rate == 0 {
            return Err(DspError::UnsupportedSpec("sample rate must be non-zero"));
        }
        if !self.attack_ms.is_finite() || self.attack_ms.less(zero) {
            return Err(
                DspError::InvalidParam("dynamics attack_ms must be finite and non-negative"),
            );
        }
        if !self.release_ms.is_finite() || self.release_ms.less(zero) {
            return Err(
                DspError::InvalidParam("dynamics release_ms must be finite and non-negative"),
            );
        }
        self.fs = T::Real::from_u64(spec.sample_rate as u64);
        self.atk = one_pole_coeff(self.attack_ms, self.fs);
        self.rel = one_pole_coeff(self.release_ms, self.fs);
        self.env = zero;
        Ok(())
    }

    /// Forget the detected level.
    pub fn reset(&mut self)
        ensures
            *final(self) == (DynamicsCore { env: nil::<T::Real>(), ..*old(self) }),
    {
        self.env = T::Real::zero();
    }

    /// The level of frame `i` of a range.
    fn detect(&self, io: &SubBlock<'_, '_, '_, T>, i: usize) -> (r: T::Real)
        requires
            io.wf(),
            io.io.mode() == IoMode::InPlace,
            i < io.len,
        ensures
            ({
                let seen = detected_frame::<T>(
                    self.use_sidechain,
                    column(io.in_run(), i as int),
                    key_column(io.key_run(), i as int),
                );
                r == frame_level::<T>(seen, seen.len())
            }),
    {
        let ghost seen = detected_frame::<T>(
            self.use_sidechain,
            column(io.in_run(), i as int),
            key_column(io.key_run(), i as int),
        );
        let keyed: bool = self.use_sidechain && io.sidechain_buses() > 0
            && io.sidechain_channels(0) > 0;
        let n: usize = if keyed {
            io.sidechain_channels(0)
        } else {
            io.channels()
        };
        let mut level = T::Real::zero();
        let mut ch: usize = 0;
        while ch < n
            invariant
                0 <= ch <= n,
                n == seen.len(),
                io.wf(),
                io.io.mode() == IoMode::InPlace,
                i < io.len,
                keyed ==> io.sc@.len() > 0 && n == io.sc@[0].samples().len() && seen == column(
                    io.key_run()[0],
                    i as int,
                ),
                !keyed ==> n == io.io.output().len() && seen == column(io.in_run(), i as int),
                level == frame_level::<T>(seen, ch as nat),
            decreases n - ch,
        {
            let s = if keyed {
                io.sidechain(0, ch)[i]
            } else {
                io.input(ch)[i]
            };
            level = max_of(level, finite_or_zero(s.to_real()).abs());
            ch += 1;
        }
        level
    }

    /// Detect the level, compute the gain with `gain_fn`, and apply it to the
    /// main signal.
    pub fn render<F: Fn(T::Real) -> T::Real>(
        &mut self,
        io: &mut SubBlock<'_, '_, '_, T>,
        gain_fn: F,
    )
        requires
            old(io).wf(),
            old(io).io.mode() == IoMode::InPlace,
            old(io).len <= 32,
            forall|env: T::Real| #[trigger] call_requires(gain_fn, (env,)),
        ensures
            *final(self) == (DynamicsCore { env: final(self).env, ..*old(self) }),
            final(self).model() == dynamics_after::<T>(
                old(self).model(),
                old(io).in_run(),
                old(io).key_run(),
                old(io).len as nat,
            ),
            exists|gains: Seq<T::Real>|
                {
                    &&& gains.len() == old(io).len
                    &&& forall|i: int|
                        0 <= i < old(io).len ==> call_ensures(
                            gain_fn,
                            (dynamics_after::<T>(
                                old(self).model(),
                                old(io).in_run(),
                                old(io).key_run(),
                                (i + 1) as nat,
                            ).env,),
                            #[trigger] gains[i],
                        )
                    &&& #[trigger] old(io).rerun(
                        final(io),
                        mapped_run(old(io).out_run(), gain_map::<T>(gains)),
                    )
                },
            *final(final(io).io) == *final(old(io).io),
            final(final(io).io.table())@ == final(old(io).io.table())@,
            forall|c: int|
                0 <= c < old(io).io.output().len() ==> final(#[trigger] final(io).io.plane(c))@
                    == final(old(io).io.plane(c))@,
    {
        let zero = T::Real::zero();
        let run: usize = io.frames();
        let ghost m = self.model();
        let ghost xs = io.in_run();
        let ghost keys = io.key_run();
        let mut gains: [T::Real; 32] = [zero; 32];
        // Detect, follow, and compute the gain per frame.
        let mut i: usize = 0;
        while i < run
            invariant
                0 <= i <= run,
                run == io.len,
                run <= 32,
                gains@.len() == 32,
                io.wf(),
                io.io.mode() == IoMode::InPlace,
                *io == *old(io),
                xs == io.in_run(),
                keys == io.key_run(),
                m == old(self).model(),
                *self == (DynamicsCore { env: self.env, ..*old(self) }),
                self.model() == dynamics_after::<T>(m, xs, keys, i as nat),
                forall|env: T::Real| #[trigger] call_requires(gain_fn, (env,)),
                forall|j: int|
                    0 <= j < i ==> call_ensures(
                        gain_fn,
                        (dynamics_after::<T>(m, xs, keys, (j + 1) as nat).env,),
                        #[trigger] gains@[j],
                    ),
            decreases run - i,
        {
            let level = self.detect(io, i);
            let coeff = if self.env.less(level) {
                self.atk
            } else {
                self.rel
            };
            // The envelope is recursive state: a long silence decays to exactly
            // zero.
            self.env = flush_denormal(self.env.plus(level.minus(self.env).times(coeff)));
            assert(self.model() == dynamics_after::<T>(m, xs, keys, (i + 1) as nat));
            let g = gain_fn(self.env);
            gains[i] = g;
            i += 1;
        }
        let ghost used = gains@.subrange(0, run as int);
        let ghost map = gain_map::<T>(used);
        let f = |ch: usize, i: usize, x: T| -> (y: T)
            requires
                i < 32,
            ensures
                y == T::stored(sane(x.value()).prod(gains@[i as int])),
            { T::from_real(finite_or_zero(x.to_real()).times(gains[i])) };
        map_run(io, &f, Ghost(map));
        assert(old(io).rerun(io, mapped_run(old(io).out_run(), gain_map::<T>(used))));
    }
}

// ---------------------------------------------------------------------------
// Laws of detection
// ---------------------------------------------------------------------------

/// The detected level is the magnitude of the loudest sample: no sample of the frame is
/// louder, and one of them is as loud, or the level is silence.
pub proof fn level_is_the_loudest_sample<T: Sample>(x: Seq<T>, n: nat)
    requires
        n <= x.len(),
        nil::<T::Real>().finite(),
        forall|c: int|
            0 <= c < n ==> (#[trigger] x[c]).value().finite() && x[c].value().magnitude().finite(),
    ensures
        frame_level::<T>(x, n).finite(),
        at_most(nil(), frame_level::<T>(x, n)),
        forall|c: int|
            0 <= c < n ==> at_most((#[trigger] x[c]).value().magnitude(), frame_level::<T>(x, n)),
        frame_level::<T>(x, n) == nil::<T::Real>() || exists|c: int|
            0 <= c < n && frame_level::<T>(x, n) == (#[trigger] x[c]).value().magnitude(),
    decreases n,
{
    if n > 0 {
        level_is_the_loudest_sample::<T>(x, (n - 1) as nat);
        let before = frame_level::<T>(x, (n - 1) as nat);
        let last = x[n - 1].value().magnitude();
        assert(x[n - 1].value().finite() && last.finite());
        if before.below(last) {
            assert(frame_level::<T>(x, n) == x[n - 1].value().magnitude());
        } else {
            assert(frame_level::<T>(x, n) == before);
            if before != nil::<T::Real>() {
                let c = choose|c: int|
                    0 <= c < n - 1 && before == (#[trigger] x[c]).value().magnitude();
                assert(frame_level::<T>(x, n) == x[c].value().magnitude());
            }
        }
    }
}

/// A frame is detected on the key where the core uses one that has channels, and on the
/// main input otherwise.
pub proof fn keys_are_heard_only_where_used<T: Sample>(
    m: DynamicsModel<T::Real>,
    x: Seq<T>,
    y: Seq<T>,
    key: Seq<Seq<T>>,
    other: Seq<Seq<T>>,
)
    ensures
        !m.use_sidechain ==> dynamics_next::<T>(m, x, key) == dynamics_next::<T>(m, x, other),
        m.use_sidechain && key.len() > 0 && key[0].len() > 0 ==> {
            &&& dynamics_next::<T>(m, x, key) == dynamics_next::<T>(m, y, key)
            &&& dynamics_next::<T>(m, x, key) == dynamics_next::<T>(
                DynamicsModel { use_sidechain: false, ..m },
                key[0],
                key,
            ).heard_as(m)
        },
{
}

impl<R> DynamicsModel<R> {
    /// This state under the keying of `m`.
    pub open spec fn heard_as(self, m: DynamicsModel<R>) -> DynamicsModel<R> {
        DynamicsModel { use_sidechain: m.use_sidechain, ..self }
    }
}

/// A rise of the level is followed by the attack alone and a fall by the release alone:
/// two cores prepared alike, with one envelope, follow a level above it alike where their
/// attacks agree, and any other level alike where their releases agree.
pub proof fn rises_take_the_attack_and_falls_the_release<T: Sample>(
    a: DynamicsCore<T>,
    b: DynamicsCore<T>,
    spec: ProcessSpec,
    env: T::Real,
    level: T::Real,
)
    ensures
        ({
            let ma = DynamicsModel { env, ..a.readied(spec).model() };
            let mb = DynamicsModel { env, ..b.readied(spec).model() };
            &&& a.attack_ms == b.attack_ms && env.below(level) ==> followed(ma, level) == followed(
                mb,
                level,
            )
            &&& a.release_ms == b.release_ms && !env.below(level) ==> followed(ma, level)
                == followed(mb, level)
        }),
{
}

/// Where arithmetic is exact, the envelope of a prepared core moves toward the level of a
/// frame by a share of the distance: the coefficient of the attack where the level is
/// above the envelope, and that of the release where it is not. What comes out is that, or
/// silence where it is under the denormal floor.
pub proof fn envelope_moves_by_its_share<T: Sample>(
    core: DynamicsCore<T>,
    spec: ProcessSpec,
    env: T::Real,
    x: Seq<T>,
    key: Seq<Seq<T>>,
    of: spec_fn(T::Real) -> real,
    fits: spec_fn(real) -> bool,
)
    requires
        exact::<T::Real>(of, fits),
        ordered::<T::Real>(of, fits),
        fits(0real),
        T::Real::decimal_of(1, -30).finite(),
        ({
            let seen = if core.use_sidechain && key.len() > 0 && key[0].len() > 0 {
                key[0]
            } else {
                x
            };
            let level = of(frame_level::<T>(seen, seen.len()));
            let fs = T::Real::natural(spec.sample_rate as u64);
            let coeff = of(
                one_pole(
                    if of(env) < level {
                        core.attack_ms
                    } else {
                        core.release_ms
                    },
                    fs,
                ),
            );
            let moved = of(env) + (level - of(env)) * coeff;
            &&& fits(level) && fits(of(env)) && fits(level - of(env))
            &&& fits((level - of(env)) * coeff) && fits(moved)
            &&& moved == 0real || of(T::Real::decimal_of(1, -30)) <= size(moved)
        }),
    ensures
        ({
            let seen = if core.use_sidechain && key.len() > 0 && key[0].len() > 0 {
                key[0]
            } else {
                x
            };
            let level = of(frame_level::<T>(seen, seen.len()));
            let fs = T::Real::natural(spec.sample_rate as u64);
            let coeff = of(
                one_pole(
                    if of(env) < level {
                        core.attack_ms
                    } else {
                        core.release_ms
                    },
                    fs,
                ),
            );
            let m = DynamicsModel { env, ..core.readied(spec).model() };
            of(dynamics_next::<T>(m, x, key).env) == of(env) + (level - of(env)) * coeff
        }),
{
    let seen = detected_frame::<T>(core.use_sidechain, x, key);
    let level = frame_level::<T>(seen, seen.len());
    let fs = T::Real::natural(spec.sample_rate as u64);
    let m = DynamicsModel { env, ..core.readied(spec).model() };
    lemma_compare(env, level, of, fits);
    let coeff = if env.below(level) {
        one_pole(core.attack_ms, fs)
    } else {
        one_pole(core.release_ms, fs)
    };
    let raw = env.sum(level.diff(env).prod(coeff));
    assert(of(raw) == of(env) + (of(level) - of(env)) * of(coeff));
    lemma_flushing_keeps::<T::Real>(raw, of, fits);
}

/// A time of zero acts at once, whatever the other time is: where arithmetic is exact, an
/// attack of zero brings the envelope to any level above it in one frame, and a release of
/// zero to any level below it.
pub proof fn zero_times_act_at_once<T: Sample>(
    core: DynamicsCore<T>,
    spec: ProcessSpec,
    env: T::Real,
    x: Seq<T>,
    key: Seq<Seq<T>>,
    of: spec_fn(T::Real) -> real,
    fits: spec_fn(real) -> bool,
)
    requires
        exact::<T::Real>(of, fits),
        ordered::<T::Real>(of, fits),
        fits(0real),
        fits(1real),
        T::Real::decimal_of(1, -30).finite(),
        ({
            let seen = if core.use_sidechain && key.len() > 0 && key[0].len() > 0 {
                key[0]
            } else {
                x
            };
            let level = of(frame_level::<T>(seen, seen.len()));
            &&& fits(level) && fits(of(env)) && fits(level - of(env))
            &&& level == 0real || of(T::Real::decimal_of(1, -30)) <= size(level)
            &&& of(env) < level ==> core.attack_ms.finite() && of(core.attack_ms) == 0real
            &&& of(env) >= level ==> core.release_ms.finite() && of(core.release_ms) == 0real
        }),
    ensures
        ({
            let seen = if core.use_sidechain && key.len() > 0 && key[0].len() > 0 {
                key[0]
            } else {
                x
            };
            let m = DynamicsModel { env, ..core.readied(spec).model() };
            of(dynamics_next::<T>(m, x, key).env) == of(frame_level::<T>(seen, seen.len()))
        }),
{
    let seen = detected_frame::<T>(core.use_sidechain, x, key);
    let level = of(frame_level::<T>(seen, seen.len()));
    let zero = nil::<T::Real>();
    lemma_readings(of, fits);
    let ms = if of(env) < level {
        core.attack_ms
    } else {
        core.release_ms
    };
    lemma_compare(ms, zero, of, fits);
    assert((level - of(env)) * 1real == level - of(env));
    assert(of(env) + (level - of(env)) == level);
    envelope_moves_by_its_share::<T>(core, spec, env, x, key, of, fits);
}

/// A coefficient is the share of one frame in its time: what is left of a distance after
/// a frame is the exponential of a number that, times the frames in `ms` milliseconds at
/// the rate `fs`, is minus one.
pub proof fn coefficients_decay_over_their_time<R: Real>(
    ms: R,
    fs: R,
    of: spec_fn(R) -> real,
    fits: spec_fn(real) -> bool,
) -> (arg: R)
    requires
        exact::<R>(of, fits),
        ordered::<R>(of, fits),
        fits(0real),
        fits(1real),
        fits(-1real),
        ms.finite(),
        of(ms) > 0real,
        of(fs) > 0real,
        of(R::decimal_of(1, -3)) * 1000real == 1real,
        fits(of(ms) * of(R::decimal_of(1, -3))),
        fits(of(ms) * of(R::decimal_of(1, -3)) * of(fs)),
        fits(-1real / (of(ms) * of(R::decimal_of(1, -3)) * of(fs))),
        forall|a: R| fits(1real - of(#[trigger] a.exponential())),
    ensures
        of(one_pole(ms, fs)) == 1real - of(arg.exponential()),
        of(arg) * (of(ms) * of(fs)) == -1000real,
{
    let zero = nil::<R>();
    lemma_readings(of, fits);
    lemma_compare(ms, zero, of, fits);
    assert((-1int) as real == -1real);
    let span = ms.prod(R::decimal_of(1, -3)).prod(fs);
    let (m, k, f) = (of(ms), of(R::decimal_of(1, -3)), of(fs));
    assert(of(span) == m * k * f);
    assert(m * k * f * 1000real == m * f) by (nonlinear_arith)
        requires
            k * 1000real == 1real,
    ;
    assert(m * f > 0real) by (nonlinear_arith)
        requires
            m > 0real,
            f > 0real,
    ;
    let arg = R::decimal_of(-1, 0).quot(span);
    let s = of(span);
    let q = of(arg);
    assert(q == -1real / s);
    assert(q * s == -1real) by (nonlinear_arith)
        requires
            q == -1real / s,
            s != 0real,
    ;
    assert(q * (m * f) == -1000real) by (nonlinear_arith)
        requires
            q * s == -1real,
            s * 1000real == m * f,
    ;
    arg
}

/// Every sample scaled by the gain of its frame.
pub open spec fn gain_map<T: Sample>(gains: Seq<T::Real>) -> spec_fn(int, int, T) -> T {
    |ch: int, i: int, x: T| T::stored(sane(x.value()).prod(gains[i]))
}

/// A kernel that follows the detected level and scales each frame by a curve of
/// the envelope renders a range as its core does.
pub proof fn lemma_dynamics_frames<
    T: Sample,
    K: FrameModel<T, Model = DynamicsModel<<T as Sample>::Real>>,
>(
    m: DynamicsModel<T::Real>,
    p: K::Params,
    curve: spec_fn(T::Real) -> T::Real,
    x: Seq<Seq<T>>,
    key: Seq<Seq<Seq<T>>>,
    gains: Seq<T::Real>,
    n: nat,
)
    requires
        gains.len() == n,
        forall|ch: int| 0 <= ch < x.len() ==> (#[trigger] x[ch]).len() == n,
        forall|m: DynamicsModel<T::Real>, c: Seq<T>, k: Seq<Seq<T>>| #[trigger]
            K::next(m, p, c, k) == dynamics_next::<T>(m, c, k),
        forall|m: DynamicsModel<T::Real>, c: Seq<T>, k: Seq<Seq<T>>| #[trigger]
            K::emit(m, p, c, k) == scaled_frame::<T>(c, curve(dynamics_next::<T>(m, c, k).env)),
        forall|i: int|
            0 <= i < n ==> #[trigger] gains[i] == curve(
                dynamics_after::<T>(m, x, key, (i + 1) as nat).env,
            ),
    ensures
        model_after::<T, K>(m, p, x, key, n) == dynamics_after::<T>(m, x, key, n),
        rendered::<T, K>(m, p, x, key, x.len(), n) == mapped_run(x, gain_map::<T>(gains)),
{
    lemma_dynamics_models::<T, K>(m, p, x, key, n);
    assert forall|i: int, ch: int| 0 <= i < n && 0 <= ch < x.len() implies #[trigger] K::emit(
        model_after::<T, K>(m, p, x, key, i as nat),
        p,
        column(x, i),
        key_column(key, i),
    )[ch] == gain_map::<T>(gains)(ch, i, x[ch][i]) by {
        lemma_dynamics_models::<T, K>(m, p, x, key, i as nat);
        assert(gains[i] == curve(dynamics_after::<T>(m, x, key, (i + 1) as nat).env));
    }
    lemma_frames_are_mapped::<T, K>(m, p, x, key, x, n, gain_map::<T>(gains));
}

proof fn lemma_dynamics_models<
    T: Sample,
    K: FrameModel<T, Model = DynamicsModel<<T as Sample>::Real>>,
>(
    m: DynamicsModel<T::Real>,
    p: K::Params,
    x: Seq<Seq<T>>,
    key: Seq<Seq<Seq<T>>>,
    n: nat,
)
    requires
        forall|m: DynamicsModel<T::Real>, c: Seq<T>, k: Seq<Seq<T>>| #[trigger]
            K::next(m, p, c, k) == dynamics_next::<T>(m, c, k),
    ensures
        model_after::<T, K>(m, p, x, key, n) == dynamics_after::<T>(m, x, key, n),
    decreases n,
{
    if n > 0 {
        lemma_dynamics_models::<T, K>(m, p, x, key, (n - 1) as nat);
    }
}

} // verus!
