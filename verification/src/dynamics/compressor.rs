//! Feed-forward downward compression.

use crate::contract::block::IoMode;
use crate::contract::context::{SubBlock, Tail};
use crate::contract::error::DspError;
use crate::contract::param::ParamInfo;
use crate::contract::spec::ProcessSpec;
use crate::contract::traits::{kernel_answers_stand, FrameModel, Kernel, Params, Standing};
use crate::dsp::lanes::mapped_run;
use crate::dsp::level::{db_to_linear, linear_of};
use crate::dsp::schedule::rendering_keeps_rest;
use crate::dsp::smoother::SmootherBank;
use crate::dynamics::shared::{
    db_control, db_param, dynamics_after, dynamics_next, dynamics_outcome, dynamics_rest, gain_map,
    lemma_dynamics_frames, ratio_control, ratio_param, scaled_frame, DynamicsCore, DynamicsModel,
};
use crate::number::{at_most, at_most_of, larger, max_of, nil, unit, Order, Real, Sample};
use vstd::prelude::*;

verus! {

/// Construction settings for [`Compressor`].
#[derive(Debug, PartialEq)]
pub struct CompressorSettings<R> {
    /// Threshold in dBFS.
    pub threshold_db: R,
    /// Compression ratio as `ratio:1`.
    pub ratio: R,
    /// Attack time constant in milliseconds. Zero is immediate.
    pub attack_ms: R,
    /// Release time constant in milliseconds. Zero is immediate.
    pub release_ms: R,
    /// Makeup gain in dB.
    pub makeup_db: R,
    /// Whether detection reads sidechain bus 0 instead of the main input.
    pub use_sidechain: bool,
}

impl<R: Copy> Copy for CompressorSettings<R> {

}

impl<R: Copy> Clone for CompressorSettings<R> {
    fn clone(&self) -> (r: Self)
        ensures
            r == *self,
    {
        *self
    }
}

/// -20 dBFS, 4:1, 10 ms attack, 100 ms release, no makeup, and main detection.
pub open spec fn default_compressor<R: Real>() -> CompressorSettings<R> {
    CompressorSettings {
        threshold_db: R::decimal_of(-20, 0),
        ratio: R::decimal_of(4, 0),
        attack_ms: R::decimal_of(10, 0),
        release_ms: R::decimal_of(100, 0),
        makeup_db: R::decimal_of(0, 0),
        use_sidechain: false,
    }
}

impl<R: Real> Default for CompressorSettings<R> {
    fn default() -> (r: Self)
        ensures
            r == default_compressor::<R>(),
    {
        Self {
            threshold_db: R::decimal(-20, 0),
            ratio: R::decimal(4, 0),
            attack_ms: R::decimal(10, 0),
            release_ms: R::decimal(100, 0),
            makeup_db: R::decimal(0, 0),
            use_sidechain: false,
        }
    }
}

impl<R: Real> CompressorSettings<R> {
    /// Default compressor settings.
    pub fn new() -> (r: Self)
        ensures
            r == default_compressor::<R>(),
    {
        Self::default()
    }

    /// Set the threshold in dBFS.
    pub fn threshold_db(self, threshold_db: R) -> (r: Self)
        ensures
            r == (CompressorSettings { threshold_db, ..self }),
    {
        Self { threshold_db, ..self }
    }

    /// Set the compression ratio.
    pub fn ratio(self, ratio: R) -> (r: Self)
        ensures
            r == (CompressorSettings { ratio, ..self }),
    {
        Self { ratio, ..self }
    }

    /// Set the attack time constant in milliseconds. Zero is immediate.
    pub fn attack_ms(self, attack_ms: R) -> (r: Self)
        ensures
            r == (CompressorSettings { attack_ms, ..self }),
    {
        Self { attack_ms, ..self }
    }

    /// Set the release time constant in milliseconds. Zero is immediate.
    pub fn release_ms(self, release_ms: R) -> (r: Self)
        ensures
            r == (CompressorSettings { release_ms, ..self }),
    {
        Self { release_ms, ..self }
    }

    /// Set the makeup gain in dB.
    pub fn makeup_db(self, makeup_db: R) -> (r: Self)
        ensures
            r == (CompressorSettings { makeup_db, ..self }),
    {
        Self { makeup_db, ..self }
    }

    /// Enable or disable sidechain detection.
    pub fn use_sidechain(self, use_sidechain: bool) -> (r: Self)
        ensures
            r == (CompressorSettings { use_sidechain, ..self }),
    {
        Self { use_sidechain, ..self }
    }
}

/// Smoothed parameter values for [`Compressor`].
#[derive(Debug, PartialEq)]
pub struct CompressorParams<R> {
    /// Threshold in dBFS.
    pub threshold_db: R,
    /// Compression ratio as `ratio:1`.
    pub ratio: R,
    /// Makeup gain in dB.
    pub makeup_db: R,
}

impl<R: Copy> Copy for CompressorParams<R> {

}

impl<R: Copy> Clone for CompressorParams<R> {
    fn clone(&self) -> (r: Self)
        ensures
            r == *self,
    {
        *self
    }
}

impl<R: Real> CompressorParams<R> {
    /// Number of the id of `threshold_db`.
    pub const THRESHOLD_DB: u32 = 0;

    /// Number of the id of `ratio`.
    pub const RATIO: u32 = 1;

    /// Number of the id of `makeup_db`.
    pub const MAKEUP_DB: u32 = 2;
}

impl<R: Real> Params<R> for CompressorParams<R> {
    const COUNT: usize = 3;

    open spec fn load(values: Seq<R>) -> Self {
        CompressorParams { threshold_db: values[0], ratio: values[1], makeup_db: values[2] }
    }

    fn from_bank(bank: &SmootherBank<R>) -> (r: Self) {
        match (bank.value_at(0), bank.value_at(1), bank.value_at(2)) {
            (Some(threshold_db), Some(ratio), Some(makeup_db)) => {
                CompressorParams { threshold_db, ratio, makeup_db }
            },
            _ => {
                let zero = R::zero();
                CompressorParams { threshold_db: zero, ratio: zero, makeup_db: zero }
            },
        }
    }
}

/// The gain at the detected level `env`: makeup up to the threshold, and above it
/// makeup less the excess times the slope.
pub open spec fn compressor_gain<R: Real>(p: CompressorParams<R>, env: R) -> R {
    let thresh = linear_of(p.threshold_db);
    let makeup = linear_of(p.makeup_db);
    let slope = unit::<R>().diff(unit::<R>().quot(larger(p.ratio, unit())));
    if at_most(env, thresh) {
        makeup
    } else {
        makeup.prod(slope.opposite().prod(env.quot(thresh).logarithm()).exponential())
    }
}

/// Up to the threshold the gain is the makeup gain alone.
pub proof fn quiet_signals_are_not_compressed<R: Real>(p: CompressorParams<R>, env: R)
    requires
        at_most(env, linear_of(p.threshold_db)),
    ensures
        compressor_gain(p, env) == linear_of(p.makeup_db),
{
}

/// A feed-forward downward compressor.
///
/// With [`with_sidechain`](Compressor::with_sidechain) the follower keys off an
/// external bus instead of the main signal. Threshold, ratio, and makeup are
/// automatable. Attack and release are fixed at construction.
///
/// Detection is linked peak detection. Attack and release smooth the detected
/// level before the hard-knee static curve is evaluated.
#[derive(Clone, Debug)]
pub struct Compressor<T: Sample> {
    pub params: [ParamInfo<T::Real>; 3],
    pub core: DynamicsCore<T>,
}

impl<T: Sample> Compressor<T> {
    /// A compressor as configured from `s` and not yet prepared.
    pub open spec fn configured_by(&self, s: CompressorSettings<T::Real>) -> bool {
        &&& self.params@ =~= seq![
            db_control(
                0,
                "threshold",
                (T::Real::decimal_of(-60, 0), nil::<T::Real>()),
                s.threshold_db,
            ),
            ratio_control(s.ratio),
            db_control(
                2,
                "makeup",
                (nil::<T::Real>(), T::Real::decimal_of(24, 0)),
                s.makeup_db,
            ),
        ]
        &&& self.core.configured_by(s.attack_ms, s.release_ms, s.use_sidechain)
    }

    /// A compressor configured from `settings`.
    pub fn with_settings(settings: CompressorSettings<T::Real>) -> (r: Self)
        ensures
            r.configured_by(settings),
    {
        Self {
            params: [
                db_param(
                    CompressorParams::<T::Real>::THRESHOLD_DB,
                    "threshold",
                    (T::Real::decimal(-60, 0), T::Real::zero()),
                    settings.threshold_db,
                ),
                ratio_param(settings.ratio),
                db_param(
                    CompressorParams::<T::Real>::MAKEUP_DB,
                    "makeup",
                    (T::Real::zero(), T::Real::decimal(24, 0)),
                    settings.makeup_db,
                ),
            ],
            core: DynamicsCore::new(
                settings.attack_ms,
                settings.release_ms,
                settings.use_sidechain,
            ),
        }
    }

    /// A compressor with default settings.
    pub fn new() -> (r: Self)
        ensures
            r.configured_by(default_compressor()),
    {
        Self::with_settings(CompressorSettings::default())
    }

    /// As [`new`](Compressor::new), but keying detection off a sidechain bus.
    pub fn with_sidechain() -> (r: Self)
        ensures
            r.configured_by(CompressorSettings { use_sidechain: true, ..default_compressor() }),
    {
        Self::with_settings(CompressorSettings::new().use_sidechain(true))
    }
}

impl<T: Sample> Default for Compressor<T> {
    fn default() -> (r: Self)
        ensures
            r.configured_by(default_compressor()),
    {
        Self::new()
    }
}

impl<T: Sample> FrameModel<T> for Compressor<T> {
    type Params = CompressorParams<T::Real>;

    type Model = DynamicsModel<T::Real>;

    open spec fn next(
        m: DynamicsModel<T::Real>,
        p: CompressorParams<T::Real>,
        x: Seq<T>,
        key: Seq<Seq<T>>,
    ) -> DynamicsModel<T::Real> {
        dynamics_next::<T>(m, x, key)
    }

    open spec fn emit(
        m: DynamicsModel<T::Real>,
        p: CompressorParams<T::Real>,
        x: Seq<T>,
        key: Seq<Seq<T>>,
    ) -> Seq<T> {
        scaled_frame::<T>(x, compressor_gain(p, dynamics_next::<T>(m, x, key).env))
    }

    open spec fn rest(m: DynamicsModel<T::Real>) -> DynamicsModel<T::Real> {
        dynamics_rest(m)
    }

    open spec fn drained(m: DynamicsModel<T::Real>) -> bool {
        true
    }
}

/// A reset restores a compressor whatever it has processed.
pub proof fn compressor_reset_restores<T: Sample>()
    ensures
        rendering_keeps_rest::<T, Compressor<T>>(),
{
}

impl<T: Sample> Kernel<T> for Compressor<T> {
    open spec fn model(&self) -> DynamicsModel<T::Real> {
        self.core.model()
    }

    open spec fn accepts(&self, mode: IoMode, channels: nat, buses: nat) -> bool {
        mode == IoMode::InPlace && (self.core.use_sidechain ==> buses >= 1)
    }

    open spec fn outcome(&self, spec: ProcessSpec) -> Result<(), DspError> {
        dynamics_outcome(self.core.attack_ms, self.core.release_ms, spec)
    }

    open spec fn made(&self, spec: ProcessSpec) -> DynamicsModel<T::Real> {
        self.core.readied(spec).model()
    }

    open spec fn standing(&self) -> Standing<T::Real> {
        Standing {
            latency: 0,
            tail: Tail::Absent,
            io_mode: IoMode::InPlace,
            footprint: 0,
            info: self.params@,
            sidechain_inputs: if self.core.use_sidechain {
                1
            } else {
                0
            },
        }
    }

    fn prepare(&mut self, spec: ProcessSpec) -> (r: Result<(), DspError>)
        ensures
            final(self).params == old(self).params,
            r is Err ==> *final(self) == *old(self),
            r is Ok ==> final(self).core == old(self).core.readied(spec),
    {
        let r = self.core.prepare(spec);
        assert(self.accepts(IoMode::InPlace, spec.channels as nat, 1));
        r
    }

    fn reset(&mut self)
        ensures
            final(self).params == old(self).params,
            final(self).core == (DynamicsCore { env: nil(), ..old(self).core }),
    {
        self.core.reset();
    }

    fn io_mode(&self) -> (r: IoMode)
        ensures
            r == IoMode::InPlace,
    {
        IoMode::InPlace
    }

    fn param_info(&self) -> (r: &[ParamInfo<T::Real>])
        ensures
            r@ == self.params@,
    {
        self.params.as_slice()
    }

    fn sidechain_inputs(&self) -> (r: usize)
        ensures
            r == (if self.core.use_sidechain {
                1usize
            } else {
                0usize
            }),
    {
        if self.core.use_sidechain {
            1
        } else {
            0
        }
    }

    fn render(&mut self, io: &mut SubBlock<'_, '_, '_, T>, params: &CompressorParams<T::Real>)
        ensures
            final(self).params == old(self).params,
            final(self).core == (DynamicsCore { env: final(self).core.env, ..old(self).core }),
    {
        let ghost p = *params;
        let ghost m = self.model();
        let ghost xs = io.in_run();
        let ghost keys = io.key_run();
        let ghost n = io.len as nat;
        let one = T::Real::one();
        let thresh_lin = db_to_linear(params.threshold_db);
        let ratio = max_of(params.ratio, one);
        let makeup_lin = db_to_linear(params.makeup_db);
        // Slope of the curve in the log domain.
        let slope = one.minus(one.over(ratio));
        let curve = |env: T::Real| -> (g: T::Real)
            ensures
                g == compressor_gain(p, env),
            {
                if at_most_of(env, thresh_lin) {
                    makeup_lin
                } else {
                    makeup_lin.times(slope.neg().times(env.over(thresh_lin).ln()).exp())
                }
            };
        self.core.render(io, curve);
        proof {
            let gains = choose|gains: Seq<T::Real>|
                {
                    &&& gains.len() == n
                    &&& forall|i: int|
                        0 <= i < n ==> call_ensures(
                            curve,
                            (dynamics_after::<T>(m, xs, keys, (i + 1) as nat).env,),
                            #[trigger] gains[i],
                        )
                    &&& #[trigger] old(io).rerun(io, mapped_run(xs, gain_map::<T>(gains)))
                };
            lemma_dynamics_frames::<T, Self>(
                m,
                p,
                |env: T::Real| compressor_gain(p, env),
                xs,
                keys,
                gains,
                n,
            );
        }
    }
}

/// What the kernel answers about itself stays as `prepare` left it.
pub proof fn compressor_answers_stand<T: Sample>()
    ensures
        kernel_answers_stand::<T, Compressor<T>>(),
{
}

} // verus!
