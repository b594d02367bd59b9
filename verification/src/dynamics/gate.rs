//! Noise gate.

use crate::contract::block::IoMode;
use crate::contract::context::{SubBlock, Tail};
use crate::contract::error::DspError;
use crate::contract::param::ParamInfo;
use crate::contract::spec::ProcessSpec;
use crate::contract::traits::{kernel_answers_stand, FrameModel, Kernel, Params, Standing};
use crate::dsp::lanes::mapped_run;
use crate::dsp::level::{db_to_linear, linear_of};
use crate::dsp::schedule::rendering_keeps_rest;
use crate::dsp::smoother::SmootherBank;
use crate::dynamics::shared::{
    db_control, db_param, dynamics_after, dynamics_next, dynamics_outcome, dynamics_rest, gain_map,
    lemma_dynamics_frames, ratio_control, ratio_param, scaled_frame, DynamicsCore, DynamicsModel,
    env_floor,
};
use crate::number::{at_most, at_most_of, larger, max_of, nil, unit, Order, Real, Sample};
use vstd::prelude::*;

verus! {

/// Construction settings for [`Gate`].
#[derive(Debug, PartialEq)]
pub struct GateSettings<R> {
    /// Threshold in dBFS.
    pub threshold_db: R,
    /// Expansion slope below threshold before the range floor is applied. At
    /// 2.0, a level 10 dB below threshold is moved toward 20 dB below threshold.
    pub ratio: R,
    /// Minimum gain below threshold in dB, from -120.0 to 0.0.
    pub range_db: R,
    /// Attack time constant in milliseconds. Zero is immediate.
    pub attack_ms: R,
    /// Release time constant in milliseconds. Zero is immediate.
    pub release_ms: R,
    /// Whether detection reads sidechain bus 0 instead of the main input.
    pub use_sidechain: bool,
}

impl<R: Copy> Copy for GateSettings<R> {

}

impl<R: Copy> Clone for GateSettings<R> {
    fn clone(&self) -> (r: Self)
        ensures
            r == *self,
    {
        *self
    }
}

/// -40 dBFS, 4:1 steepness, -60 dB range, 1 ms attack, and 100 ms release.
pub open spec fn default_gate<R: Real>() -> GateSettings<R> {
    GateSettings {
        threshold_db: R::decimal_of(-40, 0),
        ratio: R::decimal_of(4, 0),
        range_db: R::decimal_of(-60, 0),
        attack_ms: R::decimal_of(1, 0),
        release_ms: R::decimal_of(100, 0),
        use_sidechain: false,
    }
}

impl<R: Real> Default for GateSettings<R> {
    fn default() -> (r: Self)
        ensures
            r == default_gate::<R>(),
    {
        Self {
            threshold_db: R::decimal(-40, 0),
            ratio: R::decimal(4, 0),
            range_db: R::decimal(-60, 0),
            attack_ms: R::decimal(1, 0),
            release_ms: R::decimal(100, 0),
            use_sidechain: false,
        }
    }
}

impl<R: Real> GateSettings<R> {
    /// Default gate settings.
    pub fn new() -> (r: Self)
        ensures
            r == default_gate::<R>(),
    {
        Self::default()
    }

    /// Set the threshold in dBFS.
    pub fn threshold_db(self, threshold_db: R) -> (r: Self)
        ensures
            r == (GateSettings { threshold_db, ..self }),
    {
        Self { threshold_db, ..self }
    }

    /// Set the expansion slope below threshold.
    pub fn ratio(self, ratio: R) -> (r: Self)
        ensures
            r == (GateSettings { ratio, ..self }),
    {
        Self { ratio, ..self }
    }

    /// Set the minimum gain below threshold in dB. Values are negative or zero.
    pub fn range_db(self, range_db: R) -> (r: Self)
        ensures
            r == (GateSettings { range_db, ..self }),
    {
        Self { range_db, ..self }
    }

    /// Set the attack time constant in milliseconds. Zero is immediate.
    pub fn attack_ms(self, attack_ms: R) -> (r: Self)
        ensures
            r == (GateSettings { attack_ms, ..self }),
    {
        Self { attack_ms, ..self }
    }

    /// Set the release time constant in milliseconds. Zero is immediate.
    pub fn release_ms(self, release_ms: R) -> (r: Self)
        ensures
            r == (GateSettings { release_ms, ..self }),
    {
        Self { release_ms, ..self }
    }

    /// Enable or disable sidechain detection.
    pub fn use_sidechain(self, use_sidechain: bool) -> (r: Self)
        ensures
            r == (GateSettings { use_sidechain, ..self }),
    {
        Self { use_sidechain, ..self }
    }
}

/// Smoothed parameter values for [`Gate`].
#[derive(Debug, PartialEq)]
pub struct GateParams<R> {
    /// Threshold in dBFS.
    pub threshold_db: R,
    /// Expansion slope below threshold before the range floor.
    pub ratio: R,
    /// Minimum gain below threshold in dB.
    pub range_db: R,
}

impl<R: Copy> Copy for GateParams<R> {

}

impl<R: Copy> Clone for GateParams<R> {
    fn clone(&self) -> (r: Self)
        ensures
            r == *self,
    {
        *self
    }
}

impl<R: Real> GateParams<R> {
    /// Number of the id of `threshold_db`.
    pub const THRESHOLD_DB: u32 = 0;

    /// Number of the id of `ratio`.
    pub const RATIO: u32 = 1;

    /// Number of the id of `range_db`.
    pub const RANGE_DB: u32 = 2;
}

impl<R: Real> Params<R> for GateParams<R> {
    const COUNT: usize = 3;

    open spec fn load(values: Seq<R>) -> Self {
        GateParams { threshold_db: values[0], ratio: values[1], range_db: values[2] }
    }

    fn from_bank(bank: &SmootherBank<R>) -> (r: Self) {
        match (bank.value_at(0), bank.value_at(1), bank.value_at(2)) {
            (Some(threshold_db), Some(ratio), Some(range_db)) => {
                GateParams { threshold_db, ratio, range_db }
            },
            _ => {
                let zero = R::zero();
                GateParams { threshold_db: zero, ratio: zero, range_db: zero }
            },
        }
    }
}

/// The gain at the detected level `env`: unity from the threshold on, and less
/// the further the level falls below it, down to the range floor.
pub open spec fn gate_gain<R: Real>(p: GateParams<R>, env: R) -> R {
    let thresh = linear_of(p.threshold_db);
    if at_most(thresh, env) {
        unit()
    } else {
        larger(
            larger(p.ratio, unit()).diff(unit()).prod(
                larger(env, env_floor()).quot(thresh).logarithm(),
            ).exponential(),
            linear_of(p.range_db),
        )
    }
}

/// From the threshold on the signal passes unchanged.
pub proof fn loud_signals_are_not_gated<R: Real>(p: GateParams<R>, env: R)
    requires
        at_most(linear_of(p.threshold_db), env),
    ensures
        gate_gain(p, env) == unit::<R>(),
{
}

/// Below the threshold the gain does not fall under the range floor.
pub proof fn gating_stops_at_the_range<R: Real>(p: GateParams<R>, env: R)
    requires
        !at_most(linear_of(p.threshold_db), env),
        linear_of(p.range_db).finite(),
        gate_gain(p, env).finite(),
    ensures
        at_most(linear_of(p.range_db), gate_gain(p, env)),
{
}

/// A noise gate.
///
/// Below the threshold the signal is attenuated toward the `range_db` gain
/// floor. Above the threshold it passes unchanged.
///
/// Detection is linked peak detection. Attack and release smooth the detected
/// level before the hard-knee static curve is evaluated.
#[derive(Clone, Debug)]
pub struct Gate<T: Sample> {
    pub params: [ParamInfo<T::Real>; 3],
    pub core: DynamicsCore<T>,
}

impl<T: Sample> Gate<T> {
    /// A gate as configured from `s` and not yet prepared.
    pub open spec fn configured_by(&self, s: GateSettings<T::Real>) -> bool {
        &&& self.params@ =~= seq![
            db_control(
                0,
                "threshold",
                (T::Real::decimal_of(-80, 0), nil::<T::Real>()),
                s.threshold_db,
            ),
            ratio_control(s.ratio),
            db_control(
                2,
                "range",
                (T::Real::decimal_of(-120, 0), nil::<T::Real>()),
                s.range_db,
            ),
        ]
        &&& self.core.configured_by(s.attack_ms, s.release_ms, s.use_sidechain)
    }

    /// A gate configured from `settings`.
    pub fn with_settings(settings: GateSettings<T::Real>) -> (r: Self)
        ensures
            r.configured_by(settings),
    {
        Self {
            params: [
                db_param(
                    GateParams::<T::Real>::THRESHOLD_DB,
                    "threshold",
                    (T::Real::decimal(-80, 0), T::Real::zero()),
                    settings.threshold_db,
                ),
                ratio_param(settings.ratio),
                db_param(
                    GateParams::<T::Real>::RANGE_DB,
                    "range",
                    (T::Real::decimal(-120, 0), T::Real::zero()),
                    settings.range_db,
                ),
            ],
            core: DynamicsCore::new(
                settings.attack_ms,
                settings.release_ms,
                settings.use_sidechain,
            ),
        }
    }

    /// A gate with default settings.
    pub fn new() -> (r: Self)
        ensures
            r.configured_by(default_gate()),
    {
        Self::with_settings(GateSettings::default())
    }

    /// As [`new`](Gate::new), but keying detection off a sidechain bus.
    pub fn with_sidechain() -> (r: Self)
        ensures
            r.configured_by(GateSettings { use_sidechain: true, ..default_gate() }),
    {
        Self::with_settings(GateSettings::new().use_sidechain(true))
    }
}

impl<T: Sample> Default for Gate<T> {
    fn default() -> (r: Self)
        ensures
            r.configured_by(default_gate()),
    {
        Self::new()
    }
}

impl<T: Sample> FrameModel<T> for Gate<T> {
    type Params = GateParams<T::Real>;

    type Model = DynamicsModel<T::Real>;

    open spec fn next(
        m: DynamicsModel<T::Real>,
        p: GateParams<T::Real>,
        x: Seq<T>,
        key: Seq<Seq<T>>,
    ) -> DynamicsModel<T::Real> {
        dynamics_next::<T>(m, x, key)
    }

    open spec fn emit(
        m: DynamicsModel<T::Real>,
        p: GateParams<T::Real>,
        x: Seq<T>,
        key: Seq<Seq<T>>,
    ) -> Seq<T> {
        scaled_frame::<T>(x, gate_gain(p, dynamics_next::<T>(m, x, key).env))
    }

    open spec fn rest(m: DynamicsModel<T::Real>) -> DynamicsModel<T::Real> {
        dynamics_rest(m)
    }

    open spec fn drained(m: DynamicsModel<T::Real>) -> bool {
        true
    }
}

/// A reset restores a gate whatever it has processed.
pub proof fn gate_reset_restores<T: Sample>()
    ensures
        rendering_keeps_rest::<T, Gate<T>>(),
{
}

impl<T: Sample> Kernel<T> for Gate<T> {
    open spec fn model(&self) -> DynamicsModel<T::Real> {
        self.core.model()
    }

    open spec fn accepts(&self, mode: IoMode, channels: nat, buses: nat) -> bool {
        mode == IoMode::InPlace && (self.core.use_sidechain ==> buses >= 1)
    }

    open spec fn outcome(&self, spec: ProcessSpec) -> Result<(), DspError> {
        dynamics_outcome(self.core.attack_ms, self.core.release_ms, spec)
    }

    open spec fn made(&self, spec: ProcessSpec) -> DynamicsModel<T::Real> {
        self.core.readied(spec).model()
    }

    open spec fn standing(&self) -> Standing<T::Real> {
        Standing {
            latency: 0,
            tail: Tail::Absent,
            io_mode: IoMode::InPlace,
            footprint: 0,
            info: self.params@,
            sidechain_inputs: if self.core.use_sidechain {
                1
            } else {
                0
            },
        }
    }

    fn prepare(&mut self, spec: ProcessSpec) -> (r: Result<(), DspError>)
        ensures
            final(self).params == old(self).params,
            r is Err ==> *final(self) == *old(self),
            r is Ok ==> final(self).core == old(self).core.readied(spec),
    {
        let r = self.core.prepare(spec);
        assert(self.accepts(IoMode::InPlace, spec.channels as nat, 1));
        r
    }

    fn reset(&mut self)
        ensures
            final(self).params == old(self).params,
            final(self).core == (DynamicsCore { env: nil(), ..old(self).core }),
    {
        self.core.reset();
    }

    fn io_mode(&self) -> (r: IoMode)
        ensures
            r == IoMode::InPlace,
    {
        IoMode::InPlace
    }

    fn param_info(&self) -> (r: &[ParamInfo<T::Real>])
        ensures
            r@ == self.params@,
    {
        self.params.as_slice()
    }

    fn sidechain_inputs(&self) -> (r: usize)
        ensures
            r == (if self.core.use_sidechain {
                1usize
            } else {
                0usize
            }),
    {
        if self.core.use_sidechain {
            1
        } else {
            0
        }
    }

    fn render(&mut self, io: &mut SubBlock<'_, '_, '_, T>, params: &GateParams<T::Real>)
        ensures
            final(self).params == old(self).params,
            final(self).core == (DynamicsCore { env: final(self).core.env, ..old(self).core }),
    {
        let ghost p = *params;
        let ghost m = self.model();
        let ghost xs = io.in_run();
        let ghost keys = io.key_run();
        let ghost n = io.len as nat;
        let one = T::Real::one();
        let floor = T::Real::decimal(1, -10);
        let thresh_lin = db_to_linear(params.threshold_db);
        let ratio = max_of(params.ratio, one);
        let range_lin = db_to_linear(params.range_db);
        let curve = |env: T::Real| -> (g: T::Real)
            ensures
                g == gate_gain(p, env),
            {
                if at_most_of(thresh_lin, env) {
                    one
                } else {
                    let e = max_of(env, floor);
                    let g = ratio.minus(one).times(e.over(thresh_lin).ln()).exp();
                    max_of(g, range_lin)
                }
            };
        self.core.render(io, curve);
        proof {
            let gains = choose|gains: Seq<T::Real>|
                {
                    &&& gains.len() == n
                    &&& forall|i: int|
                        0 <= i < n ==> call_ensures(
                            curve,
                            (dynamics_after::<T>(m, xs, keys, (i + 1) as nat).env,),
                            #[trigger] gains[i],
                        )
                    &&& #[trigger] old(io).rerun(io, mapped_run(xs, gain_map::<T>(gains)))
                };
            lemma_dynamics_frames::<T, Self>(
                m,
                p,
                |env: T::Real| gate_gain(p, env),
                xs,
                keys,
                gains,
                n,
            );
        }
    }
}

/// What the kernel answers about itself stays as `prepare` left it.
pub proof fn gate_answers_stand<T: Sample>()
    ensures
        kernel_answers_stand::<T, Gate<T>>(),
{
}

} // verus!
