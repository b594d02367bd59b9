//! Feed-forward downward expansion.

use crate::contract::block::IoMode;
use crate::contract::context::{SubBlock, Tail};
use crate::contract::error::DspError;
use crate::contract::param::ParamInfo;
use crate::contract::spec::ProcessSpec;
use crate::contract::traits::{kernel_answers_stand, FrameModel, Kernel, Params, Standing};
use crate::dsp::lanes::mapped_run;
use crate::dsp::level::{db_to_linear, linear_of};
use crate::dsp::schedule::rendering_keeps_rest;
use crate::dsp::smoother::SmootherBank;
use crate::dynamics::shared::{
    db_control, db_param, dynamics_after, dynamics_next, dynamics_outcome, dynamics_rest, gain_map,
    lemma_dynamics_frames, ratio_control, ratio_param, scaled_frame, DynamicsCore, DynamicsModel,
    env_floor,
};
use crate::number::{at_most, at_most_of, larger, max_of, nil, unit, Order, Real, Sample};
use vstd::prelude::*;

verus! {

/// Construction settings for [`Expander`].
#[derive(Debug, PartialEq)]
pub struct ExpanderSettings<R> {
    /// Threshold in dBFS.
    pub threshold_db: R,
    /// Expansion slope below threshold. At 2.0, a level 10 dB below threshold
    /// is moved to 20 dB below threshold.
    pub ratio: R,
    /// Attack time constant in milliseconds. Zero is immediate.
    pub attack_ms: R,
    /// Release time constant in milliseconds. Zero is immediate.
    pub release_ms: R,
    /// Whether detection reads sidechain bus 0 instead of the main input.
    pub use_sidechain: bool,
}

impl<R: Copy> Copy for ExpanderSettings<R> {

}

impl<R: Copy> Clone for ExpanderSettings<R> {
    fn clone(&self) -> (r: Self)
        ensures
            r == *self,
    {
        *self
    }
}

/// -40 dBFS, 2:1, 5 ms attack, 80 ms release, and main detection.
pub open spec fn default_expander<R: Real>() -> ExpanderSettings<R> {
    ExpanderSettings {
        threshold_db: R::decimal_of(-40, 0),
        ratio: R::decimal_of(2, 0),
        attack_ms: R::decimal_of(5, 0),
        release_ms: R::decimal_of(80, 0),
        use_sidechain: false,
    }
}

impl<R: Real> Default for ExpanderSettings<R> {
    fn default() -> (r: Self)
        ensures
            r == default_expander::<R>(),
    {
        Self {
            threshold_db: R::decimal(-40, 0),
            ratio: R::decimal(2, 0),
            attack_ms: R::decimal(5, 0),
            release_ms: R::decimal(80, 0),
            use_sidechain: false,
        }
    }
}

impl<R: Real> ExpanderSettings<R> {
    /// Default expander settings.
    pub fn new() -> (r: Self)
        ensures
            r == default_expander::<R>(),
    {
        Self::default()
    }

    /// Set the threshold in dBFS.
    pub fn threshold_db(self, threshold_db: R) -> (r: Self)
        ensures
            r == (ExpanderSettings { threshold_db, ..self }),
    {
        Self { threshold_db, ..self }
    }

    /// Set the expansion slope below threshold.
    pub fn ratio(self, ratio: R) -> (r: Self)
        ensures
            r == (ExpanderSettings { ratio, ..self }),
    {
        Self { ratio, ..self }
    }

    /// Set the attack time constant in milliseconds. Zero is immediate.
    pub fn attack_ms(self, attack_ms: R) -> (r: Self)
        ensures
            r == (ExpanderSettings { attack_ms, ..self }),
    {
        Self { attack_ms, ..self }
    }

    /// Set the release time constant in milliseconds. Zero is immediate.
    pub fn release_ms(self, release_ms: R) -> (r: Self)
        ensures
            r == (ExpanderSettings { release_ms, ..self }),
    {
        Self { release_ms, ..self }
    }

    /// Enable or disable sidechain detection.
    pub fn use_sidechain(self, use_sidechain: bool) -> (r: Self)
        ensures
            r == (ExpanderSettings { use_sidechain, ..self }),
    {
        Self { use_sidechain, ..self }
    }
}

/// Smoothed parameter values for [`Expander`].
#[derive(Debug, PartialEq)]
pub struct ExpanderParams<R> {
    /// Threshold in dBFS.
    pub threshold_db: R,
    /// Expansion slope below threshold.
    pub ratio: R,
}

impl<R: Copy> Copy for ExpanderParams<R> {

}

impl<R: Copy> Clone for ExpanderParams<R> {
    fn clone(&self) -> (r: Self)
        ensures
            r == *self,
    {
        *self
    }
}

impl<R: Real> ExpanderParams<R> {
    /// Number of the id of `threshold_db`.
    pub const THRESHOLD_DB: u32 = 0;

    /// Number of the id of `ratio`.
    pub const RATIO: u32 = 1;
}

impl<R: Real> Params<R> for ExpanderParams<R> {
    const COUNT: usize = 2;

    open spec fn load(values: Seq<R>) -> Self {
        ExpanderParams { threshold_db: values[0], ratio: values[1] }
    }

    fn from_bank(bank: &SmootherBank<R>) -> (r: Self) {
        match (bank.value_at(0), bank.value_at(1)) {
            (Some(threshold_db), Some(ratio)) => {
                ExpanderParams { threshold_db, ratio }
            },
            _ => {
                let zero = R::zero();
                ExpanderParams { threshold_db: zero, ratio: zero }
            },
        }
    }
}

/// The gain at the detected level `env`: unity from the threshold on, and less
/// the further the level falls below it.
pub open spec fn expander_gain<R: Real>(p: ExpanderParams<R>, env: R) -> R {
    let thresh = linear_of(p.threshold_db);
    if at_most(thresh, env) {
        unit()
    } else {
        larger(p.ratio, unit()).diff(unit()).prod(
            larger(env, env_floor()).quot(thresh).logarithm(),
        ).exponential()
    }
}

/// From the threshold on the signal passes unchanged.
pub proof fn loud_signals_are_not_expanded<R: Real>(p: ExpanderParams<R>, env: R)
    requires
        at_most(linear_of(p.threshold_db), env),
    ensures
        expander_gain(p, env) == unit::<R>(),
{
}

/// A feed-forward downward expander.
///
/// Below the threshold the signal is reduced. Above the threshold it passes
/// unchanged.
///
/// Detection is linked peak detection. Attack and release smooth the detected
/// level before the hard-knee static curve is evaluated.
#[derive(Clone, Debug)]
pub struct Expander<T: Sample> {
    pub params: [ParamInfo<T::Real>; 2],
    pub core: DynamicsCore<T>,
}

impl<T: Sample> Expander<T> {
    /// An expander as configured from `s` and not yet prepared.
    pub open spec fn configured_by(&self, s: ExpanderSettings<T::Real>) -> bool {
        &&& self.params@ =~= seq![
            db_control(
                0,
                "threshold",
                (T::Real::decimal_of(-80, 0), nil::<T::Real>()),
                s.threshold_db,
            ),
            ratio_control(s.ratio),
        ]
        &&& self.core.configured_by(s.attack_ms, s.release_ms, s.use_sidechain)
    }

    /// An expander configured from `settings`.
    pub fn with_settings(settings: ExpanderSettings<T::Real>) -> (r: Self)
        ensures
            r.configured_by(settings),
    {
        Self {
            params: [
                db_param(
                    ExpanderParams::<T::Real>::THRESHOLD_DB,
                    "threshold",
                    (T::Real::decimal(-80, 0), T::Real::zero()),
                    settings.threshold_db,
                ),
                ratio_param(settings.ratio),
            ],
            core: DynamicsCore::new(
                settings.attack_ms,
                settings.release_ms,
                settings.use_sidechain,
            ),
        }
    }

    /// An expander with default settings.
    pub fn new() -> (r: Self)
        ensures
            r.configured_by(default_expander()),
    {
        Self::with_settings(ExpanderSettings::default())
    }

    /// As [`new`](Expander::new), but keying detection off a sidechain bus.
    pub fn with_sidechain() -> (r: Self)
        ensures
            r.configured_by(ExpanderSettings { use_sidechain: true, ..default_expander() }),
    {
        Self::with_settings(ExpanderSettings::new().use_sidechain(true))
    }
}

impl<T: Sample> Default for Expander<T> {
    fn default() -> (r: Self)
        ensures
            r.configured_by(default_expander()),
    {
        Self::new()
    }
}

impl<T: Sample> FrameModel<T> for Expander<T> {
    type Params = ExpanderParams<T::Real>;

    type Model = DynamicsModel<T::Real>;

    open spec fn next(
        m: DynamicsModel<T::Real>,
        p: ExpanderParams<T::Real>,
        x: Seq<T>,
        key: Seq<Seq<T>>,
    ) -> DynamicsModel<T::Real> {
        dynamics_next::<T>(m, x, key)
    }

    open spec fn emit(
        m: DynamicsModel<T::Real>,
        p: ExpanderParams<T::Real>,
        x: Seq<T>,
        key: Seq<Seq<T>>,
    ) -> Seq<T> {
        scaled_frame::<T>(x, expander_gain(p, dynamics_next::<T>(m, x, key).env))
    }

    open spec fn rest(m: DynamicsModel<T::Real>) -> DynamicsModel<T::Real> {
        dynamics_rest(m)
    }

    open spec fn drained(m: DynamicsModel<T::Real>) -> bool {
        true
    }
}

/// A reset restores an expander whatever it has processed.
pub proof fn expander_reset_restores<T: Sample>()
    ensures
        rendering_keeps_rest::<T, Expander<T>>(),
{
}

impl<T: Sample> Kernel<T> for Expander<T> {
    open spec fn model(&self) -> DynamicsModel<T::Real> {
        self.core.model()
    }

    open spec fn accepts(&self, mode: IoMode, channels: nat, buses: nat) -> bool {
        mode == IoMode::InPlace && (self.core.use_sidechain ==> buses >= 1)
    }

    open spec fn outcome(&self, spec: ProcessSpec) -> Result<(), DspError> {
        dynamics_outcome(self.core.attack_ms, self.core.release_ms, spec)
    }

    open spec fn made(&self, spec: ProcessSpec) -> DynamicsModel<T::Real> {
        self.core.readied(spec).model()
    }

    open spec fn standing(&self) -> Standing<T::Real> {
        Standing {
            latency: 0,
            tail: Tail::Absent,
            io_mode: IoMode::InPlace,
            footprint: 0,
            info: self.params@,
            sidechain_inputs: if self.core.use_sidechain {
                1
            } else {
                0
            },
        }
    }

    fn prepare(&mut self, spec: ProcessSpec) -> (r: Result<(), DspError>)
        ensures
            final(self).params == old(self).params,
            r is Err ==> *final(self) == *old(self),
            r is Ok ==> final(self).core == old(self).core.readied(spec),
    {
        let r = self.core.prepare(spec);
        assert(self.accepts(IoMode::InPlace, spec.channels as nat, 1));
        r
    }

    fn reset(&mut self)
        ensures
            final(self).params == old(self).params,
            final(self).core == (DynamicsCore { env: nil(), ..old(self).core }),
    {
        self.core.reset();
    }

    fn io_mode(&self) -> (r: IoMode)
        ensures
            r == IoMode::InPlace,
    {
        IoMode::InPlace
    }

    fn param_info(&self) -> (r: &[ParamInfo<T::Real>])
        ensures
            r@ == self.params@,
    {
        self.params.as_slice()
    }

    fn sidechain_inputs(&self) -> (r: usize)
        ensures
            r == (if self.core.use_sidechain {
                1usize
            } else {
                0usize
            }),
    {
        if self.core.use_sidechain {
            1
        } else {
            0
        }
    }

    fn render(&mut self, io: &mut SubBlock<'_, '_, '_, T>, params: &ExpanderParams<T::Real>)
        ensures
            final(self).params == old(self).params,
            final(self).core == (DynamicsCore { env: final(self).core.env, ..old(self).core }),
    {
        let ghost p = *params;
        let ghost m = self.model();
        let ghost xs = io.in_run();
        let ghost keys = io.key_run();
        let ghost n = io.len as nat;
        let one = T::Real::one();
        let floor = T::Real::decimal(1, -10);
        let thresh_lin = db_to_linear(params.threshold_db);
        let ratio = max_of(params.ratio, one);
        let curve = |env: T::Real| -> (g: T::Real)
            ensures
                g == expander_gain(p, env),
            {
                if at_most_of(thresh_lin, env) {
                    one
                } else {
                    let e = max_of(env, floor);
                    ratio.minus(one).times(e.over(thresh_lin).ln()).exp()
                }
            };
        self.core.render(io, curve);
        proof {
            let gains = choose|gains: Seq<T::Real>|
                {
                    &&& gains.len() == n
                    &&& forall|i: int|
                        0 <= i < n ==> call_ensures(
                            curve,
                            (dynamics_after::<T>(m, xs, keys, (i + 1) as nat).env,),
                            #[trigger] gains[i],
                        )
                    &&& #[trigger] old(io).rerun(io, mapped_run(xs, gain_map::<T>(gains)))
                };
            lemma_dynamics_frames::<T, Self>(
                m,
                p,
                |env: T::Real| expander_gain(p, env),
                xs,
                keys,
                gains,
                n,
            );
        }
    }
}

/// What the kernel answers about itself stays as `prepare` left it.
pub proof fn expander_answers_stand<T: Sample>()
    ensures
        kernel_answers_stand::<T, Expander<T>>(),
{
}

} // verus!
