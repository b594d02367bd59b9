//! Automatable gain in decibels.

use crate::contract::block::IoMode;
use crate::contract::context::{SubBlock, Tail};
use crate::contract::error::DspError;
use crate::contract::param::{conventional, ParamId, ParamInfo, Unit};
use crate::contract::spec::ProcessSpec;
use crate::contract::traits::{kernel_answers_stand, FrameModel, Kernel, Params, Standing};
use crate::dsp::lanes::{lemma_map_is_frames, map_run};
use crate::dsp::level::{db_to_linear, linear_of};
use crate::dsp::sanitize::{finite_or_zero, sane};
use crate::dsp::schedule::rendering_keeps_rest;
use crate::dsp::smoother::SmootherBank;
use crate::number::{nil, Real, Sample};
use vstd::prelude::*;

verus! {

/// Smoothed parameter values for [`Gain`].
#[derive(Debug, PartialEq)]
pub struct GainParams<R> {
    /// Gain in dB.
    pub gain_db: R,
}

impl<R: Copy> Copy for GainParams<R> {

}

impl<R: Copy> Clone for GainParams<R> {
    fn clone(&self) -> (r: Self)
        ensures
            r == *self,
    {
        *self
    }
}

impl<R: Real> GainParams<R> {
    /// Number of the id of `gain_db`.
    pub const GAIN_DB: u32 = 0;
}

impl<R: Real> Params<R> for GainParams<R> {
    const COUNT: usize = 1;

    open spec fn load(values: Seq<R>) -> Self {
        GainParams { gain_db: values[0] }
    }

    fn from_bank(bank: &SmootherBank<R>) -> (r: Self) {
        match bank.value_at(0) {
            Some(gain_db) => GainParams { gain_db },
            None => GainParams { gain_db: R::zero() },
        }
    }
}

/// Construction settings for [`Gain`].
#[derive(Debug, PartialEq)]
pub struct GainSettings<R> {
    /// Initial gain in decibels.
    pub gain_db: R,
}

impl<R: Copy> Copy for GainSettings<R> {

}

impl<R: Copy> Clone for GainSettings<R> {
    fn clone(&self) -> (r: Self)
        ensures
            r == *self,
    {
        *self
    }
}

impl<R: Real> GainSettings<R> {
    /// Unity-gain settings.
    pub fn new() -> (r: Self)
        ensures
            r.gain_db == nil::<R>(),
    {
        Self { gain_db: R::zero() }
    }

    /// Set the initial gain in decibels.
    pub fn gain_db(self, gain_db: R) -> (r: Self)
        ensures
            r.gain_db == gain_db,
    {
        Self { gain_db }
    }
}

impl<R: Real> Default for GainSettings<R> {
    fn default() -> (r: Self)
        ensures
            r.gain_db == nil::<R>(),
    {
        Self::new()
    }
}

/// Automatable gain in decibels.
///
/// The conversion to a linear factor is made once per range, since the parameter
/// is constant within it.
#[derive(Clone, Debug)]
pub struct Gain<T: Sample> {
    params: [ParamInfo<T::Real>; 1],
}

/// The sample `x` scaled by `db` decibels.
pub open spec fn gained<T: Sample>(db: T::Real, x: T) -> T {
    T::stored(sane(x.value()).prod(linear_of(db)))
}

impl<T: Sample> Gain<T> {
    /// The declared parameters.
    pub closed spec fn declared(&self) -> Seq<ParamInfo<T::Real>> {
        self.params@
    }

    /// A kernel as configured from `s`.
    pub open spec fn configured_by(&self, s: GainSettings<T::Real>) -> bool {
        self.declared() =~= seq![
            conventional(
                ParamId(0),
                "gain",
                (T::Real::decimal_of(-96, 0), T::Real::decimal_of(24, 0)),
                s.gain_db,
                Unit::Db,
            ),
        ]
    }

    /// A gain kernel defaulting to unity.
    pub fn new() -> (r: Self)
        ensures
            r.configured_by(GainSettings { gain_db: nil() }),
    {
        Self::with_settings(GainSettings::new())
    }

    /// A gain kernel configured from `settings`.
    pub fn with_settings(settings: GainSettings<T::Real>) -> (r: Self)
        ensures
            r.configured_by(settings),
    {
        Self {
            params: [
                ParamInfo::new(
                    ParamId(GainParams::<T::Real>::GAIN_DB),
                    "gain",
                    (T::Real::decimal(-96, 0), T::Real::decimal(24, 0)),
                    settings.gain_db,
                    Unit::Db,
                ),
            ],
        }
    }
}

impl<T: Sample> Default for Gain<T> {
    fn default() -> (r: Self)
        ensures
            r.configured_by(GainSettings { gain_db: nil() }),
    {
        Self::new()
    }
}

impl<T: Sample> FrameModel<T> for Gain<T> {
    type Params = GainParams<T::Real>;

    type Model = ();

    open spec fn next(m: (), p: GainParams<T::Real>, x: Seq<T>, key: Seq<Seq<T>>) -> () {
        ()
    }

    open spec fn emit(m: (), p: GainParams<T::Real>, x: Seq<T>, key: Seq<Seq<T>>) -> Seq<T> {
        Seq::new(x.len(), |ch: int| gained(p.gain_db, x[ch]))
    }

    open spec fn rest(m: ()) -> () {
        ()
    }

    open spec fn drained(m: ()) -> bool {
        true
    }
}

/// A gain has nothing to forget.
pub proof fn gain_reset_restores<T: Sample>()
    ensures
        rendering_keeps_rest::<T, Gain<T>>(),
{
}

impl<T: Sample> Kernel<T> for Gain<T> {
    open spec fn model(&self) -> () {
        ()
    }

    open spec fn inv(&self) -> bool {
        true
    }

    open spec fn accepts(&self, mode: IoMode, channels: nat, buses: nat) -> bool {
        mode == IoMode::InPlace
    }

    open spec fn outcome(&self, spec: ProcessSpec) -> Result<(), DspError> {
        Ok(())
    }

    open spec fn made(&self, spec: ProcessSpec) -> () {
        ()
    }

    open spec fn standing(&self) -> Standing<T::Real> {
        Standing {
            latency: 0,
            tail: Tail::Absent,
            io_mode: IoMode::InPlace,
            footprint: 0,
            info: self.declared(),
            sidechain_inputs: 0,
        }
    }

    fn prepare(&mut self, spec: ProcessSpec) -> (r: Result<(), DspError>)
        ensures
            final(self).declared() == old(self).declared(),
    {
        assert(self.accepts(IoMode::InPlace, spec.channels as nat, 0));
        Ok(())
    }

    fn reset(&mut self)
        ensures
            final(self).declared() == old(self).declared(),
    {
    }

    fn io_mode(&self) -> (r: IoMode)
        ensures
            r == IoMode::InPlace,
    {
        IoMode::InPlace
    }

    fn param_info(&self) -> (r: &[ParamInfo<T::Real>])
        ensures
            r@ == self.declared(),
    {
        self.params.as_slice()
    }

    fn render(&mut self, io: &mut SubBlock<'_, '_, '_, T>, params: &GainParams<T::Real>)
        ensures
            final(self).declared() == old(self).declared(),
    {
        let db = params.gain_db;
        let g = db_to_linear(db);
        let ghost spec_map = |ch: int, i: int, x: T| gained(db, x);
        let f = |ch: usize, i: usize, x: T| -> (y: T)
            ensures
                y == gained(db, x),
            { T::from_real(finite_or_zero(x.to_real()).times(g)) };
        proof {
            lemma_map_is_frames::<T, Self>(
                (),
                *params,
                io.in_run(),
                io.key_run(),
                io.len as nat,
                spec_map,
            );
        }
        map_run(io, &f, Ghost(spec_map));
    }
}

/// What the kernel answers about itself stays as `prepare` left it.
pub proof fn gain_answers_stand<T: Sample>()
    ensures
        kernel_answers_stand::<T, Gain<T>>(),
{
}

} // verus!
