//! Borrowed multichannel block views and [`Io`].
//!
//! Hosts own the audio buffers and build a table of channel planes for each
//! call. [`AudioBlock`] is read-only, [`AudioBlockMut`] is read-write, and [`Io`]
//! selects in-place, output-only, or split processing.

use vstd::prelude::*;

verus! {

/// Every channel of `planes` holds `frames` samples.
pub open spec fn rectangular<T>(planes: Seq<Seq<T>>, frames: nat) -> bool {
    forall|ch: int| 0 <= ch < planes.len() ==> (#[trigger] planes[ch]).len() == frames
}

/// The frame count of a table of planes: the length of the first one.
pub open spec fn frames_of<T>(planes: Seq<Seq<T>>) -> nat {
    if planes.len() == 0 {
        0
    } else {
        planes[0].len()
    }
}

/// The samples that a table of shared planes shows.
pub open spec fn shared_planes<'a, T>(planes: Seq<&'a [T]>) -> Seq<Seq<T>> {
    Seq::new(planes.len(), |ch: int| planes[ch]@)
}

/// The samples that a table of exclusive planes shows.
pub open spec fn exclusive_planes<'a, T>(planes: Seq<&'a mut [T]>) -> Seq<Seq<T>> {
    Seq::new(planes.len(), |ch: int| planes[ch]@)
}

/// A read-only multichannel view. Channels are planar slices of equal length.
#[derive(Debug)]
pub struct AudioBlock<'view, 'samples, T> {
    planes: &'view [&'samples [T]],
    frames: usize,
}

impl<'view, 'samples, T> AudioBlock<'view, 'samples, T> {
    /// The samples, channel by channel.
    pub closed spec fn samples(&self) -> Seq<Seq<T>> {
        shared_planes(self.planes@)
    }

    /// The recorded frame count.
    pub closed spec fn length(&self) -> usize {
        self.frames
    }

    /// Every channel has the recorded frame count.
    pub open spec fn wf(&self) -> bool {
        &&& rectangular(self.samples(), self.length() as nat)
        &&& self.length() == frames_of(self.samples())
        &&& self.samples().len() <= usize::MAX
    }

    /// Build a view over per-channel slices of equal length.
    pub fn new(planes: &'view [&'samples [T]]) -> (r: Self)
        requires
            rectangular(shared_planes(planes@), frames_of(shared_planes(planes@))),
        ensures
            r.wf(),
            r.samples() == shared_planes(planes@),
            r.length() == frames_of(shared_planes(planes@)),
    {
        let frames: usize = if planes.len() > 0 {
            planes[0].len()
        } else {
            0
        };
        Self { planes, frames }
    }

    /// The channel count.
    pub fn channels(&self) -> (r: usize)
        ensures
            r == self.samples().len(),
    {
        self.planes.len()
    }

    /// The frame count, equal across channels.
    pub fn frames(&self) -> (r: usize)
        ensures
            r == self.length(),
    {
        self.frames
    }

    /// Read channel `ch`.
    pub fn channel(&self, ch: usize) -> (r: &[T])
        requires
            ch < self.samples().len(),
        ensures
            r@ == self.samples()[ch as int],
    {
        self.planes[ch]
    }
}

/// A read-write multichannel view. Channels are planar slices of equal length.
#[derive(Debug)]
pub struct AudioBlockMut<'view, 'samples, T> {
    planes: &'view mut [&'samples mut [T]],
    frames: usize,
}

impl<'view, 'samples, T> AudioBlockMut<'view, 'samples, T> {
    /// The samples, channel by channel.
    pub closed spec fn samples(&self) -> Seq<Seq<T>> {
        exclusive_planes(self.planes@)
    }

    /// The borrowed table of channel planes.
    pub closed spec fn table(&self) -> &'view mut [&'samples mut [T]] {
        self.planes
    }

    /// The borrowed plane of channel `ch`.
    pub closed spec fn plane(&self, ch: int) -> &'samples mut [T] {
        self.planes@[ch]
    }

    /// A view shows what the planes of its table hold.
    pub proof fn shows_its_planes(&self)
        ensures
            self.samples() == exclusive_planes(self.table()@),
            self.table()@.len() == self.samples().len(),
            forall|ch: int| #[trigger] self.plane(ch) == self.table()@[ch],
    {
    }

    /// The recorded frame count.
    pub closed spec fn length(&self) -> usize {
        self.frames
    }

    /// Every channel has the recorded frame count.
    pub open spec fn wf(&self) -> bool {
        &&& rectangular(self.samples(), self.length() as nat)
        &&& self.length() == frames_of(self.samples())
        &&& self.samples().len() <= usize::MAX
    }

    /// Once nothing more is written through a view, its table holds for good what
    /// it holds now.
    pub proof fn table_settles(&self)
        requires
            has_resolved(*self),
        ensures
            final(self.table())@ == self.table()@,
    {
    }

    /// Build a view over per-channel mutable slices of equal length.
    pub fn new(planes: &'view mut [&'samples mut [T]]) -> (r: Self)
        requires
            rectangular(exclusive_planes(old(planes)@), frames_of(exclusive_planes(old(planes)@))),
        ensures
            r.wf(),
            r.samples() == exclusive_planes(old(planes)@),
            r.length() == frames_of(exclusive_planes(old(planes)@)),
            r.table()@ == old(planes)@,
            final(planes)@ == final(r.table())@,
    {
        let frames: usize = if planes.len() > 0 {
            planes[0].len()
        } else {
            0
        };
        Self { planes, frames }
    }

    /// The channel count.
    pub fn channels(&self) -> (r: usize)
        ensures
            r == self.samples().len(),
    {
        self.planes.len()
    }

    /// The frame count, equal across channels.
    pub fn frames(&self) -> (r: usize)
        ensures
            r == self.length(),
    {
        self.frames
    }

    /// Read channel `ch`.
    pub fn channel(&self, ch: usize) -> (r: &[T])
        requires
            ch < self.samples().len(),
        ensures
            r@ == self.samples()[ch as int],
    {
        &*self.planes[ch]
    }

    /// Read-modify-write channel `ch`. The other channels stay as they are.
    pub fn channel_mut(&mut self, ch: usize) -> (r: &mut [T])
        requires
            ch < old(self).samples().len(),
        ensures
            r@ == old(self).samples()[ch as int],
            final(self).samples() == old(self).samples().update(ch as int, final(r)@),
            final(self).length() == old(self).length(),
            final(final(self).table())@ == final(old(self).table())@,
            forall|c: int|
                0 <= c < old(self).samples().len() ==> final(#[trigger] final(self).plane(c))@
                    == final(old(self).plane(c))@,
    {
        &mut *self.planes[ch]
    }
}

/// How a processor declares the shape of its main signal.
#[derive(Clone, Copy, Debug, PartialEq, Eq, Structural)]
pub enum IoMode {
    /// Read-modify-write over one buffer.
    InPlace,
    /// Write output without a main input signal.
    OutputOnly,
    /// Disjoint input and output buffers.
    Split,
}

/// The main signal in in-place, output-only, or split form.
#[derive(Debug)]
pub enum Io<'view, 'samples, T> {
    /// Read-modify-write over one buffer.
    InPlace(AudioBlockMut<'view, 'samples, T>),
    /// Write-only output for a generator or other source.
    OutputOnly(AudioBlockMut<'view, 'samples, T>),
    /// Disjoint input and output for work that reads original input while writing.
    Split {
        /// Read-only input.
        input: AudioBlock<'view, 'samples, T>,
        /// Write-only output, disjoint from `input`.
        output: AudioBlockMut<'view, 'samples, T>,
    },
}

impl<'view, 'samples, T> Io<'view, 'samples, T> {
    /// The shape of this signal.
    pub open spec fn mode(&self) -> IoMode {
        match *self {
            Io::InPlace(_) => IoMode::InPlace,
            Io::OutputOnly(_) => IoMode::OutputOnly,
            Io::Split { .. } => IoMode::Split,
        }
    }

    /// The samples that processing writes; in place they are read as well.
    pub open spec fn output(&self) -> Seq<Seq<T>> {
        match *self {
            Io::InPlace(b) => b.samples(),
            Io::OutputOnly(b) => b.samples(),
            Io::Split { input, output } => output.samples(),
        }
    }

    /// The samples that processing reads. A source has none.
    pub open spec fn input(&self) -> Seq<Seq<T>> {
        match *self {
            Io::InPlace(b) => b.samples(),
            Io::OutputOnly(b) => Seq::empty(),
            Io::Split { input, output } => input.samples(),
        }
    }

    /// The borrowed table of output planes.
    pub open spec fn table(&self) -> &'view mut [&'samples mut [T]] {
        match *self {
            Io::InPlace(b) => b.table(),
            Io::OutputOnly(b) => b.table(),
            Io::Split { input, output } => output.table(),
        }
    }

    /// The borrowed output plane of channel `ch`.
    pub open spec fn plane(&self, ch: int) -> &'samples mut [T] {
        match *self {
            Io::InPlace(b) => b.plane(ch),
            Io::OutputOnly(b) => b.plane(ch),
            Io::Split { input, output } => output.plane(ch),
        }
    }

    /// The output side shows what the planes of its table hold.
    pub proof fn shows_its_planes(&self)
        ensures
            self.output() == exclusive_planes(self.table()@),
            self.table()@.len() == self.output().len(),
            forall|ch: int| #[trigger] self.plane(ch) == self.table()@[ch],
    {
        match *self {
            Io::InPlace(b) => b.shows_its_planes(),
            Io::OutputOnly(b) => b.shows_its_planes(),
            Io::Split { input, output } => output.shows_its_planes(),
        }
    }

    /// Once nothing more is written through a signal, its table holds for good
    /// what it holds now.
    pub proof fn table_settles(&self)
        requires
            has_resolved(*self),
        ensures
            final(self.table())@ == self.table()@,
    {
        match *self {
            Io::InPlace(b) => b.table_settles(),
            Io::OutputOnly(b) => b.table_settles(),
            Io::Split { input, output } => output.table_settles(),
        }
    }

    /// The frame count of the output side.
    pub open spec fn length(&self) -> usize {
        match *self {
            Io::InPlace(b) => b.length(),
            Io::OutputOnly(b) => b.length(),
            Io::Split { input, output } => output.length(),
        }
    }

    /// The block is rectangular; split input and output have equal lengths.
    pub open spec fn wf(&self) -> bool {
        match *self {
            Io::InPlace(b) => b.wf(),
            Io::OutputOnly(b) => b.wf(),
            Io::Split { input, output } => {
                &&& input.wf()
                &&& output.wf()
                &&& input.length() == output.length()
            },
        }
    }

    /// The same signal with other samples on its output side.
    pub open spec fn rewritten(&self, after: &Self, output: Seq<Seq<T>>) -> bool {
        &&& after.wf()
        &&& after.mode() == self.mode()
        &&& after.output() == output
        &&& after.length() == self.length()
        &&& self.mode() != IoMode::InPlace ==> after.input() == self.input()
    }
}

} // verus!
