//! Microphone input: the capture settings derived from the device, and the
//! cutting of captured samples into fixed-size frames.

use vstd::prelude::*;

verus! {

/// Frames per second: one frame covers 20 ms of audio.
pub const FRAMES_PER_SECOND: u32 = 50;

/// How the capture stream is opened.
#[derive(Clone, Copy, Debug, PartialEq, Eq)]
pub struct StreamSettings {
    /// Number of interleaved channels captured.
    pub channels: u16,
    /// Samples per second and channel.
    pub sample_rate: u32,
    /// Samples delivered per callback.
    pub buffer_size: u32,
}

/// State of the microphone input: the device and what was read from its
/// default configuration, and the stop and pause switches.
pub struct VoiceInput<D> {
    device: D,
    channels: u16,
    sample_rate: u32,
    frame_size: u32,
    stop: bool,
    paused: bool,
}

/// `a` and `b` have the same device, channels, sample rate and frame size.
pub open spec fn same_settings<D>(a: VoiceInput<D>, b: VoiceInput<D>) -> bool {
    &&& a.spec_device() == b.spec_device()
    &&& a.spec_channels() == b.spec_channels()
    &&& a.spec_sample_rate() == b.spec_sample_rate()
    &&& a.spec_frame_size() == b.spec_frame_size()
}

/// Pausing, resuming and stopping never change what the input was created
/// with: over any series of such steps (each keeping the settings, as
/// `set_paused` and `stop` do) the sample rate, channels, frame size and
/// device stay those of the first state.
pub proof fn lemma_settings_fixed<D>(states: Seq<VoiceInput<D>>)
    requires
        states.len() > 0,
        forall|i: int| 0 <= i < states.len() - 1 ==> same_settings(#[trigger] states[i], states[i + 1]),
    ensures
        forall|i: int| 0 <= i < states.len() ==> same_settings(states[0], #[trigger] states[i]),
    decreases states.len(),
{
    if states.len() > 1 {
        let s0 = states.drop_last();
        assert forall|i: int| 0 <= i < s0.len() - 1 implies same_settings(#[trigger] s0[i], s0[i + 1]) by {
            assert(s0[i] == states[i]);
            assert(s0[i + 1] == states[i + 1]);
        }
        lemma_settings_fixed(s0);
        assert forall|i: int| 0 <= i < states.len() implies same_settings(states[0], #[trigger] states[i]) by {
            assert(s0[0] == states[0]);
            if i < s0.len() {
                assert(s0[i] == states[i]);
            } else {
                assert(s0[i - 1] == states[i - 1]);
                assert(same_settings(states[i - 1], states[i]));
            }
        }
    }
}

impl<D> VoiceInput<D> {
    /// Channel count of the device.
    pub closed spec fn spec_channels(&self) -> u16 {
        self.channels
    }

    /// Sample rate of the device.
    pub closed spec fn spec_sample_rate(&self) -> u32 {
        self.sample_rate
    }

    /// Samples per frame.
    pub closed spec fn spec_frame_size(&self) -> u32 {
        self.frame_size
    }

    /// Whether capture is paused.
    pub closed spec fn spec_paused(&self) -> bool {
        self.paused
    }

    /// Whether capture has been told to stop.
    pub closed spec fn spec_stopped(&self) -> bool {
        self.stop
    }

    /// The device.
    pub closed spec fn spec_device(&self) -> D {
        self.device
    }

    /// Input from `device`, whose default configuration has `channels`
    /// channels at `sample_rate`: frames of 20 ms, paused, not stopped.
    pub fn create(device: D, channels: u16, sample_rate: u32) -> (input: Self)
        ensures
            input.spec_device() == device,
            input.spec_channels() == channels,
            input.spec_sample_rate() == sample_rate,
            input.spec_frame_size() == sample_rate / 50,
            input.spec_paused(),
            !input.spec_stopped(),
    {
        VoiceInput {
            device,
            channels,
            sample_rate,
            frame_size: sample_rate / FRAMES_PER_SECOND,
            stop: false,
            paused: true,
        }
    }

    /// The device.
    pub fn device(&self) -> (d: &D)
        ensures
            *d == self.spec_device(),
    {
        &self.device
    }

    /// Channel count of the device.
    pub fn get_channels(&self) -> (c: u16)
        ensures
            c == self.spec_channels(),
    {
        self.channels
    }

    /// Sample rate of the device.
    pub fn get_sample_rate(&self) -> (r: u32)
        ensures
            r == self.spec_sample_rate(),
    {
        self.sample_rate
    }

    /// Samples per frame.
    pub fn get_frame_size(&self) -> (f: u32)
        ensures
            f == self.spec_frame_size(),
    {
        self.frame_size
    }

    /// Pauses or resumes capture.
    pub fn set_paused(&mut self, paused: bool)
        ensures
            final(self).spec_paused() == paused,
            final(self).spec_stopped() == old(self).spec_stopped(),
            same_settings(*old(self), *final(self)),
            final(self).spec_channels() == old(self).spec_channels(),
            final(self).spec_sample_rate() == old(self).spec_sample_rate(),
            final(self).spec_frame_size() == old(self).spec_frame_size(),
            final(self).spec_device() == old(self).spec_device(),
    {
        self.paused = paused;
    }

    /// Whether capture is paused.
    pub fn is_paused(&self) -> (p: bool)
        ensures
            p == self.spec_paused(),
    {
        self.paused
    }

    /// Tells capture to stop.
    pub fn stop(&mut self)
        ensures
            final(self).spec_stopped(),
            final(self).spec_paused() == old(self).spec_paused(),
            same_settings(*old(self), *final(self)),
            final(self).spec_channels() == old(self).spec_channels(),
            final(self).spec_sample_rate() == old(self).spec_sample_rate(),
            final(self).spec_frame_size() == old(self).spec_frame_size(),
            final(self).spec_device() == old(self).spec_device(),
    {
        self.stop = true;
    }

    /// Whether capture has been told to stop.
    pub fn is_stopped(&self) -> (s: bool)
        ensures
            s == self.spec_stopped(),
    {
        self.stop
    }

    /// Interleaved samples that make up one captured frame: one frame's worth
    /// for a mono device, two for any other, which is captured in stereo and
    /// mixed down to one frame of mono.
    pub fn capture_frame_size(&self) -> (n: u32)
        requires
            self.spec_frame_size() <= u32::MAX / 2,
        ensures
            self.spec_channels() == 1 ==> n == self.spec_frame_size(),
            self.spec_channels() != 1 ==> n == self.spec_frame_size() * 2,
            self.spec_channels() != 1 ==> n % 2 == 0,
    {
        if self.channels == 1 {
            self.frame_size
        } else {
            self.frame_size * 2
        }
    }

    /// Settings of the capture stream: mono devices are captured in mono one
    /// frame per callback; any other device in stereo, two frames' worth of
    /// samples per callback since they are mixed down to mono.
    pub fn stream_settings(&self) -> (s: StreamSettings)
        requires
            self.spec_frame_size() <= u32::MAX / 2,
        ensures
            self.spec_channels() == 1 ==> s == (StreamSettings {
                channels: 1,
                sample_rate: self.spec_sample_rate(),
                buffer_size: self.spec_frame_size(),
            }),
            self.spec_channels() != 1 ==> s == (StreamSettings {
                channels: 2,
                sample_rate: self.spec_sample_rate(),
                buffer_size: (self.spec_frame_size() * 2) as u32,
            }),
    {
        if self.channels == 1 {
            StreamSettings { channels: 1, sample_rate: self.sample_rate, buffer_size: self.frame_size }
        } else {
            StreamSettings {
                channels: 2,
                sample_rate: self.sample_rate,
                buffer_size: self.frame_size * 2,
            }
        }
    }
}

/// The contents of a sequence of frames laid end to end.
pub open spec fn joined<T>(frames: Seq<Vec<T>>) -> Seq<T> {
    frames.map_values(|f: Vec<T>| f@).flatten()
}

/// One delivery `data` to an assembler that held back `pending` and cuts
/// frames of `size` samples yields `frames` and holds back `rest`: while
/// paused nothing comes out and the delivery is dropped; otherwise every
/// complete frame of `pending + data` comes out in order and less than one
/// frame is held back.
pub open spec fn cut_frames<T>(
    pending: Seq<T>,
    size: nat,
    paused: bool,
    data: Seq<T>,
    frames: Seq<Seq<T>>,
    rest: Seq<T>,
) -> bool {
    if paused {
        frames.len() == 0 && rest == pending
    } else {
        &&& frames.flatten() + rest == pending + data
        &&& forall|k: int| 0 <= k < frames.len() ==> (#[trigger] frames[k]).len() == size
        &&& rest.len() < size
        &&& frames.len() == (pending.len() + data.len()) / size
    }
}

/// A delivery made while paused is dropped for good: after resuming, the
/// samples held back before the pause lead the next frames, followed by
/// the new delivery, with nothing of the paused one in between.
pub proof fn lemma_paused_delivery_dropped<T>(
    pending: Seq<T>,
    size: nat,
    paused_data: Seq<T>,
    frames1: Seq<Seq<T>>,
    rest1: Seq<T>,
    data: Seq<T>,
    frames2: Seq<Seq<T>>,
    rest2: Seq<T>,
)
    requires
        cut_frames(pending, size, true, paused_data, frames1, rest1),
        cut_frames(rest1, size, false, data, frames2, rest2),
    ensures
        frames1.len() == 0,
        frames2.flatten() + rest2 == pending + data,
{
}

/// Over any series of unpaused deliveries, the frames of all deliveries laid
/// end to end, followed by what is held back at the end, are what was held
/// back at the start followed by all delivered samples; less than one frame
/// is held back at the end.
pub proof fn lemma_frames_across_deliveries<T>(
    size: nat,
    data: Seq<Seq<T>>,
    frames: Seq<Seq<Seq<T>>>,
    rests: Seq<Seq<T>>,
)
    requires
        size > 0,
        rests.len() == data.len() + 1,
        frames.len() == data.len(),
        rests[0].len() < size,
        forall|i: int|
            0 <= i < data.len() ==> cut_frames(
                rests[i],
                size,
                false,
                #[trigger] data[i],
                frames[i],
                rests[i + 1],
            ),
    ensures
        frames.flatten().flatten() + rests.last() == rests[0] + data.flatten(),
        rests.last().len() < size,
    decreases data.len(),
{
    if data.len() > 0 {
        let n = data.len() - 1;
        let d0 = data.drop_last();
        let f0 = frames.drop_last();
        let r0 = rests.drop_last();
        assert forall|i: int| 0 <= i < d0.len() implies cut_frames(
            r0[i],
            size,
            false,
            #[trigger] d0[i],
            f0[i],
            r0[i + 1],
        ) by {
            assert(d0[i] == data[i]);
            assert(f0[i] == frames[i]);
            assert(r0[i] == rests[i]);
            assert(r0[i + 1] == rests[i + 1]);
        }
        lemma_frames_across_deliveries(size, d0, f0, r0);
        assert(r0.last() == rests[n]);
        assert(r0[0] == rests[0]);
        assert(cut_frames(rests[n], size, false, data[n], frames[n], rests[n + 1]));
        assert(frames =~= f0.push(frames[n]));
        assert(data =~= d0.push(data[n]));
        f0.lemma_flatten_push(frames[n]);
        d0.lemma_flatten_push(data[n]);
        vstd::seq_lib::lemma_flatten_concat(f0.flatten(), frames[n]);
        let a = f0.flatten().flatten();
        let b = frames[n].flatten();
        assert(a + rests[n] == rests[0] + d0.flatten());
        assert(b + rests[n + 1] == rests[n] + data[n]);
        assert((a + b) + rests[n + 1] =~= a + (b + rests[n + 1]));
        assert(a + (rests[n] + data[n]) =~= (a + rests[n]) + data[n]);
        assert((rests[0] + d0.flatten()) + data[n] =~= rests[0] + (d0.flatten() + data[n]));
    }
}

/// Collects captured samples and cuts them into frames of a fixed size,
/// keeping what does not fill a frame for the next delivery.
pub struct FrameAssembler<T> {
    overflow: Vec<T>,
    frame_size: usize,
}

impl<T: Copy> FrameAssembler<T> {
    /// Samples held back, waiting for a full frame.
    pub closed spec fn pending(&self) -> Seq<T> {
        self.overflow@
    }

    /// Samples per frame.
    pub closed spec fn size(&self) -> nat {
        self.frame_size as nat
    }

    /// Frames are non-empty, and less than one frame is ever held back.
    pub closed spec fn wf(&self) -> bool {
        &&& self.frame_size > 0
        &&& self.overflow@.len() < self.frame_size
    }

    /// An assembler of frames of `frame_size` samples, holding nothing.
    pub fn new(frame_size: usize) -> (a: Self)
        requires
            frame_size > 0,
        ensures
            a.wf(),
            a.size() == frame_size,
            a.size() > 0,
            a.pending() == Seq::<T>::empty(),
    {
        FrameAssembler { overflow: Vec::new(), frame_size }
    }

    /// Samples per frame.
    pub fn frame_size(&self) -> (n: usize)
        ensures
            n == self.size(),
    {
        self.frame_size
    }

    /// Number of samples held back.
    pub fn pending_len(&self) -> (n: usize)
        ensures
            n == self.pending().len(),
    {
        self.overflow.len()
    }

    /// Takes one delivery of captured samples. While paused the delivery is
    /// ignored. Otherwise it is appended to the samples held back and every
    /// complete frame is cut off the front, in order.
    pub fn accept(&mut self, paused: bool, data: &[T]) -> (frames: Vec<Vec<T>>)
        requires
            old(self).wf(),
            old(self).pending().len() + data@.len() <= usize::MAX,
        ensures
            final(self).wf(),
            final(self).size() == old(self).size(),
            final(self).size() > 0,
            final(self).pending().len() < final(self).size(),
            paused ==> frames@.len() == 0 && final(self).pending() == old(self).pending(),
            !paused ==> joined(frames@) + final(self).pending() == old(self).pending() + data@,
            !paused ==> frames@.len() == (old(self).pending().len() + data@.len()) / old(
                self,
            ).size(),
            forall|k: int| 0 <= k < frames@.len() ==> (#[trigger] frames@[k])@.len() == old(
                self,
            ).size(),
            !paused ==> final(self).pending().len() == (old(self).pending().len() + data@.len())
                % old(self).size(),
            cut_frames(
                old(self).pending(),
                old(self).size(),
                paused,
                data@,
                frames@.map_values(|f: Vec<T>| f@),
                final(self).pending(),
            ),
    {
        let mut frames: Vec<Vec<T>> = Vec::new();
        if paused {
            return frames;
        }
        let ghost before = self.overflow@;
        let mut i: usize = 0;
        while i < data.len()
            invariant
                i <= data@.len(),
                self.overflow@ == before + data@.take(i as int),
                self.frame_size == old(self).frame_size,
            decreases data@.len() - i,
        {
            self.overflow.push(data[i]);
            assert(data@.take(i as int + 1) =~= data@.take(i as int).push(data@[i as int]));
            i = i + 1;
        }
        assert(data@.take(data@.len() as int) =~= data@);
        let ghost all = self.overflow@;
        let fs = self.frame_size;
        let mut start: usize = 0;
        assert(joined(frames@) =~= all.subrange(0, 0)) by {
            assert(frames@.map_values(|f: Vec<T>| f@) =~= Seq::<Seq<T>>::empty());
        }
        while self.overflow.len() - start >= fs
            invariant
                start <= self.overflow@.len(),
                self.overflow@ == all,
                fs == self.frame_size,
                fs > 0,
                joined(frames@) == all.subrange(0, start as int),
                start == frames@.len() * fs,
                forall|k: int| 0 <= k < frames@.len() ==> (#[trigger] frames@[k])@.len() == fs,
            decreases self.overflow@.len() - start,
        {
            let mut frame: Vec<T> = Vec::new();
            let mut j: usize = 0;
            while j < fs
                invariant
                    j <= fs,
                    start + fs <= self.overflow@.len(),
                    self.overflow@.len() <= usize::MAX,
                    self.overflow@ == all,
                    frame@ == all.subrange(start as int, start + j),
                decreases fs - j,
            {
                frame.push(self.overflow[start + j]);
                assert(all.subrange(start as int, start + j + 1) =~= all.subrange(
                    start as int,
                    start + j,
                ).push(all[start + j]));
                j = j + 1;
            }
            let ghost old_frames = frames@;
            frames.push(frame);
            proof {
                let views = old_frames.map_values(|f: Vec<T>| f@);
                assert(frames@.map_values(|f: Vec<T>| f@) =~= views.push(frame@));
                views.lemma_flatten_push(frame@);
                assert(all.subrange(0, start + fs) =~= all.subrange(0, start as int)
                    + all.subrange(start as int, start + fs));
            }
            assert((frames@.len() - 1) * fs + fs == frames@.len() * fs) by (nonlinear_arith);
            start = start + fs;
        }
        let ghost k = frames@.len() as int;
        let ghost total = all.len() as int;
        assert(k == total / (fs as int)) by (nonlinear_arith)
            requires
                start == k * fs,
                start <= total,
                total - start < fs,
                fs > 0,
        ;
        assert(total - start == total % (fs as int)) by (nonlinear_arith)
            requires
                start == k * fs,
                start <= total,
                total - start < fs,
                fs > 0,
        ;
        let mut rest: Vec<T> = Vec::new();
        let mut j: usize = start;
        while j < self.overflow.len()
            invariant
                start <= j <= self.overflow@.len(),
                self.overflow@ == all,
                rest@ == all.subrange(start as int, j as int),
            decreases self.overflow@.len() - j,
        {
            rest.push(self.overflow[j]);
            assert(all.subrange(start as int, j + 1) =~= all.subrange(start as int, j as int).push(
                all[j as int],
            ));
            j = j + 1;
        }
        self.overflow = rest;
        assert(all =~= all.subrange(0, start as int) + all.subrange(start as int, all.len() as int));
        frames
    }
}

/// Pairs up the interleaved samples of a stereo frame: the `i`-th pair holds
/// the left and right samples of the `i`-th instant.
pub fn pair_channels<T: Copy>(frame: &[T]) -> (pairs: Vec<(T, T)>)
    requires
        frame@.len() % 2 == 0,
    ensures
        pairs@.len() * 2 == frame@.len(),
        forall|i: int| 0 <= i < pairs@.len() ==> #[trigger] pairs@[i] == (frame@[2 * i], frame@[2 * i + 1]),
{
    let mut pairs: Vec<(T, T)> = Vec::new();
    let mut i: usize = 0;
    while i + 1 < frame.len()
        invariant
            frame@.len() % 2 == 0,
            i % 2 == 0,
            i <= frame@.len(),
            pairs@.len() * 2 == i,
            forall|k: int| 0 <= k < pairs@.len() ==> #[trigger] pairs@[k] == (frame@[2 * k], frame@[2 * k + 1]),
        decreases frame@.len() - i,
    {
        pairs.push((frame[i], frame[i + 1]));
        i = i + 2;
    }
    pairs
}

} // verus!
