//! The steps of an image codec that works on buffers from outside: what to do
//! on each of its answers.

use crate::text::{decimal, then_number, with_number};
use vstd::arithmetic::power2::{lemma2_to64, lemma_pow2_unfold, pow2};
use vstd::prelude::*;
use vstd::string::StringExecFns;

verus! {

/// The first size of the buffer for encoded data.
pub const FIRST_CAPACITY: usize = 1048576;

/// What an encoder answers when it is asked for output.
pub enum EncoderEvent {
    Success,
    NeedMoreOutput,
    Error(String),
}

/// What is to be done next.
pub enum EncoderAction {
    /// The first so many bytes of the buffer are the encoded data.
    Finish(usize),
    /// The buffer has to have this size.
    Grow(usize),
    Fail(String),
}

/// The buffer for encoded data: its size and how much of it is used.
pub struct OutputBuffer {
    capacity: usize,
    used: usize,
}

/// The size of the buffer once it was too small.
pub open spec fn next_capacity(size: nat) -> nat {
    2 * size
}

/// The size of the buffer once it was too small `n` times.
pub open spec fn capacity_after(size: nat, n: nat) -> nat
    decreases n,
{
    if n == 0 {
        size
    } else {
        next_capacity(capacity_after(size, (n - 1) as nat))
    }
}

/// The buffer grows by doubling: once it was too small `n` times it has two to the power of
/// `n` times its size.
pub proof fn lemma_capacity_after(size: nat, n: nat)
    ensures
        capacity_after(size, n) == size * pow2(n),
    decreases n,
{
    lemma2_to64();
    if n > 0 {
        let m = (n - 1) as nat;
        lemma_capacity_after(size, m);
        lemma_pow2_unfold(n);
        assert(2 * (size * pow2(m)) == size * (2 * pow2(m))) by (nonlinear_arith);
    } else {
        assert(size * 1 == size);
    }
}

impl OutputBuffer {
    pub closed spec fn size(&self) -> nat {
        self.capacity as nat
    }

    pub closed spec fn filled(&self) -> nat {
        self.used as nat
    }

    pub closed spec fn wf(&self) -> bool {
        self.used <= self.capacity
    }

    pub fn new() -> (r: Self)
        ensures
            r.wf(),
            r.size() == FIRST_CAPACITY,
            r.size() == 0x10_0000,
            r.filled() == 0,
    {
        OutputBuffer { capacity: FIRST_CAPACITY, used: 0 }
    }

    pub fn capacity(&self) -> (r: usize)
        ensures
            r == self.size(),
    {
        self.capacity
    }

    pub fn used(&self) -> (r: usize)
        ensures
            r == self.filled(),
    {
        self.used
    }

    /// The encoder has left `available` bytes of the buffer free. The buffer is
    /// doubled whenever it is too small.
    pub fn advance(&mut self, available: usize, event: EncoderEvent) -> (r: EncoderAction)
        requires
            old(self).wf(),
            available <= old(self).size(),
        ensures
            final(self).wf(),
            final(self).filled() == old(self).size() - available,
            match event {
                EncoderEvent::Success => r == EncoderAction::Finish(
                    (old(self).size() - available) as usize,
                ) && final(self).size() == old(self).size(),
                EncoderEvent::NeedMoreOutput => if 2 * old(self).size() <= usize::MAX {
                    r == EncoderAction::Grow((2 * old(self).size()) as usize)
                        && final(self).size() == 2 * old(self).size() && final(self).size()
                        == next_capacity(old(self).size())
                } else {
                    (r matches EncoderAction::Fail(e) && e@ == "encoded image too large"@)
                        && final(self).size() == old(self).size()
                },
                EncoderEvent::Error(m) => r == EncoderAction::Fail(m) && final(self).size() == old(
                    self,
                ).size(),
            },
            r matches EncoderAction::Finish(n) ==> n + available == old(self).size(),
    {
        self.used = self.capacity - available;
        match event {
            EncoderEvent::Success => EncoderAction::Finish(self.used),
            EncoderEvent::NeedMoreOutput => {
                if self.capacity <= usize::MAX / 2 {
                    self.capacity = 2 * self.capacity;
                    EncoderAction::Grow(self.capacity)
                } else {
                    EncoderAction::Fail("encoded image too large".to_string())
                }
            },
            EncoderEvent::Error(m) => EncoderAction::Fail(m),
        }
    }
}

/// What a decoder answers when it is asked to go on.
pub enum DecoderEvent {
    /// The size of the image is known.
    BasicInfo,
    NeedImageOutBuffer,
    FullImage,
    Success,
    NeedMoreInput,
    /// Anything else, with its name.
    Unexpected(String),
}

/// What is to be done next.
pub enum DecoderAction {
    /// The size of the image has to be noted.
    ReadInfo,
    /// A buffer for so many samples has to be handed over.
    SetBuffer(usize),
    Continue,
    /// The image is complete.
    Finish,
    Fail(String),
}

/// The decoding of an image whose size is expected.
pub struct ImageDecoding {
    width: u32,
    height: u32,
    known: bool,
}

pub open spec fn image_size_message(width: nat, height: nat, w: nat, h: nat) -> Seq<char> {
    "JXL image size "@ + decimal(width) + "x"@ + decimal(height) + " != expected "@ + decimal(w)
        + "x"@ + decimal(h) + ""@
}

pub open spec fn unexpected_message(name: Seq<char>) -> Seq<char> {
    "JXL decoder unexpected status: "@ + name
}

impl ImageDecoding {
    pub closed spec fn expected(&self) -> (nat, nat) {
        (self.width as nat, self.height as nat)
    }

    /// The image was found to have the expected size.
    pub closed spec fn size_known(&self) -> bool {
        self.known
    }

    pub fn new(width: u32, height: u32) -> (r: Self)
        ensures
            r.expected() == (width as nat, height as nat),
            !r.size_known(),
    {
        ImageDecoding { width, height, known: false }
    }

    /// Notes the size of the image, which has to be the expected one.
    pub fn note_size(&mut self, width: u32, height: u32) -> (r: Result<(), String>)
        ensures
            final(self).expected() == old(self).expected(),
            r is Ok <==> (width as nat, height as nat) == old(self).expected(),
            r is Ok ==> final(self).size_known(),
            r is Err ==> final(self).size_known() == old(self).size_known(),
            r matches Err(e) ==> e@ == image_size_message(
                width as nat,
                height as nat,
                old(self).expected().0,
                old(self).expected().1,
            ),
    {
        if width != self.width || height != self.height {
            return Err(
                then_number(
                    then_number(
                        then_number(
                            with_number("JXL image size ", width as u128, "x"),
                            height as u128,
                            " != expected ",
                        ),
                        self.width as u128,
                        "x",
                    ),
                    self.height as u128,
                    "",
                ),
            );
        }
        self.known = true;
        Ok(())
    }

    /// What is to be done on an answer of the decoder. A buffer is handed over
    /// only for an image of the expected size.
    pub fn advance(&self, event: DecoderEvent) -> (r: DecoderAction)
        ensures
            match event {
                DecoderEvent::BasicInfo => r is ReadInfo,
                DecoderEvent::NeedImageOutBuffer => {
                    let samples = self.expected().0 * self.expected().1;
                    if !self.size_known() {
                        r matches DecoderAction::Fail(e) && e@ == "JXL image size not known"@
                    } else if 2 * samples > usize::MAX {
                        r matches DecoderAction::Fail(e) && e@ == "JXL image too large"@
                    } else {
                        r == DecoderAction::SetBuffer(samples as usize)
                    }
                },
                DecoderEvent::FullImage => r is Continue,
                DecoderEvent::Success => r is Finish,
                DecoderEvent::NeedMoreInput => r matches DecoderAction::Fail(e) && e@
                    == "JXL decoder needs more input (truncated?)"@,
                DecoderEvent::Unexpected(name) => r matches DecoderAction::Fail(e) && e@
                    == unexpected_message(name@),
            },
            r is SetBuffer <==> event is NeedImageOutBuffer && self.size_known()
                && self.expected().0 * self.expected().1 <= usize::MAX / 2,
            r matches DecoderAction::SetBuffer(n) ==> n == self.expected().0 * self.expected().1,
    {
        match event {
            DecoderEvent::BasicInfo => DecoderAction::ReadInfo,
            DecoderEvent::NeedImageOutBuffer => {
                proof {
                    assert(self.width * self.height <= 0xffff_ffff * 0xffff_ffff) by (
                    nonlinear_arith)
                        requires
                            self.width <= 0xffff_ffff,
                            self.height <= 0xffff_ffff,
                    ;
                }
                let samples: u64 = (self.width as u64) * (self.height as u64);
                if !self.known {
                    DecoderAction::Fail("JXL image size not known".to_string())
                } else if samples > (usize::MAX / 2) as u64 {
                    DecoderAction::Fail("JXL image too large".to_string())
                } else {
                    DecoderAction::SetBuffer(samples as usize)
                }
            },
            DecoderEvent::FullImage => DecoderAction::Continue,
            DecoderEvent::Success => DecoderAction::Finish,
            DecoderEvent::NeedMoreInput => DecoderAction::Fail(
                "JXL decoder needs more input (truncated?)".to_string(),
            ),
            DecoderEvent::Unexpected(name) => {
                let mut e = "JXL decoder unexpected status: ".to_string();
                e.append(name.as_str());
                DecoderAction::Fail(e)
            },
        }
    }
}

} // verus!
