//! Sound in and out: the choices that do not depend on the sound system itself.
//!
//! Under Linux the way is ALSA, which can deliver packed samples of 24 bits. Elsewhere it is the
//! sound server of the system, which settles the format itself.
use crate::text;
use vstd::prelude::*;

pub mod alsa;
pub mod cpal;

verus! {

/// How many frames are written at once, about 10 ms at 48 kHz.
pub const CHUNK: usize = 512;

/// The sound layer underneath.
#[derive(Clone, Copy, PartialEq, Eq, Debug, Structural)]
pub enum Backend {
    Alsa,
    Wasapi,
    CoreAudio,
}

impl Backend {
    /// What the layer is called.
    pub open spec fn name(self) -> Seq<char> {
        match self {
            Backend::Alsa => "ALSA"@,
            Backend::Wasapi => "WASAPI"@,
            Backend::CoreAudio => "CoreAudio"@,
        }
    }
}

/// A device as it is offered.
#[derive(Clone, PartialEq, Eq, Debug)]
pub struct DeviceInfo {
    /// What the sound layer knows the device by.
    pub id: String,
    /// What is shown of it.
    pub label: String,
}

/// What a device is known by and shown as.
pub open spec fn device_view(d: DeviceInfo) -> (Seq<char>, Seq<char>) {
    (d.id@, d.label@)
}

/// The limit that is set to the depth of samples.
#[derive(Clone, Copy, PartialEq, Eq, Debug, Structural)]
pub enum Depth {
    Auto,
    Bits16,
    Bits24,
}

impl Default for Depth {
    fn default() -> (r: Depth)
        ensures
            r == Depth::Auto,
    {
        Depth::Auto
    }
}

impl Depth {
    /// The highest depth that may be tried. 24 bits are tried by themselves only over ALSA.
    pub open spec fn limit(self, backend: Backend) -> u32 {
        match self {
            Depth::Auto => if backend == Backend::Alsa {
                24
            } else {
                16
            },
            Depth::Bits16 => 16,
            Depth::Bits24 => 24,
        }
    }

    /// The highest depth that may be tried over a sound layer.
    pub fn max_bits(self, backend: Backend) -> (r: u32)
        ensures
            r == self.limit(backend),
    {
        match self {
            Depth::Auto => {
                if backend == Backend::Alsa {
                    24
                } else {
                    16
                }
            },
            Depth::Bits16 => 16,
            Depth::Bits24 => 24,
        }
    }

    /// What the choice is called.
    pub fn label(self) -> (r: &'static str)
        ensures
            r@ == (match self {
                Depth::Auto => "automaticky"@,
                Depth::Bits16 => "nejvýš 16 bit"@,
                Depth::Bits24 => "nejvýš 24 bit"@,
            }),
    {
        match self {
            Depth::Auto => "automaticky",
            Depth::Bits16 => "nejvýš 16 bit",
            Depth::Bits24 => "nejvýš 24 bit",
        }
    }

    /// What comes of the choice.
    pub fn hint(self, backend: Backend) -> (r: String)
        ensures
            r@ == text::decimal(self.limit(backend) as nat) + " bit"@ + if self == Depth::Auto {
                " ("@ + backend.name() + ")"@
            } else {
                Seq::<char>::empty()
            },
    {
        let mut s = String::new();
        text::push_decimal(&mut s, self.max_bits(backend) as u64);
        text::push_text(&mut s, " bit");
        if self == Depth::Auto {
            text::push_text(&mut s, " (");
            text::push_text(&mut s, backend_name(backend));
            text::push_text(&mut s, ")");
        }
        assert(s@ =~= text::decimal(self.limit(backend) as nat) + " bit"@ + if self
            == Depth::Auto {
            " ("@ + backend.name() + ")"@
        } else {
            Seq::<char>::empty()
        });
        s
    }

    /// All choices.
    pub fn all() -> (r: [Depth; 3])
        ensures
            r@ == seq![Depth::Auto, Depth::Bits16, Depth::Bits24],
    {
        [Depth::Auto, Depth::Bits16, Depth::Bits24]
    }
}

/// The format that was settled with a device.
#[derive(Clone, Copy, PartialEq, Eq, Debug, Structural)]
pub struct Negotiated {
    pub rate: u32,
    pub bits: u32,
}

/// What the sound layer is called.
pub fn backend_name(backend: Backend) -> (r: &'static str)
    ensures
        r@ == backend.name(),
{
    match backend {
        Backend::Alsa => "ALSA",
        Backend::Wasapi => "WASAPI",
        Backend::CoreAudio => "CoreAudio",
    }
}

/// What the sound layer says of its devices.
pub enum Survey {
    /// The hints of ALSA.
    Alsa(Vec<alsa::Hint>),
    /// The names of the devices for input and for output; `None` where they could not be had.
    Server(Option<Vec<String>>, Option<Vec<String>>),
}

/// The devices that samples can be taken from.
pub fn list_capture(survey: &Survey) -> (r: Vec<DeviceInfo>)
    ensures
        r@.map_values(|d: DeviceInfo| device_view(d)) == (match *survey {
            Survey::Alsa(hints) => alsa::listed(hints@, alsa::Direction::Capture),
            Survey::Server(inputs, _) => cpal::listed(inputs, true),
        }),
{
    match survey {
        Survey::Alsa(hints) => alsa::list_capture(hints),
        Survey::Server(inputs, _) => cpal::list_capture(inputs),
    }
}

/// The devices that sound can be sent to.
pub fn list_playback(survey: &Survey) -> (r: Vec<DeviceInfo>)
    ensures
        r@.map_values(|d: DeviceInfo| device_view(d)) == (match *survey {
            Survey::Alsa(hints) => alsa::listed(hints@, alsa::Direction::Playback),
            Survey::Server(_, outputs) => cpal::listed(outputs, false),
        }),
{
    match survey {
        Survey::Alsa(hints) => alsa::list_playback(hints),
        Survey::Server(_, outputs) => cpal::list_playback(outputs),
    }
}

/// The device for input until one is chosen. An empty name is the system's own choice.
pub fn default_capture_device(backend: Backend) -> (r: String)
    ensures
        r@ == (if backend == Backend::Alsa {
            "default"@
        } else {
            ""@
        }),
{
    if backend == Backend::Alsa {
        "default".to_string()
    } else {
        "".to_string()
    }
}

/// The device for output until one is chosen. An empty name is the system's own choice.
pub fn default_playback_device(backend: Backend) -> (r: String)
    ensures
        r@ == (if backend == Backend::Alsa {
            "pulse"@
        } else {
            ""@
        }),
{
    if backend == Backend::Alsa {
        "pulse".to_string()
    } else {
        "".to_string()
    }
}

/// How many whole frames of two samples can be taken from `waiting` samples into `room` places. A
/// frame is never cut, so that its two halves stay together.
pub fn whole_frames(waiting: usize, room: usize) -> (r: usize)
    ensures
        2 * r <= waiting,
        2 * r <= room,
        2 * (r + 1) > waiting || 2 * (r + 1) > room,
{
    if waiting < room {
        waiting / 2
    } else {
        room / 2
    }
}

/// What is shown of the device that is chosen: the label of the first device with that name, or the
/// name itself where there is none.
pub fn shown_label(current: &str, list: &Vec<DeviceInfo>) -> (r: String)
    ensures
        forall|i: int|
            #![trigger list@[i]]
            0 <= i < list@.len() && list@[i].id@ == current@ && (forall|j: int|
                0 <= j < i ==> (#[trigger] list@[j]).id@ != current@) ==> r@ == list@[i].label@,
        (forall|i: int| 0 <= i < list@.len() ==> (#[trigger] list@[i]).id@ != current@) ==> r@
            == current@,
{
    let wanted = text::to_chars(current);
    let mut i: usize = 0;
    while i < list.len()
        invariant
            i <= list@.len(),
            wanted@ == current@,
            forall|j: int| 0 <= j < i ==> (#[trigger] list@[j]).id@ != current@,
        decreases list@.len() - i,
    {
        let id = text::to_chars(list[i].id.as_str());
        if text::same(id.as_slice(), wanted.as_slice()) {
            return list[i].label.clone();
        }
        i = i + 1;
    }
    current.to_string()
}

} // verus!
