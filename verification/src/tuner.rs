//! What the tuning thread does: it tunes the radio as it is asked to, and a radio that is opened later
//! is put where the last one was.
//!
//! Frequencies are in millihertz, gains in thousandths of a decibel.
use vstd::prelude::*;

verus! {

/// What comes to the tuning thread.
#[derive(Clone, Copy, PartialEq, Eq, Debug, Structural)]
pub enum TunerEvent {
    /// A radio was opened, in place of any before it.
    Opened,
    /// The middle of the spectrum is wanted on a frequency.
    Frequency(i64),
    /// A gain is wanted.
    Gain(i32),
}

/// What is to be done with the radio.
#[derive(Clone, Copy, PartialEq, Eq, Debug, Structural)]
pub enum TunerAction {
    Center(i64),
    SetGain(i32),
}

/// What was last asked for, and whether there is a radio.
#[derive(Clone, Copy, PartialEq, Eq, Debug, Structural)]
pub struct Tuning {
    pub open: bool,
    pub freq: Option<i64>,
    pub gain: Option<i32>,
}

impl Tuning {
    /// What is to be done with a radio that has just been opened: the frequency first, then the gain,
    /// as far as they were asked for.
    pub open spec fn resumed(self) -> Seq<TunerAction> {
        let first = match self.freq {
            Some(f) => seq![TunerAction::Center(f)],
            None => Seq::empty(),
        };
        match self.gain {
            Some(g) => first.push(TunerAction::SetGain(g)),
            None => first,
        }
    }

    /// The state after an event, and what is to be done. Without a radio nothing is done, but what
    /// was asked for stays.
    pub open spec fn after(self, event: TunerEvent) -> (Tuning, Seq<TunerAction>) {
        match event {
            TunerEvent::Opened => (Tuning { open: true, ..self }, self.resumed()),
            TunerEvent::Frequency(f) => (
                Tuning { freq: Some(f), ..self },
                if self.open {
                    seq![TunerAction::Center(f)]
                } else {
                    Seq::empty()
                },
            ),
            TunerEvent::Gain(g) => (
                Tuning { gain: Some(g), ..self },
                if self.open {
                    seq![TunerAction::SetGain(g)]
                } else {
                    Seq::empty()
                },
            ),
        }
    }

    /// The state before anything has come.
    pub fn new() -> (r: Tuning)
        ensures
            r == (Tuning { open: false, freq: None, gain: None }),
    {
        Tuning { open: false, freq: None, gain: None }
    }

    /// Takes an event; says what is to be done, in order.
    pub fn step(&mut self, event: TunerEvent) -> (actions: Vec<TunerAction>)
        ensures
            (*final(self), actions@) == old(self).after(event),
    {
        let mut out: Vec<TunerAction> = Vec::new();
        match event {
            TunerEvent::Opened => {
                if let Some(f) = self.freq {
                    out.push(TunerAction::Center(f));
                }
                if let Some(g) = self.gain {
                    out.push(TunerAction::SetGain(g));
                }
                assert(out@ =~= self.resumed());
                self.open = true;
            },
            TunerEvent::Frequency(f) => {
                self.freq = Some(f);
                if self.open {
                    out.push(TunerAction::Center(f));
                }
            },
            TunerEvent::Gain(g) => {
                self.gain = Some(g);
                if self.open {
                    out.push(TunerAction::SetGain(g));
                }
            },
        }
        assert(out@ =~= old(self).after(event).1);
        out
    }
}

/// The state after events that came one after the other.
pub open spec fn tuning_after(start: Tuning, events: Seq<TunerEvent>) -> Tuning
    decreases events.len(),
{
    if events.len() == 0 {
        start
    } else {
        tuning_after(start, events.drop_last()).after(events.last()).0
    }
}

/// A radio that is opened is tuned to the frequency that was last asked for, whatever else has come.
pub proof fn law_new_radio_is_tuned(start: Tuning, events: Seq<TunerEvent>, i: int, freq: i64)
    requires
        0 <= i < events.len(),
        events[i] == TunerEvent::Frequency(freq),
        forall|k: int| i < k < events.len() ==> !((#[trigger] events[k]) is Frequency),
    ensures
        tuning_after(start, events).freq == Some(freq),
        tuning_after(start, events).after(TunerEvent::Opened).1.contains(TunerAction::Center(freq)),
    decreases events.len(),
{
    let before = events.drop_last();
    if i < events.len() - 1 {
        assert(before[i] == events[i]);
        assert forall|k: int| i < k < before.len() implies !((#[trigger] before[k]) is Frequency) by {
            assert(before[k] == events[k]);
        }
        law_new_radio_is_tuned(start, before, i, freq);
        assert(!(events[events.len() - 1] is Frequency));
    }
    assert(tuning_after(start, events).resumed()[0] == TunerAction::Center(freq));
}

/// A radio that is opened gets the gain that was last asked for, whatever else has come.
pub proof fn law_new_radio_gets_its_gain(start: Tuning, events: Seq<TunerEvent>, i: int, gain: i32)
    requires
        0 <= i < events.len(),
        events[i] == TunerEvent::Gain(gain),
        forall|k: int| i < k < events.len() ==> !((#[trigger] events[k]) is Gain),
    ensures
        tuning_after(start, events).gain == Some(gain),
        tuning_after(start, events).after(TunerEvent::Opened).1.last() == TunerAction::SetGain(gain),
    decreases events.len(),
{
    let before = events.drop_last();
    if i < events.len() - 1 {
        assert(before[i] == events[i]);
        assert forall|k: int| i < k < before.len() implies !((#[trigger] before[k]) is Gain) by {
            assert(before[k] == events[k]);
        }
        law_new_radio_gets_its_gain(start, before, i, gain);
        assert(!(events[events.len() - 1] is Gain));
    }
}

/// A radio that is open is put at once where it is asked to be; without one nothing is done, and what
/// was asked for is kept for the next one. Neither changes the other.
pub proof fn law_open_radio_is_put_at_once(t: Tuning, freq: i64, gain: i32)
    ensures
        t.open ==> t.after(TunerEvent::Frequency(freq)).1 == seq![TunerAction::Center(freq)],
        t.open ==> t.after(TunerEvent::Gain(gain)).1 == seq![TunerAction::SetGain(gain)],
        !t.open ==> t.after(TunerEvent::Frequency(freq)).1.len() == 0,
        !t.open ==> t.after(TunerEvent::Gain(gain)).1.len() == 0,
        t.after(TunerEvent::Frequency(freq)).0 == (Tuning { freq: Some(freq), ..t }),
        t.after(TunerEvent::Gain(gain)).0 == (Tuning { gain: Some(gain), ..t }),
        t.after(TunerEvent::Opened).0 == (Tuning { open: true, ..t }),
        t.after(TunerEvent::Opened).1.len() == (if t.freq is Some {
            1int
        } else {
            0
        }) + (if t.gain is Some {
            1int
        } else {
            0
        }),
{
}

} // verus!
