use knoflik_sdr::tuner::{TunerAction, TunerEvent, Tuning};

#[test]
fn a_radio_that_comes_later_is_put_where_it_is_wanted() {
    let mut t = Tuning::new();
    assert_eq!(t.step(TunerEvent::Opened), vec![]);
    assert_eq!(t.step(TunerEvent::Frequency(7_300)), vec![TunerAction::Center(7_300)]);
    assert_eq!(t.step(TunerEvent::Gain(6_000)), vec![TunerAction::SetGain(6_000)]);
    assert_eq!(
        t.step(TunerEvent::Opened),
        vec![TunerAction::Center(7_300), TunerAction::SetGain(6_000)]
    );
}

#[test]
fn without_a_radio_wishes_are_only_kept() {
    let mut t = Tuning::new();
    assert_eq!(t.step(TunerEvent::Frequency(1)), vec![]);
    assert_eq!(t.step(TunerEvent::Frequency(2)), vec![]);
    assert_eq!(t.step(TunerEvent::Gain(3)), vec![]);
    assert_eq!(
        t.step(TunerEvent::Opened),
        vec![TunerAction::Center(2), TunerAction::SetGain(3)]
    );
}
