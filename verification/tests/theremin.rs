use synesthesia::theremin::{midi_note_name, Waveform};

/// The float half of naming a pitch: nearest MIDI note of `freq`.
fn midi_of(freq: f32) -> i32 {
    (69.0 + 12.0 * (freq / 440.0).log2()).round() as i32
}

#[test]
fn midi_note_name_reference_points() {
    assert_eq!(midi_note_name(69), ("A", 4));
    assert_eq!(midi_note_name(21), ("A", 0));
    assert_eq!(midi_note_name(0), ("C", -1));
    assert_eq!(midi_note_name(60), ("C", 4));
    assert_eq!(midi_note_name(61), ("C#", 4));
    assert_eq!(midi_note_name(57), ("A", 3));
    assert_eq!(midi_note_name(70), ("A#", 4));
    assert_eq!(midi_note_name(59), ("B", 3));
    assert_eq!(midi_note_name(127), ("G", 9));
}

#[test]
fn midi_note_name_below_zero() {
    assert_eq!(midi_note_name(-1), ("B", -2));
    assert_eq!(midi_note_name(-9), ("D#", -2));
    assert_eq!(midi_note_name(-10), ("D", -2));
    assert_eq!(midi_note_name(-12), ("C", -2));
    assert_eq!(midi_note_name(-21), ("D#", -3));
    assert_eq!(midi_note_name(i32::MIN), midi_note_name(i32::MIN));
}

#[test]
fn frequencies_name_their_notes() {
    let name = |f: f32| {
        let (n, o) = midi_note_name(midi_of(f));
        format!("{n}{o}")
    };
    assert_eq!(name(440.0), "A4");
    assert_eq!(name(110.0), "A2");
    assert_eq!(name(1760.0), "A6");
    assert_eq!(name(261.63), "C4");
    assert_eq!(name(277.18), "C#4");
    assert_eq!(name(622.25), "D#5");
}

#[test]
fn waveforms_compare() {
    assert_eq!(Waveform::Sine, Waveform::Sine);
    assert_ne!(Waveform::Sine, Waveform::Square);
    assert_ne!(Waveform::Sawtooth, Waveform::Square);
}
