//! Theremin: note naming of pitches.
use vstd::prelude::*;

verus! {

/// Oscillator shape of the theremin voices.
#[derive(Clone, Copy, PartialEq, Eq, Structural, Debug)]
pub enum Waveform {
    Sine,
    Sawtooth,
    Square,
}

/// Name of the note `i` semitones above A, within one octave.
pub open spec fn note_letters(i: int) -> Seq<char> {
    if i == 0 {
        "A"@
    } else if i == 1 {
        "A#"@
    } else if i == 2 {
        "B"@
    } else if i == 3 {
        "C"@
    } else if i == 4 {
        "C#"@
    } else if i == 5 {
        "D"@
    } else if i == 6 {
        "D#"@
    } else if i == 7 {
        "E"@
    } else if i == 8 {
        "F"@
    } else if i == 9 {
        "F#"@
    } else if i == 10 {
        "G"@
    } else {
        "G#"@
    }
}

/// Octave number of MIDI note `midi`: octaves start at C, MIDI 0 is C-1 and
/// MIDI 21 is A0.
pub open spec fn spec_octave(midi: int) -> int {
    midi / 12 - 1
}

/// Semitones from the A at or below MIDI note `midi` (A4 = MIDI 69).
pub open spec fn semitones_above_a(midi: int) -> int {
    (midi + 3) % 12
}

/// Letter name of MIDI note `midi`, as `midi_note_name` gives it.
pub open spec fn spec_note_name(midi: int) -> Seq<char> {
    note_letters(semitones_above_a(midi))
}

/// The pitch class of `m` counted from A, one semitone down: the class of
/// `m - 1` is one less, wrapping from 0 to 11.
proof fn lemma_class_step(m: int)
    ensures
        0 <= semitones_above_a(m) < 12,
        semitones_above_a(m - 1) == if semitones_above_a(m) == 0 {
            11
        } else {
            semitones_above_a(m) - 1
        },
        (m / 12 == (m - 1) / 12 + 1) <==> semitones_above_a(m) == 3,
        (m / 12 == (m - 1) / 12) <==> semitones_above_a(m) != 3,
{
    let k = (m + 3) % 12;
    let q = (m + 3) / 12;
    vstd::arithmetic::div_mod::lemma_fundamental_div_mod(m + 3, 12);
    assert(0 <= k < 12);
    if k == 0 {
        vstd::arithmetic::div_mod::lemma_fundamental_div_mod_converse(m + 2, 12, q - 1, 11);
    } else {
        vstd::arithmetic::div_mod::lemma_fundamental_div_mod_converse(m + 2, 12, q, k - 1);
    }
    if k < 3 {
        vstd::arithmetic::div_mod::lemma_fundamental_div_mod_converse(m, 12, q - 1, k + 9);
        vstd::arithmetic::div_mod::lemma_fundamental_div_mod_converse(m - 1, 12, q - 1, k + 8);
    } else if k == 3 {
        vstd::arithmetic::div_mod::lemma_fundamental_div_mod_converse(m, 12, q, 0);
        vstd::arithmetic::div_mod::lemma_fundamental_div_mod_converse(m - 1, 12, q - 1, 11);
    } else {
        vstd::arithmetic::div_mod::lemma_fundamental_div_mod_converse(m, 12, q, k - 3);
        vstd::arithmetic::div_mod::lemma_fundamental_div_mod_converse(m - 1, 12, q, k - 4);
    }
}

/// Two notes are in the same pitch class, counted from A, exactly when they
/// are a whole number of octaves apart.
proof fn lemma_same_class(m1: int, m2: int)
    ensures
        (semitones_above_a(m1) == semitones_above_a(m2)) <==> ((m1 - m2) % 12 == 0),
{
    let k1 = (m1 + 3) % 12;
    let q1 = (m1 + 3) / 12;
    let k2 = (m2 + 3) % 12;
    let q2 = (m2 + 3) / 12;
    vstd::arithmetic::div_mod::lemma_fundamental_div_mod(m1 + 3, 12);
    vstd::arithmetic::div_mod::lemma_fundamental_div_mod(m2 + 3, 12);
    assert(m1 - m2 == (q1 - q2) * 12 + (k1 - k2));
    if k1 >= k2 {
        vstd::arithmetic::div_mod::lemma_fundamental_div_mod_converse(m1 - m2, 12, q1 - q2, k1 - k2);
    } else {
        vstd::arithmetic::div_mod::lemma_fundamental_div_mod_converse(
            m1 - m2,
            12,
            q1 - q2 - 1,
            k1 - k2 + 12,
        );
    }
}

/// Length and characters of each of the twelve names.
proof fn lemma_letters_shape(i: int)
    requires
        0 <= i < 12,
    ensures
        note_letters(i).len() == 1 || note_letters(i).len() == 2,
        note_letters(i).len() == 2 <==> (i == 1 || i == 4 || i == 6 || i == 9 || i == 11),
        note_letters(i).len() == 2 ==> note_letters(i)[1] == '#',
        note_letters(i)[0] == if i <= 1 {
            'A'
        } else if i == 2 {
            'B'
        } else if i <= 4 {
            'C'
        } else if i <= 6 {
            'D'
        } else if i == 7 {
            'E'
        } else if i <= 9 {
            'F'
        } else {
            'G'
        },
{
    reveal_strlit("A");
    reveal_strlit("A#");
    reveal_strlit("B");
    reveal_strlit("C");
    reveal_strlit("C#");
    reveal_strlit("D");
    reveal_strlit("D#");
    reveal_strlit("E");
    reveal_strlit("F");
    reveal_strlit("F#");
    reveal_strlit("G");
    reveal_strlit("G#");
}

/// Each of the twelve pitch classes has a name of its own: two MIDI notes
/// get the same letter name exactly when they lie a whole number of octaves
/// apart (so F#4, MIDI 66, is not named like F4, MIDI 65).
pub proof fn law_note_name_per_pitch_class(m1: int, m2: int)
    ensures
        (spec_note_name(m1) == spec_note_name(m2)) <==> ((m1 - m2) % 12 == 0),
{
    lemma_same_class(m1, m2);
    lemma_class_step(m1);
    lemma_class_step(m2);
    let i = semitones_above_a(m1);
    let j = semitones_above_a(m2);
    lemma_letters_shape(i);
    lemma_letters_shape(j);
    if i != j {
        if note_letters(i).len() == note_letters(j).len() {
            assert(note_letters(i)[0] != note_letters(j)[0]);
        }
    }
}

/// Names run through the chromatic scale: a sharp is the name of the note a
/// semitone below with `#` added, and a plain letter follows the letter of
/// the note below it in the order A, B, C, D, E, F, G, back to A.
pub proof fn law_note_name_chromatic_step(m: int)
    ensures
        spec_note_name(m).len() == 1 || spec_note_name(m).len() == 2,
        spec_note_name(m).len() == 2 ==> spec_note_name(m - 1).len() == 1
            && spec_note_name(m) == spec_note_name(m - 1).push('#'),
        spec_note_name(m).len() == 1 ==> (if spec_note_name(m - 1)[0] == 'G' {
            spec_note_name(m)[0] == 'A'
        } else {
            spec_note_name(m)[0] as int == spec_note_name(m - 1)[0] as int + 1
        }),
{
    lemma_class_step(m);
    lemma_class_step(m - 1);
    let i = semitones_above_a(m);
    let j = semitones_above_a(m - 1);
    lemma_letters_shape(i);
    lemma_letters_shape(j);
    if note_letters(i).len() == 2 {
        assert(note_letters(i) =~= note_letters(j).push('#'));
    }
}

/// Octaves are numbered from C: the octave number goes up by one exactly
/// at a note named C, and A4 is MIDI note 69.
pub proof fn law_octave_starts_at_c(m: int)
    ensures
        spec_octave(m) == spec_octave(m - 1) + 1 <==> spec_note_name(m) == "C"@,
        spec_octave(m) == spec_octave(m - 1) <==> spec_note_name(m) != "C"@,
        spec_note_name(69) == "A"@ && spec_octave(69) == 4,
{
    lemma_class_step(m);
    let i = semitones_above_a(m);
    lemma_letters_shape(i);
    lemma_letters_shape(3);
    if i != 3 {
        if note_letters(i).len() == 1 {
            assert(note_letters(i)[0] != note_letters(3)[0]);
        }
    }
    assert(semitones_above_a(69) == 0);
}

/// Note name and octave of the MIDI note `midi` (A4 = MIDI 69), e.g. ("A", 4)
/// or ("C#", 3).
pub fn midi_note_name(midi: i32) -> (r: (&'static str, i32))
    ensures
        r.0@ == note_letters(semitones_above_a(midi as int)),
        r.1 == spec_octave(midi as int),
{
    let m = midi as i64;
    // note index relative to A, in 0..12
    let a = m + 3;
    let idx: i64 = if a >= 0 {
        a % 12
    } else {
        let k = (-a) % 12;
        if k == 0 {
            0
        } else {
            12 - k
        }
    };
    assert(idx == a % 12) by {
        if a < 0 {
            let k = (-a) % 12;
            let q = (-a) / 12;
            assert(-a == q * 12 + k);
            if k == 0 {
                assert(a == (-q) * 12);
            } else {
                assert(a == (-q - 1) * 12 + (12 - k));
            }
        }
    }
    // octave, counted from C: floor(m / 12) - 1
    let oct: i64 = if m >= 0 {
        m / 12 - 1
    } else {
        let q = (-m) / 12;
        let k = (-m) % 12;
        if k == 0 {
            -q - 1
        } else {
            -q - 2
        }
    };
    assert(oct == m / 12 - 1) by {
        if m < 0 {
            let q = (-m) / 12;
            let k = (-m) % 12;
            assert(-m == q * 12 + k);
            if k == 0 {
                assert(m == (-q) * 12);
            } else {
                assert(m == (-q - 1) * 12 + (12 - k));
            }
        }
    }
    let name = if idx == 0 {
        "A"
    } else if idx == 1 {
        "A#"
    } else if idx == 2 {
        "B"
    } else if idx == 3 {
        "C"
    } else if idx == 4 {
        "C#"
    } else if idx == 5 {
        "D"
    } else if idx == 6 {
        "D#"
    } else if idx == 7 {
        "E"
    } else if idx == 8 {
        "F"
    } else if idx == 9 {
        "F#"
    } else if idx == 10 {
        "G"
    } else {
        "G#"
    };
    (name, oct as i32)
}

} // verus!
