use sonara::ast::{Accidental, Chord, ChordQuality, Note, NoteDuration};

fn note(pitch: char, octave: u8) -> Note {
    Note { pitch, accidental: Accidental::Natural, octave, duration: NoteDuration::Quarter, velocity: None }
}

fn chord(root: char, quality: ChordQuality) -> Chord {
    Chord { root, accidental: Accidental::Natural, quality }
}

// ── Note::to_midi ─────────────────────────────────────────────────────────

#[test]
fn midi_c4_is_60() {
    assert_eq!(note('C', 4).to_midi(), 60);
}

#[test]
fn midi_a4_is_69() {
    assert_eq!(note('A', 4).to_midi(), 69);
}

#[test]
fn midi_c0_is_12() {
    assert_eq!(note('C', 0).to_midi(), 12);
}

#[test]
fn midi_sharp_raises_by_one() {
    let n = Note { pitch: 'C', accidental: Accidental::Sharp, octave: 4, duration: NoteDuration::Quarter, velocity: None };
    assert_eq!(n.to_midi(), 61);
}

#[test]
fn midi_flat_lowers_by_one() {
    let n = Note { pitch: 'B', accidental: Accidental::Flat, octave: 4, duration: NoteDuration::Quarter, velocity: None };
    assert_eq!(n.to_midi(), 70);
}

#[test]
fn midi_c2_bass_note() {
    assert_eq!(note('C', 2).to_midi(), 36);
}

// ── Chord::to_midi_notes ──────────────────────────────────────────────────

#[test]
fn c_major_intervals() {
    let notes = chord('C', ChordQuality::Major).to_midi_notes();
    assert_eq!(notes.len(), 3);
    assert_eq!(notes[1] - notes[0], 4); // major third
    assert_eq!(notes[2] - notes[0], 7); // perfect fifth
}

#[test]
fn a_minor_intervals() {
    let notes = chord('A', ChordQuality::Minor).to_midi_notes();
    assert_eq!(notes.len(), 3);
    assert_eq!(notes[1] - notes[0], 3); // minor third
    assert_eq!(notes[2] - notes[0], 7); // perfect fifth
}

#[test]
fn g_dominant7_has_four_notes() {
    let notes = chord('G', ChordQuality::Dominant7).to_midi_notes();
    assert_eq!(notes.len(), 4);
    assert_eq!(notes[3] - notes[0], 10); // minor seventh
}

#[test]
fn c_major7_has_four_notes() {
    let notes = chord('C', ChordQuality::Major7).to_midi_notes();
    assert_eq!(notes.len(), 4);
    assert_eq!(notes[3] - notes[0], 11); // major seventh
}

#[test]
fn d_minor7_has_four_notes() {
    let notes = chord('D', ChordQuality::Minor7).to_midi_notes();
    assert_eq!(notes.len(), 4);
    assert_eq!(notes[1] - notes[0], 3);  // minor third
    assert_eq!(notes[3] - notes[0], 10); // minor seventh
}

// ── further cases ─────────────────────────────────────────────────────────

#[test]
fn midi_wraps_to_a_byte_for_high_octaves() {
    // 12 * (30 + 1) = 372, reduced to a byte as `as u8` does
    assert_eq!(note('C', 30).to_midi(), (372u32 % 256) as u8);
    assert_eq!(note('B', 255).to_midi(), ((12 * 256 + 11) % 256) as u8);
}

#[test]
fn midi_octave_up_adds_twelve() {
    for o in 0..10u8 {
        assert_eq!(note('E', o + 1).to_midi(), note('E', o).to_midi() + 12);
    }
}

#[test]
fn midi_sharp_and_flat_neighbours() {
    for p in ['C', 'D', 'E', 'F', 'G', 'A', 'B'] {
        let nat = note(p, 4).to_midi();
        let sharp = Note { accidental: Accidental::Sharp, ..note(p, 4) }.to_midi();
        let flat = Note { accidental: Accidental::Flat, ..note(p, 4) }.to_midi();
        assert_eq!(sharp, nat + 1);
        assert_eq!(flat, nat - 1);
    }
}

#[test]
fn chord_root_is_octave_three_note() {
    let c = Chord { root: 'F', accidental: Accidental::Sharp, quality: ChordQuality::Minor };
    let n = Note { pitch: 'F', accidental: Accidental::Sharp, octave: 3, duration: NoteDuration::Quarter, velocity: None };
    assert_eq!(c.to_midi_notes()[0], n.to_midi());
    assert_eq!(c.to_midi_notes(), vec![54, 57, 61]);
}

#[test]
fn chord_exact_notes() {
    assert_eq!(chord('C', ChordQuality::Major).to_midi_notes(), vec![48, 52, 55]);
    assert_eq!(chord('B', ChordQuality::Major7).to_midi_notes(), vec![59, 63, 66, 70]);
    let cb = Chord { root: 'C', accidental: Accidental::Flat, quality: ChordQuality::Minor7 };
    assert_eq!(cb.to_midi_notes(), vec![47, 50, 54, 57]);
}

#[test]
fn duration_sixths() {
    assert_eq!(NoteDuration::Whole.sixths(), 24);
    assert_eq!(NoteDuration::Half.sixths(), 12);
    assert_eq!(NoteDuration::Quarter.sixths(), 6);
    assert_eq!(NoteDuration::Eighth.sixths(), 3);
    assert_eq!(NoteDuration::TripletEighth.sixths(), 2);
}
