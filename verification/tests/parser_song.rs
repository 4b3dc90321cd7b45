use sonara::ast::{Accidental, ChordQuality, DrumHit, NoteDuration, Song};
use sonara::lexer::Lexer;
use sonara::names::{parse_chord_name, parse_note_name};
use sonara::parser::Parser;

fn parse(src: &str) -> Song {
    let tokens = Lexer::new(src).tokenize().expect("lex failed");
    Parser::new(tokens).parse_song().expect("parse failed")
}

fn parse_err(src: &str) -> String {
    let tokens = Lexer::new(src).tokenize().expect("lex failed");
    match Parser::new(tokens).parse_song() {
        Ok(_) => panic!("expected a parse error"),
        Err(e) => e,
    }
}

#[test]
fn parses_tempo_and_scale() {
    let song = parse("tempo 140\nscale D_minor\n");
    assert_eq!(song.tempo, 140);
    assert_eq!(song.scale, "D_minor");
}

#[test]
fn parses_empty_section() {
    let song = parse("tempo 120\nscale C_major\nsection intro {\n}\n");
    assert_eq!(song.sections.len(), 1);
    assert_eq!(song.sections[0].name, "intro");
}

#[test]
fn parses_chord_list() {
    let song = parse("tempo 120\nscale C_major\nsection a {\n  chords {\n    C | Am | F | G\n  }\n}\n");
    let chords = &song.sections[0].chords;
    assert_eq!(chords.len(), 4);
    assert_eq!(chords[0].root, 'C');
    assert_eq!(chords[0].quality, ChordQuality::Major);
    assert_eq!(chords[1].root, 'A');
    assert_eq!(chords[1].quality, ChordQuality::Minor);
}

#[test]
fn parses_melody_notes() {
    let song = parse("tempo 120\nscale C_major\nsection a {\n  melody {\n    E4 G4 C5\n  }\n}\n");
    let melody = &song.sections[0].melody;
    assert_eq!(melody.len(), 3);
    assert_eq!(melody[0].pitch, 'E');
    assert_eq!(melody[0].octave, 4);
    assert_eq!(melody[2].pitch, 'C');
    assert_eq!(melody[2].octave, 5);
}

#[test]
fn parses_bass_notes() {
    let song = parse("tempo 120\nscale C_major\nsection a {\n  bass {\n    C2 G2\n  }\n}\n");
    let bass = &song.sections[0].bass;
    assert_eq!(bass.len(), 2);
    assert_eq!(bass[0].pitch, 'C');
    assert_eq!(bass[0].octave, 2);
}

#[test]
fn parses_drum_hits() {
    let song = parse("tempo 120\nscale C_major\nsection a {\n  drums {\n    kick snare hihat _\n  }\n}\n");
    let drums = &song.sections[0].drums;
    assert_eq!(drums.len(), 4);
    assert_eq!(drums[0], DrumHit::Kick);
    assert_eq!(drums[1], DrumHit::Snare);
    assert_eq!(drums[2], DrumHit::HiHat);
    assert_eq!(drums[3], DrumHit::Rest);
}

#[test]
fn parses_multiple_sections() {
    let song = parse("tempo 120\nscale C_major\nsection verse {\n}\nsection chorus {\n}\n");
    assert_eq!(song.sections.len(), 2);
    assert_eq!(song.sections[0].name, "verse");
    assert_eq!(song.sections[1].name, "chorus");
}

#[test]
fn parses_note_duration_suffixes() {
    let song = parse("tempo 120\nscale C_major\nsection a {\n  melody {\n    Cw4 Ch4 C4 Ce4\n  }\n}\n");
    let m = &song.sections[0].melody;
    assert_eq!(m[0].duration, NoteDuration::Whole);
    assert_eq!(m[1].duration, NoteDuration::Half);
    assert_eq!(m[2].duration, NoteDuration::Quarter);
    assert_eq!(m[3].duration, NoteDuration::Eighth);
}

#[test]
fn parses_chord_qualities() {
    let song = parse("tempo 120\nscale C_major\nsection a {\n  chords {\n    C Am G7 Cmaj7 Dm7\n  }\n}\n");
    let c = &song.sections[0].chords;
    assert_eq!(c[0].quality, ChordQuality::Major);
    assert_eq!(c[1].quality, ChordQuality::Minor);
    assert_eq!(c[2].quality, ChordQuality::Dominant7);
    assert_eq!(c[3].quality, ChordQuality::Major7);
    assert_eq!(c[4].quality, ChordQuality::Minor7);
}

#[test]
fn parses_sharp_chord() {
    let song = parse("tempo 120\nscale C_major\nsection a {\n  chords {\n    F#m\n  }\n}\n");
    let c = &song.sections[0].chords[0];
    assert_eq!(c.root, 'F');
    assert_eq!(c.accidental, Accidental::Sharp);
    assert_eq!(c.quality, ChordQuality::Minor);
}

#[test]
fn parses_sharp_note() {
    let song = parse("tempo 120\nscale C_major\nsection a {\n  melody {\n    F#4\n  }\n}\n");
    let n = &song.sections[0].melody[0];
    assert_eq!(n.pitch, 'F');
    assert_eq!(n.accidental, Accidental::Sharp);
}

#[test]
fn parse_error_on_invalid_note() {
    let tokens = Lexer::new("tempo 120\nscale C_major\nsection a {\n  melody {\n    Z4\n  }\n}\n")
        .tokenize().unwrap();
    let result = Parser::new(tokens).parse_song();
    assert!(result.is_err());
}

// ── further cases ─────────────────────────────────────────────────────────

#[test]
fn readme_song_parses() {
    let song = parse(
        "// tempo and scale are global\ntempo 120\nscale C_major\n\nsection verse {\n  chords {\n    C | Am | F | G\n  }\n\n  bass {\n    C2 C2 G2 G2\n  }\n\n  melody {\n    E4 G4 A4 G4\n  }\n\n  drums {\n    kick snare kick snare\n  }\n}\n\nsection chorus {\n  chords {\n    F | G | Em | Am\n  }\n\n  melody {\n    C5 B4 A4 G4\n  }\n}\n",
    );
    assert_eq!(song.transpose, 0);
    assert_eq!(song.sections.len(), 2);
    let v = &song.sections[0];
    assert_eq!((v.chords.len(), v.bass.len(), v.melody.len(), v.drums.len()), (4, 4, 4, 4));
    let c = &song.sections[1];
    assert_eq!((c.chords.len(), c.bass.len(), c.melody.len(), c.drums.len()), (4, 0, 4, 0));
    assert_eq!(c.chords[2].root, 'E');
    assert_eq!(c.chords[2].quality, ChordQuality::Minor);
}

#[test]
fn blocks_may_repeat_and_the_last_wins() {
    let song = parse("tempo 120\nscale C_major\nsection a {\n  melody { C4 }\n  melody { D4 E4 }\n}\n");
    let m = &song.sections[0].melody;
    assert_eq!(m.len(), 2);
    assert_eq!(m[0].pitch, 'D');
}

#[test]
fn rests_are_skipped_in_note_lists() {
    let song = parse("tempo 120\nscale C_major\nsection a {\n  melody { C4 rest _ REST Rest E4 }\n}\n");
    let m = &song.sections[0].melody;
    assert_eq!(m.len(), 2);
    assert_eq!(m[1].pitch, 'E');
}

#[test]
fn drum_words_are_read_in_lower_case() {
    let song = parse("tempo 120\nscale C_major\nsection a {\n  drums { KICK S hh H Rest k }\n}\n");
    assert_eq!(
        song.sections[0].drums,
        vec![DrumHit::Kick, DrumHit::Snare, DrumHit::HiHat, DrumHit::HiHat, DrumHit::Rest, DrumHit::Kick]
    );
}

#[test]
fn parse_error_messages() {
    assert_eq!(parse_err("scale C_major"), "expected Tempo, got Scale");
    assert_eq!(parse_err("tempo fast"), "expected number, got Ident(\"fast\")");
    assert_eq!(parse_err("tempo 120 scale 5"), "expected identifier, got Number(5)");
    assert_eq!(parse_err("tempo 120\nscale C\nverse {"), "expected Section, got Ident(\"verse\")");
    assert_eq!(parse_err("tempo 120\nscale C\nsection a {\n  drums { cowbell }\n}"), "unknown drum hit: cowbell");
    assert_eq!(parse_err("tempo 120\nscale C\nsection a {\n  chords { C { }\n}"), "unexpected token in chords: LBrace");
    assert_eq!(parse_err("tempo 120\nscale C\nsection a {\n  melody { C4 | }\n}"), "unexpected token in notes: Pipe");
    assert_eq!(parse_err("tempo 120\nscale C\nsection a {\n  drums { 4 }\n}"), "unexpected token in drums: Number(4)");
    assert_eq!(parse_err("tempo 120\nscale C\nsection a {\n  tempo\n}"), "unexpected token in section: Tempo");
    assert_eq!(parse_err("tempo 120\nscale C\nsection a {\n  melody { C4 }\n"), "expected RBrace, got Eof");
    assert_eq!(parse_err("tempo 120\nscale C\nsection a {\n  melody { Z4 }\n}"), "invalid note pitch: Z");
    assert_eq!(parse_err("tempo 120\nscale C\nsection a {\n  chords { Cx }\n}"), "unknown chord quality: x");
    assert_eq!(
        parse_err("tempo 120\nscale C\nimport beats\n"),
        "unresolved import — imports must appear at the top level and are handled before parsing"
    );
}

#[test]
fn chord_names() {
    let c = parse_chord_name("Bb").unwrap();
    assert_eq!((c.root, c.accidental, c.quality), ('B', Accidental::Flat, ChordQuality::Major));
    let c = parse_chord_name("Eb7").unwrap();
    assert_eq!((c.root, c.accidental, c.quality), ('E', Accidental::Flat, ChordQuality::Dominant7));
    let c = parse_chord_name("CM7").unwrap();
    assert_eq!(c.quality, ChordQuality::Major7);
    let c = parse_chord_name("Gmin7").unwrap();
    assert_eq!(c.quality, ChordQuality::Minor7);
    let c = parse_chord_name("Dmaj").unwrap();
    assert_eq!(c.quality, ChordQuality::Major);
    let c = parse_chord_name("Amin").unwrap();
    assert_eq!(c.quality, ChordQuality::Minor);
    // a `b` followed by anything but `7` is not a flat
    assert_eq!(parse_chord_name("Bbm").unwrap_err(), "unknown chord quality: bm");
    assert_eq!(parse_chord_name("").unwrap_err(), "empty chord name");
    assert_eq!(parse_chord_name("H").unwrap_err(), "invalid chord root: H");
    assert_eq!(parse_chord_name("c").unwrap_err(), "invalid chord root: c");
}

#[test]
fn note_names() {
    let n = parse_note_name("Bbw2").unwrap();
    assert_eq!((n.pitch, n.accidental, n.duration, n.octave), ('B', Accidental::Flat, NoteDuration::Whole, 2));
    let n = parse_note_name("G#e3").unwrap();
    assert_eq!((n.pitch, n.accidental, n.duration, n.octave), ('G', Accidental::Sharp, NoteDuration::Eighth, 3));
    let n = parse_note_name("Ah10").unwrap();
    assert_eq!((n.duration, n.octave), (NoteDuration::Half, 10));
    assert_eq!(n.velocity, None);
    // the octave is read as `u8` is: an optional `+`, at most 255
    assert_eq!(parse_note_name("C+4").unwrap().octave, 4);
    assert_eq!(parse_note_name("C255").unwrap().octave, 255);
    assert_eq!(parse_note_name("C007").unwrap().octave, 7);
    assert_eq!(parse_note_name("C256").unwrap_err(), "invalid octave in note: C256");
    assert_eq!(parse_note_name("C").unwrap_err(), "invalid octave in note: C");
    assert_eq!(parse_note_name("C+").unwrap_err(), "invalid octave in note: C+");
    assert_eq!(parse_note_name("Cq4").unwrap_err(), "invalid octave in note: Cq4");
    assert_eq!(parse_note_name("").unwrap_err(), "empty note");
    assert_eq!(parse_note_name("X4").unwrap_err(), "invalid note pitch: X");
}

#[test]
fn octave_parse_agrees_with_std() {
    for s in ["0", "+0", "255", "256", "+", "", "12a", "0000000000000000000009", "-1", "1_0"] {
        let expected = s.parse::<u8>().ok();
        let got = parse_note_name(&format!("C{}", s)).ok().map(|n| n.octave);
        assert_eq!(got, expected, "octave text {:?}", s);
    }
}

#[test]
fn pipes_between_chords_change_nothing() {
    let with = parse("tempo 120\nscale C\nsection a {\n  chords { | C || Am | \n | F }\n}\n");
    let without = parse("tempo 120\nscale C\nsection a {\n  chords { C Am F }\n}\n");
    assert_eq!(with.sections[0].chords, without.sections[0].chords);
}

#[test]
fn a_song_is_read_to_the_end() {
    assert_eq!(parse_err("tempo 120\nscale C\n}\n"), "expected Section, got RBrace");
    let song = parse("\n\ntempo 120\n\nscale C\n\n\n");
    assert_eq!(song.sections.len(), 0);
}

#[test]
fn triplet_eighth_suffix() {
    let n = parse_note_name("Ct4").unwrap();
    assert_eq!((n.pitch, n.accidental, n.duration, n.octave), ('C', Accidental::Natural, NoteDuration::TripletEighth, 4));
    let n = parse_note_name("Ebt3").unwrap();
    assert_eq!((n.pitch, n.accidental, n.duration, n.octave), ('E', Accidental::Flat, NoteDuration::TripletEighth, 3));
}

#[test]
fn capital_r_is_a_rest_of_its_length() {
    let n = parse_note_name("R").unwrap();
    assert_eq!((n.pitch, n.duration, n.velocity), ('R', NoteDuration::Quarter, None));
    assert_eq!(parse_note_name("Re").unwrap().duration, NoteDuration::Eighth);
    assert_eq!(parse_note_name("Rw").unwrap().duration, NoteDuration::Whole);
    assert_eq!(parse_note_name("Rh").unwrap().duration, NoteDuration::Half);
    assert_eq!(parse_note_name("Rt").unwrap().duration, NoteDuration::TripletEighth);
    // any other word that starts with `R` fails on its pitch
    assert_eq!(parse_note_name("R4").unwrap_err(), "invalid note pitch: R");
    assert_eq!(parse_note_name("Rex").unwrap_err(), "invalid note pitch: R");
    assert_eq!(parse_note_name("R:64").unwrap_err(), "invalid note pitch: R");
}

#[test]
fn capital_r_rests_stay_in_note_lists() {
    let song = parse("tempo 120\nscale C_major\nsection a {\n  melody { C4 R E4 Re }\n}\n");
    let m = &song.sections[0].melody;
    assert_eq!(m.len(), 4);
    assert_eq!((m[0].pitch, m[1].pitch, m[2].pitch, m[3].pitch), ('C', 'R', 'E', 'R'));
    assert_eq!((m[1].duration, m[3].duration), (NoteDuration::Quarter, NoteDuration::Eighth));
}

#[test]
fn velocity_suffix() {
    let n = parse_note_name("A4:64").unwrap();
    assert_eq!((n.pitch, n.octave, n.duration, n.velocity), ('A', 4, NoteDuration::Quarter, Some(64)));
    let n = parse_note_name("G#e3:127").unwrap();
    assert_eq!((n.accidental, n.duration, n.octave, n.velocity), (Accidental::Sharp, NoteDuration::Eighth, 3, Some(127)));
    assert_eq!(parse_note_name("C4:0").unwrap().velocity, Some(0));
    assert_eq!(parse_note_name("C4:+9").unwrap().velocity, Some(9));
    assert_eq!(parse_note_name("C4:128").unwrap_err(), "invalid velocity in note: C4:128");
    assert_eq!(parse_note_name("C4:").unwrap_err(), "invalid velocity in note: C4:");
    assert_eq!(parse_note_name("C4:6:4").unwrap_err(), "invalid velocity in note: C4:6:4");
    assert_eq!(parse_note_name("C:64").unwrap_err(), "invalid octave in note: C:64");
    let song = parse("tempo 120\nscale C\nsection a {\n  melody { A4:64 B4 }\n}\n");
    assert_eq!(song.sections[0].melody[0].velocity, Some(64));
    assert_eq!(song.sections[0].melody[1].velocity, None);
}

#[test]
fn duration_letter_may_follow_the_octave() {
    let n = parse_note_name("G4e:80").unwrap();
    assert_eq!((n.pitch, n.octave, n.duration, n.velocity), ('G', 4, NoteDuration::Eighth, Some(80)));
    let n = parse_note_name("C4h").unwrap();
    assert_eq!((n.octave, n.duration), (4, NoteDuration::Half));
    assert_eq!(parse_note_name("Ch4e").unwrap_err(), "invalid octave in note: Ch4e");
    assert_eq!(parse_note_name("Ce").unwrap_err(), "invalid octave in note: Ce");
}

#[test]
fn help_example_song_parses() {
    let song = parse(
        "tempo 120\nscale C_major\ntranspose -2\n\nsection verse {\n  chords  { Am | G | F | G }\n  bass    { A2 G2 F2 G2 }\n  melody  { C4 E4 G4e:80 R }\n  drums   { kick hihat snare hihat }\n}\n",
    );
    assert_eq!(song.transpose, -2);
    let v = &song.sections[0];
    assert_eq!((v.chords.len(), v.bass.len(), v.melody.len(), v.drums.len()), (4, 4, 4, 4));
    assert_eq!(v.melody[2].velocity, Some(80));
    assert_eq!(v.melody[3].pitch, 'R');
}

#[test]
fn transpose_is_read() {
    assert_eq!(parse("tempo 120\nscale C\ntranspose 5\n").transpose, 5);
    assert_eq!(parse("tempo 120\nscale C\n\ntranspose -128\n\nsection a {\n}\n").transpose, -128);
    assert_eq!(parse("tempo 120\nscale C\ntranspose 127").transpose, 127);
    assert_eq!(parse("tempo 120\nscale C\n").transpose, 0);
    assert_eq!(parse_err("tempo 120\nscale C\ntranspose 128\n"), "transpose out of range: 128");
    assert_eq!(parse_err("tempo 120\nscale C\ntranspose -129\n"), "transpose out of range: -129");
    assert_eq!(parse_err("tempo 120\nscale C\ntranspose up\n"), "expected number, got Ident(\"up\")");
    assert_eq!(parse_err("tempo 120\nscale C\ntranspose -\n"), "expected number, got Newline");
    assert_eq!(parse_err("tempo 120\ntranspose 2\nscale C\n"), "expected Scale, got Transpose");
}
