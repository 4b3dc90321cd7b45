use sonara::ast::{DrumHit, NoteDuration, Section, Song};
use sonara::lexer::Lexer;
use sonara::parser::Parser;
use sonara::transpiler_nrt::{can_transpile, transpile_nrt};

fn parse(src: &str) -> Song {
    let tokens = Lexer::new(src).tokenize().expect("lex failed");
    Parser::new(tokens).parse_song().expect("parse failed")
}

fn simple_song() -> Song {
    parse("tempo 120\nscale C_major\nsection verse {\n  melody {\n    C4 E4 G4\n  }\n  drums {\n    kick snare\n  }\n}\n")
}

#[test]
fn nrt_output_contains_synthdef_chord() {
    let sc = transpile_nrt(&simple_song(), "/tmp/test.wav");
    assert!(sc.contains("sonaraChord"));
}

#[test]
fn nrt_output_contains_synthdef_melody() {
    let sc = transpile_nrt(&simple_song(), "/tmp/test.wav");
    assert!(sc.contains("sonaraMelody"));
}

#[test]
fn nrt_output_contains_synthdef_drums() {
    let sc = transpile_nrt(&simple_song(), "/tmp/test.wav");
    assert!(sc.contains("sonaraKick"));
    assert!(sc.contains("sonaraSnare"));
}

#[test]
fn nrt_output_contains_wav_path() {
    let sc = transpile_nrt(&simple_song(), "/tmp/my_song.wav");
    assert!(sc.contains("/tmp/my_song.wav"));
}

#[test]
fn nrt_output_contains_note_events() {
    let sc = transpile_nrt(&simple_song(), "/tmp/test.wav");
    assert!(sc.contains("s_new"));
    assert!(sc.contains("sonaraMelody"));
}

#[test]
fn nrt_output_contains_score_record() {
    let sc = transpile_nrt(&simple_song(), "/tmp/test.wav");
    assert!(sc.contains("recordNRT"));
}

#[test]
fn nrt_output_has_correct_beat_dur_at_120bpm() {
    let sc = transpile_nrt(&simple_song(), "/tmp/test.wav");
    // 60/120 = 0.5 seconds per beat
    assert!(sc.contains("0.5"));
}

#[test]
fn nrt_tempo_affects_event_timing() {
    let slow = parse("tempo 60\nscale C_major\nsection a {\n  melody {\n    C4\n  }\n}\n");
    let fast = parse("tempo 120\nscale C_major\nsection a {\n  melody {\n    C4\n  }\n}\n");
    let sc_slow = transpile_nrt(&slow, "/tmp/test.wav");
    let sc_fast = transpile_nrt(&fast, "/tmp/test.wav");
    // slow (60bpm=1.0s/beat) has longer duration than fast (120bpm=0.5s/beat)
    assert!(sc_slow.contains("1.000"));
    assert!(sc_fast.contains("0.500"));
}

// ── A rendering of the same score in `f32` arithmetic, against which the exact
// ── rendering is compared.

struct FloatEvent {
    time: f32,
    msg: String,
}

fn beats(d: NoteDuration) -> f32 {
    match d {
        NoteDuration::Whole => 4.0,
        NoteDuration::Half => 2.0,
        NoteDuration::Quarter => 1.0,
        NoteDuration::Eighth => 0.5,
        NoteDuration::TripletEighth => 1.0 / 3.0,
    }
}

fn midi_to_freq(midi: u8) -> f32 {
    440.0 * 2.0_f32.powf((midi as f32 - 69.0) / 12.0)
}

fn shifted(midi: u8, shift: i8) -> u8 {
    (midi as i32 + shift as i32).rem_euclid(256) as u8
}

fn float_section(events: &mut Vec<FloatEvent>, section: &Section, offset: f32, beat_dur: f32, shift: i8, node_id: &mut u32) {
    let mut t = offset;
    for chord in &section.chords {
        let dur = beat_dur * 4.0;
        for midi in chord.to_midi_notes() {
            let freq = midi_to_freq(shifted(midi, shift));
            events.push(FloatEvent {
                time: t,
                msg: format!("[ '/s_new', 'sonaraChord', {}, 0, 0, 'freq', {:.2}, 'amp', 0.12, 'dur', {:.3} ]", node_id, freq, dur),
            });
            *node_id += 1;
        }
        t += dur;
    }
    for (list, synth, amp) in [(&section.bass, "sonaraBass", "0.35"), (&section.melody, "sonaraMelody", "0.4")] {
        let mut t = offset;
        for note in list {
            let dur = beat_dur * beats(note.duration);
            if note.pitch != 'R' {
                let freq = midi_to_freq(shifted(note.to_midi(), shift));
                events.push(FloatEvent {
                    time: t,
                    msg: format!("[ '/s_new', '{}', {}, 0, 0, 'freq', {:.2}, 'amp', {}, 'dur', {:.3} ]", synth, node_id, freq, amp, dur),
                });
                *node_id += 1;
            }
            t += dur;
        }
    }
    let mut t = offset;
    for hit in &section.drums {
        let name = match hit {
            DrumHit::Kick => Some("sonaraKick"),
            DrumHit::Snare => Some("sonaraSnare"),
            DrumHit::HiHat => Some("sonaraHihat"),
            DrumHit::Rest => None,
        };
        if let Some(n) = name {
            events.push(FloatEvent { time: t, msg: format!("[ '/s_new', '{}', {}, 0, 0 ]", n, node_id) });
            *node_id += 1;
        }
        t += beat_dur;
    }
}

fn float_section_duration(section: &Section, beat_dur: f32) -> f32 {
    let chord_dur = section.chords.len() as f32 * beat_dur * 4.0;
    let melody_dur: f32 = section.melody.iter().map(|n| beat_dur * beats(n.duration)).sum();
    let bass_dur: f32 = section.bass.iter().map(|n| beat_dur * beats(n.duration)).sum();
    let drum_dur = section.drums.len() as f32 * beat_dur;
    chord_dur.max(melody_dur).max(bass_dur).max(drum_dur)
}

fn float_score(song: &Song, path: &str) -> String {
    let beat_dur = 60.0 / song.tempo as f32;
    let mut events: Vec<FloatEvent> = Vec::new();
    let mut node_id = 1000u32;
    let defs = transpile_nrt(&parse("tempo 1\nscale x"), "");
    // the six synth definitions are the event lines that start with `/d_recv`
    for line in defs.split("\n    [ ").skip(1) {
        if line.starts_with("0.0000, [ '/d_recv'") {
            let body = &line["0.0000, ".len()..];
            let end = body.rfind(" ],").unwrap();
            events.push(FloatEvent { time: 0.0, msg: body[..end].to_string() });
        }
    }
    assert_eq!(events.len(), 6);
    let mut section_offset = 0.0f32;
    for section in &song.sections {
        float_section(&mut events, section, section_offset, beat_dur, song.transpose, &mut node_id);
        section_offset += float_section_duration(section, beat_dur);
    }
    let total_dur = section_offset + 2.5;
    events.push(FloatEvent { time: total_dur, msg: "[ '/c_set', 0, 0 ]".to_string() });
    events.sort_by(|a, b| a.time.partial_cmp(&b.time).unwrap_or(std::cmp::Ordering::Equal));
    let mut out = String::new();
    out.push_str("// Generated by Sonara\n\n(\nvar score, options;\n\noptions = ServerOptions.new;\noptions.numOutputBusChannels = 2;\noptions.sampleRate = 44100;\n\nscore = Score([\n");
    for (i, ev) in events.iter().enumerate() {
        let comma = if i < events.len() - 1 { "," } else { "" };
        out.push_str(&format!("    [ {:.4}, {} ]{}\n", ev.time, ev.msg, comma));
    }
    out.push_str("]);\n\n");
    out.push_str(&format!(
        "score.recordNRT(\n\toutputFilePath: \"{}\",\n\tsampleRate: 44100,\n\theaderFormat: \"WAV\",\n\tsampleFormat: \"int16\",\n\toptions: options,\n\tduration: {:.2},\n\taction: {{ \"Sonara: render complete\".postln; 0.exit }}\n);\n",
        path, total_dur
    ));
    out.push_str(")\n");
    out
}

fn same_as_float(src: &str) {
    let song = parse(src);
    assert!(can_transpile(&song));
    let exact = transpile_nrt(&song, "/tmp/out.wav");
    let float = float_score(&song, "/tmp/out.wav");
    for (a, b) in exact.lines().zip(float.lines()) {
        assert_eq!(a, b);
    }
    assert_eq!(exact, float);
}

#[test]
fn nrt_matches_float_rendering_of_simple_song() {
    same_as_float("tempo 120\nscale C_major\nsection verse {\n  melody {\n    C4 E4 G4\n  }\n  drums {\n    kick snare\n  }\n}\n");
}

#[test]
fn nrt_matches_float_rendering_of_readme_song() {
    same_as_float(
        "tempo 120\nscale C_major\nsection verse {\n  chords {\n    C | Am | F | G\n  }\n  bass {\n    C2 C2 G2 G2\n  }\n  melody {\n    E4 G4 A4 G4\n  }\n  drums {\n    kick snare kick snare\n  }\n}\nsection chorus {\n  chords {\n    F | G | Em | Am\n  }\n  melody {\n    C5 B4 A4 G4\n  }\n}\n",
    );
}

/// Where times are not dyadic fractions, rounding in `f32` can swap events that
/// fall at the same time; the lines are then compared as a multiset.
fn same_lines_as_float(src: &str) {
    let song = parse(src);
    assert!(can_transpile(&song));
    let exact = transpile_nrt(&song, "/tmp/out.wav");
    let float = float_score(&song, "/tmp/out.wav");
    let mut a: Vec<&str> = exact.lines().collect();
    let mut b: Vec<&str> = float.lines().collect();
    a.sort();
    b.sort();
    assert_eq!(a, b);
}

#[test]
fn nrt_matches_float_rendering_with_durations_and_rests() {
    same_lines_as_float(
        "tempo 100\nscale C\nsection a {\n  bass { Cw2 Gh2 Ge2 Ee2 }\n  melody { C4 rest Ee5 F#e5 Bbh4 }\n  drums { kick _ hihat snare hh _ k }\n}\nsection b {\n  chords { Dm7 G7 Cmaj7 }\n}\n",
    );
    same_lines_as_float("tempo 90\nscale C\nsection a {\n  chords { C#m Eb7 }\n  melody { A4 A5 A6 A3 C8 }\n}\n");
    same_as_float("tempo 60\nscale C\nsection a {\n  melody { C4 }\n}\n");
    same_as_float("tempo 120\nscale C\nsection a {\n  bass { Cw2 Gh2 Ge2 Ee2 }\n  melody { C4 rest Ee5 F#e5 Bbh4 }\n  drums { kick _ hihat snare hh _ k }\n}\nsection b {\n  chords { Dm7 G7 Cmaj7 }\n}\n");
    same_as_float("tempo 240\nscale C\nsection a {\n  drums { kick kick snare }\n}\nsection empty {\n}\nsection b {\n  bass { C1 }\n}\n");
}

#[test]
fn nrt_exact_lines() {
    let song = parse("tempo 120\nscale C\nsection a {\n  melody { A4 }\n  drums { kick }\n}\n");
    let sc = transpile_nrt(&song, "/x.wav");
    assert!(sc.contains("    [ 0.0000, [ '/s_new', 'sonaraMelody', 1000, 0, 0, 'freq', 440.00, 'amp', 0.4, 'dur', 0.500 ] ],\n"));
    assert!(sc.contains("    [ 0.0000, [ '/s_new', 'sonaraKick', 1001, 0, 0 ] ],\n"));
    assert!(sc.contains("    [ 3.0000, [ '/c_set', 0, 0 ] ]\n]);\n"));
    assert!(sc.contains("\tduration: 3.00,\n"));
    assert!(sc.starts_with("// Generated by Sonara\n\n(\n"));
    assert!(sc.ends_with(");\n)\n"));
}

#[test]
fn nrt_sections_play_one_after_another() {
    let song = parse("tempo 60\nscale C\nsection a {\n  melody { C4 C4 }\n}\nsection b {\n  melody { D4 }\n}\n");
    let sc = transpile_nrt(&song, "/x.wav");
    // section b starts when section a ends, two beats (two seconds at 60 bpm) in
    assert!(sc.contains("    [ 2.0000, [ '/s_new', 'sonaraMelody', 1002, 0, 0, 'freq', 293.66,"));
}

#[test]
fn nrt_tracks_of_a_section_start_together() {
    let song = parse("tempo 60\nscale C\nsection a {\n  chords { C }\n  bass { C2 }\n  drums { kick }\n}\n");
    let sc = transpile_nrt(&song, "/x.wav");
    assert!(sc.contains("    [ 0.0000, [ '/s_new', 'sonaraChord', 1000, 0, 0, 'freq', 130.81, 'amp', 0.12, 'dur', 4.000 ] ],"));
    assert!(sc.contains("    [ 0.0000, [ '/s_new', 'sonaraBass', 1003, 0, 0, 'freq', 65.41, 'amp', 0.35, 'dur', 1.000 ] ],"));
    assert!(sc.contains("    [ 0.0000, [ '/s_new', 'sonaraKick', 1004, 0, 0 ] ],"));
    // the chord lasts four beats, so the song ends at 4 s and the score at 6.5 s
    assert!(sc.contains("    [ 6.5000, [ '/c_set', 0, 0 ] ]"));
}

#[test]
fn nrt_events_are_sorted_by_time() {
    let song = parse("tempo 120\nscale C\nsection a {\n  bass { Cw2 }\n  melody { C4 C4 C4 C4 }\n  drums { kick kick kick kick }\n}\n");
    let sc = transpile_nrt(&song, "/x.wav");
    let mut last = -1.0f64;
    for line in sc.lines().filter(|l| l.starts_with("    [ ")) {
        let t: f64 = line[6..].split(',').next().unwrap().parse().unwrap();
        assert!(t >= last);
        last = t;
    }
}

#[test]
fn tempo_zero_cannot_be_rendered() {
    let song = parse("tempo 0\nscale C\n");
    assert!(!can_transpile(&song));
    assert!(can_transpile(&parse("tempo 1\nscale C\n")));
}

#[test]
fn nrt_simultaneous_events_keep_track_order() {
    let song = parse("tempo 60\nscale C\nsection a {\n  drums { kick }\n  melody { C4 }\n  bass { C2 }\n}\n");
    let sc = transpile_nrt(&song, "/x.wav");
    let bass = sc.find("'sonaraBass', 1000").unwrap();
    let melody = sc.find("'sonaraMelody', 1001").unwrap();
    let kick = sc.find("'sonaraKick', 1002").unwrap();
    assert!(bass < melody && melody < kick);
}

#[test]
fn nrt_frequencies_follow_equal_temperament() {
    let names = ["C", "C#", "D", "D#", "E", "F", "F#", "G", "G#", "A", "A#", "B"];
    let mut melody = String::new();
    for octave in 0..10 {
        for n in names {
            melody.push_str(&format!("{}{} ", n, octave));
        }
    }
    let song = parse(&format!("tempo 120\nscale C\nsection a {{\n  melody {{ {} }}\n}}\n", melody));
    let sc = transpile_nrt(&song, "/x.wav");
    let mut node = 1000;
    for octave in 0..10u32 {
        for pc in 0..12u32 {
            let midi = 12 * (octave + 1) + pc;
            let freq = 440.0f64 * 2.0f64.powf((midi as f64 - 69.0) / 12.0);
            let expected = format!("'sonaraMelody', {}, 0, 0, 'freq', {:.2}, ", node, freq);
            assert!(sc.contains(&expected), "midi {}: {}", midi, expected);
            node += 1;
        }
    }
}

#[test]
fn nrt_matches_float_rendering_with_rests_velocities_and_transpose() {
    same_as_float("tempo 120\nscale C\ntranspose -2\nsection a {\n  chords { Am G }\n  bass { R C2 Re Ee2 }\n  melody { C4 E4 G4e:80 R A4:64 }\n}\n");
    same_lines_as_float("tempo 100\nscale C\ntranspose 7\nsection a {\n  melody { Ct4 Dt4 Et4 R Rt F4 }\n  drums { kick snare }\n}\nsection b {\n  bass { Rw C2 }\n}\n");
}

#[test]
fn a_rest_takes_its_time_and_makes_no_event() {
    let with_rest = transpile_nrt(&parse("tempo 120\nscale C\nsection a {\n  melody { R E4 }\n}\n"), "/tmp/t.wav");
    // E4 starts one beat (0.5 s) in and takes the first node number
    assert!(with_rest.contains("    [ 0.5000, [ '/s_new', 'sonaraMelody', 1000, 0, 0, 'freq', 329.63, 'amp', 0.4, 'dur', 0.500 ] ],"));
    assert!(!with_rest.contains("1001"));
    // the section lasts two beats, so the score ends 2.5 s after 1 s
    assert!(with_rest.contains("duration: 3.50,"));
    let eighth_rest = transpile_nrt(&parse("tempo 120\nscale C\nsection a {\n  melody { Re E4 }\n}\n"), "/tmp/t.wav");
    assert!(eighth_rest.contains("    [ 0.2500, [ '/s_new', 'sonaraMelody', 1000,"));
}

#[test]
fn transpose_moves_every_pitch() {
    let up = transpile_nrt(&parse("tempo 120\nscale C\ntranspose 12\nsection a {\n  bass { C2 }\n  melody { A4 }\n}\n"), "/tmp/t.wav");
    let written = transpile_nrt(&parse("tempo 120\nscale C\nsection a {\n  bass { C3 }\n  melody { A5 }\n}\n"), "/tmp/t.wav");
    assert_eq!(up, written);
    let down = transpile_nrt(&parse("tempo 120\nscale C\ntranspose -2\nsection a {\n  melody { D4 }\n  chords { D }\n}\n"), "/tmp/t.wav");
    let plain = transpile_nrt(&parse("tempo 120\nscale C\nsection a {\n  melody { C4 }\n  chords { C }\n}\n"), "/tmp/t.wav");
    assert_eq!(down, plain);
    // A4 is 440 Hz; two semitones down from B4 lands on it
    let b = transpile_nrt(&parse("tempo 120\nscale C\ntranspose -2\nsection a {\n  melody { B4 }\n}\n"), "/tmp/t.wav");
    assert!(b.contains("'freq', 440.00,"));
}
