use vstd::prelude::*;
use vstd::string::*;
use crate::ast::{
    chord_midi, note_midi, sections_view, Chord, DrumHit, Note, NoteDuration, Section,
    SectionView, Song, SongView,
};
use crate::text::{decimal, fixed_point, push_decimal, push_fixed, push_text, text};

verus! {

// Time is counted in sixths of a beat, so that every note length is a whole number
// of units: a whole note is 24, a half 12, a quarter 6, an eighth 3, a triplet eighth 2.
// A beat lasts 60 / tempo seconds, so a sixth lasts 10 / tempo seconds.

/// Sixths of a beat that a note of this duration lasts.
pub open spec fn duration_sixths(d: NoteDuration) -> nat {
    match d {
        NoteDuration::Whole => 24,
        NoteDuration::Half => 12,
        NoteDuration::Quarter => 6,
        NoteDuration::Eighth => 3,
        NoteDuration::TripletEighth => 2,
    }
}

impl NoteDuration {
    /// How many sixths of a beat this duration lasts (a quarter note is one beat).
    pub fn sixths(&self) -> (r: u64)
        ensures
            r == duration_sixths(*self),
    {
        match self {
            NoteDuration::Whole => 24,
            NoteDuration::Half => 12,
            NoteDuration::Quarter => 6,
            NoteDuration::Eighth => 3,
            NoteDuration::TripletEighth => 2,
        }
    }
}

/// Total length of a run of notes, in sixths of a beat.
pub open spec fn notes_sixths(ns: Seq<Note>) -> nat
    decreases ns.len(),
{
    if ns.len() == 0 {
        0
    } else {
        notes_sixths(ns.drop_last()) + duration_sixths(ns.last().duration)
    }
}

/// The larger of two numbers.
pub open spec fn max_nat(a: nat, b: nat) -> nat {
    if a >= b {
        a
    } else {
        b
    }
}

/// Length of a section, in sixths of a beat: its longest track. A chord lasts four
/// beats, a drum hit one beat.
pub open spec fn section_sixths(sec: SectionView) -> nat {
    max_nat(
        max_nat(max_nat(24 * sec.chords.len(), notes_sixths(sec.melody)), notes_sixths(sec.bass)),
        6 * sec.drums.len(),
    )
}

/// Where section `k` starts: the summed lengths of the sections before it.
pub open spec fn offset_upto(secs: Seq<SectionView>, k: nat) -> nat
    decreases k,
{
    if k == 0 {
        0
    } else {
        offset_upto(secs, (k - 1) as nat) + section_sixths(secs[k - 1])
    }
}

/// `num / den` rounded to the nearest integer, ties to even (as `{:.N}` rounds).
pub open spec fn round_div(num: nat, den: nat) -> nat {
    let q = num / den;
    let r = num % den;
    if 2 * r > den {
        q + 1
    } else if 2 * r < den {
        q
    } else if q % 2 == 0 {
        q
    } else {
        q + 1
    }
}

/// Seconds times 10^4, rounded, at which `ticks` sixths of a beat fall.
pub open spec fn time_e4(ticks: nat, tempo: nat) -> nat {
    round_div(ticks * 100000, tempo)
}

/// Seconds times 10^3, rounded, that `ticks` sixths of a beat last.
pub open spec fn dur_e3(ticks: nat, tempo: nat) -> nat {
    round_div(ticks * 10000, tempo)
}

/// Two to the power `q`.
pub open spec fn pow2(q: nat) -> nat
    decreases q,
{
    if q == 0 {
        1
    } else {
        2 * pow2((q - 1) as nat)
    }
}

/// Hundredths of a hertz of the twelve notes of MIDI octave -1 (A4 = 440 Hz, equal
/// temperament), times 2^32, rounded.
pub open spec fn freq_table(r: nat) -> nat {
    if r == 0 {
        3511478896136
    } else if r == 1 {
        3720282297078
    } else if r == 2 {
        3941501794352
    } else if r == 3 {
        4175875687467
    } else if r == 4 {
        4424186177504
    } else if r == 5 {
        4687261977640
    } else if r == 6 {
        4965981078903
    } else if r == 7 {
        5261273680384
    } else if r == 8 {
        5574125293691
    } else if r == 9 {
        5905580032000
    } else if r == 10 {
        6256744094689
    } else {
        6628789459174
    }
}

/// Frequency of a MIDI note in hundredths of a hertz, rounded: 440 * 2^((m - 69) / 12).
pub open spec fn freq_e2(m: nat) -> nat {
    round_div(freq_table(m % 12) * pow2(m / 12), pow2(32))
}

/// The `/s_new` message that starts a pitched synth.
pub open spec fn note_msg(
    synth: Seq<char>,
    amp: Seq<char>,
    node: nat,
    midi: nat,
    ticks: nat,
    tempo: nat,
) -> Seq<char> {
    "[ '/s_new', '"@ + synth + "', "@ + decimal(node) + ", 0, 0, 'freq', "@ + fixed_point(
        freq_e2(midi),
        2,
    ) + ", 'amp', "@ + amp + ", 'dur', "@ + fixed_point(dur_e3(ticks, tempo), 3) + " ]"@
}

/// The `/s_new` message that starts a drum synth.
pub open spec fn drum_msg(name: Seq<char>, node: nat) -> Seq<char> {
    "[ '/s_new', '"@ + name + "', "@ + decimal(node) + ", 0, 0 ]"@
}

/// The synth a drum hit plays; a rest plays none.
pub open spec fn drum_synth(h: DrumHit) -> Option<Seq<char>> {
    match h {
        DrumHit::Kick => Some("sonaraKick"@),
        DrumHit::Snare => Some("sonaraSnare"@),
        DrumHit::HiHat => Some("sonaraHihat"@),
        DrumHit::Rest => None,
    }
}

/// One timed event of the score.
pub struct EventView {
    /// When it happens, in sixths of a beat (the key it is sorted by).
    pub ticks: nat,
    /// When it happens, in seconds times 10^4, rounded.
    pub time_e4: nat,
    /// The server message.
    pub msg: Seq<char>,
}

/// An event at `ticks` sixths of a beat.
pub open spec fn event_at(ticks: nat, tempo: nat, msg: Seq<char>) -> EventView {
    EventView { ticks, time_e4: time_e4(ticks, tempo), msg }
}

/// The events of one chord: one note each, all at time `t`, lasting four beats, each
/// pitch moved by `shift` semitones.
pub open spec fn chord_block(c: Chord, t: nat, node: nat, tempo: nat, shift: i8) -> Seq<EventView> {
    Seq::new(
        chord_midi(c).len(),
        |k: int|
            event_at(
                t,
                tempo,
                note_msg("sonaraChord"@, "0.12"@, node + k as nat, transposed(chord_midi(c)[k], shift), 24, tempo),
            ),
    )
}

/// The events of the first `n` chords, which follow each other every four beats from `offset`.
pub open spec fn chord_events(
    chords: Seq<Chord>,
    n: nat,
    offset: nat,
    node: nat,
    tempo: nat,
    shift: i8,
) -> Seq<EventView>
    decreases n,
{
    if n == 0 {
        seq![]
    } else {
        let prev = chord_events(chords, (n - 1) as nat, offset, node, tempo, shift);
        prev + chord_block(
            chords[n - 1],
            offset + 24 * (n - 1) as nat,
            node + prev.len(),
            tempo,
            shift,
        )
    }
}

/// A MIDI number moved by `shift` semitones, wrapped into a byte.
pub open spec fn transposed(m: int, shift: i8) -> nat {
    ((m + shift) % 256) as nat
}

/// Whether a note is a rest (written `R`): it takes its time but sounds nothing.
pub open spec fn is_rest(n: Note) -> bool {
    n.pitch == 'R'
}

/// The events of the first `n` notes of a bass or melody track that starts at `offset`:
/// each note starts where the one before it ends, its pitch moved by `shift` semitones;
/// a rest takes its time but makes no event.
pub open spec fn note_events(
    notes: Seq<Note>,
    n: nat,
    offset: nat,
    node: nat,
    synth: Seq<char>,
    amp: Seq<char>,
    tempo: nat,
    shift: i8,
) -> Seq<EventView>
    decreases n,
{
    if n == 0 {
        seq![]
    } else {
        let prev = note_events(notes, (n - 1) as nat, offset, node, synth, amp, tempo, shift);
        let x = notes[n - 1];
        if is_rest(x) {
            prev
        } else {
            prev.push(
                event_at(
                    offset + notes_sixths(notes.take(n - 1)),
                    tempo,
                    note_msg(
                        synth,
                        amp,
                        node + prev.len(),
                        transposed(note_midi(x), shift),
                        duration_sixths(x.duration),
                        tempo,
                    ),
                ),
            )
        }
    }
}

/// The events of the first `n` drum hits, one beat apart from `offset`; a rest takes
/// its beat but makes no event.
pub open spec fn drum_events(
    hits: Seq<DrumHit>,
    n: nat,
    offset: nat,
    node: nat,
    tempo: nat,
) -> Seq<EventView>
    decreases n,
{
    if n == 0 {
        seq![]
    } else {
        let prev = drum_events(hits, (n - 1) as nat, offset, node, tempo);
        match drum_synth(hits[n - 1]) {
            None => prev,
            Some(name) => prev.push(
                event_at(offset + 6 * (n - 1) as nat, tempo, drum_msg(name, node + prev.len())),
            ),
        }
    }
}

/// The events of a section starting at `offset`: chords, then bass, melody and drums,
/// the synth node numbers counting up from `node` in that order, pitches moved by
/// `shift` semitones.
pub open spec fn section_events(
    sec: SectionView,
    offset: nat,
    node: nat,
    tempo: nat,
    shift: i8,
) -> Seq<EventView> {
    let c = chord_events(sec.chords, sec.chords.len(), offset, node, tempo, shift);
    let b = note_events(sec.bass, sec.bass.len(), offset, node + c.len(), "sonaraBass"@, "0.35"@, tempo, shift);
    let m = note_events(
        sec.melody,
        sec.melody.len(),
        offset,
        node + c.len() + b.len(),
        "sonaraMelody"@,
        "0.4"@,
        tempo,
        shift,
    );
    let d = drum_events(sec.drums, sec.drums.len(), offset, node + c.len() + b.len() + m.len(), tempo);
    c + b + m + d
}

/// The events of the first `k` sections, played one after another; nodes count from 1000.
pub open spec fn song_events(secs: Seq<SectionView>, k: nat, tempo: nat, shift: i8) -> Seq<EventView>
    decreases k,
{
    if k == 0 {
        seq![]
    } else {
        let prev = song_events(secs, (k - 1) as nat, tempo, shift);
        prev + section_events(secs[k - 1], offset_upto(secs, (k - 1) as nat), 1000 + prev.len(), tempo, shift)
    }
}

/// The synth definitions sent before anything plays.
pub open spec fn synth_defs() -> Seq<Seq<char>> {
    seq![
        "[ '/d_recv', SynthDef(\\sonaraChord, { |out=0, freq=440, amp=0.12, dur=2.0|\n\tvar sig = Mix.ar(Saw.ar(freq * [1, 2, 3], amp / 3));\n\tvar env = EnvGen.kr(Env.linen(0.02, dur - 0.1, 0.08), doneAction: 2);\n\tOut.ar(out, (sig * env).dup);\n}).asBytes ]"@,
        "[ '/d_recv', SynthDef(\\sonaraMelody, { |out=0, freq=440, amp=0.4, dur=0.5|\n\tvar sig = SinOsc.ar(freq, 0, amp) + Pulse.ar(freq, 0.3, amp * 0.2);\n\tvar env = EnvGen.kr(Env.perc(0.01, dur * 0.85), doneAction: 2);\n\tOut.ar(out, (sig * env).dup);\n}).asBytes ]"@,
        "[ '/d_recv', SynthDef(\\sonaraBass, { |out=0, freq=110, amp=0.35, dur=1.0|\n\tvar sig = SinOsc.ar(freq, 0, amp) + SinOsc.ar(freq * 2, 0, amp * 0.3);\n\tvar env = EnvGen.kr(Env.perc(0.01, dur * 0.9), doneAction: 2);\n\tOut.ar(out, (sig * env).dup);\n}).asBytes ]"@,
        "[ '/d_recv', SynthDef(\\sonaraKick, { |out=0, amp=0.8|\n\tvar freq = EnvGen.kr(Env([200, 60, 40], [0.01, 0.1]));\n\tvar sig  = SinOsc.ar(freq, 0, amp);\n\tvar env  = EnvGen.kr(Env.perc(0.005, 0.3), doneAction: 2);\n\tOut.ar(out, (sig * env).dup);\n}).asBytes ]"@,
        "[ '/d_recv', SynthDef(\\sonaraSnare, { |out=0, amp=0.6|\n\tvar sig = WhiteNoise.ar(amp) * 0.7 + SinOsc.ar(180, 0, amp * 0.3);\n\tvar env = EnvGen.kr(Env.perc(0.005, 0.15), doneAction: 2);\n\tOut.ar(out, (sig * env).dup);\n}).asBytes ]"@,
        "[ '/d_recv', SynthDef(\\sonaraHihat, { |out=0, amp=0.3|\n\tvar sig = HPF.ar(WhiteNoise.ar(amp), 8000);\n\tvar env = EnvGen.kr(Env.perc(0.001, 0.06), doneAction: 2);\n\tOut.ar(out, (sig * env).dup);\n}).asBytes ]"@,
    ]
}

/// The synth definitions as events at time zero.
pub open spec fn synth_def_events() -> Seq<EventView> {
    Seq::new(6, |i: int| EventView { ticks: 0, time_e4: 0, msg: synth_defs()[i] })
}

/// Where `e` goes in a list sorted by time: after every event not later than it.
pub open spec fn insert_point(s: Seq<EventView>, t: nat) -> nat
    decreases s.len(),
{
    if s.len() == 0 {
        0
    } else if s.last().ticks > t {
        insert_point(s.drop_last(), t)
    } else {
        s.len()
    }
}

/// `s` with `e` inserted after every event not later than it.
pub open spec fn insert_by_time(s: Seq<EventView>, e: EventView) -> Seq<EventView> {
    s.insert(insert_point(s, e.ticks) as int, e)
}

/// The events sorted by time; events at the same time keep their order (a stable sort).
pub open spec fn sort_by_time(s: Seq<EventView>) -> Seq<EventView>
    decreases s.len(),
{
    if s.len() == 0 {
        s
    } else {
        insert_by_time(sort_by_time(s.drop_last()), s.last())
    }
}

/// Where the song ends, in sixths of a beat.
pub open spec fn song_end(song: SongView) -> nat {
    offset_upto(song.sections, song.sections.len())
}

/// The final event, two and a half seconds after the song ends, that lets the last
/// notes ring out.
pub open spec fn end_event(song: SongView) -> EventView {
    EventView {
        ticks: song_end(song),
        time_e4: time_e4(song_end(song), song.tempo as nat) + 25000,
        msg: "[ '/c_set', 0, 0 ]"@,
    }
}

/// The length of the score in seconds times 100, rounded: the song and its tail.
pub open spec fn total_e2(song: SongView) -> nat {
    round_div(song_end(song) * 1000, song.tempo as nat) + 250
}

/// Every event of the score, in the order they are written: sorted by time, the end last.
pub open spec fn score_events(song: SongView) -> Seq<EventView> {
    sort_by_time(
        synth_def_events() + song_events(song.sections, song.sections.len(), song.tempo as nat, song.transpose),
    ).push(end_event(song))
}

/// One line of the score; every line but the last ends with a comma.
pub open spec fn event_line(ev: EventView, last: bool) -> Seq<char> {
    "    [ "@ + fixed_point(ev.time_e4, 4) + ", "@ + ev.msg + " ]"@ + (if last {
        ""@
    } else {
        ","@
    }) + "\n"@
}

/// The lines of the first `n` events of `evs`.
pub open spec fn event_lines(evs: Seq<EventView>, n: nat) -> Seq<char>
    decreases n,
{
    if n == 0 {
        seq![]
    } else {
        event_lines(evs, (n - 1) as nat) + event_line(evs[n - 1], n == evs.len())
    }
}

/// The text before the events.
pub open spec fn script_head() -> Seq<char> {
    "// Generated by Sonara\n\n"@ + "(\n"@ + "var score, options;\n\n"@ + "options = ServerOptions.new;\n"@
        + "options.numOutputBusChannels = 2;\n"@ + "options.sampleRate = 44100;\n\n"@
        + "score = Score([\n"@
}

/// The text after the events: the call that renders the score to `path`.
pub open spec fn script_tail(path: Seq<char>, total: nat) -> Seq<char> {
    "]);\n\n"@ + "score.recordNRT(\n\toutputFilePath: \""@ + path
        + "\",\n\tsampleRate: 44100,\n\theaderFormat: \"WAV\",\n\tsampleFormat: \"int16\",\n\toptions: options,\n\tduration: "@
        + fixed_point(total, 2)
        + ",\n\taction: { \"Sonara: render complete\".postln; 0.exit }\n);\n"@ + ")\n"@
}

/// The whole non-real-time render script of a song.
pub open spec fn nrt_script(song: SongView, path: Seq<char>) -> Seq<char> {
    let evs = score_events(song);
    script_head() + event_lines(evs, evs.len()) + script_tail(path, total_e2(song))
}

/// When a song can be rendered: a tempo above zero, synth node numbers that stay
/// within `u32`, and a length in sixths of a beat that fits in `u64`.
pub open spec fn renderable(song: SongView) -> bool {
    &&& song.tempo > 0
    &&& 1000 + song_events(song.sections, song.sections.len(), song.tempo as nat, song.transpose).len()
        <= u32::MAX
    &&& song_end(song) <= u64::MAX
}

// ---------------------------------------------------------------------------
// Lemmas on the event lists.

pub proof fn lemma_notes_sixths_prefix(ns: Seq<Note>, i: int, j: int)
    requires
        0 <= i <= j <= ns.len(),
    ensures
        notes_sixths(ns.take(i)) <= notes_sixths(ns.take(j)),
    decreases j - i,
{
    if i < j {
        lemma_notes_sixths_prefix(ns, i, j - 1);
        assert(ns.take(j).drop_last() == ns.take(j - 1));
    }
}

pub proof fn lemma_notes_sixths_step(ns: Seq<Note>, i: int)
    requires
        0 <= i < ns.len(),
    ensures
        notes_sixths(ns.take(i + 1)) == notes_sixths(ns.take(i)) + duration_sixths(ns[i].duration),
{
    assert(ns.take(i + 1).drop_last() == ns.take(i));
}

pub proof fn lemma_chord_events_grow(chords: Seq<Chord>, n: nat, m: nat, offset: nat, node: nat, tempo: nat, shift: i8)
    requires
        n <= m,
    ensures
        chord_events(chords, n, offset, node, tempo, shift).len() <= chord_events(chords, m, offset, node, tempo, shift).len(),
    decreases m - n,
{
    if n < m {
        lemma_chord_events_grow(chords, n, (m - 1) as nat, offset, node, tempo, shift);
    }
}

pub proof fn lemma_drum_events_grow(hits: Seq<DrumHit>, n: nat, m: nat, offset: nat, node: nat, tempo: nat)
    requires
        n <= m,
    ensures
        drum_events(hits, n, offset, node, tempo).len() <= drum_events(hits, m, offset, node, tempo).len(),
    decreases m - n,
{
    if n < m {
        lemma_drum_events_grow(hits, n, (m - 1) as nat, offset, node, tempo);
    }
}

pub proof fn lemma_note_events_grow(
    notes: Seq<Note>,
    n: nat,
    m: nat,
    offset: nat,
    node: nat,
    synth: Seq<char>,
    amp: Seq<char>,
    tempo: nat,
    shift: i8,
)
    requires
        n <= m,
    ensures
        note_events(notes, n, offset, node, synth, amp, tempo, shift).len() <= note_events(notes, m, offset, node, synth, amp, tempo, shift).len(),
    decreases m - n,
{
    if n < m {
        lemma_note_events_grow(notes, n, (m - 1) as nat, offset, node, synth, amp, tempo, shift);
    }
}

pub proof fn lemma_song_events_grow(secs: Seq<SectionView>, k: nat, m: nat, tempo: nat, shift: i8)
    requires
        k <= m,
    ensures
        song_events(secs, k, tempo, shift).len() <= song_events(secs, m, tempo, shift).len(),
    decreases m - k,
{
    if k < m {
        lemma_song_events_grow(secs, k, (m - 1) as nat, tempo, shift);
    }
}

pub proof fn lemma_offset_grow(secs: Seq<SectionView>, k: nat, m: nat)
    requires
        k <= m,
    ensures
        offset_upto(secs, k) <= offset_upto(secs, m),
    decreases m - k,
{
    if k < m {
        lemma_offset_grow(secs, k, (m - 1) as nat);
    }
}

// ---------------------------------------------------------------------------
// Executable rendering.

/// An event of the score being built.
struct Event {
    ticks: u64,
    time_e4: u128,
    msg: String,
}

impl View for Event {
    type V = EventView;

    closed spec fn view(&self) -> EventView {
        EventView { ticks: self.ticks as nat, time_e4: self.time_e4 as nat, msg: self.msg@ }
    }
}

spec fn events_view(v: Seq<Event>) -> Seq<EventView> {
    v.map_values(|e: Event| e@)
}

proof fn lemma_events_view_push(v: Seq<Event>, e: Event)
    ensures
        events_view(v.push(e)) == events_view(v).push(e@),
{
    assert(events_view(v.push(e)) =~= events_view(v).push(e@));
}

fn round_div_of(num: u128, den: u128) -> (r: u128)
    requires
        den > 0,
        den < 0x1_0000_0000_0000_0000_0000_0000,
        num < 0x1_0000_0000_0000_0000_0000_0000,
    ensures
        r == round_div(num as nat, den as nat),
{
    let q = num / den;
    let r = num % den;
    assert(q <= num) by (nonlinear_arith)
        requires
            den > 0,
            q == num / den,
    ;
    if 2 * r > den {
        q + 1
    } else if 2 * r < den {
        q
    } else if q % 2 == 0 {
        q
    } else {
        q + 1
    }
}

fn time_e4_of(ticks: u64, tempo: u32) -> (r: u128)
    requires
        tempo > 0,
    ensures
        r == time_e4(ticks as nat, tempo as nat),
{
    round_div_of(ticks as u128 * 100000, tempo as u128)
}

fn dur_e3_of(ticks: u64, tempo: u32) -> (r: u128)
    requires
        tempo > 0,
    ensures
        r == dur_e3(ticks as nat, tempo as nat),
{
    round_div_of(ticks as u128 * 10000, tempo as u128)
}

fn pow2_of(q: u32) -> (r: u128)
    requires
        q <= 32,
    ensures
        r == pow2(q as nat),
        1 <= r <= 0x1_0000_0000,
    decreases q,
{
    proof {
        lemma_pow2_grow(q as nat, 32);
        lemma_pow2_top();
    }
    if q == 0 {
        1
    } else {
        let h = pow2_of(q - 1);
        proof {
            lemma_pow2_grow((q - 1) as nat, 31);
        }
        2 * h
    }
}

proof fn lemma_pow2_top()
    ensures
        pow2(31) == 0x8000_0000,
        pow2(32) == 0x1_0000_0000,
{
    reveal_with_fuel(pow2, 33);
}

proof fn lemma_pow2_grow(q: nat, m: nat)
    requires
        q <= m,
    ensures
        1 <= pow2(q) <= pow2(m),
    decreases m,
{
    if q < m {
        lemma_pow2_grow(q, (m - 1) as nat);
    } else if q > 0 {
        lemma_pow2_grow((q - 1) as nat, (q - 1) as nat);
    }
}

fn freq_table_of(r: u8) -> (t: u128)
    requires
        r < 12,
    ensures
        t == freq_table(r as nat),
        t < 0x1000_0000_0000,
{
    if r == 0 {
        3511478896136
    } else if r == 1 {
        3720282297078
    } else if r == 2 {
        3941501794352
    } else if r == 3 {
        4175875687467
    } else if r == 4 {
        4424186177504
    } else if r == 5 {
        4687261977640
    } else if r == 6 {
        4965981078903
    } else if r == 7 {
        5261273680384
    } else if r == 8 {
        5574125293691
    } else if r == 9 {
        5905580032000
    } else if r == 10 {
        6256744094689
    } else {
        6628789459174
    }
}

/// Frequency of a MIDI note in hundredths of a hertz.
fn midi_to_freq(midi: u8) -> (r: u128)
    ensures
        r == freq_e2(midi as nat),
{
    let t = freq_table_of(midi % 12);
    let p = pow2_of((midi / 12) as u32);
    let d = pow2_of(32);
    assert(t * p < 0x1_0000_0000_0000_0000_0000_0000) by (nonlinear_arith)
        requires
            t < 0x1000_0000_0000,
            p <= 0x1_0000_0000,
    ;
    round_div_of(t * p, d)
}

fn note_message(synth: &str, amp: &str, node: u64, midi: u8, ticks: u64, tempo: u32) -> (r: String)
    requires
        tempo > 0,
    ensures
        r@ == note_msg(synth@, amp@, node as nat, midi as nat, ticks as nat, tempo as nat),
{
    let mut m = text("[ '/s_new', '");
    push_text(&mut m, synth);
    push_text(&mut m, "', ");
    push_decimal(&mut m, node as u128);
    push_text(&mut m, ", 0, 0, 'freq', ");
    push_fixed(&mut m, midi_to_freq(midi), 2);
    push_text(&mut m, ", 'amp', ");
    push_text(&mut m, amp);
    push_text(&mut m, ", 'dur', ");
    push_fixed(&mut m, dur_e3_of(ticks, tempo), 3);
    push_text(&mut m, " ]");
    m
}

/// A MIDI number moved by `shift` semitones, wrapped into a byte.
fn shift_midi(m: u8, shift: i8) -> (r: u8)
    ensures
        r == transposed(m as int, shift),
{
    ((m as i32 + shift as i32 + 256) % 256) as u8
}

fn drum_message(name: &str, node: u64) -> (r: String)
    ensures
        r@ == drum_msg(name@, node as nat),
{
    let mut m = text("[ '/s_new', '");
    push_text(&mut m, name);
    push_text(&mut m, "', ");
    push_decimal(&mut m, node as u128);
    push_text(&mut m, ", 0, 0 ]");
    m
}

fn push_chord_events(
    events: &mut Vec<Event>,
    chords: &Vec<Chord>,
    offset: u64,
    tempo: u32,
    node: &mut u64,
    shift: i8,
)
    requires
        tempo > 0,
        offset + 24 * chords@.len() <= u64::MAX,
        *old(node) + chord_events(chords@, chords@.len(), offset as nat, *old(node) as nat, tempo as nat, shift).len()
            <= u32::MAX,
    ensures
        events_view(final(events)@) == events_view(old(events)@) + chord_events(
            chords@,
            chords@.len(),
            offset as nat,
            *old(node) as nat,
            tempo as nat,
            shift,
        ),
        *final(node) == *old(node) + chord_events(
            chords@,
            chords@.len(),
            offset as nat,
            *old(node) as nat,
            tempo as nat,
            shift,
        ).len(),
{
    let ghost base = events_view(events@);
    let ghost node0 = *node as nat;
    let ghost all = chord_events(chords@, chords@.len(), offset as nat, node0, tempo as nat, shift);
    let mut i: usize = 0;
    assert(base + chord_events(chords@, 0, offset as nat, node0, tempo as nat, shift) == base);
    while i < chords.len()
        invariant
            i <= chords@.len(),
            offset + 24 * chords@.len() <= u64::MAX,
            tempo > 0,
            node0 + all.len() <= u32::MAX,
            all == chord_events(chords@, chords@.len(), offset as nat, node0, tempo as nat, shift),
            events_view(events@) == base + chord_events(chords@, i as nat, offset as nat, node0, tempo as nat, shift),
            *node == node0 + chord_events(chords@, i as nat, offset as nat, node0, tempo as nat, shift).len(),
        decreases chords@.len() - i,
    {
        let ghost prev = chord_events(chords@, i as nat, offset as nat, node0, tempo as nat, shift);
        let ghost block = chord_block(chords@[i as int], (offset + 24 * i) as nat, (node0 + prev.len()) as nat, tempo as nat, shift);
        proof {
            lemma_chord_events_grow(chords@, (i + 1) as nat, chords@.len(), offset as nat, node0, tempo as nat, shift);
            assert(chord_events(chords@, (i + 1) as nat, offset as nat, node0, tempo as nat, shift) == prev + block);
        }
        let t: u64 = offset + 24 * (i as u64);
        let time = time_e4_of(t, tempo);
        let midis = chords[i].to_midi_notes();
        let mut j: usize = 0;
        assert(block.take(0) == Seq::<EventView>::empty());
        while j < midis.len()
            invariant
                j <= midis@.len(),
                midis@.len() == block.len(),
                forall|k: int| 0 <= k < midis@.len() ==> midis@[k] == chord_midi(chords@[i as int])[k],
                block == chord_block(chords@[i as int], t as nat, (node0 + prev.len()) as nat, tempo as nat, shift),
                time == time_e4(t as nat, tempo as nat),
                tempo > 0,
                node0 + prev.len() + block.len() <= u32::MAX,
                events_view(events@) == base + prev + block.take(j as int),
                *node == node0 + prev.len() + j,
            decreases midis@.len() - j,
        {
            let msg = note_message("sonaraChord", "0.12", *node, shift_midi(midis[j], shift), 24, tempo);
            let e = Event { ticks: t, time_e4: time, msg };
            proof {
                lemma_events_view_push(events@, e);
                assert(block.take(j as int).push(block[j as int]) == block.take(j + 1));
                assert(e@ == block[j as int]);
            }
            events.push(e);
            *node = *node + 1;
            j = j + 1;
        }
        assert(block.take(block.len() as int) == block);
        assert(base + prev + block == base + (prev + block));
        i = i + 1;
    }
}

fn push_note_events(
    events: &mut Vec<Event>,
    notes: &Vec<Note>,
    offset: u64,
    tempo: u32,
    node: &mut u64,
    synth: &str,
    amp: &str,
    shift: i8,
)
    requires
        tempo > 0,
        offset + notes_sixths(notes@) <= u64::MAX,
        *old(node) + note_events(notes@, notes@.len(), offset as nat, *old(node) as nat, synth@, amp@, tempo as nat, shift).len()
            <= u32::MAX,
    ensures
        events_view(final(events)@) == events_view(old(events)@) + note_events(
            notes@,
            notes@.len(),
            offset as nat,
            *old(node) as nat,
            synth@,
            amp@,
            tempo as nat,
            shift,
        ),
        *final(node) == *old(node) + note_events(
            notes@,
            notes@.len(),
            offset as nat,
            *old(node) as nat,
            synth@,
            amp@,
            tempo as nat,
            shift,
        ).len(),
{
    let ghost base = events_view(events@);
    let ghost node0 = *node as nat;
    let ghost all = note_events(notes@, notes@.len(), offset as nat, node0, synth@, amp@, tempo as nat, shift);
    let mut t: u64 = offset;
    let mut i: usize = 0;
    assert(notes@.take(0) == Seq::<Note>::empty());
    assert(base + note_events(notes@, 0, offset as nat, node0, synth@, amp@, tempo as nat, shift) == base);
    while i < notes.len()
        invariant
            i <= notes@.len(),
            tempo > 0,
            offset + notes_sixths(notes@) <= u64::MAX,
            node0 + all.len() <= u32::MAX,
            all == note_events(notes@, notes@.len(), offset as nat, node0, synth@, amp@, tempo as nat, shift),
            t == offset + notes_sixths(notes@.take(i as int)),
            events_view(events@) == base + note_events(notes@, i as nat, offset as nat, node0, synth@, amp@, tempo as nat, shift),
            *node == node0 + note_events(notes@, i as nat, offset as nat, node0, synth@, amp@, tempo as nat, shift).len(),
        decreases notes@.len() - i,
    {
        let ghost prev = note_events(notes@, i as nat, offset as nat, node0, synth@, amp@, tempo as nat, shift);
        proof {
            lemma_notes_sixths_step(notes@, i as int);
            lemma_notes_sixths_prefix(notes@, i + 1, notes@.len() as int);
            assert(notes@.take(notes@.len() as int) == notes@);
            lemma_note_events_grow(notes@, (i + 1) as nat, notes@.len(), offset as nat, node0, synth@, amp@, tempo as nat, shift);
        }
        let n = notes[i];
        let d = n.duration.sixths();
        if n.pitch != 'R' {
            let time = time_e4_of(t, tempo);
            let msg = note_message(synth, amp, *node, shift_midi(n.to_midi(), shift), d, tempo);
            let e = Event { ticks: t, time_e4: time, msg };
            proof {
                lemma_events_view_push(events@, e);
                assert(base + prev.push(e@) == (base + prev).push(e@));
            }
            events.push(e);
            *node = *node + 1;
        }
        t = t + d;
        i = i + 1;
    }
}

fn drum_synth_of(h: DrumHit) -> (r: Option<&'static str>)
    ensures
        r matches Some(name) ==> drum_synth(h) == Some(name@),
        r is None ==> drum_synth(h) is None,
{
    match h {
        DrumHit::Kick => Some("sonaraKick"),
        DrumHit::Snare => Some("sonaraSnare"),
        DrumHit::HiHat => Some("sonaraHihat"),
        DrumHit::Rest => None,
    }
}

fn push_drum_events(
    events: &mut Vec<Event>,
    hits: &Vec<DrumHit>,
    offset: u64,
    tempo: u32,
    node: &mut u64,
)
    requires
        tempo > 0,
        offset + 6 * hits@.len() <= u64::MAX,
        *old(node) + drum_events(hits@, hits@.len(), offset as nat, *old(node) as nat, tempo as nat).len()
            <= u32::MAX,
    ensures
        events_view(final(events)@) == events_view(old(events)@) + drum_events(
            hits@,
            hits@.len(),
            offset as nat,
            *old(node) as nat,
            tempo as nat,
        ),
        *final(node) == *old(node) + drum_events(
            hits@,
            hits@.len(),
            offset as nat,
            *old(node) as nat,
            tempo as nat,
        ).len(),
{
    let ghost base = events_view(events@);
    let ghost node0 = *node as nat;
    let ghost all = drum_events(hits@, hits@.len(), offset as nat, node0, tempo as nat);
    let mut i: usize = 0;
    assert(base + drum_events(hits@, 0, offset as nat, node0, tempo as nat) == base);
    while i < hits.len()
        invariant
            i <= hits@.len(),
            tempo > 0,
            offset + 6 * hits@.len() <= u64::MAX,
            node0 + all.len() <= u32::MAX,
            all == drum_events(hits@, hits@.len(), offset as nat, node0, tempo as nat),
            events_view(events@) == base + drum_events(hits@, i as nat, offset as nat, node0, tempo as nat),
            *node == node0 + drum_events(hits@, i as nat, offset as nat, node0, tempo as nat).len(),
        decreases hits@.len() - i,
    {
        let ghost prev = drum_events(hits@, i as nat, offset as nat, node0, tempo as nat);
        proof {
            lemma_drum_events_grow(hits@, (i + 1) as nat, hits@.len(), offset as nat, node0, tempo as nat);
        }
        match drum_synth_of(hits[i]) {
            Some(name) => {
                let t: u64 = offset + 6 * (i as u64);
                let e = Event { ticks: t, time_e4: time_e4_of(t, tempo), msg: drum_message(name, *node) };
                proof {
                    lemma_events_view_push(events@, e);
                    assert(base + prev.push(e@) == (base + prev).push(e@));
                }
                events.push(e);
                *node = *node + 1;
            },
            None => {},
        }
        i = i + 1;
    }
}

fn collect_section(
    events: &mut Vec<Event>,
    section: &Section,
    offset: u64,
    tempo: u32,
    node: &mut u64,
    shift: i8,
)
    requires
        tempo > 0,
        offset + section_sixths(section@) <= u64::MAX,
        *old(node) + section_events(section@, offset as nat, *old(node) as nat, tempo as nat, shift).len()
            <= u32::MAX,
    ensures
        events_view(final(events)@) == events_view(old(events)@) + section_events(
            section@,
            offset as nat,
            *old(node) as nat,
            tempo as nat,
            shift,
        ),
        *final(node) == *old(node) + section_events(
            section@,
            offset as nat,
            *old(node) as nat,
            tempo as nat,
            shift,
        ).len(),
{
    let ghost base = events_view(events@);
    let ghost n0 = *node as nat;
    let ghost sec = section@;
    let ghost c = chord_events(sec.chords, sec.chords.len(), offset as nat, n0, tempo as nat, shift);
    let ghost b = note_events(sec.bass, sec.bass.len(), offset as nat, n0 + c.len(), "sonaraBass"@, "0.35"@, tempo as nat, shift);
    let ghost m = note_events(
        sec.melody,
        sec.melody.len(),
        offset as nat,
        n0 + c.len() + b.len(),
        "sonaraMelody"@,
        "0.4"@,
        tempo as nat,
        shift,
    );
    let ghost d = drum_events(
        sec.drums,
        sec.drums.len(),
        offset as nat,
        n0 + c.len() + b.len() + m.len(),
        tempo as nat,
    );
    assert(section_events(sec, offset as nat, n0, tempo as nat, shift) == c + b + m + d);
    push_chord_events(events, &section.chords, offset, tempo, node, shift);
    push_note_events(events, &section.bass, offset, tempo, node, "sonaraBass", "0.35", shift);
    push_note_events(events, &section.melody, offset, tempo, node, "sonaraMelody", "0.4", shift);
    push_drum_events(events, &section.drums, offset, tempo, node);
    assert(base + c + b + m + d == base + (c + b + m + d));
}

/// Total length of a run of notes, in sixths of a beat.
fn notes_length(notes: &Vec<Note>) -> (r: u128)
    ensures
        r == notes_sixths(notes@),
        r <= 24 * notes@.len(),
{
    let mut t: u128 = 0;
    let mut i: usize = 0;
    assert(notes@.take(0) == Seq::<Note>::empty());
    while i < notes.len()
        invariant
            i <= notes@.len(),
            t == notes_sixths(notes@.take(i as int)),
            t <= 24 * i,
        decreases notes@.len() - i,
    {
        proof {
            lemma_notes_sixths_step(notes@, i as int);
        }
        t = t + notes[i].duration.sixths() as u128;
        i = i + 1;
    }
    assert(notes@.take(notes@.len() as int) == notes@);
    t
}

/// Length of a section in sixths of a beat: its longest track.
fn section_duration(section: &Section) -> (r: u128)
    ensures
        r == section_sixths(section@),
        r < 0x40_0000_0000_0000_0000,
{
    let chord_dur: u128 = 24 * (section.chords.len() as u128);
    let melody_dur = notes_length(&section.melody);
    let bass_dur = notes_length(&section.bass);
    assert(section.melody@.len() == section.melody.len());
    assert(section.bass@.len() == section.bass.len());
    let drum_dur: u128 = 6 * (section.drums.len() as u128);
    let mut longest = chord_dur;
    if melody_dur > longest {
        longest = melody_dur;
    }
    if bass_dur > longest {
        longest = bass_dur;
    }
    if drum_dur > longest {
        longest = drum_dur;
    }
    longest
}

/// The synth definitions, as events at time zero.
fn synthdef_events() -> (v: Vec<Event>)
    ensures
        events_view(v@) == synth_def_events(),
{
    let mut v: Vec<Event> = Vec::new();
    v.push(Event { ticks: 0, time_e4: 0, msg: text("[ '/d_recv', SynthDef(\\sonaraChord, { |out=0, freq=440, amp=0.12, dur=2.0|\n\tvar sig = Mix.ar(Saw.ar(freq * [1, 2, 3], amp / 3));\n\tvar env = EnvGen.kr(Env.linen(0.02, dur - 0.1, 0.08), doneAction: 2);\n\tOut.ar(out, (sig * env).dup);\n}).asBytes ]") });
    v.push(Event { ticks: 0, time_e4: 0, msg: text("[ '/d_recv', SynthDef(\\sonaraMelody, { |out=0, freq=440, amp=0.4, dur=0.5|\n\tvar sig = SinOsc.ar(freq, 0, amp) + Pulse.ar(freq, 0.3, amp * 0.2);\n\tvar env = EnvGen.kr(Env.perc(0.01, dur * 0.85), doneAction: 2);\n\tOut.ar(out, (sig * env).dup);\n}).asBytes ]") });
    v.push(Event { ticks: 0, time_e4: 0, msg: text("[ '/d_recv', SynthDef(\\sonaraBass, { |out=0, freq=110, amp=0.35, dur=1.0|\n\tvar sig = SinOsc.ar(freq, 0, amp) + SinOsc.ar(freq * 2, 0, amp * 0.3);\n\tvar env = EnvGen.kr(Env.perc(0.01, dur * 0.9), doneAction: 2);\n\tOut.ar(out, (sig * env).dup);\n}).asBytes ]") });
    v.push(Event { ticks: 0, time_e4: 0, msg: text("[ '/d_recv', SynthDef(\\sonaraKick, { |out=0, amp=0.8|\n\tvar freq = EnvGen.kr(Env([200, 60, 40], [0.01, 0.1]));\n\tvar sig  = SinOsc.ar(freq, 0, amp);\n\tvar env  = EnvGen.kr(Env.perc(0.005, 0.3), doneAction: 2);\n\tOut.ar(out, (sig * env).dup);\n}).asBytes ]") });
    v.push(Event { ticks: 0, time_e4: 0, msg: text("[ '/d_recv', SynthDef(\\sonaraSnare, { |out=0, amp=0.6|\n\tvar sig = WhiteNoise.ar(amp) * 0.7 + SinOsc.ar(180, 0, amp * 0.3);\n\tvar env = EnvGen.kr(Env.perc(0.005, 0.15), doneAction: 2);\n\tOut.ar(out, (sig * env).dup);\n}).asBytes ]") });
    v.push(Event { ticks: 0, time_e4: 0, msg: text("[ '/d_recv', SynthDef(\\sonaraHihat, { |out=0, amp=0.3|\n\tvar sig = HPF.ar(WhiteNoise.ar(amp), 8000);\n\tvar env = EnvGen.kr(Env.perc(0.001, 0.06), doneAction: 2);\n\tOut.ar(out, (sig * env).dup);\n}).asBytes ]") });
    assert(events_view(v@) =~= synth_def_events());
    v
}

/// The events sorted by time, events at the same time kept in their order.
fn sort_events(v: &Vec<Event>) -> (r: Vec<Event>)
    ensures
        events_view(r@) == sort_by_time(events_view(v@)),
{
    let ghost all = events_view(v@);
    let mut out: Vec<Event> = Vec::new();
    let mut i: usize = 0;
    assert(all.take(0) == Seq::<EventView>::empty());
    while i < v.len()
        invariant
            i <= v@.len(),
            all == events_view(v@),
            events_view(out@) == sort_by_time(all.take(i as int)),
        decreases v@.len() - i,
    {
        let e = Event { ticks: v[i].ticks, time_e4: v[i].time_e4, msg: v[i].msg.clone() };
        assert(e@ == all[i as int]);
        let ghost sorted = events_view(out@);
        let mut k = out.len();
        assert(sorted.take(k as int) == sorted);
        while k > 0 && out[k - 1].ticks > e.ticks
            invariant
                k <= out@.len(),
                sorted == events_view(out@),
                insert_point(sorted.take(k as int), e.ticks as nat) == insert_point(sorted, e.ticks as nat),
            decreases k,
        {
            assert(sorted.take(k as int).drop_last() == sorted.take(k - 1));
            k = k - 1;
        }
        proof {
            if k > 0 {
                assert(sorted.take(k as int).last() == sorted[k - 1]);
            }
            assert(sorted.take(k as int).len() == k);
            assert(all.take(i + 1).drop_last() == all.take(i as int));
            assert(sorted.take(sorted.len() as int) == sorted);
        }
        out.insert(k, e);
        assert(events_view(out@) =~= sorted.insert(k as int, e@));
        i = i + 1;
    }
    assert(all.take(v@.len() as int) == all);
    out
}

/// The script text: head, one line per event, tail.
fn render_sc(events: &Vec<Event>, total: u128, path: &str) -> (r: String)
    ensures
        r@ == script_head() + event_lines(events_view(events@), events@.len()) + script_tail(path@, total as nat),
{
    let ghost evs = events_view(events@);
    let mut out = text("// Generated by Sonara\n\n");
    push_text(&mut out, "(\n");
    push_text(&mut out, "var score, options;\n\n");
    push_text(&mut out, "options = ServerOptions.new;\n");
    push_text(&mut out, "options.numOutputBusChannels = 2;\n");
    push_text(&mut out, "options.sampleRate = 44100;\n\n");
    push_text(&mut out, "score = Score([\n");
    let mut i: usize = 0;
    while i < events.len()
        invariant
            i <= events@.len(),
            evs == events_view(events@),
            out@ == script_head() + event_lines(evs, i as nat),
        decreases events@.len() - i,
    {
        let ghost before = out@;
        push_text(&mut out, "    [ ");
        push_fixed(&mut out, events[i].time_e4, 4);
        push_text(&mut out, ", ");
        push_text(&mut out, events[i].msg.as_str());
        push_text(&mut out, " ]");
        if i + 1 < events.len() {
            push_text(&mut out, ",");
        } else {
            push_text(&mut out, "");
        }
        push_text(&mut out, "\n");
        assert(evs[i as int] == events@[i as int]@);
        assert(out@ == before + event_line(evs[i as int], i + 1 == evs.len()));
        i = i + 1;
    }
    push_text(&mut out, "]);\n\n");
    push_text(&mut out, "score.recordNRT(\n\toutputFilePath: \"");
    push_text(&mut out, path);
    push_text(
        &mut out,
        "\",\n\tsampleRate: 44100,\n\theaderFormat: \"WAV\",\n\tsampleFormat: \"int16\",\n\toptions: options,\n\tduration: ",
    );
    push_fixed(&mut out, total, 2);
    push_text(&mut out, ",\n\taction: { \"Sonara: render complete\".postln; 0.exit }\n);\n");
    push_text(&mut out, ")\n");
    out
}

/// How many events the first `n` chords make.
pub open spec fn chord_count(chords: Seq<Chord>, n: nat) -> nat
    decreases n,
{
    if n == 0 {
        0
    } else {
        chord_count(chords, (n - 1) as nat) + chord_midi(chords[n - 1]).len()
    }
}

/// How many of the first `n` drum hits make an event (all but rests).
pub open spec fn drum_count(hits: Seq<DrumHit>, n: nat) -> nat
    decreases n,
{
    if n == 0 {
        0
    } else {
        drum_count(hits, (n - 1) as nat) + if drum_synth(hits[n - 1]) is Some {
            1nat
        } else {
            0nat
        }
    }
}

/// How many of the first `n` notes make an event (all but rests).
pub open spec fn note_count(notes: Seq<Note>, n: nat) -> nat
    decreases n,
{
    if n == 0 {
        0
    } else {
        note_count(notes, (n - 1) as nat) + if is_rest(notes[n - 1]) {
            0nat
        } else {
            1nat
        }
    }
}

/// How many events a section makes.
pub open spec fn section_count(sec: SectionView) -> nat {
    chord_count(sec.chords, sec.chords.len()) + note_count(sec.bass, sec.bass.len()) + note_count(
        sec.melody,
        sec.melody.len(),
    ) + drum_count(
        sec.drums,
        sec.drums.len(),
    )
}

/// How many events the first `k` sections make.
pub open spec fn song_count(secs: Seq<SectionView>, k: nat) -> nat
    decreases k,
{
    if k == 0 {
        0
    } else {
        song_count(secs, (k - 1) as nat) + section_count(secs[k - 1])
    }
}

pub proof fn lemma_event_counts(secs: Seq<SectionView>, k: nat, tempo: nat, shift: i8)
    ensures
        song_events(secs, k, tempo, shift).len() == song_count(secs, k),
    decreases k,
{
    if k > 0 {
        lemma_event_counts(secs, (k - 1) as nat, tempo, shift);
        let sec = secs[k - 1];
        let prev = song_events(secs, (k - 1) as nat, tempo, shift);
        let off = offset_upto(secs, (k - 1) as nat);
        let n0 = 1000 + prev.len();
        let c = chord_events(sec.chords, sec.chords.len(), off, n0, tempo, shift);
        lemma_chord_events_len(sec.chords, sec.chords.len(), off, n0, tempo, shift);
        let b = note_events(sec.bass, sec.bass.len(), off, n0 + c.len(), "sonaraBass"@, "0.35"@, tempo, shift);
        lemma_note_events_len(sec.bass, sec.bass.len(), off, n0 + c.len(), "sonaraBass"@, "0.35"@, tempo, shift);
        let m = note_events(sec.melody, sec.melody.len(), off, n0 + c.len() + b.len(), "sonaraMelody"@, "0.4"@, tempo, shift);
        lemma_note_events_len(sec.melody, sec.melody.len(), off, n0 + c.len() + b.len(), "sonaraMelody"@, "0.4"@, tempo, shift);
        lemma_drum_events_len(sec.drums, sec.drums.len(), off, n0 + c.len() + b.len() + m.len(), tempo);
    }
}

pub proof fn lemma_chord_events_len(chords: Seq<Chord>, n: nat, offset: nat, node: nat, tempo: nat, shift: i8)
    ensures
        chord_events(chords, n, offset, node, tempo, shift).len() == chord_count(chords, n),
    decreases n,
{
    if n > 0 {
        lemma_chord_events_len(chords, (n - 1) as nat, offset, node, tempo, shift);
    }
}

pub proof fn lemma_note_events_len(
    notes: Seq<Note>,
    n: nat,
    offset: nat,
    node: nat,
    synth: Seq<char>,
    amp: Seq<char>,
    tempo: nat,
    shift: i8,
)
    ensures
        note_events(notes, n, offset, node, synth, amp, tempo, shift).len() == note_count(notes, n),
    decreases n,
{
    if n > 0 {
        lemma_note_events_len(notes, (n - 1) as nat, offset, node, synth, amp, tempo, shift);
    }
}

pub proof fn lemma_drum_events_len(hits: Seq<DrumHit>, n: nat, offset: nat, node: nat, tempo: nat)
    ensures
        drum_events(hits, n, offset, node, tempo).len() == drum_count(hits, n),
    decreases n,
{
    if n > 0 {
        lemma_drum_events_len(hits, (n - 1) as nat, offset, node, tempo);
    }
}

pub proof fn lemma_song_count_grow(secs: Seq<SectionView>, k: nat, m: nat)
    requires
        k <= m,
    ensures
        song_count(secs, k) <= song_count(secs, m),
    decreases m - k,
{
    if k < m {
        lemma_song_count_grow(secs, k, (m - 1) as nat);
    }
}

/// How many events a section makes.
fn section_event_count(section: &Section) -> (r: u128)
    ensures
        r == section_count(section@),
        r < 0x10_0000_0000_0000_0000,
{
    let ghost sec = section@;
    let mut c: u128 = 0;
    let mut i: usize = 0;
    while i < section.chords.len()
        invariant
            i <= sec.chords.len(),
            sec == section@,
            c == chord_count(sec.chords, i as nat),
            c <= 4 * i,
        decreases sec.chords.len() - i,
    {
        let notes = section.chords[i].to_midi_notes();
        c = c + notes.len() as u128;
        i = i + 1;
    }
    let mut d: u128 = 0;
    let mut j: usize = 0;
    while j < section.drums.len()
        invariant
            j <= sec.drums.len(),
            sec == section@,
            d == drum_count(sec.drums, j as nat),
            d <= j,
        decreases sec.drums.len() - j,
    {
        match drum_synth_of(section.drums[j]) {
            Some(_) => {
                d = d + 1;
            },
            None => {},
        }
        j = j + 1;
    }
    let b = sounding_count(&section.bass);
    let m = sounding_count(&section.melody);
    c + b + m + d
}

/// How many notes of a track make an event (all but rests).
fn sounding_count(notes: &Vec<Note>) -> (r: u128)
    ensures
        r == note_count(notes@, notes@.len()),
        r <= notes.len(),
{
    let mut c: u128 = 0;
    let mut i: usize = 0;
    while i < notes.len()
        invariant
            i <= notes@.len(),
            c == note_count(notes@, i as nat),
            c <= i,
        decreases notes@.len() - i,
    {
        if notes[i].pitch != 'R' {
            c = c + 1;
        }
        i = i + 1;
    }
    c
}

/// Whether `transpile_nrt` can render this song (see `renderable`).
pub fn can_transpile(song: &Song) -> (r: bool)
    ensures
        r == renderable(song@),
{
    let ghost secs = song@.sections;
    proof {
        lemma_event_counts(secs, secs.len(), song.tempo as nat, song.transpose);
    }
    if song.tempo == 0 {
        return false;
    }
    let mut count: u128 = 0;
    let mut end: u128 = 0;
    let mut k: usize = 0;
    while k < song.sections.len()
        invariant
            k <= secs.len(),
            secs == song@.sections,
            secs.len() == song.sections@.len(),
            song.tempo > 0,
            song_events(secs, secs.len(), song.tempo as nat, song.transpose).len() == song_count(secs, secs.len()),
            count == song_count(secs, k as nat),
            count + 1000 <= u32::MAX,
            end == offset_upto(secs, k as nat),
            end <= u64::MAX,
        decreases secs.len() - k,
    {
        assert(secs[k as int] == song.sections@[k as int]@);
        proof {
            lemma_song_count_grow(secs, (k + 1) as nat, secs.len());
            lemma_offset_grow(secs, (k + 1) as nat, secs.len());
        }
        count = count + section_event_count(&song.sections[k]);
        if count + 1000 > 0xffff_ffff {
            return false;
        }
        end = end + section_duration(&song.sections[k]);
        if end > 0xffff_ffff_ffff_ffff {
            return false;
        }
        k = k + 1;
    }
    true
}

/// Writes the non-real-time render script of a song: the synth definitions, every note
/// of every section as a timed server message (sections one after another, the tracks of
/// a section together, pitches moved by the song's `transpose`, rests silent), and the
/// call that renders the score to `output_wav_path`.
/// Times are exact: seconds are rounded to the printed digits from the exact value.
pub fn transpile_nrt(song: &Song, output_wav_path: &str) -> (r: String)
    requires
        renderable(song@),
    ensures
        r@ == nrt_script(song@, output_wav_path@),
{
    let ghost secs = song@.sections;
    let tempo = song.tempo;
    let mut events = synthdef_events();
    let mut node: u64 = 1000;
    let mut offset: u64 = 0;
    let mut k: usize = 0;
    while k < song.sections.len()
        invariant
            k <= secs.len(),
            secs == song@.sections,
            secs.len() == song.sections@.len(),
            tempo == song.tempo,
            renderable(song@),
            events_view(events@) == synth_def_events() + song_events(secs, k as nat, tempo as nat, song.transpose),
            node == 1000 + song_events(secs, k as nat, tempo as nat, song.transpose).len(),
            offset == offset_upto(secs, k as nat),
        decreases secs.len() - k,
    {
        let ghost prev = song_events(secs, k as nat, tempo as nat, song.transpose);
        proof {
            lemma_song_events_grow(secs, (k + 1) as nat, secs.len(), tempo as nat, song.transpose);
            lemma_offset_grow(secs, (k + 1) as nat, secs.len());
            assert(secs[k as int] == song.sections@[k as int]@);
        }
        collect_section(&mut events, &song.sections[k], offset, tempo, &mut node, song.transpose);
        proof {
            assert(synth_def_events() + prev + section_events(
                secs[k as int],
                offset as nat,
                1000 + prev.len(),
                tempo as nat,
                song.transpose,
            ) == synth_def_events() + (prev + section_events(
                secs[k as int],
                offset as nat,
                1000 + prev.len(),
                tempo as nat,
                song.transpose,
            )));
        }
        let len = section_duration(&song.sections[k]);
        offset = offset + len as u64;
        k = k + 1;
    }
    let mut sorted = sort_events(&events);
    let end_time = time_e4_of(offset, tempo) + 25000;
    let last = Event { ticks: offset, time_e4: end_time, msg: text("[ '/c_set', 0, 0 ]") };
    proof {
        lemma_events_view_push(sorted@, last);
    }
    sorted.push(last);
    let total = round_div_of(offset as u128 * 1000, tempo as u128) + 250;
    render_sc(&sorted, total, output_wav_path)
}

// ---------------------------------------------------------------------------
// Laws.

/// Whether the events are in order of time.
pub open spec fn sorted_by_time(s: Seq<EventView>) -> bool {
    forall|i: int, j: int| 0 <= i < j < s.len() ==> #[trigger] s[i].ticks <= #[trigger] s[j].ticks
}

pub proof fn lemma_insert_point(s: Seq<EventView>, t: nat)
    requires
        sorted_by_time(s),
    ensures
        insert_point(s, t) <= s.len(),
        forall|i: int| 0 <= i < insert_point(s, t) ==> #[trigger] s[i].ticks <= t,
        forall|i: int| insert_point(s, t) <= i < s.len() ==> #[trigger] s[i].ticks > t,
    decreases s.len(),
{
    if s.len() > 0 {
        let d = s.drop_last();
        assert(sorted_by_time(d)) by {
            assert forall|i: int, j: int| 0 <= i < j < d.len() implies #[trigger] d[i].ticks
                <= #[trigger] d[j].ticks by {
                assert(d[i] == s[i] && d[j] == s[j]);
            }
        }
        if s.last().ticks > t {
            lemma_insert_point(d, t);
            assert forall|i: int| insert_point(s, t) <= i < s.len() implies #[trigger] s[i].ticks
                > t by {
                if i < d.len() {
                    assert(d[i] == s[i]);
                }
            }
            assert forall|i: int| 0 <= i < insert_point(s, t) implies #[trigger] s[i].ticks <= t by {
                assert(d[i] == s[i]);
            }
        } else {
            assert forall|i: int| 0 <= i < insert_point(s, t) implies #[trigger] s[i].ticks <= t by {
                if i < s.len() - 1 {
                    assert(s[i].ticks <= s[s.len() - 1].ticks);
                }
            }
        }
    }
}

/// The score's events come in order of time: the stable sort leaves them sorted.
pub proof fn law_sort_orders_by_time(s: Seq<EventView>)
    ensures
        sorted_by_time(sort_by_time(s)),
    decreases s.len(),
{
    if s.len() > 0 {
        let prev = sort_by_time(s.drop_last());
        law_sort_orders_by_time(s.drop_last());
        let e = s.last();
        lemma_insert_point(prev, e.ticks);
        let k = insert_point(prev, e.ticks) as int;
        let r = prev.insert(k, e);
        prev.insert_ensures(k, e);
        assert forall|i: int, j: int| 0 <= i < j < r.len() implies #[trigger] r[i].ticks
            <= #[trigger] r[j].ticks by {
            if j < k {
                assert(r[i] == prev[i] && r[j] == prev[j]);
            } else if j == k {
                assert(r[i] == prev[i]);
            } else if i < k {
                assert(r[i] == prev[i] && r[j] == prev[j - 1]);
            } else if i == k {
                assert(r[j] == prev[j - 1]);
            } else {
                assert(r[i] == prev[i - 1] && r[j] == prev[j - 1]);
            }
        }
    }
}

/// Sorting neither drops nor adds an event: the result holds the same events.
pub proof fn law_sort_keeps_every_event(s: Seq<EventView>)
    ensures
        sort_by_time(s).to_multiset() == s.to_multiset(),
    decreases s.len(),
{
    broadcast use vstd::seq_lib::to_multiset_insert, vstd::seq_lib::to_multiset_build;

    if s.len() > 0 {
        law_sort_keeps_every_event(s.drop_last());
        let prev = sort_by_time(s.drop_last());
        law_sort_orders_by_time(s.drop_last());
        lemma_insert_point(prev, s.last().ticks);
        assert(s.drop_last().push(s.last()) == s);
    }
}

/// The written score is in order of time, the end event last, and it holds each synth
/// definition and each note of the song exactly once.
pub proof fn law_score_is_sorted_and_complete(song: SongView)
    ensures
        sorted_by_time(score_events(song).drop_last()),
        score_events(song).last() == end_event(song),
        score_events(song).drop_last().to_multiset() == (synth_def_events() + song_events(
            song.sections,
            song.sections.len(),
            song.tempo as nat,
            song.transpose,
        )).to_multiset(),
{
    let all = synth_def_events() + song_events(song.sections, song.sections.len(), song.tempo as nat, song.transpose);
    law_sort_orders_by_time(all);
    law_sort_keeps_every_event(all);
    assert(score_events(song).drop_last() == sort_by_time(all));
}

proof fn lemma_chord_span(chords: Seq<Chord>, n: nat, offset: nat, node: nat, tempo: nat, shift: i8)
    ensures
        forall|i: int| 0 <= i < chord_events(chords, n, offset, node, tempo, shift).len() ==> offset
            <= #[trigger] chord_events(chords, n, offset, node, tempo, shift)[i].ticks < offset + 24 * n,
    decreases n,
{
    if n > 0 {
        lemma_chord_span(chords, (n - 1) as nat, offset, node, tempo, shift);
        let prev = chord_events(chords, (n - 1) as nat, offset, node, tempo, shift);
        let all = chord_events(chords, n, offset, node, tempo, shift);
        assert forall|i: int| 0 <= i < all.len() implies offset <= #[trigger] all[i].ticks < offset
            + 24 * n by {
            if i < prev.len() {
                assert(all[i] == prev[i]);
            }
        }
    }
}

proof fn lemma_drum_span(hits: Seq<DrumHit>, n: nat, offset: nat, node: nat, tempo: nat)
    ensures
        forall|i: int| 0 <= i < drum_events(hits, n, offset, node, tempo).len() ==> offset
            <= #[trigger] drum_events(hits, n, offset, node, tempo)[i].ticks < offset + 6 * n,
    decreases n,
{
    if n > 0 {
        lemma_drum_span(hits, (n - 1) as nat, offset, node, tempo);
        let prev = drum_events(hits, (n - 1) as nat, offset, node, tempo);
        let all = drum_events(hits, n, offset, node, tempo);
        assert forall|i: int| 0 <= i < all.len() implies offset <= #[trigger] all[i].ticks < offset
            + 6 * n by {
            if i < prev.len() {
                assert(all[i] == prev[i]);
            }
        }
    }
}

proof fn lemma_note_span(
    notes: Seq<Note>,
    n: nat,
    offset: nat,
    node: nat,
    synth: Seq<char>,
    amp: Seq<char>,
    tempo: nat,
    shift: i8,
)
    requires
        n <= notes.len(),
    ensures
        forall|i: int| 0 <= i < note_events(notes, n, offset, node, synth, amp, tempo, shift).len() ==> offset
            <= #[trigger] note_events(notes, n, offset, node, synth, amp, tempo, shift)[i].ticks < offset
            + notes_sixths(notes.take(n as int)),
    decreases n,
{
    if n > 0 {
        lemma_note_span(notes, (n - 1) as nat, offset, node, synth, amp, tempo, shift);
        lemma_notes_sixths_step(notes, n - 1);
        let prev = note_events(notes, (n - 1) as nat, offset, node, synth, amp, tempo, shift);
        let all = note_events(notes, n, offset, node, synth, amp, tempo, shift);
        assert forall|i: int| 0 <= i < all.len() implies offset <= #[trigger] all[i].ticks < offset
            + notes_sixths(notes.take(n as int)) by {
            if i < prev.len() {
                assert(all[i] == prev[i]);
            }
        }
    }
}

/// Every event of a section sounds within the section: at or after its start and
/// before its end, the end being where its longest track ends.
pub proof fn law_section_events_within_section(sec: SectionView, offset: nat, node: nat, tempo: nat, shift: i8)
    ensures
        forall|i: int| 0 <= i < section_events(sec, offset, node, tempo, shift).len() ==> offset
            <= #[trigger] section_events(sec, offset, node, tempo, shift)[i].ticks < offset
            + section_sixths(sec),
{
    let c = chord_events(sec.chords, sec.chords.len(), offset, node, tempo, shift);
    let b = note_events(sec.bass, sec.bass.len(), offset, node + c.len(), "sonaraBass"@, "0.35"@, tempo, shift);
    let m = note_events(sec.melody, sec.melody.len(), offset, node + c.len() + b.len(), "sonaraMelody"@, "0.4"@, tempo, shift);
    let d = drum_events(sec.drums, sec.drums.len(), offset, node + c.len() + b.len() + m.len(), tempo);
    lemma_chord_span(sec.chords, sec.chords.len(), offset, node, tempo, shift);
    lemma_note_span(sec.bass, sec.bass.len(), offset, node + c.len(), "sonaraBass"@, "0.35"@, tempo, shift);
    lemma_note_span(sec.melody, sec.melody.len(), offset, node + c.len() + b.len(), "sonaraMelody"@, "0.4"@, tempo, shift);
    assert(sec.bass.take(sec.bass.len() as int) == sec.bass);
    assert(sec.melody.take(sec.melody.len() as int) == sec.melody);
    lemma_drum_span(sec.drums, sec.drums.len(), offset, node + c.len() + b.len() + m.len(), tempo);
    let all = section_events(sec, offset, node, tempo, shift);
    assert(all == c + b + m + d);
    assert forall|i: int| 0 <= i < all.len() implies offset <= #[trigger] all[i].ticks < offset
        + section_sixths(sec) by {
        if i < c.len() {
            assert(all[i] == c[i]);
        } else if i < c.len() + b.len() {
            assert(all[i] == b[i - c.len()]);
        } else if i < c.len() + b.len() + m.len() {
            assert(all[i] == m[i - c.len() - b.len()]);
        } else {
            assert(all[i] == d[i - c.len() - b.len() - m.len()]);
        }
    }
}

/// Sections play one after another: the events that section `k` adds all fall between
/// where it starts and where section `k + 1` starts.
pub proof fn law_sections_play_in_order(secs: Seq<SectionView>, k: nat, tempo: nat, shift: i8)
    requires
        k < secs.len(),
    ensures
        forall|j: int|
            song_events(secs, k, tempo, shift).len() <= j < song_events(secs, k + 1, tempo, shift).len()
                ==> offset_upto(secs, k) <= #[trigger] song_events(secs, k + 1, tempo, shift)[j].ticks
                < offset_upto(secs, k + 1),
        offset_upto(secs, k + 1) == offset_upto(secs, k) + section_sixths(secs[k as int]),
{
    let prev = song_events(secs, k, tempo, shift);
    let sec = secs[k as int];
    let ev = section_events(sec, offset_upto(secs, k), 1000 + prev.len(), tempo, shift);
    law_section_events_within_section(sec, offset_upto(secs, k), 1000 + prev.len(), tempo, shift);
    assert(song_events(secs, k + 1, tempo, shift) == prev + ev);
    assert forall|j: int|
        prev.len() <= j < song_events(secs, k + 1, tempo, shift).len() implies offset_upto(secs, k)
        <= #[trigger] song_events(secs, k + 1, tempo, shift)[j].ticks < offset_upto(secs, k + 1) by {
        assert(song_events(secs, k + 1, tempo, shift)[j] == ev[j - prev.len()]);
    }
}

/// The tracks of a section start together: its first chord, and the first bass and
/// melody notes unless they are rests, all sound at the section's start.
pub proof fn law_tracks_start_together(sec: SectionView, offset: nat, node: nat, tempo: nat, shift: i8)
    ensures
        sec.chords.len() > 0 ==> chord_events(sec.chords, sec.chords.len(), offset, node, tempo, shift)[0].ticks
            == offset,
        sec.bass.len() > 0 && !is_rest(sec.bass[0]) ==> note_events(
            sec.bass,
            sec.bass.len(),
            offset,
            node,
            "sonaraBass"@,
            "0.35"@,
            tempo,
            shift,
        )[0].ticks == offset,
        sec.melody.len() > 0 && !is_rest(sec.melody[0]) ==> note_events(
            sec.melody,
            sec.melody.len(),
            offset,
            node,
            "sonaraMelody"@,
            "0.4"@,
            tempo,
            shift,
        )[0].ticks == offset,
{
    if sec.chords.len() > 0 {
        lemma_chord_first(sec.chords, sec.chords.len(), offset, node, tempo, shift);
    }
    if sec.bass.len() > 0 && !is_rest(sec.bass[0]) {
        lemma_note_first(sec.bass, sec.bass.len(), offset, node, "sonaraBass"@, "0.35"@, tempo, shift);
    }
    if sec.melody.len() > 0 && !is_rest(sec.melody[0]) {
        lemma_note_first(sec.melody, sec.melody.len(), offset, node, "sonaraMelody"@, "0.4"@, tempo, shift);
    }
}

proof fn lemma_note_first(
    notes: Seq<Note>,
    n: nat,
    offset: nat,
    node: nat,
    synth: Seq<char>,
    amp: Seq<char>,
    tempo: nat,
    shift: i8,
)
    requires
        0 < n <= notes.len(),
        !is_rest(notes[0]),
    ensures
        note_events(notes, n, offset, node, synth, amp, tempo, shift).len() > 0,
        note_events(notes, n, offset, node, synth, amp, tempo, shift)[0].ticks == offset,
    decreases n,
{
    if n > 1 {
        lemma_note_first(notes, (n - 1) as nat, offset, node, synth, amp, tempo, shift);
    } else {
        assert(notes.take(0) == Seq::<Note>::empty());
        assert(note_events(notes, 0, offset, node, synth, amp, tempo, shift).len() == 0);
    }
}

proof fn lemma_chord_first(chords: Seq<Chord>, n: nat, offset: nat, node: nat, tempo: nat, shift: i8)
    requires
        n > 0,
    ensures
        chord_events(chords, n, offset, node, tempo, shift).len() > 0,
        chord_events(chords, n, offset, node, tempo, shift)[0].ticks == offset,
    decreases n,
{
    if n > 1 {
        lemma_chord_first(chords, (n - 1) as nat, offset, node, tempo, shift);
    } else {
        let b = chord_block(chords[0], offset, node, tempo, shift);
        assert(chord_events(chords, 0, offset, node, tempo, shift).len() == 0);
        assert(chord_events(chords, n, offset, node, tempo, shift) == Seq::<EventView>::empty() + b);
        assert(b[0].ticks == offset);
    }
}

/// Whether an event happens at time `t`.
pub open spec fn at_time(t: nat) -> spec_fn(EventView) -> bool {
    |e: EventView| e.ticks == t
}

proof fn lemma_filter_none(s: Seq<EventView>, t: nat)
    requires
        forall|i: int| 0 <= i < s.len() ==> #[trigger] s[i].ticks != t,
    ensures
        s.filter(at_time(t)) == Seq::<EventView>::empty(),
    decreases s.len(),
{
    reveal(Seq::filter);
    if s.len() > 0 {
        lemma_filter_none(s.drop_last(), t);
    }
}

/// The sort is stable: the events at any one time come out in the order they went in.
pub proof fn law_sort_is_stable(s: Seq<EventView>, t: nat)
    ensures
        sort_by_time(s).filter(at_time(t)) == s.filter(at_time(t)),
    decreases s.len(),
{
    reveal(Seq::filter);
    if s.len() > 0 {
        let prev = sort_by_time(s.drop_last());
        let e = s.last();
        law_sort_is_stable(s.drop_last(), t);
        law_sort_orders_by_time(s.drop_last());
        lemma_insert_point(prev, e.ticks);
        let k = insert_point(prev, e.ticks) as int;
        let a = prev.subrange(0, k);
        let b = prev.subrange(k, prev.len() as int);
        assert(prev == a + b);
        assert(prev.insert(k, e) == a.push(e) + b);
        Seq::filter_distributes_over_add(a, b, at_time(t));
        Seq::filter_distributes_over_add(a.push(e), b, at_time(t));
        assert(a.push(e).drop_last() == a);
        assert(s.drop_last().push(e) == s);
        assert(s.drop_last().push(e).drop_last() == s.drop_last());
        if e.ticks == t {
            lemma_filter_none(b, t);
            assert(a.filter(at_time(t)) + Seq::<EventView>::empty() == a.filter(at_time(t)));
            assert(a.push(e).filter(at_time(t)) + Seq::<EventView>::empty() == a.push(e).filter(
                at_time(t),
            ));
        }
    }
}

/// A section ends where its longest track ends, chords or no chords: it lasts at
/// least four beats per chord, as long as its bass notes and its melody notes put end
/// to end, and one beat per drum hit, and no longer than the longest of these.
pub proof fn law_section_lasts_its_longest_track(sec: SectionView)
    ensures
        section_sixths(sec) >= 24 * sec.chords.len(),
        section_sixths(sec) >= notes_sixths(sec.melody),
        section_sixths(sec) >= notes_sixths(sec.bass),
        section_sixths(sec) >= 6 * sec.drums.len(),
        section_sixths(sec) == 24 * sec.chords.len() || section_sixths(sec) == notes_sixths(
            sec.melody,
        ) || section_sixths(sec) == notes_sixths(sec.bass) || section_sixths(sec) == 6
            * sec.drums.len(),
{
}

/// Note lengths against the beat: a whole note lasts four quarters, a half two, a
/// quarter one beat (six sixths), an eighth half a quarter and a triplet eighth a third.
pub proof fn law_note_lengths()
    ensures
        duration_sixths(NoteDuration::Quarter) == 6,
        duration_sixths(NoteDuration::Whole) == 4 * duration_sixths(NoteDuration::Quarter),
        duration_sixths(NoteDuration::Half) == 2 * duration_sixths(NoteDuration::Quarter),
        2 * duration_sixths(NoteDuration::Eighth) == duration_sixths(NoteDuration::Quarter),
        3 * duration_sixths(NoteDuration::TripletEighth) == duration_sixths(NoteDuration::Quarter),
{
}

/// The notes of a track follow one another: the length of a run of notes is the sum
/// of their lengths, so a note added at the end adds exactly its own length.
pub proof fn law_note_runs_add_up(ns: Seq<Note>, n: Note)
    ensures
        notes_sixths(Seq::<Note>::empty()) == 0,
        notes_sixths(ns.push(n)) == notes_sixths(ns) + duration_sixths(n.duration),
        notes_sixths(seq![n] + ns) == duration_sixths(n.duration) + notes_sixths(ns),
    decreases ns.len(),
{
    assert(ns.push(n).drop_last() == ns);
    if ns.len() > 0 {
        law_note_runs_add_up(ns.drop_last(), n);
        let whole = seq![n] + ns;
        assert(whole.drop_last() == seq![n] + ns.drop_last());
        assert(whole.last() == ns.last());
        assert(notes_sixths(whole) == notes_sixths(whole.drop_last()) + duration_sixths(
            whole.last().duration,
        ));
    } else {
        assert(seq![n] + ns == seq![n]);
        assert(seq![n].drop_last() == Seq::<Note>::empty());
        assert(seq![n].last() == n);
        assert(notes_sixths(seq![n]) == notes_sixths(Seq::<Note>::empty()) + duration_sixths(n.duration));
        assert(notes_sixths(ns) == 0);
    }
}

} // verus!
