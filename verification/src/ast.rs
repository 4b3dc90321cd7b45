use vstd::prelude::*;

verus! {

/// A whole song: global settings and the sections that play one after another.
#[derive(Debug, Clone)]
pub struct Song {
    pub tempo: u32,
    pub scale: String,
    pub transpose: i8,
    pub sections: Vec<Section>,
}

/// One section: the four tracks that play together.
#[derive(Debug, Clone)]
pub struct Section {
    pub name: String,
    pub chords: Vec<Chord>,
    pub bass: Vec<Note>,
    pub melody: Vec<Note>,
    pub drums: Vec<DrumHit>,
}

#[derive(Debug, Clone, Copy, PartialEq, Eq, Structural)]
pub struct Chord {
    pub root: char,
    pub accidental: Accidental,
    pub quality: ChordQuality,
}

#[derive(Debug, Clone, Copy, PartialEq, Eq, Structural)]
pub enum Accidental {
    Natural,
    Sharp,
    Flat,
}

#[derive(Debug, Clone, Copy, PartialEq, Eq, Structural)]
pub enum ChordQuality {
    Major,
    Minor,
    Dominant7,
    Major7,
    Minor7,
}

/// A note of a bass or melody track; pitch `R` stands for a rest of the given length.
#[derive(Debug, Clone, Copy, PartialEq, Eq, Structural)]
pub struct Note {
    pub pitch: char,
    pub accidental: Accidental,
    pub octave: u8,
    pub duration: NoteDuration,
    pub velocity: Option<u8>,
}

#[derive(Debug, Clone, Copy, PartialEq, Eq, Structural)]
pub enum NoteDuration {
    Whole,
    Half,
    Quarter,
    Eighth,
    TripletEighth,
}

#[derive(Debug, Clone, Copy, PartialEq, Eq, Structural)]
pub enum DrumHit {
    Kick,
    Snare,
    HiHat,
    Rest,
}

/// The mathematical value of a section: its name as characters and its tracks.
pub struct SectionView {
    pub name: Seq<char>,
    pub chords: Seq<Chord>,
    pub bass: Seq<Note>,
    pub melody: Seq<Note>,
    pub drums: Seq<DrumHit>,
}

/// The mathematical value of a song.
pub struct SongView {
    pub tempo: u32,
    pub scale: Seq<char>,
    pub transpose: i8,
    pub sections: Seq<SectionView>,
}

impl View for Section {
    type V = SectionView;

    open spec fn view(&self) -> SectionView {
        SectionView {
            name: self.name@,
            chords: self.chords@,
            bass: self.bass@,
            melody: self.melody@,
            drums: self.drums@,
        }
    }
}

/// The values of a sequence of sections.
pub open spec fn sections_view(v: Seq<Section>) -> Seq<SectionView> {
    v.map_values(|s: Section| s@)
}

impl View for Song {
    type V = SongView;

    open spec fn view(&self) -> SongView {
        SongView {
            tempo: self.tempo,
            scale: self.scale@,
            transpose: self.transpose,
            sections: sections_view(self.sections@),
        }
    }
}

/// Semitones above C of a note letter; any other letter counts as C.
pub open spec fn pitch_class(c: char) -> int {
    if c == 'C' {
        0
    } else if c == 'D' {
        2
    } else if c == 'E' {
        4
    } else if c == 'F' {
        5
    } else if c == 'G' {
        7
    } else if c == 'A' {
        9
    } else if c == 'B' {
        11
    } else {
        0
    }
}

/// Semitone shift of an accidental.
pub open spec fn accidental_shift(a: Accidental) -> int {
    match a {
        Accidental::Sharp => 1,
        Accidental::Flat => -1,
        Accidental::Natural => 0,
    }
}

/// MIDI number of a note (C4 = 60), reduced modulo 256 to fit a byte.
pub open spec fn note_midi(n: Note) -> int {
    (12 * (n.octave + 1) + pitch_class(n.pitch) + accidental_shift(n.accidental)) % 256
}

/// MIDI number of a chord's root, in octave 3 (C3 = 48).
pub open spec fn chord_root_midi(c: Chord) -> int {
    48 + pitch_class(c.root) + accidental_shift(c.accidental)
}

/// Semitone intervals above the root that a chord quality stacks.
pub open spec fn quality_intervals(q: ChordQuality) -> Seq<int> {
    match q {
        ChordQuality::Major => seq![0int, 4, 7],
        ChordQuality::Minor => seq![0int, 3, 7],
        ChordQuality::Dominant7 => seq![0int, 4, 7, 10],
        ChordQuality::Major7 => seq![0int, 4, 7, 11],
        ChordQuality::Minor7 => seq![0int, 3, 7, 10],
    }
}

/// The MIDI notes of a chord, root first.
pub open spec fn chord_midi(c: Chord) -> Seq<int> {
    quality_intervals(c.quality).map_values(|i: int| chord_root_midi(c) + i)
}

fn pitch_class_of(c: char) -> (r: u32)
    ensures
        r == pitch_class(c),
{
    if c == 'C' {
        0
    } else if c == 'D' {
        2
    } else if c == 'E' {
        4
    } else if c == 'F' {
        5
    } else if c == 'G' {
        7
    } else if c == 'A' {
        9
    } else if c == 'B' {
        11
    } else {
        0
    }
}

impl Note {
    /// MIDI number of the note; the octave is counted from -1 as in MIDI, so C4 is 60.
    pub fn to_midi(&self) -> (r: u8)
        ensures
            r == note_midi(*self),
    {
        let base: u32 = 12 * (self.octave as u32 + 1) + pitch_class_of(self.pitch);
        let shifted: u32 = match self.accidental {
            Accidental::Sharp => base + 1,
            Accidental::Flat => base - 1,
            Accidental::Natural => base,
        };
        (shifted % 256) as u8
    }
}

impl Chord {
    /// The chord's notes in octave 3, root first, then its third, fifth and seventh if any.
    pub fn to_midi_notes(&self) -> (r: Vec<u8>)
        ensures
            r@.len() == chord_midi(*self).len(),
            forall|i: int| 0 <= i < r@.len() ==> r@[i] == chord_midi(*self)[i],
    {
        let base: u32 = 48 + pitch_class_of(self.root);
        let root: u32 = match self.accidental {
            Accidental::Sharp => base + 1,
            Accidental::Flat => base - 1,
            Accidental::Natural => base,
        };
        let r = match self.quality {
            ChordQuality::Major => vec![root as u8, (root + 4) as u8, (root + 7) as u8],
            ChordQuality::Minor => vec![root as u8, (root + 3) as u8, (root + 7) as u8],
            ChordQuality::Dominant7 => vec![
                root as u8,
                (root + 4) as u8,
                (root + 7) as u8,
                (root + 10) as u8,
            ],
            ChordQuality::Major7 => vec![
                root as u8,
                (root + 4) as u8,
                (root + 7) as u8,
                (root + 11) as u8,
            ],
            ChordQuality::Minor7 => vec![
                root as u8,
                (root + 3) as u8,
                (root + 7) as u8,
                (root + 10) as u8,
            ],
        };
        r
    }
}

/// A sharp sounds one semitone above the natural note (modulo the byte range).
pub proof fn law_sharp_raises_by_one(n: Note)
    requires
        n.accidental == Accidental::Natural,
    ensures
        note_midi(Note { accidental: Accidental::Sharp, ..n }) == (note_midi(n) + 1) % 256,
{
    let x: int = 12 * (n.octave + 1) + pitch_class(n.pitch);
    assert((x + 1) % 256 == (x % 256 + 1) % 256) by (nonlinear_arith);
}

/// A flat sounds one semitone below the natural note (modulo the byte range).
pub proof fn law_flat_lowers_by_one(n: Note)
    requires
        n.accidental == Accidental::Natural,
    ensures
        note_midi(Note { accidental: Accidental::Flat, ..n }) == (note_midi(n) + 255) % 256,
{
    let x: int = 12 * (n.octave + 1) + pitch_class(n.pitch);
    assert(x >= 12);
    assert((x - 1) % 256 == (x % 256 + 255) % 256) by (nonlinear_arith)
        requires
            x >= 12,
    ;
}

/// One octave up is twelve semitones up (modulo the byte range).
pub proof fn law_octave_is_twelve_semitones(n: Note)
    requires
        n.octave < 255,
    ensures
        note_midi(Note { octave: (n.octave + 1) as u8, ..n }) == (note_midi(n) + 12) % 256,
{
    let x: int = 12 * (n.octave + 1) + pitch_class(n.pitch) + accidental_shift(n.accidental);
    let y: int = 12 * ((n.octave + 1) as u8 + 1) + pitch_class(n.pitch) + accidental_shift(
        n.accidental,
    );
    assert(y == x + 12);
    assert((x + 12) % 256 == (x % 256 + 12) % 256) by (nonlinear_arith);
}

/// A chord's root is the note of the same name in octave 3.
pub proof fn law_chord_root_in_octave_three(c: Chord, n: Note)
    requires
        n.pitch == c.root,
        n.accidental == c.accidental,
        n.octave == 3,
    ensures
        chord_midi(c)[0] == note_midi(n),
        chord_midi(c)[0] == chord_root_midi(c),
{
}

/// Every chord holds a root, a third three or four semitones up and a perfect fifth.
pub proof fn law_chord_triad(c: Chord)
    ensures
        chord_midi(c).len() >= 3,
        chord_midi(c)[1] - chord_midi(c)[0] == 3 || chord_midi(c)[1] - chord_midi(c)[0] == 4,
        chord_midi(c)[2] - chord_midi(c)[0] == 7,
        chord_midi(c).len() == 4 ==> chord_midi(c)[3] - chord_midi(c)[0] == 10 || chord_midi(c)[3]
            - chord_midi(c)[0] == 11,
{
}

/// The notes of a chord by its quality, above its root: a major third (4 semitones)
/// for major, dominant seventh and major seventh chords, a minor third (3) for minor
/// and minor seventh chords; always a perfect fifth (7); then a minor seventh (10) for
/// dominant and minor seventh chords, a major seventh (11) for major seventh chords.
/// Triads have three notes, seventh chords four.
pub proof fn law_chord_intervals(c: Chord)
    ensures
        chord_midi(c)[0] == chord_root_midi(c),
        chord_midi(c)[1] - chord_midi(c)[0] == (if c.quality == ChordQuality::Minor || c.quality
            == ChordQuality::Minor7 {
            3int
        } else {
            4int
        }),
        chord_midi(c)[2] - chord_midi(c)[0] == 7,
        c.quality == ChordQuality::Major || c.quality == ChordQuality::Minor ==> chord_midi(c).len()
            == 3,
        c.quality == ChordQuality::Dominant7 || c.quality == ChordQuality::Minor7 ==> chord_midi(
            c,
        ).len() == 4 && chord_midi(c)[3] - chord_midi(c)[0] == 10,
        c.quality == ChordQuality::Major7 ==> chord_midi(c).len() == 4 && chord_midi(c)[3]
            - chord_midi(c)[0] == 11,
{
}

/// A seventh chord is its triad with a seventh on top: a dominant or major seventh
/// chord begins with the major triad on its root, a minor seventh chord with the
/// minor triad.
pub proof fn law_sevenths_extend_triads(c: Chord)
    ensures
        c.quality == ChordQuality::Dominant7 || c.quality == ChordQuality::Major7 ==> chord_midi(
            c,
        ).take(3) == chord_midi(Chord { quality: ChordQuality::Major, ..c }),
        c.quality == ChordQuality::Minor7 ==> chord_midi(c).take(3) == chord_midi(
            Chord { quality: ChordQuality::Minor, ..c },
        ),
{
    let major = Chord { quality: ChordQuality::Major, ..c };
    let minor = Chord { quality: ChordQuality::Minor, ..c };
    law_chord_intervals(c);
    law_chord_intervals(major);
    law_chord_intervals(minor);
    assert(chord_root_midi(major) == chord_root_midi(c));
    if c.quality == ChordQuality::Dominant7 || c.quality == ChordQuality::Major7 {
        assert(chord_midi(c).take(3) =~= chord_midi(major));
    }
    if c.quality == ChordQuality::Minor7 {
        assert(chord_midi(c).take(3) =~= chord_midi(minor));
    }
}

} // verus!
