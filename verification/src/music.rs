//! Musical pitch: scales, keys, and the choice of the nearest note of a key.
use crate::calc::{Calc, Op, Width};
use crate::num::{single, F32};
use crate::text;
use vstd::prelude::*;

verus! {

/// Frequency (Hz) -> MIDI note number (fractional).
#[verifier::allow_in_spec]
pub fn hz_to_midi<K: Fn(Op, Width, u64, u64) -> u64>(c: &Calc<K>, hz: F32) -> F32
    requires
        c.sound(),
    returns
        (single(0x428a_0000).add(c, single(0x4140_0000).mul(c, hz.div(c, single(0x43dc_0000)).log2(c)))),
{
    single(0x428a_0000).add(c, single(0x4140_0000).mul(c, hz.div(c, single(0x43dc_0000)).log2(c)))
}

/// MIDI note number (fractional) -> frequency (Hz).
#[verifier::allow_in_spec]
pub fn midi_to_hz<K: Fn(Op, Width, u64, u64) -> u64>(c: &Calc<K>, midi: F32) -> F32
    requires
        c.sound(),
    returns
        (single(0x43dc_0000).mul(c, single(0x4000_0000).pow(c, midi.sub(c, single(0x428a_0000)).div(c, single(0x4140_0000))))),
{
    single(0x43dc_0000).mul(c, single(0x4000_0000).pow(c, midi.sub(c, single(0x428a_0000)).div(c, single(0x4140_0000))))
}

/// Semitone offset -> playback ratio.
#[verifier::allow_in_spec]
pub fn semitones_to_ratio<K: Fn(Op, Width, u64, u64) -> u64>(c: &Calc<K>, st: F32) -> F32
    requires
        c.sound(),
    returns
        (single(0x4000_0000).pow(c, st.div(c, single(0x4140_0000)))),
{
    single(0x4000_0000).pow(c, st.div(c, single(0x4140_0000)))
}

/// Playback ratio -> semitone offset.
#[verifier::allow_in_spec]
pub fn ratio_to_semitones<K: Fn(Op, Width, u64, u64) -> u64>(c: &Calc<K>, ratio: F32) -> F32
    requires
        c.sound(),
    returns
        (single(0x4140_0000).mul(c, ratio.max(single(0x3586_37bd)).log2(c))),
{
    single(0x4140_0000).mul(c, ratio.max(single(0x3586_37bd)).log2(c))
}

#[derive(Clone, Copy, Debug, PartialEq, Eq, Structural)]
pub enum ScaleKind {
    Chromatic,
    Major,
    Minor,
    HarmonicMinor,
    MajorPentatonic,
    MinorPentatonic,
    Blues,
    Dorian,
    Phrygian,
    Lydian,
    Mixolydian,
    WholeTone,
}

/// The scale a squashed name stands for.
pub open spec fn scale_named(n: Seq<char>) -> Option<ScaleKind> {
    if n == "chromatic"@ {
        Some(ScaleKind::Chromatic)
    } else if n == "major"@ || n == "ionian"@ {
        Some(ScaleKind::Major)
    } else if n == "minor"@ || n == "aeolian"@ || n == "naturalminor"@ {
        Some(ScaleKind::Minor)
    } else if n == "harmonicminor"@ {
        Some(ScaleKind::HarmonicMinor)
    } else if n == "majorpentatonic"@ || n == "pentatonic"@ {
        Some(ScaleKind::MajorPentatonic)
    } else if n == "minorpentatonic"@ {
        Some(ScaleKind::MinorPentatonic)
    } else if n == "blues"@ {
        Some(ScaleKind::Blues)
    } else if n == "dorian"@ {
        Some(ScaleKind::Dorian)
    } else if n == "phrygian"@ {
        Some(ScaleKind::Phrygian)
    } else if n == "lydian"@ {
        Some(ScaleKind::Lydian)
    } else if n == "mixolydian"@ {
        Some(ScaleKind::Mixolydian)
    } else if n == "wholetone"@ {
        Some(ScaleKind::WholeTone)
    } else {
        None
    }
}

impl ScaleKind {
    /// The scale's notes as semitones above its root.
    pub open spec fn steps(self) -> Seq<i32> {
        match self {
            ScaleKind::Chromatic => seq![0, 1, 2, 3, 4, 5, 6, 7, 8, 9, 10, 11],
            ScaleKind::Major => seq![0, 2, 4, 5, 7, 9, 11],
            ScaleKind::Minor => seq![0, 2, 3, 5, 7, 8, 10],
            ScaleKind::HarmonicMinor => seq![0, 2, 3, 5, 7, 8, 11],
            ScaleKind::MajorPentatonic => seq![0, 2, 4, 7, 9],
            ScaleKind::MinorPentatonic => seq![0, 3, 5, 7, 10],
            ScaleKind::Blues => seq![0, 3, 5, 6, 7, 10],
            ScaleKind::Dorian => seq![0, 2, 3, 5, 7, 9, 10],
            ScaleKind::Phrygian => seq![0, 1, 3, 5, 7, 8, 10],
            ScaleKind::Lydian => seq![0, 2, 4, 6, 7, 9, 11],
            ScaleKind::Mixolydian => seq![0, 2, 4, 5, 7, 9, 10],
            ScaleKind::WholeTone => seq![0, 2, 4, 6, 8, 10],
        }
    }

    pub fn intervals(self) -> (r: Vec<i32>)
        ensures
            r@ == self.steps(),
    {
        match self {
            ScaleKind::Chromatic => vec![0, 1, 2, 3, 4, 5, 6, 7, 8, 9, 10, 11],
            ScaleKind::Major => vec![0, 2, 4, 5, 7, 9, 11],
            ScaleKind::Minor => vec![0, 2, 3, 5, 7, 8, 10],
            ScaleKind::HarmonicMinor => vec![0, 2, 3, 5, 7, 8, 11],
            ScaleKind::MajorPentatonic => vec![0, 2, 4, 7, 9],
            ScaleKind::MinorPentatonic => vec![0, 3, 5, 7, 10],
            ScaleKind::Blues => vec![0, 3, 5, 6, 7, 10],
            ScaleKind::Dorian => vec![0, 2, 3, 5, 7, 9, 10],
            ScaleKind::Phrygian => vec![0, 1, 3, 5, 7, 8, 10],
            ScaleKind::Lydian => vec![0, 2, 4, 6, 7, 9, 11],
            ScaleKind::Mixolydian => vec![0, 2, 4, 5, 7, 9, 10],
            ScaleKind::WholeTone => vec![0, 2, 4, 6, 8, 10],
        }
    }

    /// The scale of that name; case, blanks, hyphens and underscores do not matter.
    pub fn parse(name: &str) -> (r: Option<ScaleKind>)
        ensures
            r == scale_named(text::squashed(name@)),
    {
        let n: Vec<char> = text::squash(name);
        if text::spells(&n, "chromatic") {
            Some(ScaleKind::Chromatic)
        } else if text::spells(&n, "major") || text::spells(&n, "ionian") {
            Some(ScaleKind::Major)
        } else if text::spells(&n, "minor") || text::spells(&n, "aeolian") || text::spells(
            &n,
            "naturalminor",
        ) {
            Some(ScaleKind::Minor)
        } else if text::spells(&n, "harmonicminor") {
            Some(ScaleKind::HarmonicMinor)
        } else if text::spells(&n, "majorpentatonic") || text::spells(&n, "pentatonic") {
            Some(ScaleKind::MajorPentatonic)
        } else if text::spells(&n, "minorpentatonic") {
            Some(ScaleKind::MinorPentatonic)
        } else if text::spells(&n, "blues") {
            Some(ScaleKind::Blues)
        } else if text::spells(&n, "dorian") {
            Some(ScaleKind::Dorian)
        } else if text::spells(&n, "phrygian") {
            Some(ScaleKind::Phrygian)
        } else if text::spells(&n, "lydian") {
            Some(ScaleKind::Lydian)
        } else if text::spells(&n, "mixolydian") {
            Some(ScaleKind::Mixolydian)
        } else if text::spells(&n, "wholetone") {
            Some(ScaleKind::WholeTone)
        } else {
            None
        }
    }
}

/// The pitch class a note letter names.
pub open spec fn letter_class(c: char) -> Option<int> {
    if c == 'C' || c == 'c' {
        Some(0)
    } else if c == 'D' || c == 'd' {
        Some(2)
    } else if c == 'E' || c == 'e' {
        Some(4)
    } else if c == 'F' || c == 'f' {
        Some(5)
    } else if c == 'G' || c == 'g' {
        Some(7)
    } else if c == 'A' || c == 'a' {
        Some(9)
    } else if c == 'B' || c == 'b' {
        Some(11)
    } else {
        None
    }
}

/// Semitones that one accidental adds.
pub open spec fn accidental(c: char) -> Option<int> {
    if c == '#' || c == 's' {
        Some(1)
    } else if c == 'b' || c == '\u{266d}' {
        Some(-1)
    } else {
        None
    }
}

/// Semitones that a run of accidentals adds.
pub open spec fn accidentals(s: Seq<char>) -> Option<int>
    decreases s.len(),
{
    if s.len() == 0 {
        Some(0)
    } else {
        match (accidentals(s.drop_last()), accidental(s.last())) {
            (Some(n), Some(a)) => Some(n + a),
            _ => None,
        }
    }
}

/// The pitch class of a trimmed note name: a letter, then accidentals.
pub open spec fn note_class(t: Seq<char>) -> Option<int> {
    if t.len() == 0 {
        None
    } else {
        match (letter_class(t[0]), accidentals(t.skip(1))) {
            (Some(base), Some(acc)) => Some((base + acc) % 12),
            _ => None,
        }
    }
}

proof fn lemma_accidentals_stay_wrong(s: Seq<char>, i: int)
    requires
        0 <= i < s.len(),
        accidental(s[i]) is None,
    ensures
        accidentals(s) is None,
    decreases s.len(),
{
    if i < s.len() - 1 {
        lemma_accidentals_stay_wrong(s.drop_last(), i);
    }
}

/// Parse a note name like "C", "F#", "Bb" to a pitch class (0 = C).
pub fn parse_pitch_class(name: &str) -> (r: Option<i32>)
    ensures
        r is Some <==> note_class(text::trimmed(name@)) is Some,
        r is Some ==> r->0 == note_class(text::trimmed(name@))->0,
{
    let all: Vec<char> = text::chars_of(name);
    let t: Vec<char> = text::trim(&all);
    if t.len() == 0 {
        return None;
    }
    let c: char = t[0];
    let base: i32 = if c == 'C' || c == 'c' {
        0
    } else if c == 'D' || c == 'd' {
        2
    } else if c == 'E' || c == 'e' {
        4
    } else if c == 'F' || c == 'f' {
        5
    } else if c == 'G' || c == 'g' {
        7
    } else if c == 'A' || c == 'a' {
        9
    } else if c == 'B' || c == 'b' {
        11
    } else {
        return None;
    };
    let ghost tail = t@.skip(1);
    let mut pc: i32 = base;
    let mut i: usize = 1;
    while i < t.len()
        invariant
            1 <= i <= t.len(),
            tail == t@.skip(1),
            t@ == text::trimmed(name@),
            letter_class(t@[0]) == Some(base as int),
            0 <= base < 12,
            0 <= pc < 12,
            accidentals(tail.take(i - 1)) is Some,
            pc == (base + accidentals(tail.take(i - 1))->0) % 12,
        decreases t.len() - i,
    {
        let a: char = t[i];
        proof {
            assert(tail.take(i as int).drop_last() =~= tail.take(i - 1));
            assert(tail[i - 1] == a);
        }
        if a == '#' || a == 's' {
            pc = if pc == 11 { 0 } else { pc + 1 };
        } else if a == 'b' || a == '\u{266d}' {
            pc = if pc == 0 { 11 } else { pc - 1 };
        } else {
            proof {
                lemma_accidentals_stay_wrong(tail, i - 1);
            }
            return None;
        }
        i += 1;
    }
    assert(tail.take(i - 1) =~= tail);
    Some(pc)
}

/// The name of a pitch class.
pub open spec fn class_name(pc: int) -> Seq<char> {
    if pc == 0 {
        "C"@
    } else if pc == 1 {
        "C#"@
    } else if pc == 2 {
        "D"@
    } else if pc == 3 {
        "D#"@
    } else if pc == 4 {
        "E"@
    } else if pc == 5 {
        "F"@
    } else if pc == 6 {
        "F#"@
    } else if pc == 7 {
        "G"@
    } else if pc == 8 {
        "G#"@
    } else if pc == 9 {
        "A"@
    } else if pc == 10 {
        "A#"@
    } else {
        "B"@
    }
}

/// The name of pitch class `pc`, with sharps.
pub fn pitch_class_name(pc: usize) -> (r: &'static str)
    requires
        pc < 12,
    ensures
        r@ == class_name(pc as int),
{
    match pc {
        0 => "C",
        1 => "C#",
        2 => "D",
        3 => "D#",
        4 => "E",
        5 => "F",
        6 => "F#",
        7 => "G",
        8 => "G#",
        9 => "A",
        10 => "A#",
        _ => "B",
    }
}

/// Positive infinity.
pub const INFINITY: u32 = 0x7f80_0000;

/// The octave that a MIDI note lies in.
#[verifier::allow_in_spec]
pub fn octave_of<K: Fn(Op, Width, u64, u64) -> u64>(c: &Calc<K>, midi: F32) -> i32
    requires
        c.sound(),
    returns
        (midi.div(c, single(0x4140_0000)).floor(c).to_i32(c)),
{
    midi.div(c, single(0x4140_0000)).floor(c).to_i32(c)
}

/// A musical key: root pitch class + scale.
#[derive(Clone, Copy, Debug, PartialEq, Eq, Structural)]
pub struct Key {
    /// Pitch class of the root, 0 = C .. 11 = B.
    pub root: i32,
    pub scale: ScaleKind,
}

impl Key {
    pub open spec fn wf(self) -> bool {
        0 <= self.root < 12
    }

    /// Whether the note belongs to this key.
    pub open spec fn holds(self, note: int) -> bool {
        self.scale.steps().contains(((note - self.root) % 12) as i32)
    }

    /// The `k`-th note considered around octave `base`: three octaves, upwards.
    pub open spec fn candidate(self, base: int, k: int) -> int {
        let n = self.scale.steps().len() as int;
        (base - 1 + k / n) * 12 + self.root + self.scale.steps()[k % n]
    }

    pub open spec fn candidates(self) -> int {
        3 * self.scale.steps().len() as int
    }

    /// The best of the first `n` candidates and its distance: each one that is
    /// nearer than all before takes over.
    pub open spec fn best<K: Fn(Op, Width, u64, u64) -> u64>(self, c: &Calc<K>, midi: F32, base: int, n: int) -> (F32, F32)
        decreases n,
    {
        if n <= 0 {
            (midi, single(INFINITY))
        } else {
            let (b, bd) = self.best(c, midi, base, n - 1);
            let d = self.distance(c, midi, base, n - 1);
            if d.lt(bd) {
                (F32::of_int(c, self.candidate(base, n - 1) as i64), d)
            } else {
                (b, bd)
            }
        }
    }

    /// The note of this key that `midi` snaps to.
    pub open spec fn snapped<K: Fn(Op, Width, u64, u64) -> u64>(self, c: &Calc<K>, midi: F32) -> F32 {
        let (b, _d) = self.best(c, midi, octave_of(c, midi) as int, self.candidates());
        b
    }

    /// How far the `k`-th candidate is from `midi`.
    pub open spec fn distance<K: Fn(Op, Width, u64, u64) -> u64>(self, c: &Calc<K>, midi: F32, base: int, k: int) -> F32 {
        F32::of_int(c, self.candidate(base, k) as i64).sub(c, midi).abs()
    }

    /// Whether the `k`-th candidate is the first of those nearest to `midi`.
    pub open spec fn nearest<K: Fn(Op, Width, u64, u64) -> u64>(self, c: &Calc<K>, midi: F32, base: int, n: int, k: int) -> bool {
        let d = self.distance(c, midi, base, k);
        &&& 0 <= k < n
        &&& d.lt(single(INFINITY))
        &&& forall|j: int| 0 <= j < k ==> !(#[trigger] self.distance(c, midi, base, j)).le(d)
        &&& forall|j: int| k < j < n ==> !(#[trigger] self.distance(c, midi, base, j)).lt(d)
    }

    /// Whether `r` is the choice among the first `n` candidates.
    pub open spec fn chosen<K: Fn(Op, Width, u64, u64) -> u64>(self, c: &Calc<K>, midi: F32, base: int, n: int, r: F32) -> bool {
        ||| exists|k: int| #[trigger]
            self.nearest(c, midi, base, n, k) && r == F32::of_int(c, self.candidate(base, k) as i64)
        ||| r == midi && forall|k: int|
            0 <= k < n ==> !(#[trigger] self.distance(c, midi, base, k)).lt(single(INFINITY))
    }

    pub fn new(root: i32, scale: ScaleKind) -> (r: Key)
        ensures
            r.wf(),
            r.scale == scale,
            r.root == root as int % 12,
    {
        let m: i32 = if root >= 0 {
            root % 12
        } else {
            let up: i64 = (root as i64 + 2_147_483_652) % 12;
            up as i32
        };
        Key { root: m, scale }
    }

    /// The key of that root and scale, if both names are known.
    pub fn parse(root: &str, scale: &str) -> (r: Option<Key>)
        ensures
            r is Some <==> note_class(text::trimmed(root@)) is Some && scale_named(
                text::squashed(scale@),
            ) is Some,
            r is Some ==> r->0.wf() && r->0.root == note_class(text::trimmed(root@))->0
                && r->0.scale == scale_named(text::squashed(scale@))->0,
    {
        match parse_pitch_class(root) {
            None => None,
            Some(pc) => match ScaleKind::parse(scale) {
                None => None,
                Some(s) => Some(Key::new(pc, s)),
            },
        }
    }

    /// Snap a fractional MIDI note to the nearest note of this key (searching
    /// neighboring octaves so boundaries behave). A note for which no distance
    /// is finite stays as it is.
    pub fn quantize_midi<K: Fn(Op, Width, u64, u64) -> u64>(&self, c: &Calc<K>, midi: F32) -> (r: F32)
        requires
            c.sound(),
            self.wf(),
        ensures
            r == self.snapped(c, midi),
    {
        let base: i32 = octave_of(c, midi);
        let ivs: Vec<i32> = self.scale.intervals();
        let n: usize = ivs.len();
        let mut best: F32 = midi;
        let mut best_dist: F32 = single(INFINITY);
        let mut oct: usize = 0;
        assert(5 <= n <= 12);
        assert(forall|i: int| 0 <= i < n ==> 0 <= #[trigger] ivs@[i] < 12);
        while oct < 3
            invariant
                oct <= 3,
                c.sound(),
                self.wf(),
                ivs@ == self.scale.steps(),
                n == ivs.len(),
                5 <= n <= 12,
                forall|i: int| 0 <= i < n ==> 0 <= #[trigger] ivs@[i] < 12,
                (best, best_dist) == self.best(c, midi, base as int, oct * n),
            decreases 3 - oct,
        {
            let mut i: usize = 0;
            while i < n
                invariant
                    oct < 3,
                    i <= n,
                    c.sound(),
                    self.wf(),
                    ivs@ == self.scale.steps(),
                    n == ivs.len(),
                    5 <= n <= 12,
                    forall|j: int| 0 <= j < n ==> 0 <= #[trigger] ivs@[j] < 12,
                    (best, best_dist) == self.best(c, midi, base as int, oct * n + i),
                decreases n - i,
            {
                let note: i64 = (base as i64 - 1 + oct as i64) * 12 + self.root as i64 + ivs[i] as i64;
                let cand: F32 = F32::of_int(c, note);
                let d: F32 = cand.sub(c, midi).abs();
                proof {
                    let k = oct * n + i;
                    assert(k / (n as int) == oct && k % (n as int) == i) by (nonlinear_arith)
                        requires
                            k == oct * n + i,
                            0 <= i < n,
                    ;
                    assert(self.candidate(base as int, k) == note);
                    assert(d == self.distance(c, midi, base as int, k));
                }
                if d.lt(best_dist) {
                    best_dist = d;
                    best = cand;
                }
                i += 1;
            }
            assert((oct + 1) * n == oct * n + n) by (nonlinear_arith);
            oct += 1;
        }
        assert(3 * n == self.candidates());
        best
    }

    /// Given a source whose fundamental is `base_hz`, adjust a desired playback
    /// `ratio` so the resulting pitch lands on this key.
    pub fn quantize_ratio<K: Fn(Op, Width, u64, u64) -> u64>(&self, c: &Calc<K>, base_hz: F32, ratio: F32) -> (r: F32)
        requires
            c.sound(),
            self.wf(),
        ensures
            r == self.tuned(c, base_hz, ratio),
    {
        if base_hz.le(single(0)) || ratio.le(single(0)) {
            return ratio;
        }
        let target: F32 = hz_to_midi(c, base_hz.mul(c, ratio));
        let q: F32 = self.quantize_midi(c, target);
        midi_to_hz(c, q).div(c, base_hz)
    }

    /// The ratio that puts `ratio` on this key; unchanged where either is not positive.
    pub open spec fn tuned<K: Fn(Op, Width, u64, u64) -> u64>(self, c: &Calc<K>, base_hz: F32, ratio: F32) -> F32 {
        if base_hz.le(single(0)) || ratio.le(single(0)) {
            ratio
        } else {
            midi_to_hz(c, self.snapped(c, hz_to_midi(c, base_hz.mul(c, ratio)))).div(c, base_hz)
        }
    }

    /// Every note considered belongs to the key.
    pub proof fn law_candidates_are_in_key(self, base: int, k: int)
        requires
            self.wf(),
            0 <= k < self.candidates(),
        ensures
            self.holds(self.candidate(base, k)),
    {
        let n = self.scale.steps().len() as int;
        let iv = self.scale.steps()[k % n];
        assert(0 <= iv < 12);
        let oct = base - 1 + k / n;
        assert((oct * 12 + iv) % 12 == iv);
        assert(self.candidate(base, k) - self.root == oct * 12 + iv);
    }

    proof fn lemma_best_is_chosen<K: Fn(Op, Width, u64, u64) -> u64>(self, c: &Calc<K>, midi: F32, base: int, n: int)
        requires
            0 <= n,
        ensures
            ({
                let (b, bd) = self.best(c, midi, base, n);
                (b == midi && bd == single(INFINITY) && forall|k: int|
                    0 <= k < n ==> !(#[trigger] self.distance(c, midi, base, k)).lt(single(INFINITY)))
                    || exists|k: int| #[trigger]
                    self.nearest(c, midi, base, n, k) && bd == self.distance(c, midi, base, k) && b
                        == F32::of_int(c, self.candidate(base, k) as i64)
            }),
        decreases n,
    {
        if n > 0 {
            self.lemma_best_is_chosen(c, midi, base, n - 1);
            let (b, bd) = self.best(c, midi, base, n - 1);
            let d = self.distance(c, midi, base, n - 1);
            if exists|k: int| #[trigger]
                self.nearest(c, midi, base, n - 1, k) && bd == self.distance(c, midi, base, k) && b
                    == F32::of_int(c, self.candidate(base, k) as i64) {
                let k = choose|k: int| #[trigger]
                    self.nearest(c, midi, base, n - 1, k) && bd == self.distance(c, midi, base, k)
                        && b == F32::of_int(c, self.candidate(base, k) as i64);
                if d.lt(bd) {
                    assert(self.nearest(c, midi, base, n, n - 1));
                } else {
                    assert(self.nearest(c, midi, base, n, k));
                }
            } else if d.lt(bd) {
                assert(self.nearest(c, midi, base, n, n - 1));
            }
        }
    }

    /// A note snaps to the nearest note of the key around it, the lower of two.
    pub proof fn law_snapping_finds_the_nearest<K: Fn(Op, Width, u64, u64) -> u64>(self, c: &Calc<K>, midi: F32)
        ensures
            self.chosen(c, midi, octave_of(c, midi) as int, self.candidates(), self.snapped(c, midi)),
    {
        self.lemma_best_is_chosen(c, midi, octave_of(c, midi) as int, self.candidates());
    }

    /// Snapping lands on a note of the key, unless the pitch has no finite
    /// distance from any.
    pub proof fn law_snapped_notes_are_in_key<K: Fn(Op, Width, u64, u64) -> u64>(self, c: &Calc<K>, midi: F32)
        requires
            self.wf(),
        ensures
            (exists|note: int| #[trigger]
                self.holds(note) && self.snapped(c, midi) == F32::of_int(c, note as i64)) || (
            self.snapped(c, midi) == midi && forall|k: int|
                0 <= k < self.candidates() ==> !(#[trigger] self.distance(
                    c,
                    midi,
                    octave_of(c, midi) as int,
                    k,
                )).lt(single(INFINITY))),
    {
        let base = octave_of(c, midi) as int;
        let r = self.snapped(c, midi);
        self.law_snapping_finds_the_nearest(c, midi);
        if exists|k: int| #[trigger]
            self.nearest(c, midi, base, self.candidates(), k) && r == F32::of_int(
                c,
                self.candidate(base, k) as i64,
            ) {
            let k = choose|k: int| #[trigger]
                self.nearest(c, midi, base, self.candidates(), k) && r == F32::of_int(
                    c,
                    self.candidate(base, k) as i64,
                );
            self.law_candidates_are_in_key(base, k);
            assert(self.holds(self.candidate(base, k)));
        }
    }

    /// A pitch that is itself a note of the key stays on it: the candidate at
    /// distance zero wins when no other one is.
    pub proof fn law_notes_in_key_stay<K: Fn(Op, Width, u64, u64) -> u64>(self, c: &Calc<K>, midi: F32, base: int, k: int)
        requires
            self.wf(),
            base == octave_of(c, midi),
            0 <= k < self.candidates(),
            self.distance(c, midi, base, k).bits == 0,
            forall|j: int|
                0 <= j < self.candidates() && j != k ==> (#[trigger] self.distance(
                    c,
                    midi,
                    base,
                    j,
                )).bits != 0,
        ensures
            self.snapped(c, midi) == F32::of_int(c, self.candidate(base, k) as i64),
    {
        let r = self.snapped(c, midi);
        self.law_snapping_finds_the_nearest(c, midi);
        let d = self.distance(c, midi, base, k);
        assert(d.lt(single(INFINITY)));
        let q = choose|q: int| #[trigger]
            self.nearest(c, midi, base, self.candidates(), q) && r == F32::of_int(
                c,
                self.candidate(base, q) as i64,
            );
        let e = self.distance(c, midi, base, q);
        if q != k {
            assert(e.bits == e.mag());
            assert(d.le(e) && d.lt(e));
        }
    }
}

/// A grain's pitch ratio before it is detuned: the raw one, or pulled toward the key.
pub open spec fn pitched<K: Fn(Op, Width, u64, u64) -> u64>(c: &Calc<K>, semitones: F32, key: Option<Key>, base_hz: F32, quantize_amount: F32) -> F32 {
    let raw = semitones_to_ratio(c, semitones);
    let amount = quantize_amount.clamp(single(0), single(0x3f80_0000));
    match key {
        Some(k) => if single(0).lt(amount) {
            pulled(c, raw, k.tuned(c, base_hz, raw), amount)
        } else {
            raw
        },
        None => raw,
    }
}

/// The ratio of a detuning in cents, at most a semitone either way.
#[verifier::allow_in_spec]
pub fn detuning<K: Fn(Op, Width, u64, u64) -> u64>(c: &Calc<K>, cents: F32) -> F32
    requires
        c.sound(),
    returns
        (semitones_to_ratio(c, cents.clamp(single(0xc2c8_0000), single(0x42c8_0000)).div(c, single(0x42c8_0000)))),
{
    semitones_to_ratio(c, cents.clamp(single(0xc2c8_0000), single(0x42c8_0000)).div(c, single(0x42c8_0000)))
}

/// A grain's final pitch ratio: see `effective_ratio`.
pub open spec fn effective<K: Fn(Op, Width, u64, u64) -> u64>(
    c: &Calc<K>,
    semitones: F32,
    key: Option<Key>,
    base_hz: F32,
    quantize_amount: F32,
    detune_cents: F32,
) -> F32 {
    pitched(c, semitones, key, base_hz, quantize_amount).mul(c, detuning(c, detune_cents))
}

/// The ratio `amount` of the way from `raw` to `snapped`, in semitones.
#[verifier::allow_in_spec]
pub fn pulled<K: Fn(Op, Width, u64, u64) -> u64>(c: &Calc<K>, raw: F32, snapped: F32, amount: F32) -> F32
    requires
        c.sound(),
    returns
        (semitones_to_ratio(
            c,
            ratio_to_semitones(c, raw).add(
                c,
                ratio_to_semitones(c, snapped).sub(c, ratio_to_semitones(c, raw)).mul(c, amount),
            ),
        )),
{
    semitones_to_ratio(
        c,
        ratio_to_semitones(c, raw).add(
            c,
            ratio_to_semitones(c, snapped).sub(c, ratio_to_semitones(c, raw)).mul(c, amount),
        ),
    )
}

/// The one place a grain's final pitch ratio is computed: raw semitones,
/// optionally pulled toward the key by `quantize_amount` (1 = hard snap, 0.5 =
/// halfway, 0 = free), then shifted by `detune_cents` after the snap — so you
/// can sit subtly off-pitch of a perfectly quantized note.
pub fn effective_ratio<K: Fn(Op, Width, u64, u64) -> u64>(
    c: &Calc<K>,
    semitones: F32,
    key: Option<Key>,
    base_hz: F32,
    quantize_amount: F32,
    detune_cents: F32,
) -> (r: F32)
    requires
        c.sound(),
        key is Some ==> key->0.wf(),
    ensures
        r == effective(c, semitones, key, base_hz, quantize_amount, detune_cents),
{
    let raw: F32 = semitones_to_ratio(c, semitones);
    let amount: F32 = quantize_amount.clamp(single(0), single(0x3f80_0000));
    let snapped: F32 = match key {
        Some(k) => if single(0).lt(amount) {
            let q: F32 = k.quantize_ratio(c, base_hz, raw);
            pulled(c, raw, q, amount)
        } else {
            raw
        },
        None => raw,
    };
    snapped.mul(c, detuning(c, detune_cents))
}

} // verus!
