//! Musical scales: which notes belong to one, and which of them a frequency is nearest to.
use vstd::arithmetic::div_mod::lemma_mod_multiples_vanish;
use vstd::prelude::*;
use vstd::string::*;

use crate::arith::{apply, is_arithmetic, results, Arith, Op};
use crate::exact::{
    concert_numbers_are_whole, is_difference, is_product, is_quotient, is_sum, unit,
};
use crate::scalar::{num, Scalar, ONE, TWO, ZERO};

verus! {

/// The frequency of note 69, the A above middle C.
pub const A4_HZ: u32 = 0x43dc_0000;

/// 69, the number of that note.
pub const A4_NOTE: u32 = 0x428a_0000;

/// 12, the number of semitones of an octave.
pub const OCTAVE: u32 = 0x4140_0000;

#[derive(Debug, Clone, Copy, PartialEq, Eq, Structural)]
pub enum ScaleKind {
    Chromatic,
    Major,
    Minor,
}

/// The scale `kind` holds the note that lies `degree` semitones above its root.
pub open spec fn holds_degree(kind: ScaleKind, degree: int) -> bool {
    match kind {
        ScaleKind::Chromatic => true,
        ScaleKind::Major => degree == 0 || degree == 2 || degree == 4 || degree == 5 || degree == 7
            || degree == 9 || degree == 11,
        ScaleKind::Minor => degree == 0 || degree == 2 || degree == 3 || degree == 5 || degree == 7
            || degree == 8 || degree == 10,
    }
}

/// The scale `kind` on `root` holds `note`, in whatever octave.
pub open spec fn in_scale(kind: ScaleKind, root: int, note: int) -> bool {
    holds_degree(kind, (note - root) % 12)
}

/// How far apart two notes are.
pub open spec fn distance(a: int, b: int) -> int {
    if a < b {
        b - a
    } else {
        a - b
    }
}

/// `note` is the note of the scale that is nearest to `to`, and the upper one of two that are
/// equally near.
pub open spec fn is_nearest(kind: ScaleKind, root: int, to: int, note: int) -> bool {
    &&& in_scale(kind, root, note)
    &&& forall|other: int| #[trigger]
        in_scale(kind, root, other) ==> distance(note, to) < distance(other, to) || (distance(
            note,
            to,
        ) == distance(other, to) && other <= note)
}

/// The note of the scale that is nearest to `to`.
pub open spec fn nearest_note(kind: ScaleKind, root: int, to: int) -> int {
    choose|note: int| is_nearest(kind, root, to, note)
}

/// A scale has exactly one note that is nearest to a given one, at most six semitones away.
pub proof fn nearest_note_is_unique(kind: ScaleKind, root: int, to: int)
    ensures
        is_nearest(kind, root, to, nearest_note(kind, root, to)),
        distance(nearest_note(kind, root, to), to) <= 6,
        forall|note: int|
            is_nearest(kind, root, to, note) ==> note == nearest_note(kind, root, to),
{
    let d = (to - root) % 12;
    let below = to - d;
    let above = to + (12 - d);
    assert((below - root) % 12 == 0);
    assert((above - root) % 12 == 0);
    assert(in_scale(kind, root, below));
    assert(in_scale(kind, root, above));
    let near = if 12 - d <= d {
        above
    } else {
        below
    };
    lemma_nearest_exists(kind, root, to, near);
    let n = nearest_note(kind, root, to);
    assert(is_nearest(kind, root, to, n));
    assert(distance(near, to) <= 6);
    assert forall|note: int| is_nearest(kind, root, to, note) implies note == n by {
        assert(in_scale(kind, root, note));
        assert(in_scale(kind, root, n));
    }
}

proof fn lemma_nearest_exists(kind: ScaleKind, root: int, to: int, known: int)
    requires
        in_scale(kind, root, known),
    ensures
        exists|note: int| is_nearest(kind, root, to, note),
    decreases distance(known, to), to - known,
{
    if !is_nearest(kind, root, to, known) {
        let other = choose|other: int| #[trigger]
            in_scale(kind, root, other) && !(distance(known, to) < distance(other, to) || (distance(
                known,
                to,
            ) == distance(other, to) && other <= known));
        if distance(other, to) == distance(known, to) {
            assert(known < to && other > to);
            if !is_nearest(kind, root, to, other) {
                let third = choose|third: int| #[trigger]
                    in_scale(kind, root, third) && !(distance(other, to) < distance(third, to) || (
                    distance(other, to) == distance(third, to) && third <= other));
                assert(distance(third, to) < distance(known, to));
                lemma_nearest_exists(kind, root, to, third);
            }
        } else {
            lemma_nearest_exists(kind, root, to, other);
        }
    }
}

/// Which pitch classes, from C on, a scale holds.
pub open spec fn scale_mask(kind: ScaleKind, root: int) -> Seq<bool> {
    Seq::new(12, |pc: int| in_scale(kind, root, pc))
}

#[derive(Debug, Clone)]
pub struct ScaleMapper {
    root_pc: i32,
    kind: ScaleKind,
    enabled_pc: [bool; 12],
}

impl ScaleMapper {
    /// The pitch class of the root, 0 to 11.
    pub closed spec fn root(self) -> int {
        self.root_pc as int
    }

    pub closed spec fn scale(self) -> ScaleKind {
        self.kind
    }

    /// Which pitch classes, from C on, are in use.
    pub closed spec fn mask(self) -> Seq<bool> {
        self.enabled_pc@
    }

    /// The root is a pitch class, and the mask marks the pitch classes of the scale.
    pub closed spec fn wf(self) -> bool {
        &&& 0 <= self.root_pc < 12
        &&& self.mask_wf()
    }

    spec fn mask_wf(self) -> bool {
        forall|pc: int|
            0 <= pc < 12 ==> #[trigger] self.enabled_pc@[pc] == in_scale(
                self.kind,
                self.root_pc as int,
                pc,
            )
    }

    /// The scale `kind` on the pitch class of `root_pc`.
    pub fn new(root_pc: i32, kind: ScaleKind) -> (mapper: Self)
        ensures
            mapper.wf(),
            mapper.root() == root_pc as int % 12,
            mapper.scale() == kind,
    {
        let mut mapper = ScaleMapper {
            root_pc: pitch_class(root_pc as i64) as i32,
            kind,
            enabled_pc: [false; 12],
        };
        mapper.rebuild_mask();
        mapper
    }

    /// Changes to the scale `kind` on the pitch class of `root_pc`.
    pub fn set_scale(&mut self, root_pc: i32, kind: ScaleKind)
        ensures
            final(self).wf(),
            final(self).root() == root_pc as int % 12,
            final(self).scale() == kind,
    {
        self.root_pc = pitch_class(root_pc as i64) as i32;
        self.kind = kind;
        self.rebuild_mask();
    }

    pub fn root_pc(&self) -> (r: i32)
        ensures
            r == self.root(),
    {
        self.root_pc
    }

    pub fn kind(&self) -> (r: ScaleKind)
        ensures
            r == self.scale(),
    {
        self.kind
    }

    fn rebuild_mask(&mut self)
        requires
            0 <= old(self).root_pc < 12,
        ensures
            final(self).wf(),
            final(self).root_pc == old(self).root_pc,
            final(self).kind == old(self).kind,
            final(self).mask() == scale_mask(old(self).kind, old(self).root_pc as int),
    {
        let root_pc = self.root_pc;
        match self.kind {
            ScaleKind::Chromatic => {
                self.enabled_pc = [true; 12];
            },
            ScaleKind::Major => {
                self.enabled_pc = mask_of([0, 2, 4, 5, 7, 9, 11], root_pc);
            },
            ScaleKind::Minor => {
                self.enabled_pc = mask_of([0, 2, 3, 5, 7, 8, 10], root_pc);
            },
        }
        assert(self.mask() =~= scale_mask(self.kind, self.root_pc as int));
    }

    /// Whether the scale holds `midi_note`.
    pub fn note_enabled(&self, midi_note: i32) -> (r: bool)
        requires
            self.wf(),
        ensures
            r == in_scale(self.scale(), self.root(), midi_note as int),
    {
        self.holds(midi_note as i64)
    }

    /// Whether the scale holds `midi_note`, which may lie past the numbers that notes have.
    fn holds(&self, midi_note: i64) -> (r: bool)
        requires
            self.wf(),
        ensures
            r == in_scale(self.scale(), self.root(), midi_note as int),
    {
        let pc = pitch_class(midi_note);
        proof {
            let (n, r) = (midi_note as int, self.root());
            assert((n - r) % 12 == (n % 12 - r) % 12);
        }
        self.enabled_pc[pc]
    }

    /// The note of the scale that is nearest to `to`.
    pub fn nearest_enabled(&self, to: i32) -> (r: Option<i64>)
        requires
            self.wf(),
        ensures
            r == Some(nearest_note(self.scale(), self.root(), to as int) as i64),
            distance(nearest_note(self.scale(), self.root(), to as int), to as int) <= 6,
    {
        proof {
            nearest_note_is_unique(self.scale(), self.root(), to as int);
        }
        let ghost goal = nearest_note(self.scale(), self.root(), to as int);
        let mut distance: i64 = 0;
        while distance < 48
            invariant
                self.wf(),
                0 <= distance <= 48,
                is_nearest(self.scale(), self.root(), to as int, goal),
                goal == nearest_note(self.scale(), self.root(), to as int),
                self::distance(goal, to as int) <= 6,
                self::distance(goal, to as int) >= distance,
                forall|note: int|
                    is_nearest(self.scale(), self.root(), to as int, note) ==> note == goal,
            decreases 48 - distance,
        {
            let up = to as i64 + distance;
            if self.holds(up) {
                assert(goal == up);
                return Some(up);
            }
            if distance > 0 {
                let down = to as i64 - distance;
                if self.holds(down) {
                    assert(goal == down);
                    return Some(down);
                }
            }
            distance += 1;
        }
        None
    }

    /// The frequency of the note of the scale that is nearest to `hz`; `None` where `hz` is
    /// not a positive finite number.
    pub fn map_hz_to_scale<F: Fn(Op) -> Scalar>(&self, hz: Scalar, f: &F) -> (r: Option<Scalar>)
        requires
            self.wf(),
            is_arithmetic(*f),
        ensures
            r == scale_hz(results(*f), self.scale(), self.root(), hz),
    {
        if !hz.is_finite() || hz.le(num(ZERO)) {
            return None;
        }
        let midi = hz_to_midi(hz, f);
        let nearest = apply(f, Op::Round(midi)).to_i32();
        match self.nearest_enabled(nearest) {
            Some(note) => Some(midi_to_hz(apply(f, Op::FromInt(note as i128)), f)),
            None => None,
        }
    }
}

/// The pitch class of a note: how far it lies above the nearest C below it.
fn pitch_class(note: i64) -> (r: usize)
    ensures
        r == note as int % 12,
{
    match note.checked_rem_euclid(12) {
        Some(pc) => pc as usize,
        None => 0,
    }
}

fn mask_of(degrees: [i32; 7], root_pc: i32) -> (mask: [bool; 12])
    requires
        0 <= root_pc < 12,
        forall|i: int| 0 <= i < 7 ==> 0 <= #[trigger] degrees@[i] < 12,
    ensures
        forall|pc: int|
            0 <= pc < 12 ==> (#[trigger] mask@[pc] <==> exists|i: int|
                0 <= i < 7 && #[trigger] degrees@[i] == (pc - root_pc) % 12),
{
    let mut mask = [false; 12];
    let mut i: usize = 0;
    while i < 7
        invariant
            i <= 7,
            0 <= root_pc < 12,
            forall|i: int| 0 <= i < 7 ==> 0 <= #[trigger] degrees@[i] < 12,
            forall|pc: int|
                0 <= pc < 12 ==> (#[trigger] mask@[pc] <==> exists|j: int|
                    0 <= j < i && #[trigger] degrees@[j] == (pc - root_pc) % 12),
        decreases 7 - i,
    {
        let pc = pitch_class(degrees[i] as i64 + root_pc as i64);
        let ghost before = mask@;
        mask[pc] = true;
        proof {
            assert(degrees@[i as int] == (pc as int - root_pc) % 12);
            assert forall|p: int| 0 <= p < 12 implies (#[trigger] mask@[p] <==> exists|j: int|
                0 <= j < i + 1 && #[trigger] degrees@[j] == (p - root_pc) % 12) by {
                assert(mask@[p] == (p == pc || before[p]));
                if degrees@[i as int] == (p - root_pc) % 12 {
                    assert(p == pc);
                }
            }
        }
        i += 1;
    }
    mask
}

pub open spec fn midi_of_hz(ar: Arith, hz: Scalar) -> Scalar {
    ar(Op::Add(num(A4_NOTE), ar(Op::Mul(num(OCTAVE), ar(Op::Log2(ar(Op::Div(hz, num(A4_HZ)))))))))
}

/// The number of the note that sounds at `hz`, with its fraction: 69 + 12 log2(hz / 440).
pub fn hz_to_midi<F: Fn(Op) -> Scalar>(hz: Scalar, f: &F) -> (r: Scalar)
    requires
        is_arithmetic(*f),
    ensures
        r == midi_of_hz(results(*f), hz),
{
    let octaves = apply(f, Op::Log2(apply(f, Op::Div(hz, num(A4_HZ)))));
    apply(f, Op::Add(num(A4_NOTE), apply(f, Op::Mul(num(OCTAVE), octaves))))
}

pub open spec fn hz_of_midi(ar: Arith, midi_note: Scalar) -> Scalar {
    ar(
        Op::Mul(
            num(A4_HZ),
            ar(Op::Pow(num(TWO), ar(Op::Div(ar(Op::Sub(midi_note, num(A4_NOTE))), num(OCTAVE))))),
        ),
    )
}

/// The frequency of a note: 440 * 2^((midi_note - 69) / 12).
pub fn midi_to_hz<F: Fn(Op) -> Scalar>(midi_note: Scalar, f: &F) -> (r: Scalar)
    requires
        is_arithmetic(*f),
    ensures
        r == hz_of_midi(results(*f), midi_note),
{
    let octaves = apply(f, Op::Div(apply(f, Op::Sub(midi_note, num(A4_NOTE))), num(OCTAVE)));
    apply(f, Op::Mul(num(A4_HZ), apply(f, Op::Pow(num(TWO), octaves))))
}

/// The frequency that the scale maps `hz` to.
pub open spec fn scale_hz(ar: Arith, kind: ScaleKind, root: int, hz: Scalar) -> Option<Scalar> {
    if !hz.finite() || hz.at_most(num(ZERO)) {
        None
    } else {
        let nearest = ar(Op::Round(midi_of_hz(ar, hz))).integer();
        let note = nearest_note(kind, root, nearest as int);
        Some(hz_of_midi(ar, ar(Op::FromInt(note as i128))))
    }
}

/// The Unicode property White_Space.
pub open spec fn is_white(c: char) -> bool {
    let u = c as u32;
    ||| 0x9 <= u <= 0xd
    ||| u == 0x20
    ||| u == 0x85
    ||| u == 0xa0
    ||| u == 0x1680
    ||| 0x2000 <= u <= 0x200a
    ||| u == 0x2028
    ||| u == 0x2029
    ||| u == 0x202f
    ||| u == 0x205f
    ||| u == 0x3000
}

fn white(c: char) -> (r: bool)
    ensures
        r == is_white(c),
{
    let u = c as u32;
    (0x9 <= u && u <= 0xd) || u == 0x20 || u == 0x85 || u == 0xa0 || u == 0x1680 || (0x2000 <= u
        && u <= 0x200a) || u == 0x2028 || u == 0x2029 || u == 0x202f || u == 0x205f || u == 0x3000
}

/// A text without the white space at its start.
pub open spec fn without_leading_white(s: Seq<char>) -> Seq<char>
    decreases s.len(),
{
    if s.len() > 0 && is_white(s.first()) {
        without_leading_white(s.drop_first())
    } else {
        s
    }
}

/// A text without the white space at its end.
pub open spec fn without_trailing_white(s: Seq<char>) -> Seq<char>
    decreases s.len(),
{
    if s.len() > 0 && is_white(s.last()) {
        without_trailing_white(s.drop_last())
    } else {
        s
    }
}

/// The upper-case letter of an ASCII letter; any other character itself.
pub open spec fn ascii_upper(c: char) -> char {
    if 'a' <= c <= 'z' {
        ((c as u32 - 32) as u32) as char
    } else {
        c
    }
}

fn to_upper(c: char) -> (r: char)
    ensures
        r == ascii_upper(c),
{
    if 'a' <= c && c <= 'z' {
        ((c as u8) - 32) as char
    } else {
        c
    }
}

/// A text with its ASCII letters in upper case.
pub open spec fn upper(text: Seq<char>) -> Seq<char> {
    text.map_values(|c: char| ascii_upper(c))
}

/// The pitch class that a name in upper case stands for.
pub open spec fn pitch_class_of(name: Seq<char>) -> Option<i32> {
    if name == seq!['C'] {
        Some(0)
    } else if name == seq!['C', '#'] || name == seq!['D', 'B'] {
        Some(1)
    } else if name == seq!['D'] {
        Some(2)
    } else if name == seq!['D', '#'] || name == seq!['E', 'B'] {
        Some(3)
    } else if name == seq!['E'] {
        Some(4)
    } else if name == seq!['F'] {
        Some(5)
    } else if name == seq!['F', '#'] || name == seq!['G', 'B'] {
        Some(6)
    } else if name == seq!['G'] {
        Some(7)
    } else if name == seq!['G', '#'] || name == seq!['A', 'B'] {
        Some(8)
    } else if name == seq!['A'] {
        Some(9)
    } else if name == seq!['A', '#'] || name == seq!['B', 'B'] {
        Some(10)
    } else if name == seq!['B'] {
        Some(11)
    } else {
        None
    }
}

/// The pitch class that `root` names, white space around it and the case of its letters aside.
pub open spec fn named_root(root: Seq<char>) -> Option<i32> {
    pitch_class_of(upper(without_trailing_white(without_leading_white(root))))
}

/// The pitch class that `root` names: a letter from A to G, which `#` may follow to raise it
/// or `b` to lower it.
pub fn parse_root_note(root: &str) -> (r: Option<i32>)
    ensures
        r == named_root(root@),
{
    let n = root.unicode_len();
    let mut lo: usize = 0;
    assert(root@.subrange(0, n as int) =~= root@);
    while lo < n && white(root.get_char(lo))
        invariant
            lo <= n,
            n == root@.len(),
            without_leading_white(root@) == without_leading_white(
                root@.subrange(lo as int, n as int),
            ),
        decreases n - lo,
    {
        assert(root@.subrange(lo as int, n as int).drop_first() =~= root@.subrange(
            lo + 1,
            n as int,
        ));
        lo += 1;
    }
    let ghost body = root@.subrange(lo as int, n as int);
    assert(without_leading_white(root@) == body);
    let mut hi: usize = n;
    while hi > lo && white(root.get_char(hi - 1))
        invariant
            lo <= hi <= n,
            n == root@.len(),
            without_trailing_white(body) == without_trailing_white(
                root@.subrange(lo as int, hi as int),
            ),
        decreases hi - lo,
    {
        assert(root@.subrange(lo as int, hi as int).drop_last() =~= root@.subrange(
            lo as int,
            hi - 1,
        ));
        hi -= 1;
    }
    let ghost trimmed = root@.subrange(lo as int, hi as int);
    let ghost name = upper(trimmed);
    assert(without_trailing_white(body) == trimmed);
    if hi - lo == 1 {
        let c = to_upper(root.get_char(lo));
        assert(name =~= seq![c]);
        proof {
            lemma_single_name(c);
        }
        match c {
            'C' => Some(0),
            'D' => Some(2),
            'E' => Some(4),
            'F' => Some(5),
            'G' => Some(7),
            'A' => Some(9),
            'B' => Some(11),
            _ => None,
        }
    } else if hi - lo == 2 {
        let c = to_upper(root.get_char(lo));
        let d = to_upper(root.get_char(lo + 1));
        assert(name =~= seq![c, d]);
        proof {
            lemma_double_name(c, d);
        }
        match (c, d) {
            ('C', '#') => Some(1),
            ('D', 'B') => Some(1),
            ('D', '#') => Some(3),
            ('E', 'B') => Some(3),
            ('F', '#') => Some(6),
            ('G', 'B') => Some(6),
            ('G', '#') => Some(8),
            ('A', 'B') => Some(8),
            ('A', '#') => Some(10),
            ('B', 'B') => Some(10),
            _ => None,
        }
    } else {
        assert(name.len() != 1 && name.len() != 2);
        None
    }
}

proof fn lemma_single_name(c: char)
    ensures
        pitch_class_of(seq![c]) == match c {
            'C' => Some(0i32),
            'D' => Some(2i32),
            'E' => Some(4i32),
            'F' => Some(5i32),
            'G' => Some(7i32),
            'A' => Some(9i32),
            'B' => Some(11i32),
            _ => None,
        },
{
    let s = seq![c];
    assert(s[0] == c);
    assert(s =~= seq!['C'] <==> c == 'C');
    assert(s =~= seq!['D'] <==> c == 'D');
    assert(s =~= seq!['E'] <==> c == 'E');
    assert(s =~= seq!['F'] <==> c == 'F');
    assert(s =~= seq!['G'] <==> c == 'G');
    assert(s =~= seq!['A'] <==> c == 'A');
    assert(s =~= seq!['B'] <==> c == 'B');
}

proof fn lemma_pair(a: char, b: char, c: char, d: char)
    ensures
        seq![a, b] == seq![c, d] <==> a == c && b == d,
{
    let s = seq![a, b];
    let t = seq![c, d];
    assert(s[0] == a && s[1] == b && t[0] == c && t[1] == d);
}

proof fn lemma_double_name(c: char, d: char)
    ensures
        pitch_class_of(seq![c, d]) == match (c, d) {
            ('C', '#') => Some(1i32),
            ('D', 'B') => Some(1i32),
            ('D', '#') => Some(3i32),
            ('E', 'B') => Some(3i32),
            ('F', '#') => Some(6i32),
            ('G', 'B') => Some(6i32),
            ('G', '#') => Some(8i32),
            ('A', 'B') => Some(8i32),
            ('A', '#') => Some(10i32),
            ('B', 'B') => Some(10i32),
            _ => None,
        },
{
    lemma_pair(c, d, 'C', '#');
    lemma_pair(c, d, 'D', 'B');
    lemma_pair(c, d, 'D', '#');
    lemma_pair(c, d, 'E', 'B');
    lemma_pair(c, d, 'F', '#');
    lemma_pair(c, d, 'G', 'B');
    lemma_pair(c, d, 'G', '#');
    lemma_pair(c, d, 'A', 'B');
    lemma_pair(c, d, 'A', '#');
    lemma_pair(c, d, 'B', 'B');
    assert(seq![c, d].len() == 2);
}

/// A note of the scale is its own nearest note.
pub proof fn notes_of_the_scale_stay(kind: ScaleKind, root: int, note: int)
    requires
        in_scale(kind, root, note),
    ensures
        nearest_note(kind, root, note) == note,
{
    nearest_note_is_unique(kind, root, note);
    assert(is_nearest(kind, root, note, note));
}

/// The chromatic scale moves no note.
pub proof fn chromatic_scale_holds_every_note(root: int, note: int)
    ensures
        in_scale(ScaleKind::Chromatic, root, note),
        nearest_note(ScaleKind::Chromatic, root, note) == note,
{
    notes_of_the_scale_stay(ScaleKind::Chromatic, root, note);
}

/// The major and the minor scale move a note by a semitone at most, and then upwards.
pub proof fn nearest_note_is_a_semitone_away(kind: ScaleKind, root: int, to: int)
    ensures
        nearest_note(kind, root, to) == to || nearest_note(kind, root, to) == to + 1,
{
    nearest_note_is_unique(kind, root, to);
    let d = (to - root) % 12;
    assert((to + 1 - root) % 12 == (d + 1) % 12);
    assert(in_scale(kind, root, to) || in_scale(kind, root, to + 1));
    if in_scale(kind, root, to) {
        notes_of_the_scale_stay(kind, root, to);
    } else {
        assert(is_nearest(kind, root, to, to + 1));
    }
}

/// A scale is the same in every octave, and on roots that are octaves apart.
pub proof fn scale_repeats_every_octave(kind: ScaleKind, root: int, note: int, octaves: int)
    ensures
        in_scale(kind, root, note + 12 * octaves) == in_scale(kind, root, note),
        in_scale(kind, root + 12 * octaves, note) == in_scale(kind, root, note),
{
    lemma_mod_multiples_vanish(octaves, note - root, 12);
    lemma_mod_multiples_vanish(-octaves, note - root, 12);
    assert(note + 12 * octaves - root == 12 * octaves + (note - root));
    assert(note - (root + 12 * octaves) == 12 * -octaves + (note - root));
}

/// What a name stands for is a pitch class.
pub proof fn named_roots_are_pitch_classes(root: Seq<char>)
    ensures
        named_root(root) is Some ==> 0 <= named_root(root)->0 < 12,
{
}

/// White space before or after a name changes nothing.
pub proof fn white_space_around_a_name_is_ignored(root: Seq<char>, c: char)
    requires
        is_white(c),
    ensures
        named_root(seq![c] + root) == named_root(root),
        named_root(root.push(c)) == named_root(root),
{
    assert((seq![c] + root).drop_first() =~= root);
    lemma_white_at_the_end(root, c);
}

proof fn lemma_white_at_the_end(root: Seq<char>, c: char)
    requires
        is_white(c),
    ensures
        without_trailing_white(without_leading_white(root.push(c))) == without_trailing_white(
            without_leading_white(root),
        ),
    decreases root.len(),
{
    if root.len() == 0 {
        assert(root.push(c).drop_first() =~= root);
    } else if is_white(root.first()) {
        assert(root.push(c).drop_first() =~= root.drop_first().push(c));
        lemma_white_at_the_end(root.drop_first(), c);
    } else {
        assert(root.push(c).drop_last() =~= root);
    }
}

/// The case of the letters changes nothing.
pub proof fn case_of_a_name_is_ignored(root: Seq<char>)
    ensures
        named_root(upper(root)) == named_root(root),
{
    lemma_leading_white_in_upper_case(root);
    lemma_trailing_white_in_upper_case(without_leading_white(root));
    let name = without_trailing_white(without_leading_white(root));
    assert(upper(upper(name)) =~= upper(name));
}

proof fn lemma_leading_white_in_upper_case(root: Seq<char>)
    ensures
        without_leading_white(upper(root)) == upper(without_leading_white(root)),
    decreases root.len(),
{
    if root.len() > 0 {
        assert(is_white(ascii_upper(root.first())) == is_white(root.first()));
        assert(upper(root).drop_first() =~= upper(root.drop_first()));
        lemma_leading_white_in_upper_case(root.drop_first());
    }
}

proof fn lemma_trailing_white_in_upper_case(root: Seq<char>)
    ensures
        without_trailing_white(upper(root)) == upper(without_trailing_white(root)),
    decreases root.len(),
{
    if root.len() > 0 {
        assert(is_white(ascii_upper(root.last())) == is_white(root.last()));
        assert(upper(root).drop_last() =~= upper(root.drop_last()));
        lemma_trailing_white_in_upper_case(root.drop_last());
    }
}

/// The mask of a mapper marks the pitch classes of its scale and no others, so that it is the
/// same however often, and from whatever mask, it was built.
pub proof fn mask_marks_the_scale(m: ScaleMapper)
    requires
        m.wf(),
    ensures
        m.mask() == scale_mask(m.scale(), m.root()),
        0 <= m.root() < 12,
{
    assert(m.mask() =~= scale_mask(m.scale(), m.root()));
}

/// Building the mask again changes nothing: mappers of the same scale on the same root have
/// the same mask.
pub proof fn rebuilding_changes_nothing(m: ScaleMapper, again: ScaleMapper)
    requires
        m.wf(),
        again.wf(),
        m.scale() == again.scale(),
        m.root() == again.root(),
    ensures
        m.mask() == again.mask(),
{
    mask_marks_the_scale(m);
    mask_marks_the_scale(again);
}

/// How many pitch classes a mask marks.
pub open spec fn marked(mask: Seq<bool>) -> nat
    decreases mask.len(),
{
    if mask.len() == 0 {
        0
    } else {
        marked(mask.drop_last()) + if mask.last() {
            1nat
        } else {
            0nat
        }
    }
}

proof fn lemma_marked_from(mask: Seq<bool>, n: int)
    requires
        0 <= n < mask.len(),
    ensures
        marked(mask.take(n + 1)) == marked(mask.take(n)) + if mask[n] {
            1nat
        } else {
            0nat
        },
{
    assert(mask.take(n + 1).drop_last() =~= mask.take(n));
}

/// The chromatic scale holds all of the pitch classes, the major and the minor one seven of
/// them: the root and the fifth in each, the major third in one and the minor third in the
/// other.
pub proof fn scales_hold_their_intervals(kind: ScaleKind, root: int)
    requires
        0 <= root < 12,
    ensures
        marked(scale_mask(kind, root)) == if kind == ScaleKind::Chromatic {
            12nat
        } else {
            7nat
        },
        scale_mask(kind, root)[root],
        scale_mask(kind, root)[(root + 7) % 12],
        kind == ScaleKind::Major ==> scale_mask(kind, root)[(root + 4) % 12] && !scale_mask(
            kind,
            root,
        )[(root + 3) % 12],
        kind == ScaleKind::Minor ==> scale_mask(kind, root)[(root + 3) % 12] && !scale_mask(
            kind,
            root,
        )[(root + 4) % 12],
{
    lemma_marked_classes(kind, root);
}

proof fn lemma_marked_classes(kind: ScaleKind, root: int)
    requires
        0 <= root < 12,
    ensures
        marked(scale_mask(kind, root)) == if kind == ScaleKind::Chromatic {
            12nat
        } else {
            7nat
        },
    decreases root,
{
    if root == 0 {
        lemma_marked_classes_of_c(kind);
    } else {
        lemma_marked_classes(kind, root - 1);
        let (mask, before) = (scale_mask(kind, root), scale_mask(kind, root - 1));
        assert(mask =~= seq![before[11]] + before.take(11));
        lemma_marked_first(before.take(11), before[11]);
        assert(before.take(11) =~= before.drop_last());
    }
}

proof fn lemma_marked_first(mask: Seq<bool>, first: bool)
    ensures
        marked(seq![first] + mask) == marked(mask) + if first {
            1nat
        } else {
            0nat
        },
    decreases mask.len(),
{
    if mask.len() == 0 {
        assert((seq![first] + mask).drop_last() =~= mask);
    } else {
        assert((seq![first] + mask).drop_last() =~= seq![first] + mask.drop_last());
        lemma_marked_first(mask.drop_last(), first);
    }
}

proof fn lemma_marked_classes_of_c(kind: ScaleKind)
    ensures
        marked(scale_mask(kind, 0)) == if kind == ScaleKind::Chromatic {
            12nat
        } else {
            7nat
        },
{
    let mask = scale_mask(kind, 0);
    assert(marked(mask.take(0)) == 0);
    lemma_marked_from(mask, 0);
    lemma_marked_from(mask, 1);
    lemma_marked_from(mask, 2);
    lemma_marked_from(mask, 3);
    lemma_marked_from(mask, 4);
    lemma_marked_from(mask, 5);
    lemma_marked_from(mask, 6);
    lemma_marked_from(mask, 7);
    lemma_marked_from(mask, 8);
    lemma_marked_from(mask, 9);
    lemma_marked_from(mask, 10);
    lemma_marked_from(mask, 11);
    assert(mask.take(12) =~= mask);
}

/// The arithmetic finds a note again from its frequency.
pub open spec fn is_tuned(ar: Arith, note: int) -> bool {
    let hz = hz_of_midi(ar, ar(Op::FromInt(note as i128)));
    &&& hz.finite()
    &&& num(ZERO).below(hz)
    &&& ar(Op::Round(midi_of_hz(ar, hz))).integer() == note
}

/// A frequency that the scale gave is mapped to itself, by an arithmetic that finds its note
/// again.
pub proof fn mapped_frequencies_stay(ar: Arith, kind: ScaleKind, root: int, hz: Scalar)
    requires
        scale_hz(ar, kind, root, hz) is Some,
        is_tuned(
            ar,
            nearest_note(kind, root, ar(Op::Round(midi_of_hz(ar, hz))).integer() as int),
        ),
    ensures
        scale_hz(ar, kind, root, scale_hz(ar, kind, root, hz)->0) == scale_hz(ar, kind, root, hz),
{
    broadcast use crate::scalar::group_scalar_order;

    let heard = ar(Op::Round(midi_of_hz(ar, hz))).integer() as int;
    nearest_note_is_unique(kind, root, heard);
    notes_of_the_scale_stay(kind, root, nearest_note(kind, root, heard));
}

/// How many octaves a note lies above A4.
pub open spec fn octaves_above(ar: Arith, midi_note: Scalar) -> Scalar {
    ar(Op::Div(ar(Op::Sub(midi_note, num(A4_NOTE))), num(OCTAVE)))
}

/// The octaves that are found in the frequency which lies `octaves` above A4.
pub open spec fn octaves_found(ar: Arith, octaves: Scalar) -> Scalar {
    let hz = ar(Op::Mul(num(A4_HZ), ar(Op::Pow(num(TWO), octaves))));
    ar(Op::Log2(ar(Op::Div(hz, num(A4_HZ)))))
}

/// How exactly notes are found again from their frequencies.
pub struct Tolerance {
    /// The notes that are meant.
    pub notes: spec_fn(Scalar) -> bool,
    /// Two counts of octaves are close.
    pub close_octaves: spec_fn(Scalar, Scalar) -> bool,
    /// Two notes are close.
    pub close_notes: spec_fn(Scalar, Scalar) -> bool,
}

/// The arithmetic is as exact as a tolerance asks: the logarithm finds the exponent of a power
/// again, and from octaves that are close come notes that are close.
pub open spec fn is_within(ar: Arith, t: Tolerance) -> bool {
    &&& forall|note: Scalar| #[trigger]
        (t.notes)(note) ==> (t.close_octaves)(
            octaves_above(ar, note),
            octaves_found(ar, octaves_above(ar, note)),
        )
    &&& forall|note: Scalar, octaves: Scalar|
        (t.notes)(note) && #[trigger] (t.close_octaves)(octaves_above(ar, note), octaves)
            ==> (t.close_notes)(
            note,
            ar(Op::Add(num(A4_NOTE), ar(Op::Mul(num(OCTAVE), octaves)))),
        )
}

/// `hz_to_midi` undoes `midi_to_hz`, as exactly as the arithmetic is.
pub proof fn notes_come_back(ar: Arith, t: Tolerance, midi_note: Scalar)
    requires
        is_within(ar, t),
        (t.notes)(midi_note),
    ensures
        (t.close_notes)(midi_note, midi_of_hz(ar, hz_of_midi(ar, midi_note))),
{
    let octaves = octaves_above(ar, midi_note);
    assert((t.close_octaves)(octaves, octaves_found(ar, octaves)));
}

/// Twelve notes up the frequency is twice as high, where the arithmetic counts one octave more
/// and doubles exactly.
pub proof fn octaves_double(ar: Arith, midi_note: Scalar)
    requires
        ({
            let octaves = octaves_above(ar, midi_note);
            let share = ar(Op::Pow(num(TWO), octaves));
            let above = ar(Op::Add(midi_note, num(OCTAVE)));
            &&& octaves_above(ar, above) == ar(Op::Add(octaves, num(ONE)))
            &&& ar(Op::Pow(num(TWO), ar(Op::Add(octaves, num(ONE))))) == ar(
                Op::Mul(num(TWO), share),
            )
            &&& ar(Op::Mul(num(A4_HZ), ar(Op::Mul(num(TWO), share)))) == ar(
                Op::Mul(num(TWO), ar(Op::Mul(num(A4_HZ), share))),
            )
        }),
    ensures
        hz_of_midi(ar, ar(Op::Add(midi_note, num(OCTAVE)))) == ar(
            Op::Mul(num(TWO), hz_of_midi(ar, midi_note)),
        ),
{
}

/// Note 69 sounds at 440, by an arithmetic that is exact on zero and one.
pub proof fn concert_pitch(ar: Arith)
    requires
        ar(Op::Sub(num(A4_NOTE), num(A4_NOTE))) == num(ZERO),
        ar(Op::Div(num(ZERO), num(OCTAVE))) == num(ZERO),
        ar(Op::Pow(num(TWO), num(ZERO))) == num(ONE),
        ar(Op::Mul(num(A4_HZ), num(ONE))) == num(A4_HZ),
    ensures
        hz_of_midi(ar, num(A4_NOTE)) == num(A4_HZ),
{
}

/// The major scale is seven fifths in a row, from the one below its root on: its notes are those
/// that lie minus one to five times seven semitones from the root, octaves aside. The minor scale
/// holds the notes of the major scale on its third. The chromatic scale holds every note.
pub proof fn scales_are_made_of_fifths(root: int, note: int)
    ensures
        in_scale(ScaleKind::Major, root, note) <==> {
            ||| (note - root + 7) % 12 == 0
            ||| (note - root) % 12 == 0
            ||| (note - root - 7) % 12 == 0
            ||| (note - root - 14) % 12 == 0
            ||| (note - root - 21) % 12 == 0
            ||| (note - root - 28) % 12 == 0
            ||| (note - root - 35) % 12 == 0
        },
        in_scale(ScaleKind::Minor, root, note) <==> in_scale(ScaleKind::Major, root + 3, note),
        in_scale(ScaleKind::Chromatic, root, note),
{
    let d = (note - root) % 12;
    assert((note - root + 7) % 12 == (d + 7) % 12);
    assert((note - root - 7) % 12 == (d + 5) % 12);
    assert((note - root - 14) % 12 == (d + 10) % 12);
    assert((note - root - 21) % 12 == (d + 3) % 12);
    assert((note - root - 28) % 12 == (d + 8) % 12);
    assert((note - root - 35) % 12 == (d + 1) % 12);
    assert((note - (root + 3)) % 12 == (d + 9) % 12);
}

/// The frequency of a note is 440 times the power of 2 whose exponent, times twelve, is how far
/// the note lies above 69.
pub proof fn notes_are_twelfths_of_octaves_from_concert_pitch(ar: Arith, note: Scalar)
    requires
        ({
            let above = ar(Op::Sub(note, num(0x428a_0000)));
            let octaves = ar(Op::Div(above, num(0x4140_0000)));
            let share = ar(Op::Pow(num(TWO), octaves));
            &&& is_difference(note, num(0x428a_0000), above)
            &&& is_quotient(above, num(0x4140_0000), octaves)
            &&& is_product(num(0x43dc_0000), share, ar(Op::Mul(num(0x43dc_0000), share)))
        }),
    ensures
        exists|octaves: Scalar|
            #![trigger ar(Op::Pow(num(TWO), octaves))]
            {
                &&& 12 * octaves.units() == note.units() - 69 * unit()
                &&& hz_of_midi(ar, note).units() == 440 * ar(Op::Pow(num(TWO), octaves)).units()
            },
{
    concert_numbers_are_whole();
    let above = ar(Op::Sub(note, num(0x428a_0000)));
    let octaves = ar(Op::Div(above, num(0x4140_0000)));
    let share = ar(Op::Pow(num(TWO), octaves));
    let (u, x, a, s, h) = (
        unit(),
        octaves.units(),
        above.units(),
        share.units(),
        hz_of_midi(ar, note).units(),
    );
    assert(12 * x == a) by (nonlinear_arith)
        requires
            x * (12 * u) == a * u,
            u > 0,
    ;
    assert(h == 440 * s) by (nonlinear_arith)
        requires
            h * u == (440 * u) * s,
            u > 0,
    ;
    assert(12 * octaves.units() == note.units() - 69 * unit());
}

/// The note of a frequency lies above 69 by twelve times the logarithm to base 2 of how often 440
/// goes into the frequency.
pub proof fn frequencies_are_octaves_from_concert_pitch(ar: Arith, hz: Scalar)
    requires
        ({
            let share = ar(Op::Div(hz, num(0x43dc_0000)));
            let octaves = ar(Op::Log2(share));
            let above = ar(Op::Mul(num(0x4140_0000), octaves));
            &&& is_quotient(hz, num(0x43dc_0000), share)
            &&& is_product(num(0x4140_0000), octaves, above)
            &&& is_sum(num(0x428a_0000), above, ar(Op::Add(num(0x428a_0000), above)))
        }),
    ensures
        exists|share: Scalar|
            #![trigger ar(Op::Log2(share))]
            {
                &&& 440 * share.units() == hz.units()
                &&& midi_of_hz(ar, hz).units() == 69 * unit() + 12 * ar(Op::Log2(share)).units()
            },
{
    concert_numbers_are_whole();
    let share = ar(Op::Div(hz, num(0x43dc_0000)));
    let octaves = ar(Op::Log2(share));
    let above = ar(Op::Mul(num(0x4140_0000), octaves));
    let (u, s, h, o, a) = (unit(), share.units(), hz.units(), octaves.units(), above.units());
    assert(440 * s == h) by (nonlinear_arith)
        requires
            s * (440 * u) == h * u,
            u > 0,
    ;
    assert(a == 12 * o) by (nonlinear_arith)
        requires
            a * u == (12 * u) * o,
            u > 0,
    ;
    assert(440 * share.units() == hz.units());
}

/// What is no frequency has no note of the scale; everything else has one.
pub proof fn positive_frequencies_have_a_note(ar: Arith, kind: ScaleKind, root: int, hz: Scalar)
    ensures
        scale_hz(ar, kind, root, hz) is Some <==> hz.finite() && hz.units() > 0,
{
    concert_numbers_are_whole();
    assert(hz.finite() ==> !hz.nan());
}

/// The letters name the notes of the C major scale from C on; a sharp behind a letter raises its
/// note by a semitone and a flat lowers it by one, where there is a black key; no other text of
/// one or two characters is a name, and no longer one.
pub proof fn names_are_letters_with_accidentals(c: char, d: char, name: Seq<char>)
    ensures
        pitch_class_of(seq!['C']) == Some(0i32),
        pitch_class_of(seq!['D']) == Some(2i32),
        pitch_class_of(seq!['E']) == Some(4i32),
        pitch_class_of(seq!['F']) == Some(5i32),
        pitch_class_of(seq!['G']) == Some(7i32),
        pitch_class_of(seq!['A']) == Some(9i32),
        pitch_class_of(seq!['B']) == Some(11i32),
        pitch_class_of(seq![c]) is Some <==> 'A' <= c <= 'G',
        pitch_class_of(seq![c, '#']) is Some <==> 'A' <= c <= 'G' && c != 'B' && c != 'E',
        pitch_class_of(seq![c, 'B']) is Some <==> 'A' <= c <= 'G' && c != 'C' && c != 'F',
        pitch_class_of(seq![c, '#']) is Some ==> pitch_class_of(seq![c, '#'])->0
            == pitch_class_of(seq![c])->0 + 1,
        pitch_class_of(seq![c, 'B']) is Some ==> pitch_class_of(seq![c, 'B'])->0
            == pitch_class_of(seq![c])->0 - 1,
        d != '#' && d != 'B' ==> pitch_class_of(seq![c, d]) is None,
        name.len() == 0 || name.len() > 2 ==> pitch_class_of(name) is None,
{
    lemma_one_letter('C');
    lemma_one_letter('D');
    lemma_one_letter('E');
    lemma_one_letter('F');
    lemma_one_letter('G');
    lemma_one_letter('A');
    lemma_one_letter('B');
    lemma_one_letter(c);
    lemma_two_letters(c, '#');
    lemma_two_letters(c, 'B');
    lemma_two_letters(c, d);
    if name.len() == 0 || name.len() > 2 {
        lemma_other_lengths(name);
    }
}

proof fn lemma_one_letter(c: char)
    ensures
        pitch_class_of(seq![c]) == if c == 'C' {
            Some(0i32)
        } else if c == 'D' {
            Some(2i32)
        } else if c == 'E' {
            Some(4i32)
        } else if c == 'F' {
            Some(5i32)
        } else if c == 'G' {
            Some(7i32)
        } else if c == 'A' {
            Some(9i32)
        } else if c == 'B' {
            Some(11i32)
        } else {
            None
        },
{
    let s = seq![c];
    assert(s.len() == 1 && s[0] == c);
    assert forall|o: char| (s == seq![o]) == (c == o) by {
        assert(seq![o][0] == o);
    }
    assert forall|o: char, p: char| s != seq![o, p] by {
        assert(seq![o, p].len() == 2);
    }
}

proof fn lemma_two_letters(c: char, d: char)
    ensures
        pitch_class_of(seq![c, d]) == if d == '#' && c == 'C' || d == 'B' && c == 'D' {
            Some(1i32)
        } else if d == '#' && c == 'D' || d == 'B' && c == 'E' {
            Some(3i32)
        } else if d == '#' && c == 'F' || d == 'B' && c == 'G' {
            Some(6i32)
        } else if d == '#' && c == 'G' || d == 'B' && c == 'A' {
            Some(8i32)
        } else if d == '#' && c == 'A' || d == 'B' && c == 'B' {
            Some(10i32)
        } else {
            None
        },
{
    let s = seq![c, d];
    assert(s.len() == 2 && s[0] == c && s[1] == d);
    assert forall|o: char| s != seq![o] by {
        assert(seq![o].len() == 1);
    }
    assert forall|o: char, p: char| (s == seq![o, p]) == (c == o && d == p) by {
        assert(seq![o, p][0] == o && seq![o, p][1] == p);
    }
}

proof fn lemma_other_lengths(name: Seq<char>)
    requires
        name.len() == 0 || name.len() > 2,
    ensures
        pitch_class_of(name) is None,
{
    assert forall|o: char| name != seq![o] by {
        assert(seq![o].len() == 1);
    }
    assert forall|o: char, p: char| name != seq![o, p] by {
        assert(seq![o, p].len() == 2);
    }
}

} // verus!
