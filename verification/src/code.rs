//! Codes and feedback scoring.
//!
//! A [`Row`] is one code: a sequence of pins, each pin a color in
//! `[1, num_colors]`. Scoring one code against another yields a [`Response`]:
//! the number of pins matching in place, and the number of further pins whose
//! color occurs in the other code (the multiplicity-capped color overlap,
//! minus the exact matches).

use vstd::prelude::*;

use crate::GameError;

verus! {

/// The smaller of two naturals.
pub open spec fn min_nat(a: nat, b: nat) -> nat {
    if a <= b {
        a
    } else {
        b
    }
}

/// How many entries of `s` equal `c`.
pub open spec fn count_color(s: Seq<u8>, c: u8) -> nat
    decreases s.len(),
{
    if s.len() == 0 {
        0
    } else {
        count_color(s.drop_last(), c) + (if s.last() == c {
            1nat
        } else {
            0nat
        })
    }
}

/// How many positions hold the same color in `g` and `s`.
pub open spec fn spec_place_matches(g: Seq<u8>, s: Seq<u8>) -> nat
    decreases g.len(),
{
    if g.len() == 0 || s.len() == 0 {
        0
    } else {
        spec_place_matches(g.drop_last(), s.drop_last()) + (if g.last() == s.last() {
            1nat
        } else {
            0nat
        })
    }
}

/// Sum over the colors `1..=c` of the smaller of the two occurrence counts:
/// the multiplicity-capped color overlap of `g` and `s`.
pub open spec fn overlap_up_to(g: Seq<u8>, s: Seq<u8>, c: nat) -> nat
    decreases c,
{
    if c == 0 {
        0
    } else {
        overlap_up_to(g, s, (c - 1) as nat) + min_nat(
            count_color(g, c as u8),
            count_color(s, c as u8),
        )
    }
}

/// The multiplicity-capped color overlap over a full palette of `num_colors` colors.
pub open spec fn spec_total_overlap(g: Seq<u8>, s: Seq<u8>, num_colors: u8) -> nat {
    overlap_up_to(g, s, num_colors as nat)
}

/// Sum over the colors `1..=c` of the occurrence count in `g`.
spec fn sum_counts(g: Seq<u8>, c: nat) -> nat
    decreases c,
{
    if c == 0 {
        0
    } else {
        sum_counts(g, (c - 1) as nat) + count_color(g, c as u8)
    }
}

proof fn lemma_sum_counts_empty(c: nat)
    ensures
        sum_counts(Seq::<u8>::empty(), c) == 0,
    decreases c,
{
    if c > 0 {
        lemma_sum_counts_empty((c - 1) as nat);
    }
}

proof fn lemma_sum_counts_drop_last(g: Seq<u8>, c: nat)
    requires
        g.len() > 0,
        c <= 255,
    ensures
        sum_counts(g, c) == sum_counts(g.drop_last(), c) + (if 1 <= g.last() as nat
            && g.last() as nat <= c {
            1nat
        } else {
            0nat
        }),
    decreases c,
{
    if c > 0 {
        lemma_sum_counts_drop_last(g, (c - 1) as nat);
        assert(g.last() == c as u8 <==> g.last() as nat == c);
    }
}

proof fn lemma_sum_counts_eq_len(g: Seq<u8>, c: nat)
    requires
        c <= 255,
        forall|i: int| 0 <= i < g.len() ==> 1 <= #[trigger] g[i] as nat <= c,
    ensures
        sum_counts(g, c) == g.len(),
    decreases g.len(),
{
    if g.len() == 0 {
        assert(g =~= Seq::<u8>::empty());
        lemma_sum_counts_empty(c);
    } else {
        lemma_sum_counts_drop_last(g, c);
        assert(1 <= g[g.len() - 1] as nat <= c);
        assert(forall|i: int|
            0 <= i < g.drop_last().len() ==> 1 <= #[trigger] g.drop_last()[i] as nat <= c);
        lemma_sum_counts_eq_len(g.drop_last(), c);
    }
}

proof fn lemma_sum_counts_mono(g: Seq<u8>, c1: nat, c2: nat)
    requires
        c1 <= c2,
    ensures
        sum_counts(g, c1) <= sum_counts(g, c2),
    decreases c2,
{
    if c1 < c2 {
        lemma_sum_counts_mono(g, c1, (c2 - 1) as nat);
    }
}

proof fn lemma_overlap_le_sum_counts(g: Seq<u8>, s: Seq<u8>, c: nat)
    ensures
        overlap_up_to(g, s, c) <= sum_counts(g, c),
    decreases c,
{
    if c > 0 {
        lemma_overlap_le_sum_counts(g, s, (c - 1) as nat);
    }
}

/// Below every color that either last pin holds, dropping the last pins
/// changes no count, so the partial overlap is unchanged.
proof fn lemma_overlap_unchanged_below(g: Seq<u8>, s: Seq<u8>, c: nat)
    requires
        g.len() > 0,
        s.len() > 0,
        c < g.last() as nat,
        c < s.last() as nat,
    ensures
        overlap_up_to(g, s, c) == overlap_up_to(g.drop_last(), s.drop_last(), c),
    decreases c,
{
    if c > 0 {
        lemma_overlap_unchanged_below(g, s, (c - 1) as nat);
        assert(g.last() != c as u8);
        assert(s.last() != c as u8);
    }
}

/// Dropping a pair of equal last pins lowers the overlap by exactly one.
proof fn lemma_overlap_drop_last_eq(g: Seq<u8>, s: Seq<u8>, c: nat)
    requires
        g.len() > 0,
        s.len() > 0,
        g.last() == s.last(),
        1 <= g.last() as nat,
        g.last() as nat <= c,
        c <= 255,
    ensures
        overlap_up_to(g, s, c) == overlap_up_to(g.drop_last(), s.drop_last(), c) + 1,
    decreases c,
{
    let v = g.last() as nat;
    if c == v {
        lemma_overlap_unchanged_below(g, s, (c - 1) as nat);
        assert(g.last() == c as u8);
    } else {
        lemma_overlap_drop_last_eq(g, s, (c - 1) as nat);
        assert(g.last() != c as u8);
        assert(s.last() != c as u8);
    }
}

/// Dropping the last pins can only lower the overlap.
proof fn lemma_overlap_drop_last_le(g: Seq<u8>, s: Seq<u8>, c: nat)
    requires
        g.len() > 0,
        s.len() > 0,
    ensures
        overlap_up_to(g.drop_last(), s.drop_last(), c) <= overlap_up_to(g, s, c),
    decreases c,
{
    if c > 0 {
        lemma_overlap_drop_last_le(g, s, (c - 1) as nat);
    }
}

proof fn lemma_place_le_overlap(g: Seq<u8>, s: Seq<u8>, c: nat)
    requires
        g.len() == s.len(),
        c <= 255,
        forall|i: int| 0 <= i < g.len() ==> 1 <= #[trigger] g[i] as nat <= c,
        forall|i: int| 0 <= i < s.len() ==> 1 <= #[trigger] s[i] as nat <= c,
    ensures
        spec_place_matches(g, s) <= overlap_up_to(g, s, c),
    decreases g.len(),
{
    if g.len() > 0 {
        let g1 = g.drop_last();
        let s1 = s.drop_last();
        assert(forall|i: int| 0 <= i < g1.len() ==> 1 <= #[trigger] g1[i] as nat <= c);
        assert(forall|i: int| 0 <= i < s1.len() ==> 1 <= #[trigger] s1[i] as nat <= c);
        lemma_place_le_overlap(g1, s1, c);
        if g.last() == s.last() {
            assert(1 <= g[g.len() - 1] as nat <= c);
            lemma_overlap_drop_last_eq(g, s, c);
        } else {
            lemma_overlap_drop_last_le(g, s, c);
        }
    }
}

/// Law: feedback is bounded. The positional matches never exceed the
/// multiplicity-capped color overlap, and the overlap never exceeds the code
/// length, so `place_matches + color_matches <= num_pins` for every feedback.
pub proof fn lemma_feedback_bounds(g: Seq<u8>, s: Seq<u8>, c: u8)
    requires
        g.len() == s.len(),
        forall|i: int| 0 <= i < g.len() ==> 1 <= #[trigger] g[i] <= c,
        forall|i: int| 0 <= i < s.len() ==> 1 <= #[trigger] s[i] <= c,
    ensures
        spec_place_matches(g, s) <= spec_total_overlap(g, s, c),
        spec_total_overlap(g, s, c) <= g.len(),
{
    assert(forall|i: int| 0 <= i < g.len() ==> 1 <= #[trigger] g[i] as nat <= c as nat);
    assert(forall|i: int| 0 <= i < s.len() ==> 1 <= #[trigger] s[i] as nat <= c as nat);
    lemma_place_le_overlap(g, s, c as nat);
    lemma_overlap_le_sum_counts(g, s, c as nat);
    lemma_sum_counts_eq_len(g, c as nat);
}

/// The feedback to one guess: `right_place` pins match in place, and
/// `right_color` further pins have the right color in the wrong place.
#[derive(Clone, Copy, Debug, PartialEq, Eq, Structural)]
pub struct Response {
    pub right_color: u8,
    pub right_place: u8,
}

impl Response {
    pub fn new(right_color: u8, right_place: u8) -> (r: Response)
        ensures
            r.right_color == right_color,
            r.right_place == right_place,
    {
        Response { right_color, right_place }
    }

    pub fn right_color(&self) -> (c: u8)
        ensures
            c == self.right_color,
    {
        self.right_color
    }

    pub fn right_place(&self) -> (p: u8)
        ensures
            p == self.right_place,
    {
        self.right_place
    }

    pub fn get_tuple(&self) -> (t: (u8, u8))
        ensures
            t.0 == self.right_color,
            t.1 == self.right_place,
    {
        (self.right_color, self.right_place)
    }
}

/// One code: a row of `num_pins` pins, each a color in `[1, num_colors]`.
#[derive(Debug)]
pub struct Row {
    vals: Vec<u8>,
    num_colors: u8,
    num_pins: u8,
}

impl View for Row {
    type V = Seq<u8>;

    closed spec fn view(&self) -> Seq<u8> {
        self.vals@
    }
}

impl Row {
    /// The palette size this row was built for.
    pub closed spec fn colors(self) -> u8 {
        self.num_colors
    }

    /// The number of pins this row was built for.
    pub closed spec fn pins(self) -> u8 {
        self.num_pins
    }

    /// A well-formed row: its recorded pin count is its length, and every
    /// pin holds a color of the palette.
    pub open spec fn wf(self) -> bool {
        &&& self@.len() == self.pins() as nat
        &&& forall|i: int| 0 <= i < self@.len() ==> 1 <= #[trigger] self@[i] <= self.colors()
    }

    /// Build a code, rejecting any pin outside the palette and any length
    /// that a pin count cannot record.
    pub fn new(vals: Vec<u8>, num_colors: u8) -> (r: Result<Row, GameError>)
        ensures
            match r {
                Ok(row) => {
                    &&& row.wf()
                    &&& row@ == vals@
                    &&& row.colors() == num_colors
                    &&& row.pins() as nat == vals@.len()
                },
                Err(e) => {
                    &&& e == GameError::InvalidCode
                    &&& (vals@.len() > 255 || exists|i: int|
                        0 <= i < vals@.len() && !(1 <= #[trigger] vals@[i] <= num_colors))
                },
            },
    {
        if vals.len() > 255 {
            return Err(GameError::InvalidCode);
        }
        let mut i: usize = 0;
        while i < vals.len()
            invariant
                i <= vals@.len(),
                forall|j: int| 0 <= j < i ==> 1 <= #[trigger] vals@[j] <= num_colors,
            decreases vals@.len() - i,
        {
            if vals[i] < 1 || vals[i] > num_colors {
                return Err(GameError::InvalidCode);
            }
            i += 1;
        }
        let num_pins = vals.len() as u8;
        Ok(Row { vals, num_colors, num_pins })
    }

    /// Wrap pins already known to fit the game into a row.
    pub(crate) fn from_parts(vals: Vec<u8>, num_colors: u8, num_pins: u8) -> (r: Row)
        requires
            vals@.len() == num_pins as nat,
            forall|i: int| 0 <= i < vals@.len() ==> 1 <= #[trigger] vals@[i] <= num_colors,
        ensures
            r.wf(),
            r@ == vals@,
            r.colors() == num_colors,
            r.pins() == num_pins,
    {
        Row { vals, num_colors, num_pins }
    }

    /// The pins of this row, as a fresh vector.
    pub fn get_vals(&self) -> (v: Vec<u8>)
        ensures
            v@ == self@,
    {
        copy_u8s(&self.vals)
    }

    /// An identical row.
    pub fn duplicate(&self) -> (r: Row)
        ensures
            r@ == self@,
            r.colors() == self.colors(),
            r.pins() == self.pins(),
    {
        Row { vals: copy_u8s(&self.vals), num_colors: self.num_colors, num_pins: self.num_pins }
    }

    /// Score this row as a guess against `password`: the classical rule.
    /// `right_place` counts the exact positional matches; together with
    /// `right_color` it accounts for the whole multiplicity-capped color
    /// overlap of the two codes.
    pub fn get_response(&self, password: &Row) -> (r: Response)
        requires
            self.wf(),
            password.wf(),
            self@.len() == password@.len(),
            self.colors() == password.colors(),
        ensures
            r.right_place as nat == spec_place_matches(self@, password@),
            r.right_place + r.right_color == spec_total_overlap(self@, password@, self.colors()),
            r.right_color + r.right_place <= self@.len(),
    {
        let n = self.vals.len();
        let mut place: usize = 0;
        let mut i: usize = 0;
        while i < n
            invariant
                i <= n,
                n == self@.len(),
                n == password@.len(),
                place <= i,
                place as nat == spec_place_matches(self@.take(i as int), password@.take(i as int)),
            decreases n - i,
        {
            proof {
                assert(self@.take(i + 1).drop_last() =~= self@.take(i as int));
                assert(password@.take(i + 1).drop_last() =~= password@.take(i as int));
            }
            if self.vals[i] == password.vals[i] {
                place += 1;
            }
            i += 1;
        }
        proof {
            assert(self@.take(n as int) =~= self@);
            assert(password@.take(n as int) =~= password@);
        }

        let nc = self.num_colors;
        let mut overlap: usize = 0;
        let mut c: usize = 1;
        while c <= nc as usize
            invariant
                1 <= c <= nc as usize + 1,
                n == self@.len(),
                n == password@.len(),
                n <= 255,
                self.wf(),
                password.wf(),
                nc == self.colors(),
                nc == password.colors(),
                overlap as nat == overlap_up_to(self@, password@, (c - 1) as nat),
            decreases nc as int + 1 - c,
        {
            let cg = count_matching(&self.vals, c as u8);
            let cs = count_matching(&password.vals, c as u8);
            let m = if cg <= cs {
                cg
            } else {
                cs
            };
            proof {
                lemma_overlap_le_sum_counts(self@, password@, c as nat);
                lemma_sum_counts_mono(self@, c as nat, nc as nat);
                assert(forall|k: int|
                    0 <= k < self@.len() ==> 1 <= #[trigger] self@[k] as nat <= nc as nat);
                lemma_sum_counts_eq_len(self@, nc as nat);
            }
            overlap = overlap + m;
            c += 1;
        }
        proof {
            lemma_feedback_bounds(self@, password@, nc);
        }
        Response::new((overlap - place) as u8, place as u8)
    }
}

/// How many entries of `v` equal `color`.
fn count_matching(v: &Vec<u8>, color: u8) -> (n: usize)
    ensures
        n as nat == count_color(v@, color),
        n <= v@.len(),
{
    let mut n: usize = 0;
    let mut i: usize = 0;
    while i < v.len()
        invariant
            i <= v@.len(),
            n <= i,
            n as nat == count_color(v@.take(i as int), color),
        decreases v@.len() - i,
    {
        proof {
            assert(v@.take(i + 1).drop_last() =~= v@.take(i as int));
        }
        if v[i] == color {
            n += 1;
        }
        i += 1;
    }
    proof {
        assert(v@.take(v@.len() as int) =~= v@);
    }
    n
}

/// A fresh vector with the same contents.
pub(crate) fn copy_u8s(v: &Vec<u8>) -> (r: Vec<u8>)
    ensures
        r@ == v@,
{
    let mut r: Vec<u8> = Vec::new();
    let mut i: usize = 0;
    while i < v.len()
        invariant
            i <= v@.len(),
            r@ == v@.take(i as int),
        decreases v@.len() - i,
    {
        proof {
            assert(v@.take(i + 1).drop_last() =~= v@.take(i as int));
            assert(v@.take(i + 1) =~= v@.take(i as int).push(v@[i as int]));
        }
        r.push(v[i]);
        i += 1;
    }
    proof {
        assert(v@.take(v@.len() as int) =~= v@);
    }
    r
}

} // verus!
