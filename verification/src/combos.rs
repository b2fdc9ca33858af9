//! First-turn color-usage shapes.
//!
//! Before any feedback exists the colors are interchangeable, so every guess
//! is informationally equivalent to any other guess of the same shape: the
//! non-decreasing sequence of per-color pin counts. A [`Combo`] is one such
//! shape — an integer partition of the pin count into at most `num_colors`
//! parts. The shapes are enumerated depth-first, smallest next part first,
//! and each is turned into one concrete representative code by drawing
//! random distinct colors and permuting the pins.

use vstd::multiset::Multiset;
use vstd::prelude::*;

use crate::code::{copy_u8s, count_color, Row};
use crate::rng::shuffle_values;
use crate::space::{views_of_vecs, Space};
use crate::GameError;

verus! {

/// The sum of the parts of a shape.
pub open spec fn sum_parts(s: Seq<u8>) -> int
    decreases s.len(),
{
    if s.len() == 0 {
        0
    } else {
        sum_parts(s.drop_last()) + s.last()
    }
}

/// The parts never decrease from left to right.
pub open spec fn non_decreasing(s: Seq<u8>) -> bool {
    forall|a: int, b: int| #![trigger s[a], s[b]] 0 <= a <= b < s.len() ==> s[a] <= s[b]
}

/// Each partition of `list` prefixed with the part `v`.
pub open spec fn prepend_to_all(v: u8, list: Seq<Seq<u8>>) -> Seq<Seq<u8>> {
    list.map_values(|s: Seq<u8>| seq![v] + s)
}

/// All partitions of `n` into non-decreasing parts of at least `min`, in
/// depth-first order, smallest next part first.
pub open spec fn parts_from(min: nat, n: nat) -> Seq<Seq<u8>>
    decreases n, n + 2,
{
    if n == 0 {
        seq![Seq::<u8>::empty()]
    } else if min > n {
        Seq::empty()
    } else {
        parts_loop(min, n)
    }
}

/// The partitions of `n` whose first part runs over `i..=n`.
pub open spec fn parts_loop(i: nat, n: nat) -> Seq<Seq<u8>>
    decreases n, n + 1 - i,
{
    if i == 0 || i > n {
        Seq::empty()
    } else {
        prepend_to_all(i as u8, parts_from(i, (n - i) as nat)) + parts_loop(i + 1, n)
    }
}

/// The partitions of `list` with at most `max_parts` parts, order kept.
pub open spec fn filter_len_at_most(list: Seq<Seq<u8>>, max_parts: nat) -> Seq<Seq<u8>>
    decreases list.len(),
{
    if list.len() == 0 {
        Seq::empty()
    } else {
        filter_len_at_most(list.drop_last(), max_parts) + (if list.last().len() <= max_parts {
            seq![list.last()]
        } else {
            Seq::<Seq<u8>>::empty()
        })
    }
}

/// A valid partition entry: positive non-decreasing parts, each at least
/// `min`, summing to `n`, at most `n` of them.
pub open spec fn partition_wf(p: Seq<u8>, n: int, min: int) -> bool {
    &&& sum_parts(p) == n
    &&& non_decreasing(p)
    &&& forall|i: int| 0 <= i < p.len() ==> min <= #[trigger] p[i] as int
    &&& p.len() <= n
}

proof fn lemma_sum_parts_prepend(v: u8, s: Seq<u8>)
    ensures
        sum_parts(seq![v] + s) == v + sum_parts(s),
    decreases s.len(),
{
    if s.len() == 0 {
        assert(seq![v] + s =~= seq![v]);
        assert(seq![v].drop_last() =~= Seq::<u8>::empty());
        assert(sum_parts(Seq::<u8>::empty()) == 0);
        assert(seq![v].last() == v);
        assert(sum_parts(seq![v]) == v);
    } else {
        assert((seq![v] + s).drop_last() =~= seq![v] + s.drop_last());
        assert((seq![v] + s).last() == s.last());
        lemma_sum_parts_prepend(v, s.drop_last());
    }
}

proof fn lemma_parts_from_valid(min: nat, n: nat)
    requires
        1 <= min,
        n <= 255,
    ensures
        forall|t: int|
            0 <= t < parts_from(min, n).len() ==> partition_wf(
                #[trigger] parts_from(min, n)[t],
                n as int,
                min as int,
            ),
    decreases n, n + 2,
{
    if n == 0 {
        assert(parts_from(min, n).len() == 1);
        assert forall|t: int| 0 <= t < parts_from(min, n).len() implies partition_wf(
            #[trigger] parts_from(min, n)[t],
            n as int,
            min as int,
        ) by {
            assert(parts_from(min, n)[0] =~= Seq::<u8>::empty());
            assert(sum_parts(Seq::<u8>::empty()) == 0);
        }
    } else if min <= n {
        lemma_parts_loop_valid(min, n);
        assert(parts_from(min, n) == parts_loop(min, n));
    } else {
        assert(parts_from(min, n).len() == 0);
    }
}

proof fn lemma_parts_loop_valid(i: nat, n: nat)
    requires
        1 <= i <= n,
        1 <= n <= 255,
    ensures
        forall|t: int|
            0 <= t < parts_loop(i, n).len() ==> partition_wf(
                #[trigger] parts_loop(i, n)[t],
                n as int,
                i as int,
            ),
    decreases n, n + 1 - i,
{
    if i <= n {
        let sub = parts_from(i, (n - i) as nat);
        let block = prepend_to_all(i as u8, sub);
        lemma_parts_from_valid(i, (n - i) as nat);
        if i + 1 <= n {
            lemma_parts_loop_valid(i + 1, n);
        }
        assert forall|t: int| 0 <= t < parts_loop(i, n).len() implies partition_wf(
            #[trigger] parts_loop(i, n)[t],
            n as int,
            i as int,
        ) by {
            if t < block.len() {
                let x = sub[t];
                assert(block[t] == seq![i as u8] + x);
                assert(partition_wf(x, (n - i) as int, i as int));
                lemma_sum_parts_prepend(i as u8, x);
                let px = seq![i as u8] + x;
                assert forall|a: int, b: int|
                    #![trigger px[a], px[b]]
                    0 <= a <= b < px.len() implies px[a] <= px[b] by {
                    if a == 0 {
                        if b > 0 {
                            assert(px[b] == x[b - 1]);
                        }
                    } else {
                        assert(px[a] == x[a - 1]);
                        assert(px[b] == x[b - 1]);
                    }
                }
                assert(parts_loop(i, n)[t] == px);
            } else {
                let y = parts_loop(i + 1, n)[t - block.len()];
                assert(partition_wf(y, n as int, (i + 1) as int));
                assert(parts_loop(i, n)[t] == y);
            }
        }
    }
}

proof fn lemma_count_color_contains(s: Seq<u8>, v: u8)
    ensures
        count_color(s, v) > 0 <==> s.contains(v),
    decreases s.len(),
{
    if s.len() > 0 {
        lemma_count_color_contains(s.drop_last(), v);
        if s.last() == v {
            assert(s[s.len() - 1] == v);
        } else {
            if s.drop_last().contains(v) {
                let i = choose|i: int| 0 <= i < s.drop_last().len() && s.drop_last()[i] == v;
                assert(s[i] == v);
            }
            if s.contains(v) && !s.drop_last().contains(v) {
                let i = choose|i: int| 0 <= i < s.len() && s[i] == v;
                if i < s.len() - 1 {
                    assert(s.drop_last()[i] == v);
                }
            }
        }
    }
}

proof fn lemma_count_color_take_mono(s: Seq<u8>, v: u8, a: int, b: int)
    requires
        0 <= a <= b <= s.len(),
    ensures
        count_color(s.take(a), v) <= count_color(s.take(b), v),
    decreases b - a,
{
    if a < b {
        lemma_count_color_take_mono(s, v, a, b - 1);
        assert(s.take(b).drop_last() =~= s.take(b - 1));
    }
}

proof fn lemma_count_le_one_no_dup(s: Seq<u8>)
    requires
        forall|v: u8| #[trigger] count_color(s, v) <= 1,
    ensures
        s.no_duplicates(),
    decreases s.len(),
{
    if s.len() > 0 {
        let s1 = s.drop_last();
        let x = s.last();
        assert(forall|v: u8| #[trigger] count_color(s1, v) <= count_color(s, v));
        lemma_count_le_one_no_dup(s1);
        assert(count_color(s, x) == count_color(s1, x) + 1);
        assert(count_color(s1, x) == 0);
        lemma_count_color_contains(s1, x);
        assert forall|a: int, b: int|
            0 <= a < s.len() && 0 <= b < s.len() && a != b implies s[a] != s[b] by {
            if a < s.len() - 1 && b < s.len() - 1 {
                assert(s[a] == s1[a]);
                assert(s[b] == s1[b]);
            } else {
                let (p, q) = if a < b {
                    (a, b)
                } else {
                    (b, a)
                };
                assert(q == s.len() - 1);
                assert(s[p] == s1[p]);
                if s[p] == x {
                    assert(s1.contains(x));
                }
            }
        }
    }
}

proof fn lemma_count_color_multiset(s: Seq<u8>, v: u8)
    ensures
        count_color(s, v) == s.to_multiset().count(v),
    decreases s.len(),
{
    broadcast use vstd::seq_lib::group_to_multiset_ensures;
    broadcast use vstd::multiset::group_multiset_axioms;

    if s.len() == 0 {
        assert(s.to_multiset() =~= Multiset::<u8>::empty());
    } else {
        lemma_count_color_multiset(s.drop_last(), v);
        assert(s =~= s.drop_last().push(s.last()));
        assert(s.drop_last().push(s.last()).to_multiset() =~= s.drop_last().to_multiset().insert(
            s.last(),
        ));
    }
}

/// The views of a sequence of combos.
pub open spec fn views_of_combos(cs: Seq<Combo>) -> Seq<Seq<u8>> {
    cs.map_values(|c: Combo| c@)
}

/// `cols` are the distinct colors a shaped guess uses: one per part of the
/// shape, each in the palette, the i-th occurring exactly `shape[i]` times
/// in the guess, and no color outside `cols` occurring at all.
pub open spec fn guess_uses_shape(
    guess: Seq<u8>,
    cols: Seq<u8>,
    shape: Seq<u8>,
    num_colors: u8,
) -> bool {
    &&& cols.no_duplicates()
    &&& cols.len() == shape.len()
    &&& forall|i: int| 0 <= i < cols.len() ==> 1 <= #[trigger] cols[i] <= num_colors
    &&& forall|i: int|
        0 <= i < cols.len() ==> count_color(guess, #[trigger] cols[i]) == shape[i] as nat
    &&& forall|v: u8| !cols.contains(v) ==> #[trigger] count_color(guess, v) == 0
}

/// One first-turn shape: an integer partition of the pin count into at most
/// `num_colors` non-decreasing positive parts.
#[derive(Debug)]
pub struct Combo {
    vals: Vec<u8>,
    num_colors: u8,
    num_pins: u8,
}

impl View for Combo {
    type V = Seq<u8>;

    closed spec fn view(&self) -> Seq<u8> {
        self.vals@
    }
}

impl Combo {
    /// The palette size this shape was built for.
    pub closed spec fn colors(self) -> u8 {
        self.num_colors
    }

    /// The pin count this shape was built for.
    pub closed spec fn pins(self) -> u8 {
        self.num_pins
    }

    /// A well-formed shape: positive non-decreasing parts summing to the pin
    /// count, at most one part per color.
    pub open spec fn wf(self) -> bool {
        &&& non_decreasing(self@)
        &&& sum_parts(self@) == self.pins() as int
        &&& self@.len() <= self.colors() as nat
        &&& forall|i: int| 0 <= i < self@.len() ==> 1 <= #[trigger] self@[i]
    }

    /// Build a shape, rejecting parts that are zero, decreasing, too many
    /// for the palette, or of the wrong sum.
    pub fn new(color_vector: Vec<u8>, num_colors: u8, num_pins: u8) -> (r: Result<
        Combo,
        GameError,
    >)
        ensures
            match r {
                Ok(c) => {
                    &&& c.wf()
                    &&& c@ == color_vector@
                    &&& c.colors() == num_colors
                    &&& c.pins() == num_pins
                },
                Err(e) => {
                    &&& e == GameError::InvalidCode
                    &&& !(non_decreasing(color_vector@) && sum_parts(color_vector@)
                        == num_pins as int && color_vector@.len() <= num_colors as nat && (forall|
                        i: int,
                    |
                        0 <= i < color_vector@.len() ==> 1 <= #[trigger] color_vector@[i]))
                },
            },
    {
        if color_vector.len() > num_colors as usize {
            return Err(GameError::InvalidCode);
        }
        let mut total: u32 = 0;
        let mut i: usize = 0;
        while i < color_vector.len()
            invariant
                i <= color_vector@.len(),
                color_vector@.len() <= 255,
                total == sum_parts(color_vector@.take(i as int)),
                total <= 255 * i,
                forall|j: int| 0 <= j < i ==> 1 <= #[trigger] color_vector@[j],
                forall|a: int, b: int|
                    #![trigger color_vector@[a], color_vector@[b]]
                    0 <= a <= b < i ==> color_vector@[a] <= color_vector@[b],
            decreases color_vector@.len() - i,
        {
            proof {
                assert(color_vector@.take(i + 1).drop_last() =~= color_vector@.take(i as int));
            }
            if color_vector[i] < 1 {
                return Err(GameError::InvalidCode);
            }
            if i > 0 && color_vector[i] < color_vector[i - 1] {
                return Err(GameError::InvalidCode);
            }
            total = total + color_vector[i] as u32;
            i += 1;
        }
        proof {
            assert(color_vector@.take(color_vector@.len() as int) =~= color_vector@);
        }
        if total != num_pins as u32 {
            return Err(GameError::InvalidCode);
        }
        Ok(Combo { vals: color_vector, num_colors, num_pins })
    }

    /// The parts of this shape, as a fresh vector.
    pub fn get_vals(&self) -> (v: Vec<u8>)
        ensures
            v@ == self@,
    {
        copy_u8s(&self.vals)
    }

    /// How many distinct colors a guess of this shape uses.
    pub fn get_num_used_colors(&self) -> (n: u8)
        requires
            self.wf(),
        ensures
            n as nat == self@.len(),
    {
        self.vals.len() as u8
    }

    /// One concrete representative code of this shape: draw as many distinct
    /// colors as the shape has parts, repeat the i-th color `shape[i]` times,
    /// and permute the pins at random.
    pub fn combo_to_guess(&self) -> (r: Row)
        requires
            self.wf(),
        ensures
            r.wf(),
            r.colors() == self.colors(),
            r.pins() == self.pins(),
            r@.len() == sum_parts(self@),
            exists|cols: Seq<u8>| #[trigger] guess_uses_shape(r@, cols, self@, self.colors()),
    {
        let nc = self.num_colors;
        let mut palette: Vec<u8> = Vec::new();
        let mut c: usize = 1;
        while c <= nc as usize
            invariant
                1 <= c <= nc as usize + 1,
                palette@.len() == c - 1,
                forall|v: u8|
                    #[trigger] count_color(palette@, v) == (if 1 <= v as int && v as int <= c - 1 {
                        1nat
                    } else {
                        0nat
                    }),
            decreases nc as int + 1 - c,
        {
            let ghost oldp = palette@;
            palette.push(c as u8);
            proof {
                assert(palette@.drop_last() =~= oldp);
                assert(palette@.last() == c as u8);
                assert forall|v: u8|
                    #[trigger] count_color(palette@, v) == (if 1 <= v as int && v as int
                        <= c as int {
                        1nat
                    } else {
                        0nat
                    }) by {
                    assert(count_color(palette@, v) == count_color(oldp, v) + (if v == c as u8 {
                        1nat
                    } else {
                        0nat
                    }));
                }
            }
            c += 1;
        }
        let ghost fresh_palette = palette@;
        shuffle_values(&mut palette);
        proof {
            assert forall|v: u8|
                #[trigger] count_color(palette@, v) == (if 1 <= v as int && v as int <= nc as int {
                    1nat
                } else {
                    0nat
                }) by {
                lemma_count_color_multiset(palette@, v);
                lemma_count_color_multiset(fresh_palette, v);
            }
        }
        let k = self.vals.len();
        let mut guess: Vec<u8> = Vec::new();
        let mut i: usize = 0;
        while i < k
            invariant
                i <= k,
                k == self@.len(),
                self.wf(),
                nc == self.colors(),
                palette@.len() == nc as nat,
                k <= palette@.len(),
                forall|v: u8|
                    #[trigger] count_color(palette@, v) == (if 1 <= v as int && v as int
                        <= nc as int {
                        1nat
                    } else {
                        0nat
                    }),
                guess@.len() == sum_parts(self@.take(i as int)),
                forall|t: int|
                    0 <= t < i ==> count_color(guess@, #[trigger] palette@[t]) == self@[t] as nat,
                forall|v: u8|
                    !palette@.take(i as int).contains(v) ==> #[trigger] count_color(guess@, v)
                        == 0,
            decreases k - i,
        {
            let color = palette[i];
            let reps = self.vals[i];
            let ghost g0 = guess@;
            proof {
                // The color of this part has not been used yet.
                assert(palette@.take(i + 1).drop_last() =~= palette@.take(i as int));
                assert(palette@.take(i + 1).last() == color);
                assert(count_color(palette@.take(i + 1), color) == count_color(
                    palette@.take(i as int),
                    color,
                ) + 1);
                lemma_count_color_take_mono(palette@, color, i + 1, palette@.len() as int);
                assert(palette@.take(palette@.len() as int) =~= palette@);
                assert(count_color(palette@, color) >= 1);
                assert(1 <= color as int <= nc as int);
                assert(count_color(palette@.take(i as int), color) == 0);
                lemma_count_color_contains(palette@.take(i as int), color);
                assert(count_color(g0, color) == 0);
            }
            let mut done: u8 = 0;
            while done < reps
                invariant
                    done <= reps,
                    guess@.len() == g0.len() + done,
                    count_color(guess@, color) == count_color(g0, color) + done,
                    forall|v: u8|
                        v != color ==> #[trigger] count_color(guess@, v) == count_color(g0, v),
                decreases reps as int - done,
            {
                let ghost gprev = guess@;
                guess.push(color);
                proof {
                    assert(guess@.drop_last() =~= gprev);
                    assert(guess@.last() == color);
                    assert forall|v: u8| v != color implies #[trigger] count_color(guess@, v)
                        == count_color(gprev, v) by {}
                }
                done += 1;
            }
            proof {
                assert(self@.take(i + 1).drop_last() =~= self@.take(i as int));
                assert(self@.take(i + 1).last() == self@[i as int]);
                assert(count_color(guess@, color) == reps as nat);
                assert forall|t: int|
                    0 <= t < i + 1 implies count_color(guess@, #[trigger] palette@[t])
                    == self@[t] as nat by {
                    if t < i {
                        if palette@[t] == color {
                            assert(palette@.take(i as int)[t] == color);
                            assert(palette@.take(i as int).contains(color));
                            lemma_count_color_contains(palette@.take(i as int), color);
                        }
                        assert(palette@[t] != color);
                    }
                }
                assert forall|v: u8|
                    !palette@.take(i + 1).contains(v) implies #[trigger] count_color(guess@, v)
                    == 0 by {
                    assert(!palette@.take(i as int).contains(v)) by {
                        if palette@.take(i as int).contains(v) {
                            let t = choose|t: int|
                                0 <= t < i && palette@.take(i as int)[t] == v;
                            assert(palette@.take(i + 1)[t] == v);
                        }
                    }
                    assert(v != color) by {
                        assert(palette@.take(i + 1)[i as int] == color);
                    }
                }
            }
            i += 1;
        }
        proof {
            assert(self@.take(k as int) =~= self@);
            assert(guess@.len() == sum_parts(self@));
        }
        let ghost pre_shuffle = guess@;
        shuffle_values(&mut guess);
        proof {
            assert forall|v: u8|
                #[trigger] count_color(guess@, v) == count_color(pre_shuffle, v) by {
                lemma_count_color_multiset(guess@, v);
                lemma_count_color_multiset(pre_shuffle, v);
            }
            let cols = palette@.take(k as int);
            assert forall|v: u8| #[trigger] count_color(cols, v) <= 1 by {
                lemma_count_color_take_mono(palette@, v, k as int, palette@.len() as int);
                assert(palette@.take(palette@.len() as int) =~= palette@);
            }
            lemma_count_le_one_no_dup(cols);
            assert forall|t: int| 0 <= t < cols.len() implies 1 <= #[trigger] cols[t] <= nc by {
                assert(cols[t] == palette@[t]);
                assert(cols.contains(cols[t]));
                lemma_count_color_contains(cols, cols[t]);
                lemma_count_color_take_mono(palette@, cols[t], k as int, palette@.len() as int);
                assert(palette@.take(palette@.len() as int) =~= palette@);
                assert(count_color(palette@, cols[t]) >= 1);
            }
            assert(guess_uses_shape(guess@, cols, self@, nc));
            assert forall|idx: int| 0 <= idx < guess@.len() implies 1 <= #[trigger] guess@[idx]
                <= nc by {
                let v = guess@[idx];
                assert(guess@.contains(v));
                lemma_count_color_contains(guess@, v);
                if !cols.contains(v) {
                    assert(count_color(guess@, v) == 0);
                } else {
                    let t = choose|t: int| 0 <= t < cols.len() && cols[t] == v;
                }
            }
            assert(guess@.len() == self.pins() as nat);
        }
        Row::from_parts(guess, self.num_colors, self.num_pins)
    }

    /// All first-turn shapes of a game: the partitions of `num_pins` with at
    /// most `num_colors` parts, in depth-first order, smallest part first.
    pub fn find_possible_starting_combos(num_colors: u8, num_pins: u8) -> (r: Vec<Combo>)
        ensures
            views_of_combos(r@) == filter_len_at_most(
                parts_from(1, num_pins as nat),
                num_colors as nat,
            ),
            forall|i: int|
                0 <= i < r@.len() ==> (#[trigger] r@[i]).wf() && r@[i].colors() == num_colors
                    && r@[i].pins() == num_pins,
    {
        let all = Self::next_num_search(1, num_pins);
        proof {
            lemma_parts_from_valid(1, num_pins as nat);
        }
        let ghost full = views_of_vecs(all@);
        let mut r: Vec<Combo> = Vec::new();
        let mut i: usize = 0;
        while i < all.len()
            invariant
                i <= all@.len(),
                full == views_of_vecs(all@),
                full == parts_from(1, num_pins as nat),
                forall|t: int|
                    0 <= t < full.len() ==> partition_wf(#[trigger] full[t], num_pins as int, 1),
                views_of_combos(r@) == filter_len_at_most(full.take(i as int), num_colors as nat),
                forall|t: int|
                    0 <= t < r@.len() ==> (#[trigger] r@[t]).wf() && r@[t].colors() == num_colors
                        && r@[t].pins() == num_pins,
            decreases all@.len() - i,
        {
            proof {
                assert(full.take(i + 1).drop_last() =~= full.take(i as int));
                assert(full.take(i + 1).last() == full[i as int]);
                assert(full[i as int] == all@[i as int]@);
            }
            if all[i].len() <= num_colors as usize {
                let vals = copy_u8s(&all[i]);
                let ghost old_r = r@;
                let combo = Combo { vals, num_colors, num_pins };
                r.push(combo);
                proof {
                    assert(partition_wf(full[i as int], num_pins as int, 1));
                    assert(views_of_combos(r@) =~= views_of_combos(old_r).push(full[i as int]));
                }
            }
            i += 1;
        }
        proof {
            assert(full.take(all@.len() as int) =~= full);
        }
        r
    }

    /// Enumerate the partitions of `n_left` into non-decreasing parts of at
    /// least `min`, depth-first, trying the smallest next part first.
    fn next_num_search(min: u8, n_left: u8) -> (r: Vec<Vec<u8>>)
        requires
            min >= 1,
        ensures
            views_of_vecs(r@) == parts_from(min as nat, n_left as nat),
        decreases n_left,
    {
        let mut r: Vec<Vec<u8>> = Vec::new();
        if n_left == 0 {
            r.push(Vec::new());
            proof {
                assert(views_of_vecs(r@) =~= parts_from(min as nat, 0));
            }
            return r;
        }
        let mut i: usize = min as usize;
        while i <= n_left as usize
            invariant
                min as usize <= i,
                i <= 256,
                min >= 1,
                n_left >= 1,
                views_of_vecs(r@) + parts_loop(i as nat, n_left as nat) == parts_loop(
                    min as nat,
                    n_left as nat,
                ),
            decreases n_left as int + 1 - i,
        {
            let sub = Self::next_num_search(i as u8, n_left - i as u8);
            let ghost subs = views_of_vecs(sub@);
            let ghost r0 = views_of_vecs(r@);
            let mut j: usize = 0;
            while j < sub.len()
                invariant
                    j <= sub@.len(),
                    i <= 255,
                    subs == views_of_vecs(sub@),
                    r0 + prepend_to_all(i as u8, subs.take(j as int)) == views_of_vecs(r@),
                decreases sub@.len() - j,
            {
                let mut part: Vec<u8> = Vec::new();
                part.push(i as u8);
                let rest = copy_u8s(&sub[j]);
                let mut t: usize = 0;
                while t < rest.len()
                    invariant
                        t <= rest@.len(),
                        i <= 255,
                        rest@ == subs[j as int],
                        j < subs.len(),
                        part@ == seq![i as u8] + rest@.take(t as int),
                    decreases rest@.len() - t,
                {
                    part.push(rest[t]);
                    proof {
                        assert(rest@.take(t + 1) =~= rest@.take(t as int).push(rest@[t as int]));
                        assert(part@ =~= seq![i as u8] + rest@.take(t + 1));
                    }
                    t += 1;
                }
                proof {
                    assert(rest@.take(rest@.len() as int) =~= rest@);
                    assert(part@ == seq![i as u8] + subs[j as int]);
                }
                let ghost old_r = r@;
                r.push(part);
                proof {
                    assert(views_of_vecs(r@) =~= views_of_vecs(old_r).push(
                        seq![i as u8] + subs[j as int],
                    ));
                    assert(subs.take(j + 1) =~= subs.take(j as int).push(subs[j as int]));
                    assert(prepend_to_all(i as u8, subs.take(j + 1)) =~= prepend_to_all(
                        i as u8,
                        subs.take(j as int),
                    ).push(seq![i as u8] + subs[j as int]));
                    assert(r0 + prepend_to_all(i as u8, subs.take(j + 1)) =~= views_of_vecs(r@));
                }
                j += 1;
            }
            proof {
                assert(subs.take(sub@.len() as int) =~= subs);
                assert(views_of_vecs(r@) =~= r0 + prepend_to_all(i as u8, subs));
                assert(parts_loop(i as nat, n_left as nat) == prepend_to_all(i as u8, subs)
                    + parts_loop((i + 1) as nat, n_left as nat));
                assert(views_of_vecs(r@) + parts_loop((i + 1) as nat, n_left as nat)
                    =~= parts_loop(min as nat, n_left as nat));
            }
            i += 1;
        }
        proof {
            assert(parts_loop(i as nat, n_left as nat) =~= Seq::<Seq<u8>>::empty());
            assert(views_of_vecs(r@) =~= views_of_vecs(r@) + parts_loop(i as nat, n_left as nat));
            if min > n_left {
                assert(parts_loop(min as nat, n_left as nat) =~= Seq::<Seq<u8>>::empty());
            }
        }
        r
    }
}

impl Space {
    /// The reduced first-turn guess pool: one concrete representative code
    /// per color-usage shape of the game.
    pub fn first_turn_pool(&self) -> (pool: Vec<Row>)
        requires
            self.wf(),
        ensures
            pool@.len() == filter_len_at_most(
                parts_from(1, self.pins() as nat),
                self.colors() as nat,
            ).len(),
            forall|i: int|
                0 <= i < pool@.len() ==> (#[trigger] pool@[i]).wf() && pool@[i].colors()
                    == self.colors() && pool@[i].pins() == self.pins(),
    {
        let combos = Combo::find_possible_starting_combos(
            self.get_num_colors(),
            self.get_num_pins(),
        );
        let mut pool: Vec<Row> = Vec::new();
        let mut i: usize = 0;
        while i < combos.len()
            invariant
                i <= combos@.len(),
                pool@.len() == i,
                views_of_combos(combos@) == filter_len_at_most(
                    parts_from(1, self.pins() as nat),
                    self.colors() as nat,
                ),
                forall|t: int|
                    0 <= t < combos@.len() ==> (#[trigger] combos@[t]).wf() && combos@[t].colors()
                        == self.colors() && combos@[t].pins() == self.pins(),
                forall|t: int|
                    0 <= t < pool@.len() ==> (#[trigger] pool@[t]).wf() && pool@[t].colors()
                        == self.colors() && pool@[t].pins() == self.pins(),
            decreases combos@.len() - i,
        {
            let guess = combos[i].combo_to_guess();
            pool.push(guess);
            i += 1;
        }
        proof {
            assert(views_of_combos(combos@).len() == combos@.len());
        }
        pool
    }
}

} // verus!
