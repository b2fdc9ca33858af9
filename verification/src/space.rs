//! The candidate space.
//!
//! A [`Space`] holds `full_space`, the complete enumeration of codes for a
//! game, and `current_space`, the candidates still consistent with every
//! feedback observed so far. The full space is built once, as the Cartesian
//! product of the palette over the pin positions; trimming only ever filters
//! the current space.

use vstd::prelude::*;

use crate::code::{copy_u8s, spec_place_matches, spec_total_overlap, Response, Row};
use crate::rng::random_index;
use crate::GameError;

verus! {

/// `base` to the power `e`.
pub open spec fn pow_nat(base: nat, e: nat) -> nat
    decreases e,
{
    if e == 0 {
        1
    } else {
        base * pow_nat(base, (e - 1) as nat)
    }
}

/// The codes that extend `code` by one pin, the new pin running over `1..=k`.
pub open spec fn extend_code(code: Seq<u8>, k: nat) -> Seq<Seq<u8>>
    decreases k,
{
    if k == 0 {
        Seq::empty()
    } else {
        extend_code(code, (k - 1) as nat).push(code.push(k as u8))
    }
}

/// Each code of `codes` in turn extended by one pin over `1..=k`.
pub open spec fn extend_codes(codes: Seq<Seq<u8>>, k: nat) -> Seq<Seq<u8>>
    decreases codes.len(),
{
    if codes.len() == 0 {
        Seq::empty()
    } else {
        extend_code(codes.first(), k) + extend_codes(codes.drop_first(), k)
    }
}

/// Every code of `pins` pins over the colors `1..=colors`, enumerated
/// lexicographically with the last pin varying fastest.
pub open spec fn all_codes(colors: nat, pins: nat) -> Seq<Seq<u8>>
    decreases pins,
{
    if pins == 0 {
        seq![Seq::<u8>::empty()]
    } else {
        extend_codes(all_codes(colors, (pins - 1) as nat), colors)
    }
}

/// The views of a sequence of pin vectors.
pub open spec fn views_of_vecs(vs: Seq<Vec<u8>>) -> Seq<Seq<u8>> {
    vs.map_values(|v: Vec<u8>| v@)
}

/// The views of a sequence of rows.
pub open spec fn views_of_rows(rs: Seq<Row>) -> Seq<Seq<u8>> {
    rs.map_values(|r: Row| r@)
}

proof fn lemma_pow_pos(base: nat, e: nat)
    requires
        base >= 1,
    ensures
        pow_nat(base, e) >= 1,
    decreases e,
{
    if e > 0 {
        lemma_pow_pos(base, (e - 1) as nat);
        assert(base * pow_nat(base, (e - 1) as nat) >= 1) by (nonlinear_arith)
            requires
                base >= 1,
                pow_nat(base, (e - 1) as nat) >= 1,
        ;
    }
}

proof fn lemma_extend_code_props(code: Seq<u8>, k: nat)
    requires
        k <= 255,
    ensures
        extend_code(code, k).len() == k,
        forall|i: int|
            0 <= i < k ==> #[trigger] extend_code(code, k)[i] == code.push((i + 1) as u8),
    decreases k,
{
    if k > 0 {
        lemma_extend_code_props(code, (k - 1) as nat);
    }
}

proof fn lemma_extend_codes_push(codes: Seq<Seq<u8>>, x: Seq<u8>, k: nat)
    ensures
        extend_codes(codes.push(x), k) == extend_codes(codes, k) + extend_code(x, k),
    decreases codes.len(),
{
    if codes.len() == 0 {
        assert(codes.push(x).len() == 1);
        assert(codes.push(x).first() == x);
        assert(codes.push(x).drop_first() =~= Seq::<Seq<u8>>::empty());
        assert(extend_codes(codes.push(x), k) == extend_code(x, k) + extend_codes(
            Seq::<Seq<u8>>::empty(),
            k,
        ));
        assert(extend_codes(codes.push(x), k) =~= extend_codes(codes, k) + extend_code(x, k));
    } else {
        assert(codes.push(x).drop_first() =~= codes.drop_first().push(x));
        lemma_extend_codes_push(codes.drop_first(), x, k);
        assert(extend_codes(codes.push(x), k) =~= extend_codes(codes, k) + extend_code(x, k));
    }
}

proof fn lemma_extend_codes_len(codes: Seq<Seq<u8>>, k: nat)
    requires
        k <= 255,
    ensures
        extend_codes(codes, k).len() == codes.len() * k,
    decreases codes.len(),
{
    if codes.len() > 0 {
        lemma_extend_code_props(codes.first(), k);
        lemma_extend_codes_len(codes.drop_first(), k);
        assert(codes.len() * k == k + (codes.len() - 1) * k) by (nonlinear_arith)
            requires
                codes.len() >= 1,
        ;
    }
}

/// Every member of `extend_codes(codes, k)` is a member of `codes` with one
/// more pin, that pin in `1..=k`.
proof fn lemma_extend_codes_member(codes: Seq<Seq<u8>>, k: nat, y: Seq<u8>)
    requires
        k <= 255,
        extend_codes(codes, k).contains(y),
    ensures
        y.len() >= 1,
        codes.contains(y.drop_last()),
        1 <= y.last() as nat <= k,
    decreases codes.len(),
{
    let first = codes.first();
    let rest = codes.drop_first();
    lemma_extend_code_props(first, k);
    let idx = choose|idx: int|
        0 <= idx < extend_codes(codes, k).len() && extend_codes(codes, k)[idx] == y;
    if idx < k {
        assert(y == first.push((idx + 1) as u8));
        assert(y.drop_last() =~= first);
        assert(codes[0] == first);
    } else {
        assert(extend_codes(rest, k)[idx - k] == y);
        assert(extend_codes(rest, k).contains(y));
        lemma_extend_codes_member(rest, k, y);
        let j = choose|j: int| 0 <= j < rest.len() && rest[j] == y.drop_last();
        assert(codes[j + 1] == y.drop_last());
    }
}

/// Every member of `codes`, extended by any pin in `1..=k`, is a member of
/// `extend_codes(codes, k)`.
proof fn lemma_extend_codes_complete(codes: Seq<Seq<u8>>, k: nat, z: Seq<u8>, j: nat)
    requires
        k <= 255,
        codes.contains(z),
        1 <= j <= k,
    ensures
        extend_codes(codes, k).contains(z.push(j as u8)),
    decreases codes.len(),
{
    let first = codes.first();
    let rest = codes.drop_first();
    lemma_extend_code_props(first, k);
    let idx = choose|idx: int| 0 <= idx < codes.len() && codes[idx] == z;
    if idx == 0 {
        assert(extend_code(first, k)[j - 1] == first.push(j as u8));
        assert(extend_codes(codes, k)[j - 1] == z.push(j as u8));
        assert(extend_codes(codes, k).contains(z.push(j as u8)));
    } else {
        assert(rest[idx - 1] == z);
        assert(rest.contains(z));
        lemma_extend_codes_complete(rest, k, z, j);
        let t = choose|t: int|
            0 <= t < extend_codes(rest, k).len() && extend_codes(rest, k)[t] == z.push(j as u8);
        assert(extend_codes(codes, k)[k + t] == z.push(j as u8));
        assert(extend_codes(codes, k).contains(z.push(j as u8)));
    }
}

proof fn lemma_all_codes_complete(c: nat, p: nat, x: Seq<u8>)
    requires
        c <= 255,
        x.len() == p,
        forall|j: int| 0 <= j < x.len() ==> 1 <= #[trigger] x[j] as nat <= c,
    ensures
        all_codes(c, p).contains(x),
    decreases p,
{
    if p == 0 {
        assert(x =~= Seq::<u8>::empty());
        assert(all_codes(c, 0)[0] == x);
        assert(all_codes(c, 0).contains(x));
    } else {
        let z = x.drop_last();
        assert(forall|j: int| 0 <= j < z.len() ==> 1 <= #[trigger] z[j] as nat <= c);
        lemma_all_codes_complete(c, (p - 1) as nat, z);
        assert(1 <= x[x.len() - 1] as nat <= c);
        lemma_extend_codes_complete(all_codes(c, (p - 1) as nat), c, z, x.last() as nat);
        assert(z.push(x.last()) =~= x);
    }
}

proof fn lemma_extend_code_no_dup(code: Seq<u8>, k: nat)
    requires
        k <= 255,
    ensures
        extend_code(code, k).no_duplicates(),
{
    lemma_extend_code_props(code, k);
    let ec = extend_code(code, k);
    assert forall|i: int, j: int|
        0 <= i < ec.len() && 0 <= j < ec.len() && i != j implies ec[i] != ec[j] by {
        assert(ec[i].last() == (i + 1) as u8);
        assert(ec[j].last() == (j + 1) as u8);
    }
}

proof fn lemma_extend_codes_no_dup(codes: Seq<Seq<u8>>, k: nat)
    requires
        k <= 255,
        codes.no_duplicates(),
    ensures
        extend_codes(codes, k).no_duplicates(),
    decreases codes.len(),
{
    if codes.len() > 0 {
        let first = codes.first();
        let rest = codes.drop_first();
        let block = extend_code(first, k);
        let tail = extend_codes(rest, k);
        let ec = extend_codes(codes, k);
        assert(forall|i: int| 0 <= i < rest.len() ==> rest[i] == codes[i + 1]);
        assert(rest.no_duplicates());
        lemma_extend_codes_no_dup(rest, k);
        lemma_extend_code_no_dup(first, k);
        lemma_extend_code_props(first, k);
        assert forall|i: int, j: int|
            0 <= i < ec.len() && 0 <= j < ec.len() && i != j implies ec[i] != ec[j] by {
            if i < k && j < k {
                assert(ec[i] == block[i]);
                assert(ec[j] == block[j]);
            } else if i >= k && j >= k {
                assert(ec[i] == tail[i - k]);
                assert(ec[j] == tail[j - k]);
            } else {
                let (bi, ti) = if i < k {
                    (i, j)
                } else {
                    (j, i)
                };
                assert(ec[bi] == block[bi]);
                assert(ec[ti] == tail[ti - k]);
                assert(ec[bi].drop_last() =~= first);
                if ec[bi] == ec[ti] {
                    assert(tail.contains(ec[ti]));
                    lemma_extend_codes_member(rest, k, ec[ti]);
                    let j2 = choose|j2: int|
                        0 <= j2 < rest.len() && rest[j2] == ec[ti].drop_last();
                    assert(codes[j2 + 1] == first);
                    assert(codes[0] == first);
                }
            }
        }
    }
}

proof fn lemma_all_codes_props_nat(c: nat, p: nat)
    requires
        c <= 255,
    ensures
        all_codes(c, p).len() == pow_nat(c, p),
        all_codes(c, p).no_duplicates(),
        forall|i: int|
            0 <= i < all_codes(c, p).len() ==> (#[trigger] all_codes(c, p)[i]).len() == p,
        forall|i: int, j: int|
            0 <= i < all_codes(c, p).len() && 0 <= j < p ==> 1 <= #[trigger] all_codes(
                c,
                p,
            )[i][j] as nat <= c,
    decreases p,
{
    if p == 0 {
        assert(all_codes(c, 0).no_duplicates());
    } else {
        lemma_all_codes_props_nat(c, (p - 1) as nat);
        let prev = all_codes(c, (p - 1) as nat);
        let ac = all_codes(c, p);
        lemma_extend_codes_len(prev, c);
        assert(prev.len() * c == c * prev.len()) by (nonlinear_arith);
        lemma_extend_codes_no_dup(prev, c);
        assert forall|i: int| 0 <= i < ac.len() implies (#[trigger] ac[i]).len() == p by {
            assert(ac.contains(ac[i]));
            lemma_extend_codes_member(prev, c, ac[i]);
            let idx = choose|idx: int| 0 <= idx < prev.len() && prev[idx] == ac[i].drop_last();
            assert(prev[idx].len() == p - 1);
        }
        assert forall|i: int, j: int|
            0 <= i < ac.len() && 0 <= j < p implies 1 <= #[trigger] ac[i][j] as nat <= c by {
            assert(ac.contains(ac[i]));
            lemma_extend_codes_member(prev, c, ac[i]);
            let idx = choose|idx: int| 0 <= idx < prev.len() && prev[idx] == ac[i].drop_last();
            if j < p - 1 {
                assert(ac[i][j] == ac[i].drop_last()[j]);
                assert(1 <= prev[idx][j] as nat <= c);
            } else {
                assert(ac[i][j] == ac[i].last());
            }
        }
    }
}

/// Law: the full space is exact. For `colors` colors and `pins` pins the
/// enumeration holds `colors ^ pins` codes, no two alike, each of length
/// `pins` with every pin a color of the palette — and every such code is in
/// the enumeration.
pub proof fn lemma_full_space_props(colors: u8, pins: u8)
    ensures
        all_codes(colors as nat, pins as nat).len() == pow_nat(colors as nat, pins as nat),
        all_codes(colors as nat, pins as nat).no_duplicates(),
        forall|i: int|
            0 <= i < all_codes(colors as nat, pins as nat).len() ==> (#[trigger] all_codes(
                colors as nat,
                pins as nat,
            )[i]).len() == pins as nat,
        forall|i: int, j: int|
            0 <= i < all_codes(colors as nat, pins as nat).len() && 0 <= j < pins as nat ==> 1 <= #[trigger] all_codes(
                colors as nat,
                pins as nat,
            )[i][j] <= colors,
        forall|x: Seq<u8>|
            x.len() == pins as nat && (forall|j: int|
                0 <= j < x.len() ==> 1 <= #[trigger] x[j] <= colors) ==> #[trigger] all_codes(
                colors as nat,
                pins as nat,
            ).contains(x),
{
    lemma_all_codes_props_nat(colors as nat, pins as nat);
    assert forall|x: Seq<u8>|
        x.len() == pins as nat && (forall|j: int| 0 <= j < x.len() ==> 1 <= #[trigger] x[j]
            <= colors) implies #[trigger] all_codes(colors as nat, pins as nat).contains(x) by {
        assert(forall|j: int| 0 <= j < x.len() ==> 1 <= #[trigger] x[j] as nat <= colors as nat);
        lemma_all_codes_complete(colors as nat, pins as nat, x);
    }
}

/// Does `code` produce exactly the observed feedback when `guess` is scored
/// against it? The feedback is carried as its place count and its total
/// overlap (place plus color matches).
pub open spec fn code_consistent(
    code: Seq<u8>,
    guess: Seq<u8>,
    colors: u8,
    fb_place: nat,
    fb_overlap: nat,
) -> bool {
    &&& spec_place_matches(guess, code) == fb_place
    &&& spec_total_overlap(guess, code, colors) == fb_overlap
}

/// The members of `s` consistent with the observed feedback, in order.
pub open spec fn trim_seq(
    s: Seq<Seq<u8>>,
    guess: Seq<u8>,
    colors: u8,
    fb_place: nat,
    fb_overlap: nat,
) -> Seq<Seq<u8>>
    decreases s.len(),
{
    if s.len() == 0 {
        Seq::empty()
    } else {
        trim_seq(s.drop_last(), guess, colors, fb_place, fb_overlap) + (if code_consistent(
            s.last(),
            guess,
            colors,
            fb_place,
            fb_overlap,
        ) {
            seq![s.last()]
        } else {
            Seq::<Seq<u8>>::empty()
        })
    }
}

/// Law: trimming is monotonic; it never grows the candidate set.
pub proof fn lemma_trim_len(s: Seq<Seq<u8>>, guess: Seq<u8>, colors: u8, fbp: nat, fbo: nat)
    ensures
        trim_seq(s, guess, colors, fbp, fbo).len() <= s.len(),
    decreases s.len(),
{
    if s.len() > 0 {
        lemma_trim_len(s.drop_last(), guess, colors, fbp, fbo);
    }
}

/// Law: a trim keeps exactly the members consistent with the feedback.
pub proof fn lemma_trim_membership(
    s: Seq<Seq<u8>>,
    guess: Seq<u8>,
    colors: u8,
    fbp: nat,
    fbo: nat,
)
    ensures
        forall|x: Seq<u8>|
            #[trigger] trim_seq(s, guess, colors, fbp, fbo).contains(x) <==> s.contains(x)
                && code_consistent(x, guess, colors, fbp, fbo),
    decreases s.len(),
{
    let t = trim_seq(s, guess, colors, fbp, fbo);
    if s.len() == 0 {
        assert forall|x: Seq<u8>| #[trigger] t.contains(x) implies s.contains(x)
            && code_consistent(x, guess, colors, fbp, fbo) by {}
    } else {
        let s1 = s.drop_last();
        lemma_trim_membership(s1, guess, colors, fbp, fbo);
        let t1 = trim_seq(s1, guess, colors, fbp, fbo);
        assert forall|x: Seq<u8>| #[trigger] t.contains(x) implies s.contains(x)
            && code_consistent(x, guess, colors, fbp, fbo) by {
            let idx = choose|idx: int| 0 <= idx < t.len() && t[idx] == x;
            if idx < t1.len() {
                assert(t1.contains(x));
                let j = choose|j: int| 0 <= j < s1.len() && s1[j] == x;
                assert(s[j] == x);
            } else {
                assert(x == s.last());
                assert(s[s.len() - 1] == x);
            }
        }
        assert forall|x: Seq<u8>|
            s.contains(x) && code_consistent(x, guess, colors, fbp, fbo) implies #[trigger] t
            .contains(x) by {
            let idx = choose|idx: int| 0 <= idx < s.len() && s[idx] == x;
            if idx < s.len() - 1 {
                assert(s1[idx] == x);
                assert(s1.contains(x));
                assert(t1.contains(x));
                let j = choose|j: int| 0 <= j < t1.len() && t1[j] == x;
                assert(t[j] == x);
            } else {
                assert(x == s.last());
                assert(t[t.len() - 1] == x);
            }
        }
    }
}

/// Law: trimming twice with the same guess and feedback changes nothing
/// beyond the first trim.
pub proof fn lemma_trim_idempotent(
    s: Seq<Seq<u8>>,
    guess: Seq<u8>,
    colors: u8,
    fbp: nat,
    fbo: nat,
)
    ensures
        trim_seq(trim_seq(s, guess, colors, fbp, fbo), guess, colors, fbp, fbo) == trim_seq(
            s,
            guess,
            colors,
            fbp,
            fbo,
        ),
    decreases s.len(),
{
    if s.len() > 0 {
        let s1 = s.drop_last();
        lemma_trim_idempotent(s1, guess, colors, fbp, fbo);
        let t1 = trim_seq(s1, guess, colors, fbp, fbo);
        if code_consistent(s.last(), guess, colors, fbp, fbo) {
            let t = t1 + seq![s.last()];
            assert(t.drop_last() =~= t1);
            assert(trim_seq(t, guess, colors, fbp, fbo) =~= trim_seq(
                t1,
                guess,
                colors,
                fbp,
                fbo,
            ) + seq![s.last()]);
        } else {
            assert(trim_seq(s, guess, colors, fbp, fbo) =~= t1);
        }
    }
}

/// Law: the secret survives every trim. A candidate whose own feedback was
/// observed is kept by the trim for that feedback.
pub proof fn lemma_secret_survives_trim(
    s: Seq<Seq<u8>>,
    guess: Seq<u8>,
    colors: u8,
    secret: Seq<u8>,
)
    requires
        s.contains(secret),
    ensures
        trim_seq(
            s,
            guess,
            colors,
            spec_place_matches(guess, secret),
            spec_total_overlap(guess, secret, colors),
        ).contains(secret),
{
    lemma_trim_membership(
        s,
        guess,
        colors,
        spec_place_matches(guess, secret),
        spec_total_overlap(guess, secret, colors),
    );
}

/// The candidate space of one game: the full enumeration, and the candidates
/// still consistent with every observed feedback.
pub struct Space {
    current_space: Vec<Row>,
    full_space: Vec<Row>,
    num_colors: u8,
    num_pins: u8,
}

impl Space {
    /// The palette size of this game.
    pub closed spec fn colors(self) -> u8 {
        self.num_colors
    }

    /// The pin count of this game.
    pub closed spec fn pins(self) -> u8 {
        self.num_pins
    }

    /// The live candidate codes.
    pub closed spec fn current(self) -> Seq<Seq<u8>> {
        views_of_rows(self.current_space@)
    }

    /// The complete enumeration of codes.
    pub closed spec fn full(self) -> Seq<Seq<u8>> {
        views_of_rows(self.full_space@)
    }

    /// A well-formed space: built for at least one color and one pin, its
    /// full space is the complete enumeration, and every stored row fits
    /// the game.
    pub closed spec fn wf(self) -> bool {
        &&& self.num_colors >= 1
        &&& self.num_pins >= 1
        &&& self.full() == all_codes(self.num_colors as nat, self.num_pins as nat)
        &&& forall|i: int|
            0 <= i < self.full_space@.len() ==> (#[trigger] self.full_space@[i]).wf()
                && self.full_space@[i].colors() == self.num_colors
                && self.full_space@[i].pins() == self.num_pins
        &&& forall|i: int|
            0 <= i < self.current_space@.len() ==> (#[trigger] self.current_space@[i]).wf()
                && self.current_space@[i].colors() == self.num_colors
                && self.current_space@[i].pins() == self.num_pins
    }

    /// What well-formedness gives a caller: the full space is the complete
    /// enumeration, and every candidate is a valid code of the game.
    pub proof fn lemma_wf_facts(self)
        requires
            self.wf(),
        ensures
            self.colors() >= 1,
            self.pins() >= 1,
            self.full() == all_codes(self.colors() as nat, self.pins() as nat),
            forall|i: int|
                0 <= i < self.current().len() ==> (#[trigger] self.current()[i]).len()
                    == self.pins() as nat,
            forall|i: int, j: int|
                0 <= i < self.current().len() && 0 <= j < self.pins() as nat ==> 1
                    <= #[trigger] self.current()[i][j] <= self.colors(),
            forall|i: int|
                0 <= i < self.full().len() ==> (#[trigger] self.full()[i]).len()
                    == self.pins() as nat,
            forall|i: int, j: int|
                0 <= i < self.full().len() && 0 <= j < self.pins() as nat ==> 1
                    <= #[trigger] self.full()[i][j] <= self.colors(),
    {
        assert(forall|i: int|
            0 <= i < self.current().len() ==> self.current()[i] == self.current_space@[i]@);
        assert(forall|i: int|
            0 <= i < self.full().len() ==> self.full()[i] == self.full_space@[i]@);
    }

    /// Build the candidate space for a game of `num_colors` colors and
    /// `num_pins` pins: the full Cartesian-product enumeration, with the
    /// current space starting equal to it. Zero colors or zero pins is a
    /// degenerate game and is rejected.
    pub fn build(num_colors: u8, num_pins: u8) -> (r: Result<Space, GameError>)
        ensures
            match r {
                Ok(s) => {
                    &&& num_colors >= 1
                    &&& num_pins >= 1
                    &&& s.wf()
                    &&& s.colors() == num_colors
                    &&& s.pins() == num_pins
                    &&& s.full() == all_codes(num_colors as nat, num_pins as nat)
                    &&& s.current() == s.full()
                },
                Err(e) => {
                    &&& e == GameError::DegenerateParameters
                    &&& (num_colors == 0 || num_pins == 0)
                },
            },
    {
        if num_colors == 0 || num_pins == 0 {
            return Err(GameError::DegenerateParameters);
        }
        let mut prev: Vec<Vec<u8>> = Vec::new();
        prev.push(Vec::new());
        proof {
            assert(views_of_vecs(prev@) =~= all_codes(num_colors as nat, 0));
        }
        let mut p: u8 = 0;
        while p < num_pins
            invariant
                p <= num_pins,
                num_colors >= 1,
                views_of_vecs(prev@) == all_codes(num_colors as nat, p as nat),
            decreases num_pins as int - p,
        {
            let ghost prevs = views_of_vecs(prev@);
            let mut next: Vec<Vec<u8>> = Vec::new();
            let mut i: usize = 0;
            while i < prev.len()
                invariant
                    i <= prev@.len(),
                    prevs == views_of_vecs(prev@),
                    num_colors >= 1,
                    views_of_vecs(next@) == extend_codes(prevs.take(i as int), num_colors as nat),
                decreases prev@.len() - i,
            {
                let mut k: usize = 1;
                while k <= num_colors as usize
                    invariant
                        1 <= k <= num_colors as usize + 1,
                        i < prev@.len(),
                        prevs == views_of_vecs(prev@),
                        views_of_vecs(next@) == extend_codes(
                            prevs.take(i as int),
                            num_colors as nat,
                        ) + extend_code(prev@[i as int]@, (k - 1) as nat),
                    decreases num_colors as int + 1 - k,
                {
                    let mut code = copy_u8s(&prev[i]);
                    code.push(k as u8);
                    let ghost old_next = next@;
                    next.push(code);
                    proof {
                        assert(views_of_vecs(next@) =~= views_of_vecs(old_next).push(code@));
                    }
                    k += 1;
                }
                proof {
                    lemma_extend_codes_push(
                        prevs.take(i as int),
                        prev@[i as int]@,
                        num_colors as nat,
                    );
                    assert(prevs.take(i + 1) =~= prevs.take(i as int).push(prevs[i as int]));
                }
                i += 1;
            }
            proof {
                assert(prevs.take(prev@.len() as int) =~= prevs);
            }
            prev = next;
            p += 1;
        }
        proof {
            lemma_all_codes_props_nat(num_colors as nat, num_pins as nat);
        }
        let ghost enumeration = views_of_vecs(prev@);
        let mut full_space: Vec<Row> = Vec::new();
        let mut current_space: Vec<Row> = Vec::new();
        let mut i: usize = 0;
        while i < prev.len()
            invariant
                i <= prev@.len(),
                enumeration == views_of_vecs(prev@),
                enumeration == all_codes(num_colors as nat, num_pins as nat),
                num_colors >= 1,
                num_pins >= 1,
                views_of_rows(full_space@) == enumeration.take(i as int),
                views_of_rows(current_space@) == enumeration.take(i as int),
                forall|j: int|
                    0 <= j < full_space@.len() ==> (#[trigger] full_space@[j]).wf()
                        && full_space@[j].colors() == num_colors && full_space@[j].pins()
                        == num_pins,
                forall|j: int|
                    0 <= j < current_space@.len() ==> (#[trigger] current_space@[j]).wf()
                        && current_space@[j].colors() == num_colors && current_space@[j].pins()
                        == num_pins,
            decreases prev@.len() - i,
        {
            proof {
                lemma_all_codes_props_nat(num_colors as nat, num_pins as nat);
                assert(enumeration[i as int] == prev@[i as int]@);
            }
            let vals = copy_u8s(&prev[i]);
            let row = Row::from_parts(vals, num_colors, num_pins);
            let row2 = row.duplicate();
            let ghost old_full = full_space@;
            let ghost old_cur = current_space@;
            full_space.push(row);
            current_space.push(row2);
            proof {
                assert(views_of_rows(full_space@) =~= views_of_rows(old_full).push(
                    prev@[i as int]@,
                ));
                assert(views_of_rows(current_space@) =~= views_of_rows(old_cur).push(
                    prev@[i as int]@,
                ));
                assert(enumeration.take(i + 1) =~= enumeration.take(i as int).push(
                    enumeration[i as int],
                ));
            }
            i += 1;
        }
        proof {
            assert(enumeration.take(prev@.len() as int) =~= enumeration);
        }
        Ok(Space { current_space, full_space, num_colors, num_pins })
    }

    /// The palette size of this game.
    pub fn get_num_colors(&self) -> (c: u8)
        ensures
            c == self.colors(),
    {
        self.num_colors
    }

    /// The pin count of this game.
    pub fn get_num_pins(&self) -> (p: u8)
        ensures
            p == self.pins(),
    {
        self.num_pins
    }

    /// How many candidates are still live.
    pub fn get_space_size(&self) -> (n: usize)
        ensures
            n == self.current().len(),
    {
        self.current_space.len()
    }

    /// The live candidates, as fresh rows.
    pub fn get_current_space(&self) -> (r: Vec<Row>)
        requires
            self.wf(),
        ensures
            views_of_rows(r@) == self.current(),
            forall|i: int|
                0 <= i < r@.len() ==> (#[trigger] r@[i]).wf() && r@[i].colors() == self.colors()
                    && r@[i].pins() == self.pins(),
    {
        let r = copy_rows(&self.current_space);
        proof {
            assert(views_of_rows(r@).len() == r@.len());
            assert(r@.len() == self.current_space@.len());
            assert forall|i: int| 0 <= i < r@.len() implies (#[trigger] r@[i]).wf()
                && r@[i].colors() == self.colors() && r@[i].pins() == self.pins() by {
                assert(self.current_space@[i].wf());
            }
        }
        r
    }

    /// The complete enumeration, as fresh rows.
    pub fn get_full_space(&self) -> (r: Vec<Row>)
        requires
            self.wf(),
        ensures
            views_of_rows(r@) == self.full(),
            forall|i: int|
                0 <= i < r@.len() ==> (#[trigger] r@[i]).wf() && r@[i].colors() == self.colors()
                    && r@[i].pins() == self.pins(),
    {
        let r = copy_rows(&self.full_space);
        proof {
            assert(views_of_rows(r@).len() == r@.len());
            assert(r@.len() == self.full_space@.len());
            assert forall|i: int| 0 <= i < r@.len() implies (#[trigger] r@[i]).wf()
                && r@[i].colors() == self.colors() && r@[i].pins() == self.pins() by {
                assert(self.full_space@[i].wf());
            }
        }
        r
    }

    /// A secret for a new game: one of the codes of the full space, picked
    /// at random.
    pub fn choose_password(&self) -> (r: Row)
        requires
            self.wf(),
        ensures
            r.wf(),
            r.colors() == self.colors(),
            r.pins() == self.pins(),
            self.full().contains(r@),
    {
        proof {
            lemma_all_codes_props_nat(self.colors() as nat, self.pins() as nat);
            lemma_pow_pos(self.colors() as nat, self.pins() as nat);
        }
        let idx = random_index(self.full_space.len());
        let row = self.full_space[idx].duplicate();
        proof {
            assert(self.full()[idx as int] == row@);
        }
        row
    }

    /// Keep exactly the candidates whose feedback to `guess` equals the
    /// observed response.
    pub fn trim_space(&mut self, guess: &Row, response: &Response)
        requires
            old(self).wf(),
            guess.wf(),
            guess.colors() == old(self).colors(),
            guess.pins() == old(self).pins(),
        ensures
            final(self).wf(),
            final(self).colors() == old(self).colors(),
            final(self).pins() == old(self).pins(),
            final(self).full() == old(self).full(),
            final(self).current() == trim_seq(
                old(self).current(),
                guess@,
                old(self).colors(),
                response.right_place as nat,
                (response.right_place + response.right_color) as nat,
            ),
    {
        let ghost cur = self.current();
        let ghost colors = self.colors();
        let ghost fbp = response.right_place as nat;
        let ghost fbo = (response.right_place + response.right_color) as nat;
        let mut kept: Vec<Row> = Vec::new();
        let mut i: usize = 0;
        while i < self.current_space.len()
            invariant
                i <= self.current_space@.len(),
                self.wf(),
                guess.wf(),
                guess.colors() == self.colors(),
                guess.pins() == self.pins(),
                cur == self.current(),
                colors == self.colors(),
                fbp == response.right_place as nat,
                fbo == (response.right_place + response.right_color) as nat,
                views_of_rows(kept@) == trim_seq(cur.take(i as int), guess@, colors, fbp, fbo),
                forall|j: int|
                    0 <= j < kept@.len() ==> (#[trigger] kept@[j]).wf() && kept@[j].colors()
                        == self.colors() && kept@[j].pins() == self.pins(),
            decreases self.current_space@.len() - i,
        {
            let candidate = &self.current_space[i];
            proof {
                assert(cur[i as int] == candidate@);
                assert(cur.take(i + 1).drop_last() =~= cur.take(i as int));
            }
            let r = guess.get_response(candidate);
            if r.right_place == response.right_place && r.right_color == response.right_color {
                let ghost old_kept = kept@;
                kept.push(candidate.duplicate());
                proof {
                    assert(views_of_rows(kept@) =~= views_of_rows(old_kept).push(cur[i as int]));
                    assert(code_consistent(cur[i as int], guess@, colors, fbp, fbo));
                }
            } else {
                proof {
                    assert(!code_consistent(cur[i as int], guess@, colors, fbp, fbo));
                }
            }
            i += 1;
        }
        proof {
            assert(cur.take(cur.len() as int) =~= cur);
        }
        self.current_space = kept;
    }

    /// When one candidate remains it is the solved secret and is returned in
    /// place of the probing guess; with several candidates the guess stands;
    /// an empty candidate set is a fatal inconsistency.
    pub fn check_for_final_guess(&self, current_guess: &Row) -> (r: Result<Row, GameError>)
        requires
            self.wf(),
            current_guess.wf(),
            current_guess.colors() == self.colors(),
            current_guess.pins() == self.pins(),
        ensures
            match r {
                Ok(row) => {
                    &&& self.current().len() >= 1
                    &&& row.wf()
                    &&& row.colors() == self.colors()
                    &&& row.pins() == self.pins()
                    &&& (self.current().len() == 1 ==> row@ == self.current()[0])
                    &&& (self.current().len() > 1 ==> row@ == current_guess@)
                },
                Err(e) => {
                    &&& e == GameError::EmptyCandidateSet
                    &&& self.current().len() == 0
                },
            },
    {
        let space_size = self.current_space.len();
        if space_size == 1 {
            let row = self.current_space[0].duplicate();
            proof {
                assert(self.current()[0] == row@);
            }
            Ok(row)
        } else if space_size > 1 {
            Ok(current_guess.duplicate())
        } else {
            Err(GameError::EmptyCandidateSet)
        }
    }
}

/// Fresh copies of a vector of rows.
fn copy_rows(rows: &Vec<Row>) -> (r: Vec<Row>)
    ensures
        views_of_rows(r@) == views_of_rows(rows@),
        forall|i: int|
            0 <= i < r@.len() ==> (#[trigger] r@[i]).wf() == rows@[i].wf() && r@[i].colors()
                == rows@[i].colors() && r@[i].pins() == rows@[i].pins(),
{
    let mut r: Vec<Row> = Vec::new();
    let mut i: usize = 0;
    while i < rows.len()
        invariant
            i <= rows@.len(),
            views_of_rows(r@) == views_of_rows(rows@).take(i as int),
            forall|j: int|
                0 <= j < r@.len() ==> (#[trigger] r@[j]).wf() == rows@[j].wf() && r@[j].colors()
                    == rows@[j].colors() && r@[j].pins() == rows@[j].pins(),
        decreases rows@.len() - i,
    {
        let ghost old_r = r@;
        r.push(rows[i].duplicate());
        proof {
            assert(views_of_rows(r@) =~= views_of_rows(old_r).push(rows@[i as int]@));
            assert(views_of_rows(rows@).take(i + 1) =~= views_of_rows(rows@).take(i as int).push(
                rows@[i as int]@,
            ));
        }
        i += 1;
    }
    proof {
        assert(views_of_rows(rows@).take(rows@.len() as int) =~= views_of_rows(rows@));
    }
    r
}

} // verus!
