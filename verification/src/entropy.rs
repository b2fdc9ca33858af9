//! Guess evaluation and the turn engine.
//!
//! A guess is evaluated by the feedback distribution it induces over the
//! current candidates: the candidates are grouped by the feedback they would
//! give, and the bucket sizes are returned. The Shannon entropy of that
//! distribution — the caller computes it from the verified bucket sizes —
//! orders the guesses; the selector takes one evaluation key per pool entry
//! and returns a maximal one, ties broken at random.

use vstd::prelude::*;

use crate::code::{spec_place_matches, spec_total_overlap, Response, Row};
use crate::rng::random_index;
use crate::space::{trim_seq, views_of_rows, Space};
use crate::GameError;

verus! {

/// The feedback `guess` would receive if `code` were the secret, carried as
/// the place count and the total overlap (place plus color matches).
pub open spec fn spec_feedback(guess: Seq<u8>, code: Seq<u8>, colors: u8) -> (nat, nat) {
    (spec_place_matches(guess, code), spec_total_overlap(guess, code, colors))
}

/// The feedback each member of `space` would give to `guess`.
pub open spec fn feedback_seq(space: Seq<Seq<u8>>, guess: Seq<u8>, colors: u8) -> Seq<(nat, nat)> {
    space.map_values(|code: Seq<u8>| spec_feedback(guess, code, colors))
}

/// How many entries of `s` equal `f`.
pub open spec fn count_fb(s: Seq<(nat, nat)>, f: (nat, nat)) -> nat
    decreases s.len(),
{
    if s.len() == 0 {
        0
    } else {
        count_fb(s.drop_last(), f) + (if s.last() == f {
            1nat
        } else {
            0nat
        })
    }
}

/// The sum of the bucket sizes.
pub open spec fn sum_buckets(s: Seq<u64>) -> int
    decreases s.len(),
{
    if s.len() == 0 {
        0
    } else {
        sum_buckets(s.drop_last()) + s.last()
    }
}

/// `ds` lists the distinct feedbacks of `fbs`, and `counts` their
/// multiplicities: entry by entry, every count positive, every feedback that
/// occurs represented.
pub open spec fn buckets_match(ds: Seq<(nat, nat)>, counts: Seq<u64>, fbs: Seq<(nat, nat)>) -> bool {
    &&& ds.no_duplicates()
    &&& ds.len() == counts.len()
    &&& forall|i: int|
        0 <= i < ds.len() ==> #[trigger] counts[i] as nat == count_fb(fbs, ds[i]) && counts[i] > 0
    &&& forall|f: (nat, nat)| count_fb(fbs, f) > 0 ==> ds.contains(f)
}

/// `counts` is the multiset of bucket sizes of the feedback distribution `fbs`.
pub open spec fn bucket_counts_of(counts: Seq<u64>, fbs: Seq<(nat, nat)>) -> bool {
    exists|ds: Seq<(nat, nat)>| buckets_match(ds, counts, fbs)
}

proof fn lemma_count_fb_le_len(s: Seq<(nat, nat)>, f: (nat, nat))
    ensures
        count_fb(s, f) <= s.len(),
    decreases s.len(),
{
    if s.len() > 0 {
        lemma_count_fb_le_len(s.drop_last(), f);
    }
}

proof fn lemma_count_fb_contains(s: Seq<(nat, nat)>, f: (nat, nat))
    ensures
        count_fb(s, f) > 0 <==> s.contains(f),
    decreases s.len(),
{
    if s.len() > 0 {
        lemma_count_fb_contains(s.drop_last(), f);
        if s.last() == f {
            assert(s[s.len() - 1] == f);
        } else {
            if s.drop_last().contains(f) {
                let i = choose|i: int| 0 <= i < s.drop_last().len() && s.drop_last()[i] == f;
                assert(s[i] == f);
            }
            if s.contains(f) && !s.drop_last().contains(f) {
                let i = choose|i: int| 0 <= i < s.len() && s[i] == f;
                if i < s.len() - 1 {
                    assert(s.drop_last()[i] == f);
                }
            }
        }
    }
}

proof fn lemma_sum_buckets_update(s: Seq<u64>, i: int, v: u64)
    requires
        0 <= i < s.len(),
    ensures
        sum_buckets(s.update(i, v)) == sum_buckets(s) - s[i] + v,
    decreases s.len(),
{
    if i == s.len() - 1 {
        assert(s.update(i, v).drop_last() =~= s.drop_last());
        assert(s.update(i, v).last() == v);
    } else {
        assert(s.update(i, v).drop_last() =~= s.drop_last().update(i, v));
        lemma_sum_buckets_update(s.drop_last(), i, v);
    }
}

/// The evaluation keys of the responses seen so far.
spec fn response_keys(rs: Seq<Response>) -> Seq<(nat, nat)> {
    rs.map_values(|r: Response| (r.right_place as nat, (r.right_place + r.right_color) as nat))
}

impl Space {
    /// The sizes of the feedback buckets `guess` induces over the current
    /// candidates: group the candidates by the feedback each would give to
    /// `guess`, and return one positive count per non-empty bucket. The
    /// counts sum to the number of candidates; a single candidate yields the
    /// single bucket `[1]`, so the entropy computed from it is zero.
    pub fn feedback_bucket_counts(&self, guess: &Row) -> (counts: Vec<u64>)
        requires
            self.wf(),
            guess.wf(),
            guess.colors() == self.colors(),
            guess.pins() == self.pins(),
        ensures
            bucket_counts_of(counts@, feedback_seq(self.current(), guess@, self.colors())),
            sum_buckets(counts@) == self.current().len(),
            counts@.len() <= self.current().len(),
            self.current().len() >= 1 ==> counts@.len() >= 1,
            self.current().len() == 1 ==> counts@ == seq![1u64],
    {
        let rows = self.get_current_space();
        let ghost fbs = feedback_seq(self.current(), guess@, self.colors());
        let mut keys: Vec<Response> = Vec::new();
        let mut counts: Vec<u64> = Vec::new();
        let mut i: usize = 0;
        while i < rows.len()
            invariant
                i <= rows@.len(),
                self.wf(),
                guess.wf(),
                guess.colors() == self.colors(),
                guess.pins() == self.pins(),
                views_of_rows(rows@) == self.current(),
                forall|t: int|
                    0 <= t < rows@.len() ==> (#[trigger] rows@[t]).wf() && rows@[t].colors()
                        == self.colors() && rows@[t].pins() == self.pins(),
                fbs == feedback_seq(self.current(), guess@, self.colors()),
                keys@.len() == counts@.len(),
                counts@.len() <= i,
                sum_buckets(counts@) == i,
                buckets_match(response_keys(keys@), counts@, fbs.take(i as int)),
            decreases rows@.len() - i,
        {
            let candidate = &rows[i];
            proof {
                assert(self.current()[i as int] == candidate@);
                assert(fbs[i as int] == spec_feedback(guess@, candidate@, self.colors()));
                assert(fbs.take(i + 1).drop_last() =~= fbs.take(i as int));
            }
            let r = guess.get_response(candidate);
            let ghost key = (r.right_place as nat, (r.right_place + r.right_color) as nat);
            proof {
                assert(key == fbs[i as int]);
            }
            let mut j: usize = 0;
            let mut hit: usize = keys.len();
            while j < keys.len()
                invariant
                    j <= keys@.len(),
                    hit <= keys@.len(),
                    key == (r.right_place as nat, (r.right_place + r.right_color) as nat),
                    hit == keys@.len() ==> forall|t: int|
                        0 <= t < j ==> #[trigger] response_keys(keys@)[t] != key,
                    hit < keys@.len() ==> response_keys(keys@)[hit as int] == key,
                decreases keys@.len() - j,
            {
                if keys[j].right_place == r.right_place && keys[j].right_color == r.right_color {
                    proof {
                        assert(response_keys(keys@)[j as int] == key);
                    }
                    hit = j;
                } else {
                    proof {
                        assert(response_keys(keys@)[j as int] != key);
                    }
                }
                j += 1;
            }
            let ghost old_counts = counts@;
            let ghost ds = response_keys(keys@);
            if hit < counts.len() {
                let cur_count = counts[hit];
                proof {
                    lemma_count_fb_le_len(fbs.take(i as int), ds[hit as int]);
                }
                counts.set(hit, cur_count + 1);
                proof {
                    lemma_sum_buckets_update(old_counts, hit as int, (cur_count + 1) as u64);
                    assert forall|t: int| 0 <= t < ds.len() implies #[trigger] counts@[t] as nat
                        == count_fb(fbs.take(i + 1), ds[t]) && counts@[t] > 0 by {
                        if t == hit {
                            assert(counts@[t] == old_counts[t] + 1);
                        } else {
                            assert(ds[t] != key);
                            assert(counts@[t] == old_counts[t]);
                        }
                    }
                    assert forall|f: (nat, nat)| count_fb(fbs.take(i + 1), f) > 0 implies ds
                        .contains(f) by {
                        if f != key {
                            assert(count_fb(fbs.take(i as int), f) > 0);
                        } else {
                            assert(ds[hit as int] == key);
                        }
                    }
                }
            } else {
                keys.push(r);
                counts.push(1);
                proof {
                    assert(response_keys(keys@) =~= ds.push(key));
                    assert(counts@ =~= old_counts.push(1u64));
                    assert(counts@.drop_last() =~= old_counts);
                    let ds2 = response_keys(keys@);
                    assert forall|t: int|
                        0 <= t < ds.len() implies #[trigger] ds2[t] != key by {
                        assert(ds[t] != key);
                    }
                    assert(ds2.no_duplicates());
                    if count_fb(fbs.take(i as int), key) > 0 {
                        assert(ds.contains(key));
                        let t = choose|t: int| 0 <= t < ds.len() && ds[t] == key;
                        assert(false);
                    }
                    assert forall|t: int| 0 <= t < ds2.len() implies #[trigger] counts@[t] as nat
                        == count_fb(fbs.take(i + 1), ds2[t]) && counts@[t] > 0 by {
                        if t < ds.len() {
                            assert(ds2[t] == ds[t]);
                            assert(ds[t] != key);
                            assert(counts@[t] == old_counts[t]);
                        } else {
                            assert(ds2[t] == key);
                            assert(counts@[t] == 1u64);
                        }
                    }
                    assert forall|f: (nat, nat)| count_fb(fbs.take(i + 1), f) > 0 implies ds2
                        .contains(f) by {
                        if f != key {
                            assert(count_fb(fbs.take(i as int), f) > 0);
                            assert(ds.contains(f));
                            let t = choose|t: int| 0 <= t < ds.len() && ds[t] == f;
                            assert(ds2[t] == f);
                        } else {
                            assert(ds2[ds2.len() - 1] == key);
                        }
                    }
                }
            }
            i += 1;
        }
        proof {
            assert(fbs.take(rows@.len() as int) =~= fbs);
            assert(fbs.len() == self.current().len());
            assert(buckets_match(response_keys(keys@), counts@, fbs));
            if self.current().len() >= 1 {
                assert(fbs[0] == fbs.index(0));
                assert(fbs.contains(fbs[0]));
                lemma_count_fb_contains(fbs, fbs[0]);
                assert(response_keys(keys@).contains(fbs[0]));
                assert(response_keys(keys@).len() >= 1);
            }
            if self.current().len() == 1 {
                let ds = response_keys(keys@);
                assert(counts@.len() == 1);
                lemma_count_fb_le_len(fbs, ds[0]);
                assert(counts@[0] == 1u64);
                assert(counts@ =~= seq![1u64]);
            }
        }
        counts
    }

    /// Among `pool`, a guess whose evaluation key is maximal, picked
    /// uniformly at random among the ties. The caller supplies one key per
    /// pool entry, higher meaning more informative; an empty pool is refused.
    pub fn select_best_guess(&self, pool: &Vec<Row>, keys: &Vec<u64>) -> (r: Result<
        Row,
        GameError,
    >)
        requires
            keys@.len() == pool@.len(),
            forall|i: int|
                0 <= i < pool@.len() ==> (#[trigger] pool@[i]).wf() && pool@[i].colors()
                    == self.colors() && pool@[i].pins() == self.pins(),
        ensures
            match r {
                Ok(row) => {
                    &&& pool@.len() >= 1
                    &&& row.wf()
                    &&& row.colors() == self.colors()
                    &&& row.pins() == self.pins()
                    &&& exists|i: int|
                        0 <= i < pool@.len() && row@ == (#[trigger] pool@[i])@ && (forall|j: int|
                            0 <= j < keys@.len() ==> #[trigger] keys@[j] <= keys@[i])
                },
                Err(e) => {
                    &&& e == GameError::EmptyGuessPool
                    &&& pool@.len() == 0
                },
            },
    {
        if pool.len() == 0 {
            return Err(GameError::EmptyGuessPool);
        }
        let mut best: u64 = keys[0];
        let mut i: usize = 1;
        while i < keys.len()
            invariant
                1 <= i <= keys@.len(),
                forall|t: int| 0 <= t < i ==> #[trigger] keys@[t] <= best,
                exists|t: int| 0 <= t < i && keys@[t] == best,
            decreases keys@.len() - i,
        {
            if keys[i] > best {
                best = keys[i];
            }
            i += 1;
        }
        let mut ties: Vec<usize> = Vec::new();
        let mut j: usize = 0;
        while j < keys.len()
            invariant
                j <= keys@.len(),
                forall|t: int|
                    0 <= t < ties@.len() ==> (#[trigger] ties@[t]) < keys@.len() && keys@[ties@[t] as int]
                        == best,
                (exists|t: int| 0 <= t < j && keys@[t] == best) ==> ties@.len() >= 1,
            decreases keys@.len() - j,
        {
            if keys[j] == best {
                ties.push(j);
            }
            j += 1;
        }
        proof {
            assert(ties@.len() >= 1);
        }
        let pick = ties[random_index(ties.len())];
        let row = pool[pick].duplicate();
        proof {
            assert(row@ == pool@[pick as int]@);
            assert(keys@[pick as int] == best);
        }
        Ok(row)
    }

    /// One full turn. Pick a maximal-key guess from the pool, score it
    /// against the secret, trim the candidates to those consistent with the
    /// observed feedback, and return the solved secret once a single
    /// candidate remains — else the probing guess. A secret that was still a
    /// candidate before the turn is still a candidate after it.
    pub fn run_turn(&mut self, password: &Row, pool: &Vec<Row>, keys: &Vec<u64>) -> (r: Result<
        Row,
        GameError,
    >)
        requires
            old(self).wf(),
            password.wf(),
            password.colors() == old(self).colors(),
            password.pins() == old(self).pins(),
            keys@.len() == pool@.len(),
            forall|i: int|
                0 <= i < pool@.len() ==> (#[trigger] pool@[i]).wf() && pool@[i].colors() == old(self).colors() && pool@[i].pins() == old(self).pins(),
        ensures
            final(self).wf(),
            final(self).colors() == old(self).colors(),
            final(self).pins() == old(self).pins(),
            final(self).full() == old(self).full(),
            old(self).current().contains(password@) ==> final(self).current().contains(password@),
            match r {
                Ok(row) => {
                    &&& pool@.len() >= 1
                    &&& row.wf()
                    &&& row.colors() == old(self).colors()
                    &&& row.pins() == old(self).pins()
                    &&& final(self).current().len() >= 1
                    &&& exists|i: int|
                        0 <= i < pool@.len() && (forall|j: int|
                            0 <= j < keys@.len() ==> #[trigger] keys@[j] <= keys@[i]) && final(self).current() == trim_seq(
                            old(self).current(),
                            (#[trigger] pool@[i])@,
                            old(self).colors(),
                            spec_place_matches(pool@[i]@, password@),
                            spec_total_overlap(pool@[i]@, password@, old(self).colors()),
                        ) && (final(self).current().len() == 1 ==> row@ == final(self).current()[0]) && (final(self).current().len() > 1 ==> row@ == pool@[i]@)
                },
                Err(e) => {
                    ||| (e == GameError::EmptyGuessPool && pool@.len() == 0 && final(self).current()
                        == old(self).current())
                    ||| (e == GameError::EmptyCandidateSet && final(self).current().len() == 0)
                },
            },
    {
        let guess = match self.select_best_guess(pool, keys) {
            Ok(g) => g,
            Err(e) => {
                return Err(e);
            },
        };
        let resp = guess.get_response(password);
        let ghost i = choose|i: int|
            0 <= i < pool@.len() && guess@ == (#[trigger] pool@[i])@ && (forall|j: int|
                0 <= j < keys@.len() ==> #[trigger] keys@[j] <= keys@[i]);
        self.trim_space(&guess, &resp);
        proof {
            assert(resp.right_place as nat == spec_place_matches(guess@, password@));
            assert((resp.right_place + resp.right_color) as nat == spec_total_overlap(
                guess@,
                password@,
                old(self).colors(),
            ));
            if old(self).current().contains(password@) {
                crate::space::lemma_secret_survives_trim(
                    old(self).current(),
                    guess@,
                    old(self).colors(),
                    password@,
                );
            }
        }
        self.check_for_final_guess(&guess)
    }
}

} // verus!
