//! Proportional distribution of the words of a target line onto the words of
//! a source line.
//!
//! For a source line of `S` words and a target line of `T` words, each source
//! word receives `1 + floor` or `1 + ceiling` target words, where `floor` is
//! the integer part of `(T - S) / S` and `ceiling` is its neighbour on the
//! other side.  A running `overage` carries the fractional surplus or deficit
//! between steps so that after all `S` steps exactly `T` target words have
//! been handed out — the conservation law, proved in [`lemma_conservation`].
//!
//! All fractions involved have denominator `S`, so the bookkeeping stores
//! exact integer numerators (`floor_underage`, `ceiling_overage`, `overage`
//! are numerators of fractions over `S`); no precision is ever lost.

use vstd::arithmetic::div_mod::{
    lemma_basic_div, lemma_div_by_self, lemma_div_nonincreasing, lemma_div_pos_is_pos,
    lemma_fundamental_div_mod, lemma_mod_bound, lemma_mod_self_0,
};
use vstd::prelude::*;

use crate::error::AlignError;
use crate::tokenize::{spec_words, words};

verus! {

/// Integer part of `(t - s) / s`, truncated toward zero.
pub open spec fn line_floor(s: int, t: int) -> int {
    if t >= s {
        (t - s) / s
    } else {
        -((s - t) / s)
    }
}

/// Numerator over `s` of the fractional part of `(t - s) / s`; it carries
/// the sign of `t - s`.
pub open spec fn line_underage(s: int, t: int) -> int {
    if t >= s {
        (t - s) % s
    } else {
        -((s - t) % s)
    }
}

/// The alternative per-step count: `floor` itself when the ratio is exact,
/// otherwise the next integer away from `floor` in the direction of the
/// difference.
pub open spec fn line_ceiling(s: int, t: int) -> int {
    if line_underage(s, t) == 0 {
        line_floor(s, t)
    } else if t > s {
        line_floor(s, t) + 1
    } else {
        line_floor(s, t) - 1
    }
}

/// Numerator over `s` of the amount by which a `ceiling` step overshoots the
/// exact ratio.
pub open spec fn line_overrun(s: int, t: int) -> int {
    if line_underage(s, t) == 0 {
        0
    } else if t > s {
        s - line_underage(s, t)
    } else {
        -s - line_underage(s, t)
    }
}

/// Number of target words handed out by one step taken with overage
/// numerator `o`: the `1` base plus `floor` or `ceiling`.
pub open spec fn step_count(s: int, t: int, o: int) -> int {
    let c = line_overrun(s, t);
    if o == 0 {
        1 + line_floor(s, t)
    } else if o > 0 {
        if o - c >= 0 {
            1 + line_ceiling(s, t)
        } else {
            1 + line_floor(s, t)
        }
    } else {
        if o - c <= 0 {
            1 + line_ceiling(s, t)
        } else {
            1 + line_floor(s, t)
        }
    }
}

/// The overage numerator after a step taken with overage numerator `o`.
pub open spec fn step_overage(s: int, t: int, o: int) -> int {
    let u = line_underage(s, t);
    let c = line_overrun(s, t);
    if o == 0 {
        o + u
    } else if o > 0 {
        if o - c >= 0 {
            o - c
        } else {
            o + u
        }
    } else {
        if o - c <= 0 {
            o - c
        } else {
            o + u
        }
    }
}

/// The overage numerator before step `k`.
pub open spec fn overage_at(s: int, t: int, k: int) -> int
    decreases k,
{
    if k <= 0 {
        0
    } else {
        step_overage(s, t, overage_at(s, t, k - 1))
    }
}

/// The number of target words handed out by step `k`.
pub open spec fn count_at(s: int, t: int, k: int) -> int {
    step_count(s, t, overage_at(s, t, k))
}

/// The number of target words handed out by steps `0 .. k`.
pub open spec fn total_count(s: int, t: int, k: int) -> int
    decreases k,
{
    if k <= 0 {
        0
    } else {
        total_count(s, t, k - 1) + count_at(s, t, k - 1)
    }
}

/// Facts following from the division that sets up a line: the defining
/// identity `s * floor + underage == t - s` and the ranges of the derived
/// quantities.
pub proof fn lemma_setup(s: int, t: int)
    requires
        s >= 1,
        t >= 0,
    ensures
        s * line_floor(s, t) + line_underage(s, t) == t - s,
        t >= s ==> 0 <= line_underage(s, t) < s,
        t < s ==> -s < line_underage(s, t) <= 0,
        -1 <= line_floor(s, t) <= t,
        -1 <= line_ceiling(s, t) <= t + 1,
        t >= s ==> 0 <= line_overrun(s, t) < s,
        t < s ==> -s < line_overrun(s, t) <= 0,
        line_underage(s, t) != 0 && t < s ==> line_floor(s, t) == 0,
{
    if t >= s {
        let d = t - s;
        lemma_fundamental_div_mod(d, s);
        lemma_mod_bound(d, s);
        lemma_div_pos_is_pos(d, s);
        lemma_div_nonincreasing(d, s);
    } else {
        let d = s - t;
        lemma_fundamental_div_mod(d, s);
        lemma_mod_bound(d, s);
        if d < s {
            lemma_basic_div(d, s);
        } else {
            lemma_div_by_self(s);
            assert(s % s == 0) by {
                lemma_mod_self_0(s);
            }
        }
        assert(s * line_floor(s, t) == -(s * (d / s))) by (nonlinear_arith)
            requires
                line_floor(s, t) == -(d / s),
        ;
    }
}

/// The overage numerator always stays within one unit (one `s`-th per word)
/// of zero, on the side of the difference `t - s`.
pub proof fn lemma_overage_bounds(s: int, t: int, k: int)
    requires
        s >= 1,
        t >= 0,
        k >= 0,
    ensures
        t >= s ==> 0 <= overage_at(s, t, k) < s,
        t < s ==> -s < overage_at(s, t, k) <= 0,
    decreases k,
{
    lemma_setup(s, t);
    if k > 0 {
        lemma_overage_bounds(s, t, k - 1);
    }
}

/// The running invariant tying the words handed out to the overage:
/// `s * total == k * t - overage` before step `k`.
pub proof fn lemma_total_invariant(s: int, t: int, k: int)
    requires
        s >= 1,
        t >= 0,
        k >= 0,
    ensures
        s * total_count(s, t, k) == k * t - overage_at(s, t, k),
    decreases k,
{
    lemma_setup(s, t);
    if k == 0 {
    } else {
        lemma_total_invariant(s, t, k - 1);
        let o = overage_at(s, t, k - 1);
        let o1 = overage_at(s, t, k);
        let a0 = total_count(s, t, k - 1);
        let a1 = total_count(s, t, k);
        let cnt = count_at(s, t, k - 1);
        let fl = line_floor(s, t);
        let ce = line_ceiling(s, t);
        let u = line_underage(s, t);
        let c = line_overrun(s, t);
        assert(s * a1 == s * a0 + s * cnt) by (nonlinear_arith)
            requires
                a1 == a0 + cnt,
        ;
        assert((k - 1) * t + t == k * t) by (nonlinear_arith);
        // It remains to show `s * cnt == t - o1 + o`, by the step's branches.
        if o == 0 || (o > 0 && o - c < 0) || (o < 0 && o - c > 0) {
            // floor step: cnt == 1 + fl, o1 == o + u
            assert(s * cnt == s + s * fl) by (nonlinear_arith)
                requires
                    cnt == 1 + fl,
            ;
            assert(s * cnt == t - u);
        } else {
            // ceiling step: cnt == 1 + ce, o1 == o - c
            assert(s * cnt == s + s * ce) by (nonlinear_arith)
                requires
                    cnt == 1 + ce,
            ;
            if u == 0 {
                assert(s * cnt == t);
            } else if t > s {
                assert(s * ce == s * fl + s) by (nonlinear_arith)
                    requires
                        ce == fl + 1,
                ;
                assert(s * cnt == t - u + s);
            } else {
                assert(s * ce == s * fl - s) by (nonlinear_arith)
                    requires
                        ce == fl - 1,
                ;
                assert(s * cnt == t - u - s);
            }
        }
        assert(s * cnt == t - o1 + o);
    }
}

/// The conservation law: for every source word count `s >= 1` and target
/// word count `t >= 0`, the `s` steps of the distribution hand out exactly
/// `t` target words in total, and the terminal overage is exactly zero.
pub proof fn lemma_conservation(s: int, t: int)
    requires
        s >= 1,
        t >= 0,
    ensures
        total_count(s, t, s) == t,
        overage_at(s, t, s) == 0,
{
    lemma_total_invariant(s, t, s);
    lemma_overage_bounds(s, t, s);
    let a = total_count(s, t, s);
    let o = overage_at(s, t, s);
    assert(o == s * (t - a)) by (nonlinear_arith)
        requires
            s * a == s * t - o,
    ;
    assert(t == a) by (nonlinear_arith)
        requires
            o == s * (t - a),
            s >= 1,
            -s < o < s,
    ;
}

/// Every step hands out a non-negative count, and never more target words
/// than remain.
pub proof fn lemma_count_bounds(s: int, t: int, k: int)
    requires
        s >= 1,
        t >= 0,
        0 <= k < s,
    ensures
        0 <= count_at(s, t, k),
        0 <= total_count(s, t, k),
        total_count(s, t, k) + count_at(s, t, k) <= t,
        total_count(s, t, k + 1) == total_count(s, t, k) + count_at(s, t, k),
{
    lemma_setup(s, t);
    lemma_overage_bounds(s, t, k);
    lemma_overage_bounds(s, t, k + 1);
    lemma_total_invariant(s, t, k);
    lemma_total_invariant(s, t, k + 1);
    let a1 = total_count(s, t, k + 1);
    let o1 = overage_at(s, t, k + 1);
    assert(a1 <= t) by (nonlinear_arith)
        requires
            s * a1 == (k + 1) * t - o1,
            s >= 1,
            t >= 0,
            k + 1 <= s,
            -s < o1 < s,
    ;
    let a0 = total_count(s, t, k);
    let o0 = overage_at(s, t, k);
    assert(a0 >= 0) by (nonlinear_arith)
        requires
            s * a0 == k * t - o0,
            s >= 1,
            t >= 0,
            k >= 0,
            -s < o0 < s,
    ;
    assert(count_at(s, t, k) >= 0);
}

/// The distributor for one line pair.  `next` hands out the next source
/// word together with its allocated target words, or `None` when the line
/// is exhausted.  The numerator fields all carry denominator
/// `source.len()`.
pub struct ProportionalIter {
    source: Vec<String>,
    target: Vec<String>,
    src_idx: usize,
    tgt_idx: usize,
    floor: i128,
    floor_underage: i128,
    ceiling: i128,
    ceiling_overage: i128,
    overage: i128,
}

impl ProportionalIter {
    /// The position of the next source word to hand out.
    pub closed spec fn spec_src_idx(self) -> int {
        self.src_idx as int
    }

    /// The position of the next target word to hand out.
    pub closed spec fn spec_tgt_idx(self) -> int {
        self.tgt_idx as int
    }

    /// The current overage numerator (denominator `source.len()`).
    pub closed spec fn spec_overage(self) -> int {
        self.overage as int
    }

    pub closed spec fn src_words(self) -> Seq<Seq<char>> {
        self.source.deep_view()
    }

    pub closed spec fn tgt_words(self) -> Seq<Seq<char>> {
        self.target.deep_view()
    }

    pub closed spec fn src_len(self) -> int {
        self.source@.len() as int
    }

    pub closed spec fn tgt_len(self) -> int {
        self.target@.len() as int
    }

    /// The per-line constants match the mathematical setup.
    pub closed spec fn params_ok(self) -> bool {
        let s = self.src_len();
        let t = self.tgt_len();
        &&& s >= 1
        &&& s <= usize::MAX as int
        &&& t <= usize::MAX as int
        &&& self.floor == line_floor(s, t)
        &&& self.floor_underage == line_underage(s, t)
        &&& self.ceiling == line_ceiling(s, t)
        &&& self.ceiling_overage == line_overrun(s, t)
    }

    /// Well-formedness: the mutable state is exactly the mathematical state
    /// before step `src_idx`.
    pub closed spec fn wf(self) -> bool {
        let s = self.src_len();
        let t = self.tgt_len();
        &&& self.spec_src_idx() <= s
        &&& if s == 0 {
            t == 0 && self.tgt_idx == 0 && self.overage == 0
        } else {
            &&& self.params_ok()
            &&& self.overage == overage_at(s, t, self.spec_src_idx())
            &&& self.tgt_idx == total_count(s, t, self.spec_src_idx())
        }
    }

    /// The word models and the word counts agree, and the positions are
    /// indices.
    pub proof fn lemma_words_len(self)
        ensures
            self.src_words().len() == self.src_len(),
            self.tgt_words().len() == self.tgt_len(),
            0 <= self.spec_src_idx(),
            0 <= self.spec_tgt_idx(),
    {
    }

    /// Split the two lines into words and set up the per-line constants.
    /// Fails exactly when the source line has no words while the target
    /// line has some: such a pair admits no proportional distribution.
    pub fn new(source: &str, target: &str) -> (r: Result<ProportionalIter, AlignError>)
        ensures
            ({
                let sw = spec_words(source@);
                let tw = spec_words(target@);
                match r {
                    Ok(it) => {
                        &&& it.wf()
                        &&& it.src_words() == sw
                        &&& it.tgt_words() == tw
                        &&& it.spec_src_idx() == 0
                        &&& it.spec_tgt_idx() == 0
                        &&& !(sw.len() == 0 && tw.len() > 0)
                    },
                    Err(e) => sw.len() == 0 && tw.len() > 0 && e == AlignError::DegenerateSourceLine,
                }
            }),
    {
        let source_words = words(source);
        let target_words = words(target);
        let s = source_words.len();
        let t = target_words.len();
        proof {
            assert(source_words.deep_view().len() == source_words@.len());
            assert(target_words.deep_view().len() == target_words@.len());
        }
        if s == 0 {
            if t > 0 {
                return Err(AlignError::DegenerateSourceLine);
            }
            return Ok(
                ProportionalIter {
                    source: source_words,
                    target: target_words,
                    src_idx: 0,
                    tgt_idx: 0,
                    floor: 0,
                    floor_underage: 0,
                    ceiling: 0,
                    ceiling_overage: 0,
                    overage: 0,
                },
            );
        }
        proof {
            lemma_setup(s as int, t as int);
        }
        let (floor, floor_underage): (i128, i128) = if t >= s {
            let d = t - s;
            ((d / s) as i128, (d % s) as i128)
        } else {
            let d = s - t;
            (-((d / s) as i128), -((d % s) as i128))
        };
        let (ceiling, ceiling_overage): (i128, i128) = if floor_underage == 0 {
            (floor, 0)
        } else if t > s {
            (floor + 1, s as i128 - floor_underage)
        } else {
            (floor - 1, -(s as i128) - floor_underage)
        };
        Ok(
            ProportionalIter {
                source: source_words,
                target: target_words,
                src_idx: 0,
                tgt_idx: 0,
                floor,
                floor_underage,
                ceiling,
                ceiling_overage,
                overage: 0,
            },
        )
    }

    /// Decide how many target words the next source word receives, and
    /// carry the overage: the step rule of the distribution.
    fn get_next_target_words(&mut self) -> (count: i128)
        requires
            old(self).params_ok(),
            -(old(self).src_len()) < old(self).overage < old(self).src_len(),
        ensures
            count == step_count(old(self).src_len(), old(self).tgt_len(), old(self).overage as int),
            final(self).overage == step_overage(old(self).src_len(), old(self).tgt_len(), old(self).overage as int),
            final(self).source == old(self).source,
            final(self).target == old(self).target,
            final(self).src_idx == old(self).src_idx,
            final(self).tgt_idx == old(self).tgt_idx,
            final(self).floor == old(self).floor,
            final(self).floor_underage == old(self).floor_underage,
            final(self).ceiling == old(self).ceiling,
            final(self).ceiling_overage == old(self).ceiling_overage,
    {
        proof {
            lemma_setup(self.src_len(), self.tgt_len());
        }
        if self.overage == 0 {
            self.overage = self.overage + self.floor_underage;
            1 + self.floor
        } else if self.overage > 0 {
            if self.overage - self.ceiling_overage >= 0 {
                self.overage = self.overage - self.ceiling_overage;
                1 + self.ceiling
            } else {
                self.overage = self.overage + self.floor_underage;
                1 + self.floor
            }
        } else {
            if self.overage - self.ceiling_overage <= 0 {
                self.overage = self.overage - self.ceiling_overage;
                1 + self.ceiling
            } else {
                self.overage = self.overage + self.floor_underage;
                1 + self.floor
            }
        }
    }

    /// Hand out the next source word with its allocated target words.
    ///
    /// When the source words are exhausted the result is `None`, the target
    /// words are guaranteed to be exhausted as well, and the overage is
    /// guaranteed to be exactly zero: the conservation law for this line.
    pub fn next(&mut self) -> (r: Option<(String, Vec<String>)>)
        requires
            old(self).wf(),
        ensures
            final(self).wf(),
            final(self).src_words() == old(self).src_words(),
            final(self).tgt_words() == old(self).tgt_words(),
            ({
                let s = old(self).src_len();
                let t = old(self).tgt_len();
                let k = old(self).spec_src_idx();
                if k < s {
                    &&& final(self).spec_src_idx() == k + 1
                    &&& old(self).spec_tgt_idx() == total_count(s, t, k)
                    &&& final(self).spec_tgt_idx() == total_count(s, t, k + 1)
                    &&& r matches Some(a) && a.0@ == old(self).src_words()[k]
                        && a.1.deep_view() == old(self).tgt_words().subrange(
                        old(self).spec_tgt_idx(),
                        final(self).spec_tgt_idx(),
                    ) && a.1@.len() == count_at(s, t, k)
                } else {
                    &&& r is None
                    &&& *final(self) == *old(self)
                    &&& old(self).spec_tgt_idx() == t
                    &&& old(self).spec_overage() == 0
                }
            }),
    {
        let s = self.source.len();
        let t = self.target.len();
        if self.src_idx >= s {
            if s > 0 {
                proof {
                    lemma_conservation(s as int, t as int);
                }
            }
            return None;
        }
        let ghost k = self.spec_src_idx();
        proof {
            lemma_overage_bounds(s as int, t as int, k);
            lemma_count_bounds(s as int, t as int, k);
        }
        let count = self.get_next_target_words();
        proof {
            assert(self.overage == overage_at(s as int, t as int, k + 1));
            assert(count == count_at(s as int, t as int, k));
        }
        let n = count as usize;
        let mut allocated: Vec<String> = Vec::new();
        let mut j: usize = 0;
        proof {
            assert(allocated.deep_view() =~= self.tgt_words().subrange(
                self.spec_tgt_idx(),
                self.spec_tgt_idx(),
            ));
        }
        while j < n
            invariant
                j <= n,
                self.tgt_idx + n <= t,
                t == self.tgt_words().len(),
                t == self.target@.len(),
                allocated.deep_view() == self.tgt_words().subrange(
                    self.spec_tgt_idx(),
                    self.spec_tgt_idx() + j as int,
                ),
            decreases n - j,
        {
            let w = self.target[self.tgt_idx + j].clone();
            let ghost prev = allocated.deep_view();
            allocated.push(w);
            proof {
                assert(allocated.deep_view() =~= prev.push(self.target@[self.tgt_idx + j as int]@));
                assert(allocated.deep_view() =~= self.tgt_words().subrange(
                    self.spec_tgt_idx(),
                    self.spec_tgt_idx() + j + 1 as int,
                ));
            }
            j = j + 1;
        }
        let word = self.source[self.src_idx].clone();
        self.src_idx = self.src_idx + 1;
        self.tgt_idx = self.tgt_idx + n;
        Some((word, allocated))
    }
}

} // verus!
