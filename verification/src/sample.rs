//! Random samples of lines.
//!
//! [`Reservoir`] keeps a uniform sample of a stream of lines (reservoir
//! sampling over the whole file). [`FastSampler`] draws random offsets in the
//! file and keeps the lines that cover them, without reading the whole file.

use std::collections::HashSet;

use vstd::prelude::*;

use crate::lines::{decoded_lines, line_texts, lines_valid, numbered_line, range_spec, split_lines};
use crate::render::entries_view;
use crate::locate::{covering_line_start, lemma_line_at_is_raw_line, line_at, read_line_covering_offset};
use crate::tail::{
    count_lf, is_line_start, lemma_line_start_index, lemma_line_starts_bound,
    lemma_line_starts_differ, raw_lines,
};
use crate::text::{lemma_trim_line_end_idempotent, trim_line_end, trim_line_ending, utf8_strict};
use crate::{ensure_positive, JlvError, SelectedLine, SelectedLineModel};

verus! {

broadcast use vstd::seq_lib::group_to_multiset_ensures;

/// A number drawn at random, with the bound it was drawn below.
pub struct Draw {
    pub bound: u64,
    pub value: u64,
}

/// `rand::random_range(0..bound)`: a number drawn by the thread-local
/// generator from `[0, bound)`, handed back with `bound`. `rand` panics on an
/// empty range, so `bound` must be positive. Which number comes out depends
/// on chance and is not stated beyond its range.
#[verifier::external_body]
fn random_below(bound: u64) -> (d: Draw)
    requires
        bound > 0,
    ensures
        d.bound == bound,
        d.value < bound,
{
    Draw { bound, value: rand::random_range(0..bound) }
}

/// The keys of `s` increase strictly.
pub open spec fn strictly_sorted(s: Seq<(u64, SelectedLine)>) -> bool {
    forall|i: int, j: int| 0 <= i < j < s.len() ==> s[i].0 < s[j].0
}

/// No two elements of `s` share a key.
pub open spec fn distinct_keys(s: Seq<(u64, SelectedLine)>) -> bool {
    forall|i: int, j: int| 0 <= i < s.len() && 0 <= j < s.len() && i != j ==> s[i].0 != s[j].0
}

/// Sorts pairs with distinct keys by key.
pub fn sort_by_key(v: Vec<(u64, SelectedLine)>) -> (res: Vec<(u64, SelectedLine)>)
    requires
        distinct_keys(v@),
    ensures
        res@.to_multiset() == v@.to_multiset(),
        strictly_sorted(res@),
{
    let ghost orig = v@;
    let mut rest = v;
    let mut out: Vec<(u64, SelectedLine)> = Vec::new();
    assert(orig.skip(orig.len() as int) =~= Seq::<(u64, SelectedLine)>::empty());
    while rest.len() > 0
        invariant
            distinct_keys(orig),
            rest@.len() <= orig.len(),
            rest@ == orig.take(rest@.len() as int),
            out@.to_multiset() == orig.skip(rest@.len() as int).to_multiset(),
            strictly_sorted(out@),
            forall|i: int| 0 <= i < out@.len() ==> exists|j: int| rest@.len() <= j < orig.len() && (#[trigger] out@[i]).0 == orig[j].0,
        decreases rest@.len(),
    {
        let ghost m = rest@.len() as int;
        let x = rest.pop().unwrap();
        assert(x == orig[m - 1]);
        let key = x.0;
        let mut p: usize = 0;
        let n = out.len();
        while p < n && out[p].0 < key
            invariant
                p <= n,
                n == out@.len(),
                forall|i: int| 0 <= i < p ==> (#[trigger] out@[i]).0 < key,
            decreases n - p,
        {
            p = p + 1;
        }
        proof {
            assert forall|i: int| 0 <= i < out@.len() implies (#[trigger] out@[i]).0 != key by {
                let j = choose|j: int| m <= j < orig.len() && out@[i].0 == orig[j].0;
                assert(orig[j].0 != orig[m - 1].0);
            }
        }
        let ghost before = out@;
        out.insert(p, x);
        proof {
            assert(orig.skip(m - 1) =~= orig.skip(m).insert(0, x));
            assert(orig.skip(m - 1).to_multiset() == orig.skip(m).to_multiset().insert(x));
            assert(out@.to_multiset() == before.to_multiset().insert(x));
            assert forall|i: int, j: int| 0 <= i < j < out@.len() implies out@[i].0 < out@[j].0 by {
                if j < p {
                } else if j == p {
                } else if i < p {
                    if p < n {
                        assert(before[p as int].0 >= key);
                        assert(key < before[p as int].0);
                    }
                } else if i == p {
                    assert(before[p as int].0 >= key);
                    assert(before[p as int].0 != key);
                } else {
                }
            }
            assert forall|i: int| 0 <= i < out@.len() implies exists|j: int| m - 1 <= j < orig.len() && (#[trigger] out@[i]).0 == orig[j].0 by {
                if i < p {
                    let j = choose|j: int| m <= j < orig.len() && before[i].0 == orig[j].0;
                    assert(out@[i] == before[i]);
                } else if i == p {
                    assert(out@[i].0 == orig[m - 1].0);
                } else {
                    let j = choose|j: int| m <= j < orig.len() && before[i - 1].0 == orig[j].0;
                    assert(out@[i] == before[i - 1]);
                }
            }
            assert(rest@ =~= orig.take(rest@.len() as int));
        }
    }
    assert(orig.skip(0) =~= orig);
    out
}


/// Two strictly sorted sequences with the same elements are equal.
pub proof fn lemma_sorted_unique(a: Seq<(u64, SelectedLine)>, b: Seq<(u64, SelectedLine)>)
    requires
        strictly_sorted(a),
        strictly_sorted(b),
        a.to_multiset() == b.to_multiset(),
    ensures
        a == b,
    decreases a.len(),
{
    broadcast use vstd::multiset::group_multiset_axioms;
    assert(a.len() == a.to_multiset().len());
    assert(b.len() == b.to_multiset().len());
    if a.len() > 0 {
        let x = a[0];
        let y = b[0];
        assert(a.to_multiset().count(x) > 0);
        assert(b.contains(x));
        assert(a.contains(y)) by {
            assert(b.to_multiset().count(y) > 0);
        }
        let i = choose|i: int| 0 <= i < b.len() && b[i] == x;
        let j = choose|j: int| 0 <= j < a.len() && a[j] == y;
        assert(x.0 <= y.0) by {
            if j > 0 {
                assert(a[0].0 < a[j].0);
            }
        }
        assert(y.0 <= x.0) by {
            if i > 0 {
                assert(b[0].0 < b[i].0);
            }
        }
        assert(j == 0) by {
            if j > 0 {
                assert(a[0].0 < a[j].0);
            }
        }
        assert(x == y);
        assert(a.remove(0).to_multiset() == a.to_multiset().remove(x));
        assert(b.remove(0).to_multiset() == b.to_multiset().remove(y));
        lemma_sorted_unique(a.remove(0), b.remove(0));
        assert(a =~= b.remove(0).insert(0, x));
        assert(b =~= b.remove(0).insert(0, y));
    }
}

/// The smaller of two numbers.
pub open spec fn min_nat(a: nat, b: nat) -> nat {
    if a < b { a } else { b }
}

/// `e` is line number `k` of `lines`, numbered from 1, for some `k`.
pub open spec fn is_line_of(e: SelectedLineModel, lines: Seq<Seq<char>>) -> bool {
    &&& e.line_number is Some
    &&& 1 <= e.line_number->0 <= lines.len()
    &&& e == numbered_line(e.line_number->0 as int, lines[e.line_number->0 - 1])
}

/// The key by which the reservoir is sorted: the line number.
pub open spec fn line_key(e: SelectedLine) -> u64 {
    (match e.line_number {
        Some(n) => n,
        None => usize::MAX,
    }) as u64
}

fn line_key_exec(e: &SelectedLine) -> (k: u64)
    ensures
        k == line_key(*e),
{
    let n = match e.line_number {
        Some(n) => n,
        None => usize::MAX,
    };
    n as u64
}

/// Pairs each entry with its key, in order.
fn with_keys(v: Vec<SelectedLine>) -> (res: Vec<(u64, SelectedLine)>)
    ensures
        res@.len() == v@.len(),
        forall|i: int| 0 <= i < v@.len() ==> (#[trigger] res@[i]) == (line_key(v@[i]), v@[i]),
{
    let ghost orig = v@;
    let mut rest = v;
    let mut rev: Vec<SelectedLine> = Vec::new();
    while rest.len() > 0
        invariant
            rest@.len() + rev@.len() == orig.len(),
            rest@ == orig.take(rest@.len() as int),
            forall|k: int| 0 <= k < rev@.len() ==> #[trigger] rev@[k] == orig[orig.len() - 1 - k],
        decreases rest@.len(),
    {
        let x = rest.pop().unwrap();
        rev.push(x);
        assert(rest@ =~= orig.take(rest@.len() as int));
    }
    let ghost n = orig.len();
    let mut out: Vec<(u64, SelectedLine)> = Vec::new();
    while rev.len() > 0
        invariant
            rev@.len() + out@.len() == n,
            n == orig.len(),
            forall|k: int| 0 <= k < rev@.len() ==> #[trigger] rev@[k] == orig[n - 1 - k],
            forall|k: int| 0 <= k < out@.len() ==> #[trigger] out@[k] == (line_key(orig[k]), orig[k]),
        decreases rev@.len(),
    {
        let x = rev.pop().unwrap();
        let key = line_key_exec(&x);
        out.push((key, x));
    }
    out
}

/// The entries of pairs, in order.
fn without_keys(v: Vec<(u64, SelectedLine)>) -> (res: Vec<SelectedLine>)
    ensures
        res@.len() == v@.len(),
        forall|i: int| 0 <= i < v@.len() ==> #[trigger] res@[i] == v@[i].1,
{
    let ghost orig = v@;
    let mut rest = v;
    let mut rev: Vec<SelectedLine> = Vec::new();
    while rest.len() > 0
        invariant
            rest@.len() + rev@.len() == orig.len(),
            rest@ == orig.take(rest@.len() as int),
            forall|k: int| 0 <= k < rev@.len() ==> #[trigger] rev@[k] == orig[orig.len() - 1 - k].1,
        decreases rest@.len(),
    {
        let x = rest.pop().unwrap();
        rev.push(x.1);
        assert(rest@ =~= orig.take(rest@.len() as int));
    }
    let ghost n = orig.len();
    let mut out: Vec<SelectedLine> = Vec::new();
    while rev.len() > 0
        invariant
            rev@.len() + out@.len() == n,
            n == orig.len(),
            forall|k: int| 0 <= k < rev@.len() ==> #[trigger] rev@[k] == orig[n - 1 - k].1,
            forall|k: int| 0 <= k < out@.len() ==> #[trigger] out@[k] == orig[k].1,
        decreases rev@.len(),
    {
        let x = rev.pop().unwrap();
        out.push(x);
    }
    out
}

/// The sample after line number `seen + 1`, whose text as read is `line`,
/// arrives with `slot` drawn for it: the line joins a sample that is not full;
/// in a full one it takes `slot` where `slot` is below `count`.
pub open spec fn placed(
    sample: Seq<SelectedLineModel>,
    count: nat,
    seen: nat,
    slot: int,
    line: Seq<char>,
) -> Seq<SelectedLineModel> {
    let entry = numbered_line(seen as int + 1, line);
    if sample.len() < count {
        sample.push(entry)
    } else if 0 <= slot < count {
        sample.update(slot, entry)
    } else {
        sample
    }
}

/// What reservoir sampling keeps of `lines` (each as read): each line in turn
/// is [`placed`], line `k + 1` with the slot `slots[k]` drawn for it.
pub open spec fn reservoir_run(lines: Seq<Seq<char>>, count: nat, slots: Seq<int>) -> Seq<SelectedLineModel>
    decreases lines.len(),
{
    if lines.len() == 0 {
        Seq::empty()
    } else {
        placed(
            reservoir_run(lines.drop_last(), count, slots),
            count,
            (lines.len() - 1) as nat,
            slots[lines.len() - 1],
            lines.last(),
        )
    }
}

/// `slots` are draws for `n` lines: the slot for line `k + 1` lies in
/// `[0, k]`.
pub open spec fn slots_in_range(slots: Seq<int>, n: nat) -> bool {
    slots.len() == n && forall|k: int| 0 <= k < n ==> 0 <= #[trigger] slots[k] <= k
}

/// The run depends only on the slots of the lines it has seen.
proof fn lemma_reservoir_run_prefix(lines: Seq<Seq<char>>, count: nat, slots: Seq<int>, more: Seq<int>)
    requires
        slots.len() >= lines.len(),
        more.len() >= lines.len(),
        forall|k: int| 0 <= k < lines.len() ==> slots[k] == more[k],
    ensures
        reservoir_run(lines, count, slots) == reservoir_run(lines, count, more),
    decreases lines.len(),
{
    if lines.len() > 0 {
        lemma_reservoir_run_prefix(lines.drop_last(), count, slots, more);
    }
}

/// A uniform sample of at most `count` lines of a stream of lines, kept by
/// reservoir sampling.
pub struct Reservoir {
    count: usize,
    seen: usize,
    reservoir: Vec<SelectedLine>,
    lines: Ghost<Seq<Seq<char>>>,
    slots: Ghost<Seq<int>>,
    last_bound: Ghost<nat>,
    last_value: Ghost<nat>,
}

impl Reservoir {
    /// The slots drawn so far, one per line seen (0 for a line that joined
    /// a sample that was not full).
    pub closed spec fn slots_drawn(&self) -> Seq<int> {
        self.slots@
    }

    /// The bound of the last slot drawn at random (0 before any draw): the
    /// slot was drawn from `[0, last_draw_bound())`.
    pub closed spec fn last_draw_bound(&self) -> nat {
        self.last_bound@
    }

    /// The slot last drawn at random (0 before any draw).
    pub closed spec fn last_draw_value(&self) -> nat {
        self.last_value@
    }

    /// The lines offered so far, with their line endings.
    pub closed spec fn seen_lines(&self) -> Seq<Seq<char>> {
        self.lines@
    }

    /// The size of the sample asked for.
    pub closed spec fn count_spec(&self) -> nat {
        self.count as nat
    }

    /// The lines in the sample, in their slots.
    pub closed spec fn sample(&self) -> Seq<SelectedLine> {
        self.reservoir@
    }

    /// The consistency of the state: the sample holds `min(count, seen)`
    /// lines of those seen, each with its number, no line twice; while no
    /// more lines than `count` were seen, it holds all of them in order.
    pub closed spec fn wf(&self) -> bool {
        &&& self.count > 0
        &&& self.seen as nat == self.lines@.len()
        &&& self.reservoir@.len() == min_nat(self.count as nat, self.seen as nat)
        &&& forall|i: int| 0 <= i < self.reservoir@.len() ==> is_line_of((#[trigger] self.reservoir@[i])@, self.lines@)
        &&& forall|i: int, j: int| 0 <= i < self.reservoir@.len() && 0 <= j < self.reservoir@.len() && i != j
            ==> (#[trigger] self.reservoir@[i]).line_number != (#[trigger] self.reservoir@[j]).line_number
        &&& self.seen <= self.count ==> entries_view(self.reservoir@) == range_spec(self.lines@, 0, self.seen as nat)
        &&& slots_in_range(self.slots@, self.lines@.len())
        &&& entries_view(self.reservoir@) == reservoir_run(self.lines@, self.count as nat, self.slots@)
    }

    /// A sample of at most `count` lines; a count of 0 is refused.
    pub fn new(count: usize) -> (res: Result<Reservoir, JlvError>)
        ensures
            count == 0 <==> res is Err,
            res is Err ==> res == Err::<Reservoir, JlvError>(JlvError::CountNotPositive),
            res matches Ok(r) ==> {
                &&& r.wf()
                &&& r.seen_lines() == Seq::<Seq<char>>::empty()
                &&& r.count_spec() == count
            },
    {
        ensure_positive(count)?;
        let r = Reservoir {
            count,
            seen: 0,
            reservoir: Vec::new(),
            lines: Ghost(Seq::empty()),
            slots: Ghost(Seq::empty()),
            last_bound: Ghost(0),
            last_value: Ghost(0),
        };
        assert(entries_view(r.reservoir@) =~= range_spec(r.lines@, 0, 0));
        assert(entries_view(r.reservoir@) =~= reservoir_run(r.lines@, count as nat, r.slots@));
        Ok(r)
    }

    /// How many lines were offered.
    pub fn lines_seen(&self) -> (r: usize)
        requires
            self.wf(),
        ensures
            r == self.seen_lines().len(),
    {
        self.seen
    }

    /// Takes the next line of the stream, as read with its line ending, given
    /// the slot drawn for it: while the sample is not full the line joins it;
    /// afterwards it takes the place of the line in `slot` where `slot` is
    /// below `count`, and is dropped otherwise.
    pub fn place(&mut self, line: &str, slot: usize)
        requires
            old(self).wf(),
            old(self).seen_lines().len() < usize::MAX,
            old(self).sample().len() >= old(self).count_spec() ==> slot <= old(self).seen_lines().len(),
        ensures
            final(self).wf(),
            final(self).last_draw_bound() == old(self).last_draw_bound(),
            final(self).last_draw_value() == old(self).last_draw_value(),
            final(self).seen_lines() == old(self).seen_lines().push(line@),
            final(self).count_spec() == old(self).count_spec(),
            entries_view(final(self).sample()) == placed(
                entries_view(old(self).sample()),
                old(self).count_spec(),
                old(self).seen_lines().len(),
                slot as int,
                line@,
            ),
    {
        let ghost old_lines = self.lines@;
        let ghost old_res = self.reservoir@;
        let ghost old_slots = self.slots@;
        let ghost g: int = if old_res.len() < self.count { 0 } else { slot as int };
        self.slots = Ghost(old_slots.push(g));
        self.seen = self.seen + 1;
        let ghost new_lines = old_lines.push(line@);
        self.lines = Ghost(new_lines);
        let entry = SelectedLine { line_number: Some(self.seen), content: String::from_str(trim_line_ending(line)) };
        assert(is_line_of(entry@, new_lines));
        assert forall|i: int| 0 <= i < old_res.len() implies is_line_of((#[trigger] old_res[i])@, new_lines) by {
            assert(is_line_of(old_res[i]@, old_lines));
            let k = old_res[i].line_number->0;
            assert(new_lines[k - 1] == old_lines[k - 1]);
        }
        if self.reservoir.len() < self.count {
            self.reservoir.push(entry);
            proof {
                assert(entries_view(self.reservoir@) =~= entries_view(old_res).push(numbered_line(self.seen as int, line@)));
                assert forall|i: int, j: int| 0 <= i < self.reservoir@.len() && 0 <= j < self.reservoir@.len() && i != j
                    implies (#[trigger] self.reservoir@[i]).line_number != (#[trigger] self.reservoir@[j]).line_number by {
                    if i < old_res.len() && j < old_res.len() {
                    } else if i < old_res.len() {
                        assert(is_line_of(old_res[i]@, old_lines));
                    } else {
                        assert(is_line_of(old_res[j]@, old_lines));
                    }
                }
                if self.seen <= self.count {
                    assert(entries_view(old_res) == range_spec(old_lines, 0, (self.seen - 1) as nat));
                    assert forall|j: int| 0 <= j < old_res.len() implies
                        entries_view(self.reservoir@)[j] == range_spec(new_lines, 0, self.seen as nat)[j] by {
                        assert(entries_view(old_res)[j] == range_spec(old_lines, 0, (self.seen - 1) as nat)[j]);
                        assert(new_lines[j] == old_lines[j]);
                    }
                    assert(entries_view(self.reservoir@) =~= range_spec(new_lines, 0, self.seen as nat));
                }
            }
        } else {
            if slot < self.count {
                self.reservoir.set(slot, entry);
                proof {
                    assert(entry@ == numbered_line(self.seen as int, line@));
                    assert(entries_view(self.reservoir@) =~= entries_view(old_res).update(slot as int, entry@));
                    assert forall|i: int, j: int| 0 <= i < self.reservoir@.len() && 0 <= j < self.reservoir@.len() && i != j
                        implies (#[trigger] self.reservoir@[i]).line_number != (#[trigger] self.reservoir@[j]).line_number by {
                        if i != slot && j != slot {
                        } else if i != slot {
                            assert(is_line_of(old_res[i]@, old_lines));
                        } else {
                            assert(is_line_of(old_res[j]@, old_lines));
                        }
                    }
                }
            }
        }
        proof {
            lemma_reservoir_run_prefix(old_lines, self.count as nat, old_slots, self.slots@);
            assert(new_lines.drop_last() =~= old_lines);
            assert(entries_view(self.reservoir@) == reservoir_run(new_lines, self.count as nat, self.slots@));
        }
    }

    /// Offers the next line of the stream, as read with its line ending. While
    /// the sample is not full the line joins it; afterwards a slot is drawn
    /// at random from `0..=seen` (the lines seen before this one), and the
    /// line takes that slot where it is below `count`: with probability
    /// `count / (seen + 1)`. The bound of the draw is kept as
    /// `last_draw_bound()`.
    pub fn offer(&mut self, line: &str)
        requires
            old(self).wf(),
            old(self).seen_lines().len() < usize::MAX,
        ensures
            final(self).wf(),
            final(self).seen_lines() == old(self).seen_lines().push(line@),
            final(self).count_spec() == old(self).count_spec(),
            old(self).sample().len() < old(self).count_spec() ==> entries_view(final(self).sample())
                == entries_view(old(self).sample()).push(numbered_line(old(self).seen_lines().len() as int + 1, line@)),
            old(self).sample().len() < old(self).count_spec() ==> final(self).last_draw_bound()
                == old(self).last_draw_bound() && final(self).last_draw_value() == old(self).last_draw_value(),
            old(self).sample().len() >= old(self).count_spec() ==> final(self).last_draw_bound()
                == old(self).seen_lines().len() + 1,
            old(self).sample().len() >= old(self).count_spec() ==> {
                &&& final(self).last_draw_value() < final(self).last_draw_bound()
                &&& entries_view(final(self).sample()) == placed(
                    entries_view(old(self).sample()),
                    old(self).count_spec(),
                    old(self).seen_lines().len(),
                    final(self).last_draw_value() as int,
                    line@,
                )
            },
            exists|slot: int| 0 <= slot <= old(self).seen_lines().len() && entries_view(final(self).sample())
                == #[trigger] placed(
                    entries_view(old(self).sample()),
                    old(self).count_spec(),
                    old(self).seen_lines().len(),
                    slot,
                    line@,
                ),
    {
        if self.reservoir.len() < self.count {
            self.place(line, 0);
        } else {
            let draw = random_below((self.seen + 1) as u64);
            self.place(line, draw.value as usize);
            self.last_bound = Ghost(draw.bound as nat);
            self.last_value = Ghost(draw.value as nat);
        }
    }

    /// The sample, ordered by line number.
    pub fn finish(self) -> (res: Vec<SelectedLine>)
        requires
            self.wf(),
        ensures
            res@.len() == min_nat(self.count_spec(), self.seen_lines().len()),
            forall|i: int| 0 <= i < res@.len() ==> is_line_of((#[trigger] res@[i])@, self.seen_lines()),
            forall|i: int, j: int| 0 <= i < j < res@.len()
                ==> (#[trigger] res@[i]).line_number->0 < (#[trigger] res@[j]).line_number->0,
            self.seen_lines().len() <= self.count_spec()
                ==> entries_view(res@) == range_spec(self.seen_lines(), 0, self.seen_lines().len()),
            res@.len() == self.sample().len(),
            forall|e: SelectedLine| res@.contains(e) <==> self.sample().contains(e),
            slots_in_range(self.slots_drawn(), self.seen_lines().len()),
            entries_view(self.sample()) == reservoir_run(self.seen_lines(), self.count_spec(), self.slots_drawn()),
            forall|m: SelectedLineModel| entries_view(res@).contains(m) <==> entries_view(self.sample()).contains(m),
    {
        let ghost lines = self.lines@;
        let ghost entries = self.reservoir@;
        let pairs = with_keys(self.reservoir);
        proof {
            assert forall|i: int, j: int| 0 <= i < pairs@.len() && 0 <= j < pairs@.len() && i != j implies
                pairs@[i].0 != pairs@[j].0 by {
                assert(is_line_of(entries[i]@, lines));
                assert(is_line_of(entries[j]@, lines));
                assert(entries[i].line_number != entries[j].line_number);
            }
        }
        let ghost pairs_seq = pairs@;
        let sorted = sort_by_key(pairs);
        let ghost sorted_seq = sorted@;
        let res = without_keys(sorted);
        proof {
            assert forall|i: int| 0 <= i < sorted_seq.len() implies
                exists|j: int| 0 <= j < pairs_seq.len() && pairs_seq[j] == #[trigger] sorted_seq[i] by {
                assert(sorted_seq.to_multiset().count(sorted_seq[i]) > 0);
                assert(pairs_seq.contains(sorted_seq[i]));
            }
            assert forall|i: int| 0 <= i < res@.len() implies is_line_of((#[trigger] res@[i])@, lines) && sorted_seq[i].0 == line_key(res@[i]) by {
                let j = choose|j: int| 0 <= j < pairs_seq.len() && pairs_seq[j] == sorted_seq[i];
                assert(is_line_of(entries[j]@, lines));
            }
            assert forall|i: int, j: int| 0 <= i < j < res@.len() implies
                (#[trigger] res@[i]).line_number->0 < (#[trigger] res@[j]).line_number->0 by {
                assert(sorted_seq[i].0 < sorted_seq[j].0);
                assert(sorted_seq[i].0 == line_key(res@[i]));
                assert(sorted_seq[j].0 == line_key(res@[j]));
            }
            assert(pairs_seq.len() == pairs_seq.to_multiset().len());
            assert(sorted_seq.len() == sorted_seq.to_multiset().len());
            assert forall|e: SelectedLine| res@.contains(e) <==> entries.contains(e) by {
                if res@.contains(e) {
                    let i = choose|i: int| 0 <= i < res@.len() && res@[i] == e;
                    let j = choose|j: int| 0 <= j < pairs_seq.len() && pairs_seq[j] == sorted_seq[i];
                    assert(entries[j] == e);
                }
                if entries.contains(e) {
                    let j = choose|j: int| 0 <= j < entries.len() && entries[j] == e;
                    assert(pairs_seq.to_multiset().count(pairs_seq[j]) > 0);
                    assert(sorted_seq.contains(pairs_seq[j]));
                    let i = choose|i: int| 0 <= i < sorted_seq.len() && sorted_seq[i] == pairs_seq[j];
                    assert(res@[i] == e);
                }
            }
            if lines.len() <= self.count {
                assert(entries_view(entries) == range_spec(lines, 0, lines.len()));
                assert forall|i: int, j: int| 0 <= i < j < pairs_seq.len() implies pairs_seq[i].0 < pairs_seq[j].0 by {
                    assert(entries_view(entries)[i] == range_spec(lines, 0, lines.len())[i]);
                    assert(entries_view(entries)[j] == range_spec(lines, 0, lines.len())[j]);
                }
                lemma_sorted_unique(sorted_seq, pairs_seq);
                assert(entries_view(res@) =~= range_spec(lines, 0, lines.len())) by {
                    assert forall|i: int| 0 <= i < res@.len() implies
                        entries_view(res@)[i] == range_spec(lines, 0, lines.len())[i] by {
                        assert(res@[i] == pairs_seq[i].1);
                        assert(entries_view(entries)[i] == range_spec(lines, 0, lines.len())[i]);
                    }
                }
            }
        }
        proof {
            let ev = entries_view(res@);
            let es = entries_view(entries);
            assert forall|m: SelectedLineModel| ev.contains(m) <==> es.contains(m) by {
                if ev.contains(m) {
                    let i = choose|i: int| 0 <= i < ev.len() && ev[i] == m;
                    assert(res@.contains(res@[i]));
                    let j = choose|j: int| 0 <= j < entries.len() && entries[j] == res@[i];
                    assert(es[j] == m);
                }
                if es.contains(m) {
                    let j = choose|j: int| 0 <= j < es.len() && es[j] == m;
                    assert(entries.contains(entries[j]));
                    let i = choose|i: int| 0 <= i < res@.len() && res@[i] == entries[j];
                    assert(ev[i] == m);
                }
            }
        }
        res
    }
}


/// A uniform sample of at most `count` of `lines` (each as read, with its
/// line ending), ordered by line number; a count of 0 is refused. All the
/// lines are kept, in order, where there are no more than `count`.
pub fn read_random_buffered(lines: &[String], count: usize) -> (res: Result<Vec<SelectedLine>, JlvError>)
    ensures
        count == 0 ==> res == Err::<Vec<SelectedLine>, JlvError>(JlvError::CountNotPositive),
        count > 0 ==> (res matches Ok(v) && {
            let texts = line_texts(lines@);
            &&& v@.len() == min_nat(count as nat, texts.len())
            &&& forall|i: int| 0 <= i < v@.len() ==> is_line_of((#[trigger] v@[i])@, texts)
            &&& forall|i: int, j: int| 0 <= i < j < v@.len()
                ==> (#[trigger] v@[i]).line_number->0 < (#[trigger] v@[j]).line_number->0
            &&& texts.len() <= count ==> entries_view(v@) == range_spec(texts, 0, texts.len())
            &&& exists|slots: Seq<int>| slots_in_range(slots, texts.len()) && forall|m: SelectedLineModel|
                entries_view(v@).contains(m) <==> (#[trigger] reservoir_run(texts, count as nat, slots)).contains(m)
        }),
{
    let mut reservoir = Reservoir::new(count)?;
    let n = lines.len();
    let ghost all = line_texts(lines@);
    let mut i: usize = 0;
    while i < n
        invariant
            i <= n,
            n == lines@.len(),
            all == line_texts(lines@),
            reservoir.wf(),
            reservoir.seen_lines() == all.take(i as int),
            reservoir.count_spec() == count,
        decreases n - i,
    {
        assert(all[i as int] == lines@[i as int]@);
        reservoir.offer(lines[i].as_str());
        i = i + 1;
        assert(all.take(i as int) =~= all.take((i - 1) as int).push(all[i - 1]));
    }
    assert(all.take(n as int) =~= all);
    let ghost slots = reservoir.slots_drawn();
    let ghost run = reservoir_run(all, count as nat, slots);
    let v = reservoir.finish();
    assert(slots_in_range(slots, all.len()));
    assert(forall|m: SelectedLineModel| entries_view(v@).contains(m) <==> run.contains(m));
    Ok(v)
}

/// How many random offsets the fast sampler tries per line asked for.
pub const RANDOM_FAST_ATTEMPTS_MULTIPLIER: usize = 32;

/// How many random offsets the fast sampler tries for `count` lines.
pub open spec fn attempts_for(count: usize) -> usize {
    let m = count * RANDOM_FAST_ATTEMPTS_MULTIPLIER;
    let s = if m > usize::MAX { usize::MAX } else { m as usize };
    if s < count { count } else { s }
}

/// The starts of the sampled lines.
pub open spec fn sample_starts(s: Seq<(u64, SelectedLine)>) -> Set<u64> {
    Set::new(|k: u64| exists|i: int| 0 <= i < s.len() && s[i].0 == k)
}

/// A sample of lines picked at random offsets of a file: each offset picks
/// the line that covers it; a line picked twice counts once.
pub struct FastSampler {
    count: usize,
    file_len: u64,
    attempts_left: usize,
    seen_starts: HashSet<u64>,
    sampled: Vec<(u64, SelectedLine)>,
    last_bound: Ghost<nat>,
}

impl FastSampler {
    /// The bound of the last offset drawn at random (0 before any draw): the
    /// offset was drawn from `[0, last_draw_bound())`.
    pub closed spec fn last_draw_bound(&self) -> nat {
        self.last_bound@
    }

    /// The size of the sample asked for.
    pub closed spec fn count_spec(&self) -> nat {
        self.count as nat
    }

    /// The length of the file.
    pub closed spec fn file_len_spec(&self) -> nat {
        self.file_len as nat
    }

    /// How many random offsets may still be tried.
    pub closed spec fn attempts_left_spec(&self) -> nat {
        self.attempts_left as nat
    }

    /// The lines sampled so far, in the order they were found, each with the
    /// offset where it starts.
    pub closed spec fn samples(&self) -> Seq<(u64, SelectedLine)> {
        self.sampled@
    }

    /// The consistency of the state.
    pub closed spec fn wf(&self) -> bool {
        &&& self.count > 0
        &&& self.sampled@.len() <= self.count
        &&& distinct_keys(self.sampled@)
        &&& self.seen_starts@ == sample_starts(self.sampled@)
        &&& forall|i: int| 0 <= i < self.sampled@.len() ==> (#[trigger] self.sampled@[i]).1.line_number is None
    }

    /// No two lines sampled start at the same offset, and no more are kept
    /// than asked for.
    pub proof fn lemma_samples_distinct(&self)
        requires
            self.wf(),
        ensures
            distinct_keys(self.samples()),
            self.samples().len() <= self.count_spec(),
    {
    }

    /// A sampler of `count` lines of a file of `file_len` bytes; a count of 0
    /// is refused.
    pub fn new(count: usize, file_len: u64) -> (res: Result<FastSampler, JlvError>)
        ensures
            count == 0 <==> res is Err,
            res is Err ==> res == Err::<FastSampler, JlvError>(JlvError::CountNotPositive),
            res matches Ok(s) ==> {
                &&& s.wf()
                &&& s.count_spec() == count
                &&& s.file_len_spec() == file_len
                &&& s.attempts_left_spec() == attempts_for(count)
                &&& s.samples() == Seq::<(u64, SelectedLine)>::empty()
            },
    {
        broadcast use vstd::std_specs::hash::group_hash_axioms;
        ensure_positive(count)?;
        let scaled = match count.checked_mul(RANDOM_FAST_ATTEMPTS_MULTIPLIER) {
            Some(m) => m,
            None => usize::MAX,
        };
        let attempts = if scaled < count { count } else { scaled };
        let seen_starts: HashSet<u64> = HashSet::with_capacity(match count.checked_mul(2) {
            Some(m) => m,
            None => usize::MAX,
        });
        let s = FastSampler {
            count,
            file_len,
            attempts_left: attempts,
            seen_starts,
            sampled: Vec::new(),
            last_bound: Ghost(0),
        };
        assert(s.seen_starts@ =~= sample_starts(s.sampled@));
        Ok(s)
    }

    /// The next random offset to try: one drawn from `[0, file_len)` (kept as
    /// `last_draw_bound()`), while
    /// the file is not empty, fewer than `count` lines were found and tries
    /// are left; each call uses up one try.
    pub fn next_offset(&mut self) -> (res: Option<u64>)
        requires
            old(self).wf(),
        ensures
            final(self).wf(),
            res is Some <==> (old(self).file_len_spec() > 0 && old(self).samples().len() < old(self).count_spec()
                && old(self).attempts_left_spec() > 0),
            res matches Some(o) ==> o < old(self).file_len_spec(),
            res is Some ==> final(self).last_draw_bound() == old(self).file_len_spec(),
            res is None ==> final(self).last_draw_bound() == old(self).last_draw_bound(),
            res is Some ==> final(self).attempts_left_spec() == old(self).attempts_left_spec() - 1,
            res is None ==> final(self).attempts_left_spec() == old(self).attempts_left_spec(),
            final(self).samples() == old(self).samples(),
            final(self).count_spec() == old(self).count_spec(),
            final(self).file_len_spec() == old(self).file_len_spec(),
    {
        if self.file_len == 0 || self.sampled.len() >= self.count || self.attempts_left == 0 {
            return None;
        }
        self.attempts_left = self.attempts_left - 1;
        let draw = random_below(self.file_len);
        self.last_bound = Ghost(draw.bound as nat);
        Some(draw.value)
    }

    /// Takes the line that starts at `line_start`, as read with its line
    /// ending; a line already sampled is not taken again, and none is taken
    /// once `count` lines were found.
    pub fn record(&mut self, line_start: u64, line: &str)
        requires
            old(self).wf(),
        ensures
            final(self).wf(),
            final(self).count_spec() == old(self).count_spec(),
            final(self).file_len_spec() == old(self).file_len_spec(),
            final(self).attempts_left_spec() == old(self).attempts_left_spec(),
            final(self).last_draw_bound() == old(self).last_draw_bound(),
            (old(self).samples().len() >= old(self).count_spec() || sample_starts(old(self).samples()).contains(line_start))
                ==> final(self).samples() == old(self).samples(),
            (old(self).samples().len() < old(self).count_spec() && !sample_starts(old(self).samples()).contains(line_start)) ==> {
                &&& final(self).samples().len() == old(self).samples().len() + 1
                &&& final(self).samples().drop_last() == old(self).samples()
                &&& final(self).samples().last().0 == line_start
                &&& final(self).samples().last().1@ == numberless_line(line@)
            },
    {
        broadcast use vstd::std_specs::hash::group_hash_axioms;
        let ghost old_sampled = self.sampled@;
        if self.sampled.len() >= self.count {
            return;
        }
        if self.seen_starts.insert(line_start) {
            let entry = SelectedLine { line_number: None, content: String::from_str(trim_line_ending(line)) };
            self.sampled.push((line_start, entry));
            proof {
                assert(self.sampled@.drop_last() =~= old_sampled);
                assert(!sample_starts(old_sampled).contains(line_start));
                assert forall|i: int, j: int| 0 <= i < self.sampled@.len() && 0 <= j < self.sampled@.len() && i != j
                    implies self.sampled@[i].0 != self.sampled@[j].0 by {
                    if i == old_sampled.len() as int {
                        assert(old_sampled[j].0 != line_start);
                    } else if j == old_sampled.len() as int {
                        assert(old_sampled[i].0 != line_start);
                    }
                }
                assert forall|k: u64| sample_starts(self.sampled@).contains(k) <==> self.seen_starts@.contains(k) by {
                    if sample_starts(self.sampled@).contains(k) {
                        let i = choose|i: int| 0 <= i < self.sampled@.len() && self.sampled@[i].0 == k;
                        if i < old_sampled.len() {
                            assert(old_sampled[i].0 == k);
                        }
                    }
                    if self.seen_starts@.contains(k) && k != line_start {
                        assert(sample_starts(old_sampled).contains(k));
                        let i = choose|i: int| 0 <= i < old_sampled.len() && old_sampled[i].0 == k;
                        assert(self.sampled@[i].0 == k);
                    }
                    if k == line_start {
                        assert(self.sampled@[old_sampled.len() as int].0 == k);
                    }
                }
                assert(self.seen_starts@ =~= sample_starts(self.sampled@));
            }
        } else {
            assert(self.seen_starts@ =~= sample_starts(self.sampled@));
        }
    }

    /// The sample ordered by where its lines start; `None` when fewer than
    /// `count` different lines were found (the caller then samples the whole
    /// file instead), and no lines for an empty file.
    pub fn finish(self) -> (res: Option<Vec<SelectedLine>>)
        requires
            self.wf(),
        ensures
            self.file_len_spec() == 0 ==> (res matches Some(v) && v@.len() == 0),
            self.file_len_spec() > 0 && self.samples().len() < self.count_spec() ==> res is None,
            self.file_len_spec() > 0 && self.samples().len() >= self.count_spec() ==> (res matches Some(v) && {
                &&& v@.len() == self.count_spec()
                &&& exists|q: Seq<(u64, SelectedLine)>| {
                    &&& q.to_multiset() == self.samples().to_multiset()
                    &&& strictly_sorted(q)
                    &&& v@ == q.map_values(|p: (u64, SelectedLine)| p.1)
                }
            }),
    {
        if self.file_len == 0 {
            return Some(Vec::new());
        }
        if self.sampled.len() < self.count {
            return None;
        }
        let ghost samples = self.sampled@;
        let sorted = sort_by_key(self.sampled);
        let ghost q = sorted@;
        let res = without_keys(sorted);
        proof {
            assert(res@ =~= q.map_values(|p: (u64, SelectedLine)| p.1));
            assert(q.len() == q.to_multiset().len());
            assert(samples.len() == samples.to_multiset().len());
        }
        Some(res)
    }
}

/// The entry for a line picked at random: no number, its text without the
/// line ending.
pub open spec fn numberless_line(raw: Seq<char>) -> SelectedLineModel {
    SelectedLineModel { line_number: None, content: crate::text::trim_line_end(raw) }
}

/// `v` are lines of `lines` at the increasing indices `js`, each by its text
/// without the line ending; either none of them is numbered, or each by its
/// line number (from 1).
pub open spec fn picked_lines(v: Seq<SelectedLineModel>, lines: Seq<Seq<char>>, js: Seq<int>) -> bool {
    &&& js.len() == v.len()
    &&& forall|i: int, k: int| 0 <= i < k < js.len() ==> js[i] < js[k]
    &&& forall|i: int| 0 <= i < js.len() ==> 0 <= #[trigger] js[i] < lines.len()
    &&& forall|i: int| 0 <= i < v.len() ==> (#[trigger] v[i]).content == trim_line_end(lines[js[i]])
    &&& (forall|i: int| 0 <= i < v.len() ==> (#[trigger] v[i]).line_number is None)
        || (forall|i: int| 0 <= i < v.len() ==> (#[trigger] v[i]).line_number == Some((js[i] + 1) as usize))
}

/// What the fast sampler keeps of the line of `b` that starts at `k`: no
/// number, its text without the line ending.
pub open spec fn sampled_at(b: Seq<u8>, k: int) -> SelectedLineModel {
    numberless_line(utf8_strict(line_at(b, k))->0)
}

/// Random lines of `file` (the bytes of a whole file), found the way a file
/// on disk is sampled: up to `32 * count` random offsets, each taking the
/// line that covers it; where that finds fewer than `count` different lines,
/// a sample of the whole file instead ([`read_random_buffered`]). A count of
/// 0 is refused, and so is a line read that is not UTF-8. What comes out are
/// different lines of the file, in file order, unnumbered (found by offset)
/// or numbered (from the whole file); where the file has fewer lines than
/// asked for, all of them, in order and numbered.
pub fn read_random_fast(file: &[u8], count: usize) -> (res: Result<Vec<SelectedLine>, JlvError>)
    ensures
        count == 0 ==> res == Err::<Vec<SelectedLine>, JlvError>(JlvError::CountNotPositive),
        count > 0 && lines_valid(file@) ==> res is Ok,
        res is Err ==> count == 0 || (res == Err::<Vec<SelectedLine>, JlvError>(JlvError::InvalidUtf8)
            && !lines_valid(file@)),
        res matches Ok(v) ==> v@.len() == min_nat(count as nat, raw_lines(file@).len()),
        res matches Ok(v) ==> exists|js: Seq<int>| picked_lines(entries_view(v@), decoded_lines(file@), js),
        count > 0 && lines_valid(file@) && raw_lines(file@).len() < count ==> (res matches Ok(v)
            && entries_view(v@) == range_spec(decoded_lines(file@), 0, count as nat)),
        count == 1 && file@.len() > 0 && lines_valid(file@) ==> (res matches Ok(v) && v@.len() == 1
            && v@[0].line_number is None),
{
    let len = file.len();
    let mut sampler = FastSampler::new(count, len as u64)?;
    let mut next = sampler.next_offset();
    while next.is_some()
        invariant
            sampler.wf(),
            sampler.count_spec() == count,
            sampler.file_len_spec() == len,
            len == file@.len(),
            forall|i: int| 0 <= i < sampler.samples().len() ==> is_line_start(file@, #[trigger] sampler.samples()[i].0 as int),
            forall|i: int| 0 <= i < sampler.samples().len() ==> {
                &&& utf8_strict(line_at(file@, (#[trigger] sampler.samples()[i]).0 as int)) is Some
                &&& sampler.samples()[i].1@ == sampled_at(file@, sampler.samples()[i].0 as int)
            },
            next matches Some(o) ==> o < len,
            len > 0 && lines_valid(file@) ==> (next is Some || sampler.samples().len() >= 1),
        decreases sampler.attempts_left_spec() + if next is Some { 1nat } else { 0nat },
    {
        let offset = match next {
            Some(o) => o,
            None => 0,
        };
        let ghost s = covering_line_start(file@, offset as nat);
        let got = read_line_covering_offset(file, offset);
        proof {
            if len > 0 {
                lemma_line_at_is_raw_line(file@, s as int);
            }
        }
        match got {
            Err(e) => {
                proof {
                    lemma_line_at_is_raw_line(file@, s as int);
                }
                return Err(e);
            },
            Ok(None) => {},
            Ok(Some((start, line))) => {
                let ghost before = sampler.samples();
                sampler.record(start, line.as_str());
                proof {
                    lemma_trim_line_end_idempotent(utf8_strict(line_at(file@, s as int))->0);
                    assert forall|i: int| 0 <= i < sampler.samples().len() implies {
                        &&& is_line_start(file@, sampler.samples()[i].0 as int)
                        &&& utf8_strict(line_at(file@, (#[trigger] sampler.samples()[i]).0 as int)) is Some
                        &&& sampler.samples()[i].1@ == sampled_at(file@, sampler.samples()[i].0 as int)
                    } by {
                        if i < before.len() {
                            assert(sampler.samples()[i] == before[i]);
                        }
                    }
                }
            },
        }
        next = sampler.next_offset();
    }
    let ghost samples = sampler.samples();
    proof {
        sampler.lemma_samples_distinct();
        let keys = samples.map_values(|p: (u64, SelectedLine)| p.0);
        assert forall|i: int, j: int| 0 <= i < keys.len() && 0 <= j < keys.len() && i != j implies keys[i] != keys[j] by {}
        assert forall|i: int| 0 <= i < keys.len() implies is_line_start(file@, #[trigger] keys[i] as int) by {
            assert(keys[i] == samples[i].0);
        }
        lemma_line_starts_bound(file@, keys);
        if len == 0 {
            assert(raw_lines(file@).len() == 0);
            assert(range_spec(decoded_lines(file@), 0, count as nat) =~= Seq::<SelectedLineModel>::empty());
        }
    }
    match sampler.finish() {
        Some(v) => {
            proof {
                let lines = decoded_lines(file@);
                if len == 0 {
                    let js = Seq::<int>::empty();
                    assert(picked_lines(entries_view(v@), lines, js));
                } else {
                    let q = choose|q: Seq<(u64, SelectedLine)>| {
                        &&& q.to_multiset() == samples.to_multiset()
                        &&& strictly_sorted(q)
                        &&& v@ == q.map_values(|p: (u64, SelectedLine)| p.1)
                    };
                    assert forall|i: int| 0 <= i < q.len() implies {
                        &&& is_line_start(file@, (#[trigger] q[i]).0 as int)
                        &&& utf8_strict(line_at(file@, q[i].0 as int)) is Some
                        &&& q[i].1@ == sampled_at(file@, q[i].0 as int)
                    } by {
                        assert(q.to_multiset().count(q[i]) > 0);
                        assert(samples.contains(q[i]));
                        let j = choose|j: int| 0 <= j < samples.len() && samples[j] == q[i];
                        assert(samples[j] == q[i]);
                    }
                    let js = Seq::new(q.len(), |i: int| count_lf(file@.take(q[i].0 as int)) as int);
                    assert forall|i: int, k: int| 0 <= i < k < js.len() implies js[i] < js[k] by {
                        assert(q[i].0 < q[k].0);
                        lemma_line_starts_differ(file@, q[i].0 as int, q[k].0 as int);
                    }
                    assert forall|i: int| 0 <= i < js.len() implies 0 <= #[trigger] js[i] < lines.len() by {
                        lemma_line_start_index(file@, q[i].0 as int);
                    }
                    assert forall|i: int| 0 <= i < v@.len() implies
                        (#[trigger] entries_view(v@)[i]).content == trim_line_end(lines[js[i]]) by {
                        lemma_line_at_is_raw_line(file@, q[i].0 as int);
                        assert(v@[i] == q[i].1);
                    }
                    assert forall|i: int| 0 <= i < v@.len() implies (#[trigger] entries_view(v@)[i]).line_number is None by {
                        assert(v@[i] == q[i].1);
                    }
                    assert(picked_lines(entries_view(v@), lines, js));
                }
                assert(exists|js: Seq<int>| picked_lines(entries_view(v@), decoded_lines(file@), js));
            }
            assert(exists|js: Seq<int>| picked_lines(entries_view(v@), decoded_lines(file@), js));
            let res: Result<Vec<SelectedLine>, JlvError> = Ok(v);
            assert(res->Ok_0 == v);
            res
        },
        None => {
            let lines = split_lines(file)?;
            let res = read_random_buffered(lines.as_slice(), count);
            proof {
                let texts = line_texts(lines@);
                assert(texts.len() == raw_lines(file@).len());
                if texts.len() < count {
                    assert(range_spec(texts, 0, texts.len()) =~= range_spec(texts, 0, count as nat));
                }
                if res is Ok {
                    let v = res->Ok_0;
                    let js = Seq::new(v@.len(), |i: int| v@[i].line_number->0 - 1);
                    assert forall|i: int| 0 <= i < v@.len() implies {
                        &&& 0 <= #[trigger] js[i] < texts.len()
                        &&& entries_view(v@)[i].content == trim_line_end(texts[js[i]])
                        &&& entries_view(v@)[i].line_number == Some((js[i] + 1) as usize)
                    } by {
                        assert(is_line_of(v@[i]@, texts));
                    }
                    assert forall|i: int, k: int| 0 <= i < k < js.len() implies js[i] < js[k] by {
                        assert(v@[i].line_number->0 < v@[k].line_number->0);
                    }
                    assert(picked_lines(entries_view(v@), texts, js));
                    assert(texts == decoded_lines(file@));
                    assert(exists|js: Seq<int>| picked_lines(entries_view(v@), decoded_lines(file@), js));
                }
                assert(res matches Ok(v) ==> exists|js: Seq<int>| picked_lines(entries_view(v@), decoded_lines(file@), js));
            }
            res
        },
    }
}

} // verus!
