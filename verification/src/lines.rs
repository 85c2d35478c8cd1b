//! Picking lines: the first ones, a range, the last ones, and numbering.
//!
//! The program reads the file; the types here decide, line by line or chunk
//! by chunk, what is kept.

use vstd::prelude::*;
use vstd::slice::SliceAdditionalExecFns;

use crate::tail::{decodes_as_strict, first_lf_from, last_n, lemma_first_lf_shift, raw_lines};
use crate::text::{decode_utf8, trim_line_end, trim_line_ending, utf8_strict};
use crate::render::entries_view;
use crate::{ensure_positive, JlvError, SelectedLine, SelectedLineModel};

verus! {

/// The texts of a sequence of lines.
pub open spec fn line_texts(lines: Seq<String>) -> Seq<Seq<char>> {
    lines.map_values(|l: String| l@)
}

/// The entry for line number `number` (one-based) whose text, as read with
/// its line ending, is `raw`.
pub open spec fn numbered_line(number: int, raw: Seq<char>) -> SelectedLineModel {
    SelectedLineModel { line_number: Some(number as usize), content: trim_line_end(raw) }
}

/// How many of `lines` a range from the zero-based `start` of at most `count`
/// lines covers.
pub open spec fn range_len(n: nat, start: nat, count: nat) -> nat {
    if n > start {
        if n - start < count { (n - start) as nat } else { count }
    } else {
        0
    }
}

/// The lines from the zero-based offset `start` on, at most `count` of them,
/// numbered from `start + 1`.
pub open spec fn range_spec(lines: Seq<Seq<char>>, start: nat, count: nat) -> Seq<SelectedLineModel> {
    Seq::new(range_len(lines.len(), start, count), |j: int| numbered_line(start + j + 1, lines[start + j]))
}

/// The selection of a range of lines from a stream of lines.
pub struct RangeSelection {
    start: usize,
    count: usize,
    seen: usize,
    entries: Vec<SelectedLine>,
    lines: Ghost<Seq<Seq<char>>>,
}

impl RangeSelection {
    /// The lines offered so far, with their line endings.
    pub closed spec fn seen_lines(&self) -> Seq<Seq<char>> {
        self.lines@
    }

    /// The zero-based offset of the first line kept.
    pub closed spec fn start_spec(&self) -> nat {
        self.start as nat
    }

    /// The most lines kept.
    pub closed spec fn count_spec(&self) -> nat {
        self.count as nat
    }

    /// The state is consistent: the lines kept are the range of the lines seen.
    pub closed spec fn wf(&self) -> bool {
        &&& self.seen as nat == self.lines@.len()
        &&& self.count > 0
        &&& entries_view(self.entries@) == range_spec(self.lines@, self.start as nat, self.count as nat)
    }

    /// A selection of at most `count` lines from the zero-based offset
    /// `start`; a count of 0 is refused.
    pub fn new(start: usize, count: usize) -> (res: Result<RangeSelection, JlvError>)
        ensures
            count == 0 <==> res is Err,
            res is Err ==> res == Err::<RangeSelection, JlvError>(JlvError::CountNotPositive),
            res matches Ok(sel) ==> {
                &&& sel.wf()
                &&& sel.seen_lines() == Seq::<Seq<char>>::empty()
                &&& sel.start_spec() == start
                &&& sel.count_spec() == count
            },
    {
        ensure_positive(count)?;
        let sel = RangeSelection { start, count, seen: 0, entries: Vec::new(), lines: Ghost(Seq::empty()) };
        assert(entries_view(sel.entries@) =~= range_spec(sel.lines@, start as nat, count as nat));
        Ok(sel)
    }

    /// Whether more lines are wanted: fewer than `count` are kept.
    pub fn needs_more(&self) -> (r: bool)
        requires
            self.wf(),
        ensures
            r == (range_spec(self.seen_lines(), self.start_spec(), self.count_spec()).len() < self.count_spec()),
    {
        self.entries.len() < self.count
    }

    /// How many lines were offered.
    pub fn lines_seen(&self) -> (r: usize)
        requires
            self.wf(),
        ensures
            r == self.seen_lines().len(),
    {
        self.seen
    }

    /// Offers the next line of the stream, as read with its line ending.
    pub fn accept_line(&mut self, line: &str)
        requires
            old(self).wf(),
            old(self).seen_lines().len() < usize::MAX,
            range_spec(old(self).seen_lines(), old(self).start_spec(), old(self).count_spec()).len()
                < old(self).count_spec(),
        ensures
            final(self).wf(),
            final(self).seen_lines() == old(self).seen_lines().push(line@),
            final(self).start_spec() == old(self).start_spec(),
            final(self).count_spec() == old(self).count_spec(),
    {
        let ghost old_lines = self.lines@;
        let zero_based = self.seen;
        self.seen = self.seen + 1;
        self.lines = Ghost(old_lines.push(line@));
        let ghost old_entries = entries_view(self.entries@);
        let ghost new_lines = old_lines.push(line@);
        if zero_based >= self.start {
            let entry = SelectedLine {
                line_number: Some(self.seen),
                content: String::from_str(trim_line_ending(line)),
            };
            self.entries.push(entry);
            proof {
                assert(range_len(new_lines.len(), self.start as nat, self.count as nat)
                    == range_len(old_lines.len(), self.start as nat, self.count as nat) + 1);
                assert forall|j: int| 0 <= j < old_entries.len() implies
                    entries_view(self.entries@)[j] == range_spec(new_lines, self.start as nat, self.count as nat)[j] by {
                    assert(new_lines[self.start + j] == old_lines[self.start + j]);
                    assert(old_entries == range_spec(old_lines, self.start as nat, self.count as nat));
                    assert(entries_view(self.entries@)[j] == old_entries[j]);
                }
            }
        } else {
            assert(range_len(new_lines.len(), self.start as nat, self.count as nat) == 0);
        }
        assert(entries_view(self.entries@) =~= range_spec(self.lines@, self.start as nat, self.count as nat));
    }

    /// The lines kept.
    pub fn into_entries(self) -> (res: Vec<SelectedLine>)
        requires
            self.wf(),
        ensures
            entries_view(res@) == range_spec(self.seen_lines(), self.start_spec(), self.count_spec()),
    {
        self.entries
    }
}

proof fn lemma_range_stops(lines: Seq<Seq<char>>, i: int, start: nat, count: nat)
    requires
        0 <= i <= lines.len(),
        range_spec(lines.take(i), start, count).len() >= count,
    ensures
        range_spec(lines.take(i), start, count) == range_spec(lines, start, count),
{
    assert(range_spec(lines.take(i), start, count) =~= range_spec(lines, start, count));
}

/// The lines of `lines` (each as read, with its line ending) from the
/// zero-based offset `start` on, at most `count` of them, numbered from
/// `start + 1`; a count of 0 is refused. Only the lines up to the last one
/// kept are looked at.
pub fn read_range(lines: &[String], start: usize, count: usize) -> (res: Result<Vec<SelectedLine>, JlvError>)
    ensures
        count == 0 ==> res == Err::<Vec<SelectedLine>, JlvError>(JlvError::CountNotPositive),
        count > 0 ==> (res matches Ok(v) && entries_view(v@) == range_spec(line_texts(lines@), start as nat, count as nat)),
{
    let mut sel = RangeSelection::new(start, count)?;
    let n = lines.len();
    let ghost all = line_texts(lines@);
    let mut i: usize = 0;
    while i < n && sel.needs_more()
        invariant
            i <= n,
            n == lines@.len(),
            all == line_texts(lines@),
            sel.wf(),
            sel.seen_lines() == all.take(i as int),
            sel.start_spec() == start,
            sel.count_spec() == count,
        decreases n - i,
    {
        assert(all[i as int] == lines@[i as int]@);
        sel.accept_line(lines[i].as_str());
        i = i + 1;
        assert(all.take(i as int) =~= all.take((i - 1) as int).push(all[i - 1]));
    }
    proof {
        if i == n {
            assert(all.take(i as int) =~= all);
        } else {
            lemma_range_stops(all, i as int, start as nat, count as nat);
        }
    }
    Ok(sel.into_entries())
}

/// The first `count` lines of `lines`, numbered from 1; a count of 0 is
/// refused.
pub fn read_head(lines: &[String], count: usize) -> (res: Result<Vec<SelectedLine>, JlvError>)
    ensures
        count == 0 ==> res == Err::<Vec<SelectedLine>, JlvError>(JlvError::CountNotPositive),
        count > 0 ==> (res matches Ok(v) && entries_view(v@) == range_spec(line_texts(lines@), 0, count as nat)),
{
    read_range(lines, 0, count)
}

/// The number that `attach_tail_line_numbers` gives to the first of `len`
/// entries taken from the end of a file of `total` lines.
pub open spec fn tail_first_number(total: nat, len: nat) -> nat {
    if total >= len { (total - len + 1) as nat } else { 1 }
}

/// Numbers the last lines of a file of `total` lines: the entries, taken from
/// the end of the file, get the numbers that end with the file's last line
/// (from 1 where there are more entries than lines).
pub fn attach_tail_line_numbers(total: usize, entries: &mut [SelectedLine])
    ensures
        entries_view(final(entries)@) == numbered_tail(entries_view(old(entries)@), total as nat),
        final(entries)@.len() == old(entries)@.len(),
        forall|i: int| 0 <= i < old(entries)@.len() ==> {
            &&& (#[trigger] final(entries)@[i]).content == old(entries)@[i].content
            &&& final(entries)@[i].line_number == Some((tail_first_number(total as nat, old(entries)@.len()) + i) as usize)
        },
{
    let len = entries.len();
    if len == 0 {
        return;
    }
    let start = total.saturating_sub(len) + 1;
    let mut index: usize = 0;
    while index < len
        invariant
            index <= len,
            len == entries@.len(),
            len == old(entries)@.len(),
            start == tail_first_number(total as nat, len as nat),
            forall|i: int| 0 <= i < len ==> (#[trigger] entries@[i]).content == old(entries)@[i].content,
            forall|i: int| 0 <= i < index ==> (#[trigger] entries@[i]).line_number == Some((start + i) as usize),
        decreases len - index,
    {
        let entry = SelectedLine { line_number: Some(start + index), content: entries[index].content.clone() };
        entries.set(index, entry);
        index = index + 1;
    }
    assert(entries_view(entries@) =~= numbered_tail(entries_view(old(entries)@), total as nat));
}


/// Numbered by `attach_tail_line_numbers`, the last lines of a file that has
/// at least as many lines end with the number of its last line.
pub proof fn law_tail_numbers_end_at_total(total: nat, len: nat)
    requires
        0 < len <= total,
    ensures
        tail_first_number(total, len) + (len - 1) == total,
{
}

/// The last entries of a file of `total` lines, numbered as
/// `attach_tail_line_numbers` numbers them.
pub open spec fn numbered_tail(entries: Seq<SelectedLineModel>, total: nat) -> Seq<SelectedLineModel> {
    Seq::new(entries.len(), |i: int| SelectedLineModel {
        line_number: Some((tail_first_number(total, entries.len()) + i) as usize),
        content: entries[i].content,
    })
}

/// The last lines of a file, numbered as `attach_tail_line_numbers` numbers
/// them, are the range of those same lines: where `entries` hold the texts of
/// the last `min(count, total)` of the file's `total` lines, numbering them
/// gives what `read_range` gives from the offset `total - min(count, total)`
/// with the same count.
pub proof fn law_tail_numbering_is_range(lines: Seq<Seq<char>>, entries: Seq<SelectedLineModel>, count: nat)
    requires
        count > 0,
        entries.len() == if count < lines.len() { count } else { lines.len() },
        forall|i: int| 0 <= i < entries.len() ==>
            (#[trigger] entries[i]).content == trim_line_end(lines[lines.len() - entries.len() + i]),
    ensures
        numbered_tail(entries, lines.len()) == range_spec(lines, (lines.len() - entries.len()) as nat, count),
{
    let start = (lines.len() - entries.len()) as nat;
    assert(range_len(lines.len(), start, count) == entries.len());
    assert(numbered_tail(entries, lines.len()) =~= range_spec(lines, start, count));
}

/// Every line of `b`, as a reader hands it out, is UTF-8.
pub open spec fn lines_valid(b: Seq<u8>) -> bool {
    forall|i: int| 0 <= i < raw_lines(b).len() ==> (#[trigger] utf8_strict(raw_lines(b)[i])) is Some
}

/// The texts of the lines of `b`, each with its line feed.
pub open spec fn decoded_lines(b: Seq<u8>) -> Seq<Seq<char>> {
    Seq::new(raw_lines(b).len(), |i: int| utf8_strict(raw_lines(b)[i])->0)
}

/// The lines of `file`, each with its line feed, as a reader hands them out;
/// a line that is not UTF-8 is refused.
pub fn split_lines(file: &[u8]) -> (res: Result<Vec<String>, JlvError>)
    ensures
        res is Ok <==> lines_valid(file@),
        res is Err ==> res == Err::<Vec<String>, JlvError>(JlvError::InvalidUtf8),
        res matches Ok(v) ==> line_texts(v@) == decoded_lines(file@),
{
    let len = file.len();
    let ghost all = raw_lines(file@);
    let ghost mut done: Seq<Seq<u8>> = Seq::empty();
    let mut out: Vec<String> = Vec::new();
    let mut start: usize = 0;
    assert(file@.subrange(0, len as int) =~= file@);
    while start < len
        invariant
            start <= len,
            len == file@.len(),
            all == raw_lines(file@),
            all == done + raw_lines(file@.subrange(start as int, len as int)),
            out@.len() == done.len(),
            forall|i: int| 0 <= i < done.len() ==> (#[trigger] utf8_strict(done[i])) == Some(out@[i]@),
        decreases len - start,
    {
        let ghost rest = file@.subrange(start as int, len as int);
        proof {
            lemma_first_lf_shift(file@, start as int);
        }
        let mut end = start;
        while end < len && file[end] != 10
            invariant
                start <= end <= len,
                len == file@.len(),
                first_lf_from(file@, end as int) == first_lf_from(file@, start as int),
            decreases len - end,
        {
            end = end + 1;
        }
        if end < len {
            end = end + 1;
        }
        let ghost k = first_lf_from(rest, 0);
        proof {
            if k < rest.len() {
                assert(rest.take(k + 1) =~= file@.subrange(start as int, end as int));
                assert(rest.skip(k + 1) =~= file@.subrange(end as int, len as int));
            } else {
                assert(rest =~= file@.subrange(start as int, end as int));
                assert(file@.subrange(end as int, len as int) =~= Seq::<u8>::empty());
            }
        }
        let ghost line = file@.subrange(start as int, end as int);
        match decode_utf8(vstd::slice::slice_subrange(file, start, end)) {
            Some(text) => {
                out.push(text);
                proof {
                    done = done.push(line);
                    assert(all =~= done + raw_lines(file@.subrange(end as int, len as int)));
                }
            },
            None => {
                proof {
                    assert(all[done.len() as int] == line);
                }
                return Err(JlvError::InvalidUtf8);
            },
        }
        start = end;
    }
    proof {
        assert(file@.subrange(len as int, len as int) =~= Seq::<u8>::empty());
        assert(done =~= all);
        assert(line_texts(out@) =~= decoded_lines(file@));
    }
    Ok(out)
}

/// The lines of a stream, counted as they are read.
pub struct LineCounter {
    count: usize,
    lines: Ghost<Seq<Seq<char>>>,
}

impl LineCounter {
    /// The lines counted so far, as read.
    pub closed spec fn seen_lines(&self) -> Seq<Seq<char>> {
        self.lines@
    }

    /// The count is the number of lines seen.
    pub closed spec fn wf(&self) -> bool {
        self.count == self.lines@.len()
    }

    /// A counter that has seen no line.
    pub fn new() -> (res: LineCounter)
        ensures
            res.wf(),
            res.seen_lines() == Seq::<Seq<char>>::empty(),
    {
        LineCounter { count: 0, lines: Ghost(Seq::empty()) }
    }

    /// Counts the next line of the stream, as read with its line ending.
    pub fn count_line(&mut self, line: &str)
        requires
            old(self).wf(),
            old(self).seen_lines().len() < usize::MAX,
        ensures
            final(self).wf(),
            final(self).seen_lines() == old(self).seen_lines().push(line@),
    {
        self.count = self.count + 1;
        self.lines = Ghost(self.lines@.push(line@));
    }

    /// The number of lines counted.
    pub fn total(&self) -> (r: usize)
        requires
            self.wf(),
        ensures
            r == self.seen_lines().len(),
    {
        self.count
    }
}

/// The number of lines of `file` (the bytes of a whole file), as a reader
/// hands them out one by one; a line that is not UTF-8 is refused.
pub fn count_lines(file: &[u8]) -> (res: Result<usize, JlvError>)
    ensures
        lines_valid(file@) ==> res == Ok::<usize, JlvError>(raw_lines(file@).len() as usize),
        !lines_valid(file@) ==> res == Err::<usize, JlvError>(JlvError::InvalidUtf8),
{
    let lines = split_lines(file)?;
    let mut counter = LineCounter::new();
    let n = lines.len();
    let mut i: usize = 0;
    while i < n
        invariant
            i <= n,
            n == lines@.len(),
            counter.wf(),
            counter.seen_lines().len() == i,
        decreases n - i,
    {
        counter.count_line(lines[i].as_str());
        i = i + 1;
    }
    proof {
        assert(line_texts(lines@).len() == n);
    }
    Ok(counter.total())
}

/// The last lines that `tail::read_tail` gives of a file whose lines are all
/// UTF-8, numbered by `attach_tail_line_numbers` with the file's line count
/// ([`count_lines`]), are what [`read_range`] gives of the file's lines
/// ([`split_lines`]) from the offset of the first of them, with the same
/// count.
pub proof fn law_tail_read_numbered_is_range(file: Seq<u8>, count: nat, entries: Seq<SelectedLineModel>)
    requires
        count > 0,
        lines_valid(file),
        entries.len() == last_n(raw_lines(file), count).len(),
        decodes_as_strict(entries, last_n(raw_lines(file), count)),
    ensures
        numbered_tail(entries, raw_lines(file).len())
            == range_spec(decoded_lines(file), (raw_lines(file).len() - entries.len()) as nat, count),
{
    let raw = raw_lines(file);
    let lines = decoded_lines(file);
    let kept = last_n(raw, count);
    assert forall|i: int| 0 <= i < entries.len() implies
        (#[trigger] entries[i]).content == trim_line_end(lines[lines.len() - entries.len() + i]) by {
        assert(kept[i] == raw[raw.len() - entries.len() + i]);
        assert(utf8_strict(raw[raw.len() - entries.len() + i]) is Some);
    }
    law_tail_numbering_is_range(lines, entries, count);
}

} // verus!
