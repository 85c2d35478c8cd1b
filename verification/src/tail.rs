//! The last lines of a file, read backwards in chunks.
//!
//! [`TailScan`] decides which chunk of the file to read next and, once enough
//! line feeds have been seen, which lines of what was read are the last ones.
//! The program reads the chunks and the one byte before them.

use vstd::prelude::*;

use crate::text::{decode_utf8_lossy, trim_line_end, trim_line_ending, utf8_lossy, utf8_strict};
use crate::{ensure_positive, JlvError, SelectedLine, SelectedLineModel};
use crate::render::entries_view;

verus! {

/// The size of the chunks read from the end of the file.
pub const TAIL_CHUNK_SIZE: u64 = 64 * 1024;

/// The byte of a line feed.
pub open spec fn is_lf(b: u8) -> bool {
    b == 10
}

/// The number of line feeds in `b`.
pub open spec fn count_lf(b: Seq<u8>) -> nat
    decreases b.len(),
{
    if b.len() == 0 {
        0
    } else {
        count_lf(b.drop_last()) + if is_lf(b.last()) { 1nat } else { 0nat }
    }
}

/// The index of the first line feed in `b` at or after `i`, or `b.len()`.
pub open spec fn first_lf_from(b: Seq<u8>, i: int) -> int
    decreases b.len() - i,
{
    if i < 0 || i >= b.len() {
        b.len() as int
    } else if is_lf(b[i]) {
        i
    } else {
        first_lf_from(b, i + 1)
    }
}

/// The last `count` elements of `s` (all of them where there are fewer).
pub open spec fn last_n<T>(s: Seq<T>, count: nat) -> Seq<T> {
    if s.len() > count {
        s.skip(s.len() - count)
    } else {
        s
    }
}

/// The part of `buffer` whose lines are whole: all of it where it starts at
/// a line boundary, else what follows its first line feed (all of it where it
/// has none).
pub open spec fn whole_lines_part(buffer: Seq<u8>, at_boundary: bool) -> Seq<u8> {
    if at_boundary {
        buffer
    } else {
        let k = first_lf_from(buffer, 0);
        if k < buffer.len() {
            buffer.skip(k + 1)
        } else {
            buffer
        }
    }
}

/// The entry for a line found by the tail scan, as read with its line feed:
/// no number, its text decoded with replacement characters, without the
/// line ending.
pub open spec fn tail_entry(line: Seq<u8>) -> SelectedLineModel {
    SelectedLineModel { line_number: None, content: trim_line_end(utf8_lossy(line)) }
}

/// The entries for the last `count` lines of `part`.
pub open spec fn tail_entries(part: Seq<u8>, count: nat) -> Seq<SelectedLineModel> {
    last_n(raw_lines(part), count).map_values(|l: Seq<u8>| tail_entry(l))
}

/// Where a line of `lines` is UTF-8, its entry holds its text as
/// `std::str::from_utf8` reads it, without the line ending.
pub open spec fn decodes_as_strict(entries: Seq<SelectedLineModel>, lines: Seq<Seq<u8>>) -> bool {
    forall|j: int| 0 <= j < entries.len() && 0 <= j < lines.len() && (#[trigger] utf8_strict(lines[j])) is Some
        ==> entries[j].content == trim_line_end(utf8_strict(lines[j])->0)
}

/// The backwards scan over a file for its last lines.
pub struct TailScan {
    count: usize,
    file_len: u64,
    pos: u64,
    newline_count: u64,
    buffer: Vec<u8>,
}

impl TailScan {
    /// The number of lines asked for.
    pub closed spec fn count_spec(&self) -> nat {
        self.count as nat
    }

    /// The length of the file.
    pub closed spec fn file_len_spec(&self) -> nat {
        self.file_len as nat
    }

    /// Where the bytes read so far start in the file.
    pub closed spec fn pos_spec(&self) -> nat {
        self.pos as nat
    }

    /// The bytes read so far: the file from `pos_spec()` to its end.
    pub closed spec fn buffer_spec(&self) -> Seq<u8> {
        self.buffer@
    }

    /// Whether the scan reads on: it is not at the start of the file, and it
    /// has not yet seen more line feeds than lines asked for.
    pub open spec fn reads_on(&self) -> bool {
        self.pos_spec() > 0 && count_lf(self.buffer_spec()) <= self.count_spec()
    }

    /// The consistency of the state.
    pub closed spec fn wf(&self) -> bool {
        &&& self.count > 0
        &&& self.pos <= self.file_len
        &&& self.buffer@.len() == self.file_len - self.pos
        &&& self.newline_count == count_lf(self.buffer@)
    }

    /// A scan for the last `count` lines of a file of `file_len` bytes; a
    /// count of 0 is refused.
    pub fn new(count: usize, file_len: u64) -> (res: Result<TailScan, JlvError>)
        ensures
            count == 0 <==> res is Err,
            res is Err ==> res == Err::<TailScan, JlvError>(JlvError::CountNotPositive),
            res matches Ok(s) ==> {
                &&& s.wf()
                &&& s.count_spec() == count
                &&& s.file_len_spec() == file_len
                &&& s.pos_spec() == file_len
                &&& s.buffer_spec() == Seq::<u8>::empty()
            },
    {
        ensure_positive(count)?;
        Ok(TailScan { count, file_len, pos: file_len, newline_count: 0, buffer: Vec::new() })
    }

    /// The next chunk to read, as its offset and length, while the scan reads
    /// on: the `TAIL_CHUNK_SIZE` bytes (or fewer, at the start of the file)
    /// before what was read.
    pub fn next_read(&self) -> (res: Option<(u64, usize)>)
        requires
            self.wf(),
        ensures
            self.reads_on() <==> res is Some,
            res matches Some((offset, len)) ==> {
                &&& len == if self.pos_spec() < TAIL_CHUNK_SIZE { self.pos_spec() } else { TAIL_CHUNK_SIZE as nat }
                &&& offset == self.pos_spec() - len
            },
    {
        if self.pos > 0 && self.newline_count <= self.count as u64 {
            let size: u64 = if self.pos < TAIL_CHUNK_SIZE { self.pos } else { TAIL_CHUNK_SIZE };
            Some((self.pos - size, size as usize))
        } else {
            None
        }
    }

    /// Takes the chunk that `next_read` asked for.
    pub fn feed_chunk(&mut self, chunk: Vec<u8>)
        requires
            old(self).wf(),
            old(self).reads_on(),
            chunk@.len() == if old(self).pos_spec() < TAIL_CHUNK_SIZE { old(self).pos_spec() } else { TAIL_CHUNK_SIZE as nat },
        ensures
            final(self).wf(),
            final(self).count_spec() == old(self).count_spec(),
            final(self).file_len_spec() == old(self).file_len_spec(),
            final(self).pos_spec() == old(self).pos_spec() - chunk@.len(),
            final(self).buffer_spec() == chunk@ + old(self).buffer_spec(),
    {
        let mut chunk = chunk;
        let ghost c = chunk@;
        let n = count_lf_exec(&chunk);
        proof {
            lemma_count_lf_concat(c, self.buffer@);
            assert(count_lf(c + self.buffer@) <= (c + self.buffer@).len()) by {
                lemma_count_lf_bound(c + self.buffer@);
            }
        }
        self.pos = self.pos - chunk.len() as u64;
        self.newline_count = self.newline_count + n;
        chunk.append(&mut self.buffer);
        self.buffer = chunk;
    }

    /// Where the byte just before what was read stands, when it is not the
    /// start of the file: the scan needs it to know whether what was read
    /// starts at a line boundary.
    pub fn boundary_probe(&self) -> (res: Option<u64>)
        requires
            self.wf(),
        ensures
            self.pos_spec() == 0 <==> res is None,
            res matches Some(p) ==> p == self.pos_spec() - 1,
    {
        if self.pos == 0 {
            None
        } else {
            Some(self.pos - 1)
        }
    }

    /// The entries for the last lines, given the byte just before what was
    /// read (`None` at the start of the file). What was read starts at a line
    /// boundary at the start of the file or after a line feed; otherwise its
    /// first, partial line is left out.
    pub fn finish(self, byte_before: Option<u8>) -> (res: Vec<SelectedLine>)
        requires
            self.wf(),
        ensures
            entries_view(res@) == tail_entries(
                whole_lines_part(self.buffer_spec(), self.pos_spec() == 0 || byte_before == Some(10u8)),
                self.count_spec(),
            ),
            decodes_as_strict(
                entries_view(res@),
                last_n(
                    raw_lines(whole_lines_part(self.buffer_spec(), self.pos_spec() == 0 || byte_before == Some(10u8))),
                    self.count_spec(),
                ),
            ),
    {
        let at_boundary = self.pos == 0 || byte_before == Some(10u8);
        let buffer = self.buffer;
        let len = buffer.len();
        let mut from: usize = 0;
        if !at_boundary {
            let k = first_lf_exec(&buffer, 0);
            if k < len {
                from = k + 1;
            }
        }
        let ghost part = whole_lines_part(buffer@, at_boundary);
        assert(part =~= buffer@.subrange(from as int, len as int));
        let bounds = line_bounds(&buffer, from);
        let total = bounds.len();
        let first = if total > self.count { total - self.count } else { 0 };
        let mut out: Vec<SelectedLine> = Vec::new();
        let mut i = first;
        let ghost lines = raw_lines(part);
        let ghost kept = last_n(lines, self.count as nat);
        assert(kept =~= lines.skip(first as int));
        while i < total
            invariant
                first <= i <= total,
                total == bounds@.len(),
                total == lines.len(),
                lines == raw_lines(part),
                part == buffer@.subrange(from as int, len as int),
                len == buffer@.len(),
                kept == lines.skip(first as int),
                forall|j: int| 0 <= j < total ==> {
                    &&& from <= (#[trigger] bounds@[j]).0 <= bounds@[j].1 <= len
                    &&& buffer@.subrange(bounds@[j].0 as int, bounds@[j].1 as int) == lines[j]
                },
                out@.len() == i - first,
                forall|j: int| 0 <= j < out@.len() ==> (#[trigger] out@[j])@ == tail_entry(kept[j]),
                forall|j: int| 0 <= j < out@.len() && (#[trigger] utf8_strict(kept[j])) is Some
                    ==> out@[j]@.content == trim_line_end(utf8_strict(kept[j])->0),
            decreases total - i,
        {
            let (s, e) = bounds[i];
            let text = decode_utf8_lossy(slice_range(&buffer, s, e));
            let content = String::from_str(trim_line_ending(text.as_str()));
            out.push(SelectedLine { line_number: None, content });
            i = i + 1;
        }
        assert(entries_view(out@) =~= kept.map_values(|l: Seq<u8>| tail_entry(l)));
        assert forall|j: int| 0 <= j < entries_view(out@).len() && 0 <= j < kept.len()
            && (#[trigger] utf8_strict(kept[j])) is Some implies
            entries_view(out@)[j].content == trim_line_end(utf8_strict(kept[j])->0) by {
            assert(entries_view(out@)[j] == out@[j]@);
        }
        out
    }
}

/// The last `count` lines of `file` (the bytes of a whole file), found the
/// way a file on disk is read: in chunks from its end, until more line feeds
/// than lines asked for were seen, then the byte before what was read. A
/// count of 0 is refused.
pub fn read_tail(file: &[u8], count: usize) -> (res: Result<Vec<SelectedLine>, JlvError>)
    ensures
        count == 0 ==> res == Err::<Vec<SelectedLine>, JlvError>(JlvError::CountNotPositive),
        count > 0 ==> (res matches Ok(v) && entries_view(v@) == tail_entries(file@, count as nat)
            && decodes_as_strict(entries_view(v@), last_n(raw_lines(file@), count as nat))),
{
    let len = file.len();
    let mut scan = TailScan::new(count, len as u64)?;
    assert(file@.skip(len as int) =~= Seq::<u8>::empty());
    let mut next = scan.next_read();
    while next.is_some()
        invariant
            scan.wf(),
            scan.count_spec() == count,
            scan.file_len_spec() == len,
            len == file@.len(),
            scan.buffer_spec() == file@.skip(scan.pos_spec() as int),
            scan.reads_on() <==> next is Some,
            next matches Some((offset, n)) ==> {
                &&& n == if scan.pos_spec() < TAIL_CHUNK_SIZE { scan.pos_spec() } else { TAIL_CHUNK_SIZE as nat }
                &&& offset == scan.pos_spec() - n
            },
        decreases scan.pos_spec(),
    {
        let (offset, n) = next.unwrap();
        let from = offset as usize;
        let chunk = vstd::slice::slice_to_vec(vstd::slice::slice_subrange(file, from, from + n));
        let ghost old_pos = scan.pos_spec();
        scan.feed_chunk(chunk);
        assert(file@.skip(scan.pos_spec() as int) =~= file@.subrange(from as int, from + n) + file@.skip(old_pos as int));
        next = scan.next_read();
    }
    let byte_before: Option<u8> = match scan.boundary_probe() {
        Some(p) => Some(file[p as usize]),
        None => None,
    };
    proof {
        law_stopped_scan_gives_last_lines(scan, file@);
    }
    Ok(scan.finish(byte_before))
}

/// The number of line feeds in `bytes`.
fn count_lf_exec(bytes: &Vec<u8>) -> (n: u64)
    ensures
        n == count_lf(bytes@),
{
    let len = bytes.len();
    let mut i: usize = 0;
    let mut n: u64 = 0;
    while i < len
        invariant
            i <= len,
            len == bytes@.len(),
            n == count_lf(bytes@.take(i as int)),
            n <= i,
        decreases len - i,
    {
        assert(bytes@.take(i + 1).drop_last() =~= bytes@.take(i as int));
        if bytes[i] == 10 {
            n = n + 1;
        }
        i = i + 1;
    }
    assert(bytes@.take(len as int) =~= bytes@);
    n
}

/// The index of the first line feed of `bytes` at or after `from`, or its
/// length.
fn first_lf_exec(bytes: &Vec<u8>, from: usize) -> (k: usize)
    requires
        from <= bytes@.len(),
    ensures
        k == first_lf_from(bytes@, from as int),
{
    let len = bytes.len();
    let mut i = from;
    while i < len && bytes[i] != 10
        invariant
            from <= i <= len,
            len == bytes@.len(),
            first_lf_from(bytes@, i as int) == first_lf_from(bytes@, from as int),
        decreases len - i,
    {
        i = i + 1;
    }
    i
}

/// The bounds, in `bytes`, of the lines of `bytes[from..]`, each with its
/// line feed.
fn line_bounds(bytes: &Vec<u8>, from: usize) -> (res: Vec<(usize, usize)>)
    requires
        from <= bytes@.len(),
    ensures
        res@.len() == raw_lines(bytes@.subrange(from as int, bytes@.len() as int)).len(),
        forall|j: int| 0 <= j < res@.len() ==> {
            &&& from <= (#[trigger] res@[j]).0 <= res@[j].1 <= bytes@.len()
            &&& bytes@.subrange(res@[j].0 as int, res@[j].1 as int)
                == raw_lines(bytes@.subrange(from as int, bytes@.len() as int))[j]
        },
{
    let len = bytes.len();
    let ghost all = raw_lines(bytes@.subrange(from as int, len as int));
    let mut out: Vec<(usize, usize)> = Vec::new();
    let mut start = from;
    while start < len
        invariant
            from <= start <= len,
            len == bytes@.len(),
            all == raw_lines(bytes@.subrange(from as int, len as int)),
            all == out@.map_values(|b: (usize, usize)| bytes@.subrange(b.0 as int, b.1 as int))
                + raw_lines(bytes@.subrange(start as int, len as int)),
            forall|j: int| 0 <= j < out@.len() ==> from <= (#[trigger] out@[j]).0 <= out@[j].1 <= len,
        decreases len - start,
    {
        let k = first_lf_exec(bytes, start);
        let ghost rest = bytes@.subrange(start as int, len as int);
        proof {
            lemma_first_lf_shift(bytes@, start as int);
        }
        let ghost before = out@;
        if k < len {
            out.push((start, k + 1));
            proof {
                assert(rest.take(k + 1 - start) =~= bytes@.subrange(start as int, k + 1));
                assert(rest.skip(k - start + 1) =~= bytes@.subrange(k + 1, len as int));
                assert(out@.map_values(|b: (usize, usize)| bytes@.subrange(b.0 as int, b.1 as int))
                    =~= before.map_values(|b: (usize, usize)| bytes@.subrange(b.0 as int, b.1 as int))
                    .push(bytes@.subrange(start as int, k + 1)));
            }
            start = k + 1;
        } else {
            out.push((start, k));
            proof {
                assert(rest =~= bytes@.subrange(start as int, k as int));
                assert(out@.map_values(|b: (usize, usize)| bytes@.subrange(b.0 as int, b.1 as int))
                    =~= before.map_values(|b: (usize, usize)| bytes@.subrange(b.0 as int, b.1 as int))
                    .push(bytes@.subrange(start as int, k as int)));
                assert(bytes@.subrange(len as int, len as int) =~= Seq::<u8>::empty());
            }
            start = len;
        }
    }
    proof {
        assert(bytes@.subrange(start as int, len as int) =~= Seq::<u8>::empty());
        let m = out@.map_values(|b: (usize, usize)| bytes@.subrange(b.0 as int, b.1 as int));
        assert(all =~= m);
        assert forall|j: int| 0 <= j < out@.len() implies
            bytes@.subrange((#[trigger] out@[j]).0 as int, out@[j].1 as int) == all[j] by {
            assert(m[j] == bytes@.subrange(out@[j].0 as int, out@[j].1 as int));
        }
    }
    out
}

/// `bytes[s..e]`.
fn slice_range(bytes: &Vec<u8>, s: usize, e: usize) -> (res: &[u8])
    requires
        s <= e <= bytes@.len(),
    ensures
        res@ == bytes@.subrange(s as int, e as int),
{
    vstd::slice::slice_subrange(bytes.as_slice(), s, e)
}

/// Line feeds of two parts add up.
pub proof fn lemma_count_lf_concat(a: Seq<u8>, b: Seq<u8>)
    ensures
        count_lf(a + b) == count_lf(a) + count_lf(b),
    decreases b.len(),
{
    if b.len() == 0 {
        assert(a + b =~= a);
    } else {
        assert((a + b).drop_last() =~= a + b.drop_last());
        lemma_count_lf_concat(a, b.drop_last());
    }
}

proof fn lemma_count_lf_bound(b: Seq<u8>)
    ensures
        count_lf(b) <= b.len(),
    decreases b.len(),
{
    if b.len() > 0 {
        lemma_count_lf_bound(b.drop_last());
    }
}

/// Where the search for a line feed starts in the middle of `b`, it finds the
/// same byte as in `b.skip(start)`, shifted.
pub proof fn lemma_first_lf_shift(b: Seq<u8>, start: int)
    requires
        0 <= start <= b.len(),
    ensures
        first_lf_from(b, start) - start == first_lf_from(b.subrange(start, b.len() as int), 0),
        start <= first_lf_from(b, start) <= b.len(),
        first_lf_from(b, start) < b.len() ==> is_lf(b[first_lf_from(b, start)]),
    decreases b.len() - start,
{
    let r = b.subrange(start, b.len() as int);
    lemma_first_lf_offset(r, 0, b, start);
}

pub proof fn lemma_first_lf_offset(r: Seq<u8>, i: int, b: Seq<u8>, start: int)
    requires
        0 <= start <= b.len(),
        r == b.subrange(start, b.len() as int),
        0 <= i <= r.len(),
    ensures
        first_lf_from(b, start + i) - start == first_lf_from(r, i),
        start + i <= first_lf_from(b, start + i) <= b.len(),
        first_lf_from(b, start + i) < b.len() ==> is_lf(b[first_lf_from(b, start + i)]),
    decreases r.len() - i,
{
    if i < r.len() {
        if !is_lf(r[i]) {
            lemma_first_lf_offset(r, i + 1, b, start);
        }
    }
}


/// The search for a line feed from `i` stops at the first one, or at the end.
pub proof fn lemma_first_lf_props(b: Seq<u8>, i: int)
    requires
        0 <= i <= b.len(),
    ensures
        i <= first_lf_from(b, i) <= b.len(),
        first_lf_from(b, i) < b.len() ==> is_lf(b[first_lf_from(b, i)]),
        forall|j: int| i <= j < first_lf_from(b, i) ==> !is_lf(#[trigger] b[j]),
    decreases b.len() - i,
{
    if i < b.len() && !is_lf(b[i]) {
        lemma_first_lf_props(b, i + 1);
    }
}

/// A line feed at `k` with none in `[i, k)` is the one that the search from
/// `i` finds.
pub proof fn lemma_first_lf_is(b: Seq<u8>, i: int, k: int)
    requires
        0 <= i <= k < b.len(),
        is_lf(b[k]),
        forall|j: int| i <= j < k ==> !is_lf(#[trigger] b[j]),
    ensures
        first_lf_from(b, i) == k,
    decreases k - i,
{
    if i < k {
        lemma_first_lf_is(b, i + 1, k);
    }
}

/// A sequence without line feeds has none to count.
pub proof fn lemma_count_lf_none(b: Seq<u8>)
    requires
        forall|j: int| 0 <= j < b.len() ==> !is_lf(#[trigger] b[j]),
    ensures
        count_lf(b) == 0,
    decreases b.len(),
{
    if b.len() > 0 {
        assert forall|j: int| 0 <= j < b.drop_last().len() implies !is_lf(#[trigger] b.drop_last()[j]) by {
            assert(b.drop_last()[j] == b[j]);
        }
        lemma_count_lf_none(b.drop_last());
    }
}

/// A file that ends with a line feed (or is empty) followed by more bytes has
/// the lines of the first part followed by those of the second.
pub proof fn lemma_raw_lines_concat(a: Seq<u8>, c: Seq<u8>)
    requires
        a.len() == 0 || is_lf(a.last()),
    ensures
        raw_lines(a + c) == raw_lines(a) + raw_lines(c),
    decreases a.len(),
{
    if a.len() == 0 {
        assert(a + c =~= c);
        assert(raw_lines(a) =~= Seq::<Seq<u8>>::empty());
        assert(raw_lines(a) + raw_lines(c) =~= raw_lines(c));
    } else {
        let b = a + c;
        lemma_first_lf_props(a, 0);
        let k = first_lf_from(a, 0);
        if k >= a.len() {
            assert(!is_lf(a[a.len() - 1]));
            assert(false);
        }
        assert forall|j: int| 0 <= j < k implies !is_lf(#[trigger] b[j]) by {
            assert(b[j] == a[j]);
        }
        assert(b[k] == a[k]);
        lemma_first_lf_is(b, 0, k);
        let rest = a.skip(k + 1);
        assert(b.take(k + 1) =~= a.take(k + 1));
        assert(b.skip(k + 1) =~= rest + c);
        if rest.len() > 0 {
            assert(rest.last() == a.last());
        }
        lemma_raw_lines_concat(rest, c);
        assert(raw_lines(a + c) =~= raw_lines(a) + raw_lines(c));
    }
}

/// Lines put in front of at least `count` lines do not change the last `count`.
pub proof fn lemma_last_n_suffix<T>(x: Seq<T>, y: Seq<T>, count: nat)
    requires
        y.len() >= count,
    ensures
        last_n(x + y, count) == last_n(y, count),
{
    assert(last_n(x + y, count) =~= last_n(y, count));
}

/// The tail scan gives the last lines of the whole file: once it has stopped
/// (at the start of the file, or having read more line feeds than lines
/// asked for), the entries that `TailScan::finish` makes of what it read
/// from `pos` to the end, given the byte before `pos`, are the entries of the
/// last `count` lines of the file.
pub proof fn law_tail_gives_last_lines(file: Seq<u8>, pos: nat, count: nat)
    requires
        count > 0,
        pos <= file.len(),
        pos == 0 || count_lf(file.skip(pos as int)) > count,
    ensures
        tail_entries(whole_lines_part(file.skip(pos as int), pos == 0 || is_lf(file[pos - 1])), count)
            == tail_entries(file, count),
        last_n(raw_lines(whole_lines_part(file.skip(pos as int), pos == 0 || is_lf(file[pos - 1]))), count)
            == last_n(raw_lines(file), count),
{
    let suffix = file.skip(pos as int);
    if pos == 0 {
        assert(suffix =~= file);
    } else {
        let at_boundary = is_lf(file[pos - 1]);
        let part = whole_lines_part(suffix, at_boundary);
        let cut: int = if at_boundary {
            pos as int
        } else {
            lemma_first_lf_props(suffix, 0);
            let k = first_lf_from(suffix, 0);
            if k >= suffix.len() {
                lemma_count_lf_none(suffix);
                assert(false);
            }
            pos + k + 1
        };
        let prefix = file.take(cut);
        assert(part =~= file.skip(cut));
        assert(file =~= prefix + part);
        assert(is_lf(prefix.last()));
        lemma_raw_lines_concat(prefix, part);
        if !at_boundary {
            let k = first_lf_from(suffix, 0);
            let head = suffix.take(k + 1);
            assert(suffix =~= head + part);
            lemma_count_lf_concat(head, part);
            assert(head.drop_last() =~= suffix.take(k));
            assert forall|j: int| 0 <= j < head.drop_last().len() implies !is_lf(#[trigger] head.drop_last()[j]) by {
                assert(head.drop_last()[j] == suffix[j]);
            }
            lemma_count_lf_none(head.drop_last());
        }
        lemma_raw_lines_len(part);
        lemma_last_n_suffix(raw_lines(prefix), raw_lines(part), count);
    }
}


/// A scan that has stopped, having read the file from `pos_spec()` to its
/// end, gives (by `finish`, with the byte before `pos_spec()` taken from the
/// file) the entries of the last lines of the file.
pub proof fn law_stopped_scan_gives_last_lines(scan: TailScan, file: Seq<u8>)
    requires
        scan.wf(),
        !scan.reads_on(),
        file.len() == scan.file_len_spec(),
        scan.buffer_spec() == file.skip(scan.pos_spec() as int),
    ensures
        tail_entries(
            whole_lines_part(scan.buffer_spec(), scan.pos_spec() == 0 || is_lf(file[scan.pos_spec() - 1])),
            scan.count_spec(),
        ) == tail_entries(file, scan.count_spec()),
        last_n(
            raw_lines(whole_lines_part(scan.buffer_spec(), scan.pos_spec() == 0 || is_lf(file[scan.pos_spec() - 1]))),
            scan.count_spec(),
        ) == last_n(raw_lines(file), scan.count_spec()),
{
    law_tail_gives_last_lines(file, scan.pos_spec(), scan.count_spec());
}

/// The lines of `b` as a reader hands them out one by one: each with its
/// line feed, the last one without where `b` does not end with one.
pub open spec fn raw_lines(b: Seq<u8>) -> Seq<Seq<u8>>
    decreases b.len(),
{
    if b.len() == 0 {
        Seq::empty()
    } else {
        let k = first_lf_from(b, 0);
        if k >= b.len() {
            seq![b]
        } else {
            proof {
                lemma_first_lf_shift(b, 0);
            }
            seq![b.take(k + 1)] + raw_lines(b.skip(k + 1))
        }
    }
}

/// `p` is where a line of `b` starts: inside `b`, at its start or after a
/// line feed.
pub open spec fn is_line_start(b: Seq<u8>, p: int) -> bool {
    0 <= p < b.len() && (p == 0 || is_lf(b[p - 1]))
}

/// A file has one line per line feed, and one more where it does not end
/// with a line feed.
pub proof fn lemma_raw_lines_len(b: Seq<u8>)
    ensures
        raw_lines(b).len() == count_lf(b) + if b.len() > 0 && !is_lf(b.last()) { 1nat } else { 0nat },
    decreases b.len(),
{
    if b.len() > 0 {
        lemma_first_lf_props(b, 0);
        let k = first_lf_from(b, 0);
        if k >= b.len() {
            lemma_count_lf_none(b);
        } else {
            let head = b.take(k + 1);
            let rest = b.skip(k + 1);
            assert(b =~= head + rest);
            lemma_count_lf_concat(head, rest);
            assert(head.drop_last() =~= b.take(k));
            assert forall|j: int| 0 <= j < head.drop_last().len() implies !is_lf(#[trigger] head.drop_last()[j]) by {
                assert(head.drop_last()[j] == b[j]);
            }
            lemma_count_lf_none(head.drop_last());
            lemma_raw_lines_len(rest);
            if rest.len() > 0 {
                assert(rest.last() == b.last());
            }
        }
    }
}

/// The line that starts at `p` is line number `count_lf(b.take(p))`
/// (from 0), below the number of lines.
pub proof fn lemma_line_start_index(b: Seq<u8>, p: int)
    requires
        is_line_start(b, p),
    ensures
        count_lf(b.take(p)) < raw_lines(b).len(),
{
    lemma_raw_lines_len(b);
    let rest = b.skip(p);
    assert(b =~= b.take(p) + rest);
    lemma_count_lf_concat(b.take(p), rest);
    if is_lf(b.last()) {
        assert(rest.last() == b.last());
        assert(count_lf(rest) == count_lf(rest.drop_last()) + 1);
    }
}

/// Two different line starts stand in different lines.
pub proof fn lemma_line_starts_differ(b: Seq<u8>, p: int, q: int)
    requires
        is_line_start(b, p),
        is_line_start(b, q),
        p < q,
    ensures
        count_lf(b.take(p)) < count_lf(b.take(q)),
{
    let mid = b.subrange(p, q);
    assert(b.take(q) =~= b.take(p) + mid);
    lemma_count_lf_concat(b.take(p), mid);
    assert(mid.last() == b[q - 1]);
    assert(count_lf(mid) == count_lf(mid.drop_last()) + 1);
}

/// Different line starts of `b` are no more than its lines.
pub proof fn lemma_line_starts_bound(b: Seq<u8>, keys: Seq<u64>)
    requires
        keys.no_duplicates(),
        forall|i: int| 0 <= i < keys.len() ==> is_line_start(b, #[trigger] keys[i] as int),
    ensures
        keys.len() <= raw_lines(b).len(),
{
    let n = raw_lines(b).len() as int;
    let idx = keys.map_values(|k: u64| count_lf(b.take(k as int)) as int);
    assert forall|i: int, j: int| 0 <= i < idx.len() && 0 <= j < idx.len() && i != j implies idx[i] != idx[j] by {
        assert(keys[i] != keys[j]);
        if keys[i] < keys[j] {
            lemma_line_starts_differ(b, keys[i] as int, keys[j] as int);
        } else {
            lemma_line_starts_differ(b, keys[j] as int, keys[i] as int);
        }
    }
    idx.unique_seq_to_set();
    assert forall|x: int| idx.to_set().contains(x) implies vstd::set_lib::set_int_range(0, n).contains(x) by {
        let i = choose|i: int| 0 <= i < idx.len() && idx[i] == x;
        lemma_line_start_index(b, keys[i] as int);
    }
    vstd::set_lib::lemma_int_range(0, n);
    vstd::set_lib::lemma_len_subset(idx.to_set(), vstd::set_lib::set_int_range(0, n));
}

} // verus!
