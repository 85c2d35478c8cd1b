//! Finding the start of the line that covers a byte offset of a file.
//!
//! [`LineLocator`] asks for the bytes it needs (one byte, then chunks read
//! backwards from the offset) and answers where the line starts. The program
//! reads those bytes from the file.

use vstd::prelude::*;

use crate::tail::{
    count_lf, first_lf_from, is_lf, is_line_start, lemma_count_lf_concat, lemma_count_lf_none, lemma_first_lf_offset,
    lemma_first_lf_props, raw_lines,
};
use crate::text::{decode_utf8, trim_line_end, trim_line_ending, utf8_strict};
use crate::JlvError;

verus! {

/// The size of the chunks read backwards from the offset.
pub const RANDOM_BACKSCAN_CHUNK: u64 = 8 * 1024;

/// The index of the last line feed of `b`, or -1.
pub open spec fn last_lf(b: Seq<u8>) -> int
    decreases b.len(),
{
    if b.len() == 0 {
        -1
    } else if is_lf(b.last()) {
        b.len() - 1
    } else {
        last_lf(b.drop_last())
    }
}

/// Where the chunk that ends at `scan_end` (inclusive) starts.
pub open spec fn window_start(scan_end: nat) -> nat {
    if scan_end >= RANDOM_BACKSCAN_CHUNK - 1 {
        (scan_end - (RANDOM_BACKSCAN_CHUNK - 1)) as nat
    } else {
        0
    }
}

/// The backward scan from `scan_end` (inclusive) for the last line feed, in
/// chunks: the byte after it, or 0 where there is none.
pub open spec fn scan_from(file: Seq<u8>, scan_end: nat) -> nat
    decreases scan_end,
{
    let cs = window_start(scan_end);
    let chunk = file.subrange(cs as int, scan_end as int + 1);
    if last_lf(chunk) >= 0 {
        (cs + last_lf(chunk) + 1) as nat
    } else if cs == 0 {
        0
    } else {
        scan_from(file, (cs - 1) as nat)
    }
}

/// The offset that is looked at: `offset`, or the last byte of the file
/// where `offset` is beyond it.
pub open spec fn probe_point(file_len: nat, offset: nat) -> nat {
    if offset < file_len { offset } else { (file_len - 1) as nat }
}

/// The probe moved back by one byte where it is on a line feed (and not at
/// the start of the file): a line feed belongs to the line it ends.
pub open spec fn adjusted_probe(file: Seq<u8>, probe: nat) -> nat {
    if probe > 0 && is_lf(file[probe as int]) { (probe - 1) as nat } else { probe }
}

/// Where the line that covers `offset` starts.
pub open spec fn covering_line_start(file: Seq<u8>, offset: nat) -> nat {
    let e = adjusted_probe(file, probe_point(file.len(), offset));
    if e == 0 { 0 } else { scan_from(file, e) }
}

/// What the locator asks for next.
#[derive(Clone, Copy, Debug, PartialEq, Eq)]
pub enum LocateRequest {
    /// The byte at this offset.
    ByteAt(u64),
    /// This many bytes from this offset.
    Chunk(u64, usize),
    /// The line starts at this offset.
    Found(u64),
}

/// The stage of the search.
#[derive(Clone, Copy, Debug, PartialEq, Eq)]
pub enum LocatePhase {
    CheckByte(u64),
    Scan(u64),
    Done(u64),
}

/// The first stage: the byte at the probe is needed, unless the probe is at
/// the start of the file, where the line starts.
pub open spec fn initial_phase(file_len: u64, offset: u64) -> LocatePhase {
    let probe = if offset < file_len { offset } else { (file_len - 1) as u64 };
    if probe > 0 { LocatePhase::CheckByte(probe) } else { LocatePhase::Done(0) }
}

/// The stage after the byte at the probe `e` was seen: the scan starts one
/// byte earlier where it is a line feed.
pub open spec fn byte_step(e: u64, byte: u8) -> LocatePhase {
    let e2 = if byte == 10 { (e - 1) as u64 } else { e };
    if e2 == 0 { LocatePhase::Done(0) } else { LocatePhase::Scan(e2) }
}

/// The stage after the chunk that ends at `se` was seen: the line starts
/// after its last line feed; without one, at the start of the file or after
/// a line feed further back.
pub open spec fn chunk_step(se: u64, chunk: Seq<u8>) -> LocatePhase {
    let cs = window_start(se as nat);
    if last_lf(chunk) >= 0 {
        LocatePhase::Done((cs + last_lf(chunk) + 1) as u64)
    } else if cs == 0 {
        LocatePhase::Done(0)
    } else {
        LocatePhase::Scan((cs - 1) as u64)
    }
}

/// What a search in this stage finds in `file`.
pub open spec fn outcome(file: Seq<u8>, phase: LocatePhase) -> nat {
    match phase {
        LocatePhase::CheckByte(e) => {
            let e2 = adjusted_probe(file, e as nat);
            if e2 == 0 { 0 } else { scan_from(file, e2) }
        },
        LocatePhase::Scan(se) => scan_from(file, se as nat),
        LocatePhase::Done(s) => s as nat,
    }
}

/// The search for the start of the line that covers an offset.
pub struct LineLocator {
    file_len: u64,
    phase: LocatePhase,
}

impl LineLocator {
    /// The length of the file.
    pub closed spec fn file_len_spec(&self) -> nat {
        self.file_len as nat
    }

    /// The stage of the search.
    pub closed spec fn phase_spec(&self) -> LocatePhase {
        self.phase
    }

    /// The consistency of the state: what is asked for lies in the file.
    pub closed spec fn wf(&self) -> bool {
        &&& self.file_len > 0
        &&& match self.phase {
            LocatePhase::CheckByte(e) => 0 < e < self.file_len,
            LocatePhase::Scan(se) => se < self.file_len,
            LocatePhase::Done(s) => s <= self.file_len,
        }
    }

    /// A search for the line that covers `offset` in a file of `file_len`
    /// bytes; none for an empty file.
    pub fn new(file_len: u64, offset: u64) -> (res: Option<LineLocator>)
        ensures
            file_len == 0 <==> res is None,
            res matches Some(l) ==> {
                &&& l.wf()
                &&& l.file_len_spec() == file_len
                &&& l.phase_spec() == initial_phase(file_len, offset)
                &&& forall|file: Seq<u8>| file.len() == file_len ==>
                    #[trigger] outcome(file, l.phase_spec()) == covering_line_start(file, offset as nat)
            },
    {
        if file_len == 0 {
            return None;
        }
        let probe = if offset < file_len { offset } else { file_len - 1 };
        let phase = if probe > 0 { LocatePhase::CheckByte(probe) } else { LocatePhase::Done(0) };
        Some(LineLocator { file_len, phase })
    }

    /// What the search needs next, or where the line starts.
    pub fn request(&self) -> (res: LocateRequest)
        requires
            self.wf(),
        ensures
            match self.phase_spec() {
                LocatePhase::CheckByte(e) => res == LocateRequest::ByteAt(e),
                LocatePhase::Scan(se) => res == LocateRequest::Chunk(
                    window_start(se as nat) as u64,
                    (se - window_start(se as nat) + 1) as usize,
                ),
                LocatePhase::Done(s) => res == LocateRequest::Found(s),
            },
    {
        match self.phase {
            LocatePhase::CheckByte(e) => LocateRequest::ByteAt(e),
            LocatePhase::Scan(se) => {
                let cs = window_start_exec(se);
                LocateRequest::Chunk(cs, (se - cs + 1) as usize)
            },
            LocatePhase::Done(s) => LocateRequest::Found(s),
        }
    }

    /// Takes the byte asked for.
    pub fn feed_byte(&mut self, byte: u8)
        requires
            old(self).wf(),
            old(self).phase_spec() is CheckByte,
        ensures
            final(self).wf(),
            final(self).file_len_spec() == old(self).file_len_spec(),
            final(self).phase_spec() == byte_step(old(self).phase_spec()->CheckByte_0, byte),
            forall|file: Seq<u8>| file.len() == old(self).file_len_spec()
                && file[old(self).phase_spec()->CheckByte_0 as int] == byte ==>
                #[trigger] outcome(file, final(self).phase_spec()) == outcome(file, old(self).phase_spec()),
    {
        if let LocatePhase::CheckByte(e) = self.phase {
            let e2 = if byte == 10 { e - 1 } else { e };
            self.phase = if e2 == 0 { LocatePhase::Done(0) } else { LocatePhase::Scan(e2) };
        }
    }

    /// Takes the chunk asked for.
    pub fn feed_chunk(&mut self, chunk: &[u8])
        requires
            old(self).wf(),
            old(self).phase_spec() is Scan,
            chunk@.len() == old(self).phase_spec()->Scan_0 - window_start(old(self).phase_spec()->Scan_0 as nat) + 1,
        ensures
            final(self).wf(),
            final(self).file_len_spec() == old(self).file_len_spec(),
            final(self).phase_spec() == chunk_step(old(self).phase_spec()->Scan_0, chunk@),
            forall|file: Seq<u8>| file.len() == old(self).file_len_spec()
                && file.subrange(
                    window_start(old(self).phase_spec()->Scan_0 as nat) as int,
                    old(self).phase_spec()->Scan_0 as int + 1,
                ) == chunk@ ==>
                #[trigger] outcome(file, final(self).phase_spec()) == outcome(file, old(self).phase_spec()),
    {
        if let LocatePhase::Scan(se) = self.phase {
            let cs = window_start_exec(se);
            let p = last_lf_exec(chunk);
            if p >= 0 {
                self.phase = LocatePhase::Done(cs + p as u64 + 1);
            } else if cs == 0 {
                self.phase = LocatePhase::Done(0);
            } else {
                self.phase = LocatePhase::Scan(cs - 1);
            }
        }
    }
}

fn window_start_exec(scan_end: u64) -> (r: u64)
    ensures
        r == window_start(scan_end as nat),
{
    if scan_end >= RANDOM_BACKSCAN_CHUNK - 1 {
        scan_end - (RANDOM_BACKSCAN_CHUNK - 1)
    } else {
        0
    }
}

/// The index of the last line feed of `bytes`, or -1.
fn last_lf_exec(bytes: &[u8]) -> (r: i64)
    requires
        bytes@.len() <= RANDOM_BACKSCAN_CHUNK,
    ensures
        r == last_lf(bytes@),
        -1 <= r < bytes@.len(),
{
    proof {
        lemma_last_lf_props(bytes@);
    }
    let mut i = bytes.len();
    assert(bytes@.take(i as int) =~= bytes@);
    while i > 0 && bytes[i - 1] != 10
        invariant
            i <= bytes@.len(),
            bytes@.len() <= RANDOM_BACKSCAN_CHUNK,
            last_lf(bytes@.take(i as int)) == last_lf(bytes@),
        decreases i,
    {
        assert(bytes@.take(i as int).drop_last() =~= bytes@.take(i - 1));
        i = i - 1;
    }
    if i == 0 {
        -1
    } else {
        (i - 1) as i64
    }
}


/// The last line feed is a line feed of `b`, after which there is none.
pub proof fn lemma_last_lf_props(b: Seq<u8>)
    ensures
        -1 <= last_lf(b) < b.len(),
        last_lf(b) >= 0 ==> is_lf(b[last_lf(b)]),
        forall|j: int| last_lf(b) < j < b.len() ==> !is_lf(#[trigger] b[j]),
    decreases b.len(),
{
    if b.len() > 0 && !is_lf(b.last()) {
        lemma_last_lf_props(b.drop_last());
        assert forall|j: int| last_lf(b) < j < b.len() implies !is_lf(#[trigger] b[j]) by {
            if j < b.len() - 1 {
                assert(b[j] == b.drop_last()[j]);
            }
        }
    }
}


proof fn lemma_last_lf_concat(x: Seq<u8>, y: Seq<u8>)
    ensures
        last_lf(x + y) == if last_lf(y) >= 0 { x.len() + last_lf(y) } else { last_lf(x) },
    decreases y.len(),
{
    if y.len() == 0 {
        assert(x + y =~= x);
    } else {
        assert((x + y).drop_last() =~= x + y.drop_last());
        lemma_last_lf_concat(x, y.drop_last());
    }
}

proof fn lemma_scan_from(file: Seq<u8>, se: nat)
    requires
        se < file.len(),
    ensures
        scan_from(file, se) == last_lf(file.take(se as int + 1)) + 1,
    decreases se,
{
    let cs = window_start(se);
    let chunk = file.subrange(cs as int, se as int + 1);
    assert(file.take(se as int + 1) =~= file.take(cs as int) + chunk);
    lemma_last_lf_concat(file.take(cs as int), chunk);
    if last_lf(chunk) < 0 && cs > 0 {
        lemma_scan_from(file, (cs - 1) as nat);
        assert(file.take(cs - 1 + 1) =~= file.take(cs as int));
    }
    if cs == 0 {
        assert(file.take(0) =~= Seq::<u8>::empty());
    }
}

/// The chunked backward search finds the start of the line that covers the
/// offset: with `e` the offset looked at (the last byte of the file for an
/// offset beyond it, moved back by one where it is on a line feed), the start
/// is the byte after the last line feed at or before `e` (0 where there is
/// none, or where `e` is 0). So the start is at the start of the file or just
/// after a line feed, no later than `e`, with no line feed from it to `e`.
pub proof fn law_covering_line_start(file: Seq<u8>, offset: nat)
    requires
        file.len() > 0,
    ensures
        ({
            let e = adjusted_probe(file, probe_point(file.len(), offset));
            let start = covering_line_start(file, offset);
            &&& e < file.len()
            &&& start == if e == 0 { 0 } else { (last_lf(file.take(e as int + 1)) + 1) as nat }
            &&& start <= e + 1
            &&& start == 0 || is_lf(file[start - 1])
            &&& e > 0 ==> forall|j: int| start <= j <= e ==> !is_lf(#[trigger] file[j])
        }),
{
    let e = adjusted_probe(file, probe_point(file.len(), offset));
    if e > 0 {
        lemma_scan_from(file, e);
        let t = file.take(e as int + 1);
        lemma_last_lf_props(t);
        assert forall|j: int| covering_line_start(file, offset) <= j <= e implies !is_lf(#[trigger] file[j]) by {
            assert(t[j] == file[j]);
        }
        if last_lf(t) >= 0 {
            assert(t[last_lf(t)] == file[last_lf(t)]);
        }
    }
}

/// Where the line that starts at `p` ends: after its line feed, or at the
/// end of `b`.
pub open spec fn line_end(b: Seq<u8>, p: int) -> int {
    let k = first_lf_from(b, p);
    if k < b.len() { k + 1 } else { b.len() as int }
}

/// The line of `b` that starts at `p`, with its line feed, as a reader
/// hands it out.
pub open spec fn line_at(b: Seq<u8>, p: int) -> Seq<u8> {
    b.subrange(p, line_end(b, p))
}

/// A measure of the work left to a search in this stage.
pub open spec fn phase_measure(phase: LocatePhase, file_len: nat) -> nat {
    match phase {
        LocatePhase::CheckByte(_) => file_len + 1,
        LocatePhase::Scan(se) => (se + 1) as nat,
        LocatePhase::Done(_) => 0,
    }
}

/// The line of `file` (the bytes of a whole file) that covers `offset`,
/// with where it starts, as the program reads it from a file on disk: the
/// search of [`LineLocator`], then the line from its start up to and with its
/// line feed, given without its line ending. `None` for an empty file; a line
/// that is not UTF-8 is refused.
pub fn read_line_covering_offset(file: &[u8], offset: u64) -> (res: Result<Option<(u64, String)>, JlvError>)
    ensures
        file@.len() == 0 ==> res == Ok::<Option<(u64, String)>, JlvError>(None),
        file@.len() > 0 ==> ({
            let s = covering_line_start(file@, offset as nat);
            let line = line_at(file@, s as int);
            &&& s < file@.len()
            &&& s == 0 || is_lf(file@[s - 1])
            &&& line.len() > 0
            &&& utf8_strict(line) is None ==> res == Err::<Option<(u64, String)>, JlvError>(JlvError::InvalidUtf8)
            &&& utf8_strict(line) is Some ==> (res matches Ok(Some((st, text)))
                && st == s && text@ == trim_line_end(utf8_strict(line)->0))
        }),
{
    let len = file.len();
    let mut loc = match LineLocator::new(len as u64, offset) {
        Some(l) => l,
        None => return Ok(None),
    };
    let ghost target = covering_line_start(file@, offset as nat);
    let mut found: Option<u64> = None;
    while found.is_none()
        invariant
            len == file@.len(),
            len > 0,
            found is None ==> {
                &&& loc.wf()
                &&& loc.file_len_spec() == len
                &&& outcome(file@, loc.phase_spec()) == target
            },
            found matches Some(s) ==> s == target,
        decreases phase_measure(loc.phase_spec(), len as nat) + if found is None { 1nat } else { 0nat },
    {
        match loc.request() {
            LocateRequest::ByteAt(at) => {
                let b = file[at as usize];
                loc.feed_byte(b);
            },
            LocateRequest::Chunk(from, n) => {
                let f = from as usize;
                loc.feed_chunk(vstd::slice::slice_subrange(file, f, f + n));
            },
            LocateRequest::Found(s) => {
                found = Some(s);
            },
        }
    }
    let s = match found {
        Some(s) => s,
        None => 0,
    };
    proof {
        law_covering_line_start(file@, offset as nat);
    }
    let start = s as usize;
    assert(start < len) by {
        let e = adjusted_probe(file@, probe_point(file@.len(), offset as nat));
        if start == e + 1 {
            assert(e + 1 <= probe_point(file@.len(), offset as nat));
        }
    }
    let mut end = start;
    while end < len && file[end] != 10
        invariant
            start <= end <= len,
            len == file@.len(),
            first_lf_from(file@, end as int) == first_lf_from(file@, start as int),
        decreases len - end,
    {
        end = end + 1;
    }
    if end < len {
        end = end + 1;
    }
    assert(end == line_end(file@, start as int));
    match decode_utf8(vstd::slice::slice_subrange(file, start, end)) {
        Some(text) => Ok(Some((s, String::from_str(trim_line_ending(text.as_str()))))),
        None => Err(JlvError::InvalidUtf8),
    }
}

/// The line that starts at a line start `p` is the line that a reader hands
/// out as line number `count_lf(b.take(p))` (from 0).
pub proof fn lemma_line_at_is_raw_line(b: Seq<u8>, p: int)
    requires
        is_line_start(b, p),
    ensures
        count_lf(b.take(p)) < raw_lines(b).len(),
        raw_lines(b)[count_lf(b.take(p)) as int] == line_at(b, p),
    decreases b.len(),
{
    lemma_first_lf_props(b, 0);
    let k = first_lf_from(b, 0);
    if p == 0 {
        assert(b.take(0) =~= Seq::<u8>::empty());
        if k >= b.len() {
            assert(line_at(b, 0) =~= b);
        } else {
            assert(line_at(b, 0) =~= b.take(k + 1));
        }
    } else {
        assert(k <= p - 1) by {
            if k > p - 1 {
                assert(!is_lf(b[p - 1]));
            }
        }
        let rest = b.skip(k + 1);
        let q = p - (k + 1);
        if q > 0 {
            assert(rest[q - 1] == b[p - 1]);
        }
        assert(is_line_start(rest, q));
        lemma_line_at_is_raw_line(rest, q);
        let head = b.take(k + 1);
        assert(b.take(p) =~= head + rest.take(q));
        lemma_count_lf_concat(head, rest.take(q));
        assert(head.drop_last() =~= b.take(k));
        assert forall|j: int| 0 <= j < head.drop_last().len() implies !is_lf(#[trigger] head.drop_last()[j]) by {
            assert(head.drop_last()[j] == b[j]);
        }
        lemma_count_lf_none(head.drop_last());
        assert(rest =~= b.subrange(k + 1, b.len() as int));
        lemma_first_lf_offset(rest, q, b, k + 1);
        assert(line_at(b, p) =~= line_at(rest, q));
    }
}

} // verus!
