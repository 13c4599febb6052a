//! Offset selection: by byte count, by the last records (a backward scan in
//! chunks) and from a given record onward (a forward scan in chunks).
use vstd::prelude::*;
use vstd::slice::slice_subrange;
use crate::records::{
    byte_range_start, count_term, is_last_records_start, is_record_start, lemma_count_concat,
    lemma_count_none, lemma_count_prefix_step, lemma_count_single, lemma_count_suffix_step,
    lemma_last_records_extend, records, suffix,
};

verus! {

/// Bytes read from the source at a time by the chunked scanners.
pub const CHUNK_SIZE: u64 = 1048576;

/// Relies on memchr::memrchr: the index of the last occurrence of `needle` in
/// `haystack`, or `None` when it does not occur.
#[verifier::external_body]
fn last_occurrence(needle: u8, haystack: &[u8]) -> (r: Option<usize>)
    ensures
        match r {
            Some(i) => {
                &&& i < haystack@.len()
                &&& haystack@[i as int] == needle
                &&& forall|j: int| i < j < haystack@.len() ==> haystack@[j] != needle
            },
            None => forall|j: int| 0 <= j < haystack@.len() ==> haystack@[j] != needle,
        },
{
    memchr::memrchr(needle, haystack)
}

/// Relies on memchr::memchr: the index of the first occurrence of `needle` in
/// `haystack`, or `None` when it does not occur.
#[verifier::external_body]
fn first_occurrence(needle: u8, haystack: &[u8]) -> (r: Option<usize>)
    ensures
        match r {
            Some(i) => {
                &&& i < haystack@.len()
                &&& haystack@[i as int] == needle
                &&& forall|j: int| 0 <= j < i ==> haystack@[j] != needle
            },
            None => forall|j: int| 0 <= j < haystack@.len() ==> haystack@[j] != needle,
        },
{
    memchr::memchr(needle, haystack)
}

/// The record terminator: NUL when `zero_terminated`, else newline.
pub open spec fn terminator_of(zero_terminated: bool) -> u8 {
    if zero_terminated { 0u8 } else { 10u8 }
}

pub fn terminator_byte(zero_terminated: bool) -> (r: u8)
    ensures
        r == terminator_of(zero_terminated),
{
    if zero_terminated { 0 } else { 10 }
}

/// The offset from which a byte-count selection emits on a source of `file_size`
/// bytes: from byte `num_bytes` onward when `is_plus`, else the last `num_bytes`
/// bytes.
pub fn tail_bytes(file_size: u64, num_bytes: u64, is_plus: bool) -> (r: u64)
    ensures
        r == byte_range_start(file_size as nat, num_bytes as nat, is_plus),
        r <= file_size,
{
    if num_bytes >= file_size {
        if is_plus { file_size } else { 0 }
    } else if is_plus {
        num_bytes
    } else {
        file_size - num_bytes
    }
}

/// The length of the next piece that the streamer copies when `remaining` bytes
/// are left: at most one chunk, so memory use does not grow with the source.
pub fn next_copy_len(remaining: u64) -> (r: usize)
    ensures
        r == if remaining < CHUNK_SIZE { remaining } else { CHUNK_SIZE },
{
    if remaining < CHUNK_SIZE { remaining as usize } else { CHUNK_SIZE as usize }
}

/// Appends the bytes `[start_offset, len)` of `data` to `sink`, one bounded piece at
/// a time, unchanged; nothing when `start_offset` is at or past the end.
pub fn copy_range(data: &[u8], start_offset: u64, sink: &mut Vec<u8>)
    ensures
        final(sink)@ == old(sink)@ + data@.subrange(
            if start_offset < data@.len() { start_offset as int } else { data@.len() as int },
            data@.len() as int,
        ),
{
    let n: usize = data.len();
    let mut from: usize = if start_offset < n as u64 { start_offset as usize } else { n };
    let ghost first = from;
    while from < n
        invariant
            first <= from <= n == data@.len(),
            sink@ == old(sink)@ + data@.subrange(first as int, from as int),
        decreases n - from,
    {
        let piece = next_copy_len((n - from) as u64);
        let end = from + piece;
        let mut i: usize = from;
        while i < end
            invariant
                first <= from <= i <= end <= n == data@.len(),
                sink@ == old(sink)@ + data@.subrange(first as int, i as int),
            decreases end - i,
        {
            sink.push(data[i]);
            proof {
                assert(data@.subrange(first as int, i + 1) =~= data@.subrange(first as int, i as int).push(data@[i as int]));
            }
            i = i + 1;
        }
        from = end;
    }
}

/// Walks `chunk` backward over its terminators, `counted` of them already passed
/// before it. Returns the index of the terminator that would take the count past
/// `target`, if any, and the count reached.
fn scan_back(chunk: &[u8], t: u8, counted: u64, target: u64) -> (r: (Option<usize>, u64))
    requires
        counted <= target,
    ensures
        match r.0 {
            Some(i) => {
                &&& i < chunk@.len()
                &&& chunk@[i as int] == t
                &&& counted + count_term(suffix(chunk@, i + 1), t) == target
            },
            None => r.1 == counted + count_term(chunk@, t) && r.1 <= target,
        },
{
    let mut end: usize = chunk.len();
    let mut c: u64 = counted;
    proof {
        assert(suffix(chunk@, end as int).len() == 0);
    }
    loop
        invariant
            end <= chunk@.len(),
            c == counted + count_term(suffix(chunk@, end as int), t),
            c <= target,
        decreases end,
    {
        let head = slice_subrange(chunk, 0, end);
        match last_occurrence(t, head) {
            Some(i) => {
                proof {
                    let tail = head@.subrange(i + 1, end as int);
                    assert forall|j: int| 0 <= j < tail.len() implies tail[j] != t by {
                        assert(tail[j] == head@[i + 1 + j]);
                    }
                    lemma_count_none(tail, t);
                    assert(suffix(chunk@, i + 1) =~= tail + suffix(chunk@, end as int));
                    lemma_count_concat(tail, suffix(chunk@, end as int), t);
                }
                if c == target {
                    return (Some(i), c);
                }
                proof {
                    lemma_count_suffix_step(chunk@, i + 1, t);
                }
                c = c + 1;
                end = i;
            },
            None => {
                proof {
                    assert forall|j: int| 0 <= j < end implies chunk@[j] != t by {
                        assert(head@[j] == chunk@[j]);
                    }
                    lemma_count_none(head@, t);
                    assert(chunk@ =~= head@ + suffix(chunk@, end as int));
                    lemma_count_concat(head@, suffix(chunk@, end as int), t);
                }
                return (None, c);
            },
        }
    }
}

/// Walks `chunk` forward over its terminators, `counted` of them already passed
/// before it. Returns the index of the terminator that brings the count to `target`,
/// if any, and the count reached.
fn scan_forward(chunk: &[u8], t: u8, counted: u64, target: u64) -> (r: (Option<usize>, u64))
    requires
        counted < target,
    ensures
        match r.0 {
            Some(i) => {
                &&& i < chunk@.len()
                &&& chunk@[i as int] == t
                &&& counted + count_term(chunk@.subrange(0, i + 1), t) == target
            },
            None => r.1 == counted + count_term(chunk@, t) && r.1 < target,
        },
{
    let len = chunk.len();
    let mut from: usize = 0;
    let mut c: u64 = counted;
    proof {
        assert(chunk@.subrange(0, 0).len() == 0);
    }
    loop
        invariant
            from <= len == chunk@.len(),
            c == counted + count_term(chunk@.subrange(0, from as int), t),
            c < target,
        decreases len - from,
    {
        let rest = slice_subrange(chunk, from, len);
        match first_occurrence(t, rest) {
            Some(k) => {
                let i = from + k;
                proof {
                    let gap = chunk@.subrange(from as int, i as int);
                    assert forall|j: int| 0 <= j < gap.len() implies gap[j] != t by {
                        assert(gap[j] == rest@[j]);
                    }
                    lemma_count_none(gap, t);
                    assert(chunk@.subrange(0, i as int) =~= chunk@.subrange(0, from as int) + gap);
                    lemma_count_concat(chunk@.subrange(0, from as int), gap, t);
                    lemma_count_prefix_step(chunk@, i as int, t);
                }
                if c + 1 == target {
                    return (Some(i), target);
                }
                c = c + 1;
                from = i + 1;
            },
            None => {
                proof {
                    assert forall|j: int| 0 <= j < rest@.len() implies rest@[j] != t by {}
                    lemma_count_none(rest@, t);
                    assert(chunk@ =~= chunk@.subrange(0, from as int) + rest@);
                    lemma_count_concat(chunk@.subrange(0, from as int), rest@, t);
                }
                return (None, c);
            },
        }
    }
}

/// A backward scan for the start of the last `num_lines` records of a source of
/// `size` bytes, fed one chunk at a time from the end toward the start.
pub struct BackwardScan {
    pub size: u64,
    pub num_lines: u64,
    pub terminator: u8,
    /// Offset of the first byte already scanned; bytes `[pos, size)` are known.
    pub pos: u64,
    /// Terminators the scan may pass before the one that ends the answer.
    pub target: u64,
    /// Terminators in the bytes already scanned.
    pub counted: u64,
    pub result: Option<u64>,
    /// The bytes `[pos, size)` of the source.
    pub seen: Ghost<Seq<u8>>,
}

impl BackwardScan {
    /// `r` is the answer for every source of `size` bytes that ends with the
    /// bytes already scanned.
    pub open spec fn decides(&self, r: u64) -> bool {
        forall|file: Seq<u8>|
            file.len() == self.size && #[trigger] suffix(file, self.pos as int) == self.seen@
                ==> is_last_records_start(file, self.num_lines as nat, self.terminator, r as int)
    }

    pub open spec fn wf(&self) -> bool {
        &&& self.pos <= self.size
        &&& self.seen@.len() == self.size - self.pos
        &&& match self.result {
            Some(r) => self.decides(r),
            None => {
                &&& self.num_lines > 0
                &&& self.pos > 0
                &&& self.counted == count_term(self.seen@, self.terminator)
                &&& self.counted <= self.target
                &&& self.seen@.len() > 0 ==> self.target + (if self.seen@.last() != self.terminator {
                    1int
                } else {
                    0int
                }) == self.num_lines
            },
        }
    }

    /// Length of the chunk that the next `feed` takes: the bytes just before `pos`.
    pub open spec fn next_len(&self) -> nat {
        if self.pos < CHUNK_SIZE { self.pos as nat } else { CHUNK_SIZE as nat }
    }

    pub fn new(size: u64, num_lines: u64, terminator: u8) -> (r: Self)
        ensures
            r.wf(),
            r.size == size,
            r.num_lines == num_lines,
            r.terminator == terminator,
            r.pos == size,
            r.seen@.len() == 0,
            r.result == if num_lines == 0 { Some(size) } else if size == 0 { Some(0u64) } else { None },
    {
        let result = if num_lines == 0 { Some(size) } else if size == 0 { Some(0u64) } else { None };
        let r = BackwardScan {
            size,
            num_lines,
            terminator,
            pos: size,
            target: 0,
            counted: 0,
            result,
            seen: Ghost(Seq::empty()),
        };
        proof {
            if let Some(x) = result {
                assert forall|file: Seq<u8>|
                    file.len() == size && #[trigger] suffix(file, size as int) == r.seen@
                        implies is_last_records_start(file, num_lines as nat, terminator, x as int) by {
                    assert(suffix(file, x as int).len() == 0);
                    if num_lines == 0 && size > 0 {
                        lemma_count_single(suffix(file, size - 1), terminator);
                    }
                }
            }
        }
        r
    }

    pub fn is_done(&self) -> (r: bool)
        ensures
            r == self.result is Some,
    {
        self.result.is_some()
    }

    /// Offset and length of the chunk that the next `feed` takes.
    pub fn next_chunk(&self) -> (r: (u64, usize))
        requires
            self.wf(),
        ensures
            r.1 == self.next_len(),
            r.0 + r.1 == self.pos,
    {
        let len: u64 = if self.pos < CHUNK_SIZE { self.pos } else { CHUNK_SIZE };
        (self.pos - len, len as usize)
    }

    /// Takes the bytes `[pos - next_len, pos)` of the source and moves the scan back
    /// over them; the scan ends once the answer is known or the source's start is
    /// reached.
    pub fn feed(&mut self, chunk: &[u8])
        requires
            old(self).wf(),
            old(self).result is None,
            chunk@.len() == old(self).next_len(),
        ensures
            final(self).wf(),
            final(self).size == old(self).size,
            final(self).num_lines == old(self).num_lines,
            final(self).terminator == old(self).terminator,
            final(self).pos == old(self).pos - chunk@.len(),
            final(self).pos < old(self).pos,
            final(self).seen@ == chunk@ + old(self).seen@,
    {
        let t = self.terminator;
        let len = chunk.len();
        let start: u64 = self.pos - len as u64;
        let ghost w = chunk@ + self.seen@;
        let ghost old_seen = self.seen@;
        let ghost old_counted = self.counted;
        if self.pos == self.size {
            let last = chunk[len - 1];
            self.target = if last != t { self.num_lines - 1 } else { self.num_lines };
            self.counted = 0;
            proof {
                assert(old_seen.len() == 0);
                assert(count_term(old_seen, t) == 0);
            }
        }
        proof {
            assert(w.last() == if old_seen.len() > 0 { old_seen.last() } else { chunk@.last() });
        }
        let (hit, c) = scan_back(chunk, t, self.counted, self.target);
        self.pos = start;
        self.seen = Ghost(w);
        match hit {
            Some(i) => {
                let q: u64 = i as u64 + 1;
                proof {
                    assert(suffix(w, q as int) =~= suffix(chunk@, q as int) + old_seen);
                    lemma_count_concat(suffix(chunk@, q as int), old_seen, t);
                    lemma_count_suffix_step(w, q as int, t);
                    assert(w[q - 1] == t);
                    assert(is_last_records_start(w, self.num_lines as nat, t, q as int));
                    assert forall|file: Seq<u8>|
                        file.len() == self.size && #[trigger] suffix(file, start as int) == w
                            implies is_last_records_start(file, self.num_lines as nat, t, (start + q) as int) by {
                        lemma_last_records_extend(file, w, start as int, self.num_lines as nat, t, q as int);
                    }
                }
                self.result = Some(start + q);
            },
            None => {
                self.counted = c;
                proof {
                    lemma_count_concat(chunk@, old_seen, t);
                }
                if start == 0 {
                    proof {
                        assert(records(suffix(w, 0), t) <= self.num_lines) by {
                            assert(suffix(w, 0) =~= w);
                        }
                        assert forall|file: Seq<u8>|
                            file.len() == self.size && #[trigger] suffix(file, 0) == w
                                implies is_last_records_start(file, self.num_lines as nat, t, 0) by {
                            assert(file =~= suffix(file, 0));
                            assert(suffix(w, 0) =~= w);
                        }
                    }
                    self.result = Some(0);
                }
            },
        }
    }
}

/// A forward scan for the first byte of record `start_line` (counted from 1),
/// fed one chunk at a time from the start of the source; an empty chunk marks its
/// end.
pub struct ForwardScan {
    pub start_line: u64,
    pub terminator: u8,
    /// Bytes scanned so far: `[0, consumed)`.
    pub consumed: u64,
    /// Terminators in the bytes scanned so far.
    pub counted: u64,
    pub eof: bool,
    pub result: Option<u64>,
    /// The bytes `[0, consumed)` of the source.
    pub seen: Ghost<Seq<u8>>,
}

impl ForwardScan {
    /// `r` is the answer for every source that starts with the bytes already
    /// scanned (and holds nothing more, once the end was reached).
    pub open spec fn decides(&self, r: u64) -> bool {
        forall|file: Seq<u8>|
            file.len() >= self.consumed && #[trigger] file.subrange(0, self.consumed as int)
                == self.seen@ && (self.eof ==> file.len() == self.consumed) ==> is_record_start(
                file,
                self.start_line as nat,
                self.terminator,
                r as int,
            )
    }

    pub open spec fn wf(&self) -> bool {
        &&& self.seen@.len() == self.consumed
        &&& match self.result {
            Some(r) => self.decides(r),
            None => {
                &&& self.start_line > 1
                &&& !self.eof
                &&& self.counted == count_term(self.seen@, self.terminator)
                &&& self.counted < self.start_line - 1
            },
        }
    }

    pub fn new(start_line: u64, terminator: u8) -> (r: Self)
        ensures
            r.wf(),
            r.start_line == start_line,
            r.terminator == terminator,
            r.consumed == 0,
            !r.eof,
            r.result == if start_line <= 1 { Some(0u64) } else { None },
    {
        let r = ForwardScan {
            start_line,
            terminator,
            consumed: 0,
            counted: 0,
            eof: false,
            result: if start_line <= 1 { Some(0u64) } else { None },
            seen: Ghost(Seq::empty()),
        };
        proof {
            assert(count_term(r.seen@, terminator) == 0);
        }
        r
    }

    pub fn is_done(&self) -> (r: bool)
        ensures
            r == self.result is Some,
    {
        self.result.is_some()
    }

    /// Takes the next bytes of the source, those from `consumed` on; an empty
    /// `chunk` says that the source ends at `consumed`.
    pub fn feed(&mut self, chunk: &[u8])
        requires
            old(self).wf(),
            old(self).result is None,
            old(self).consumed + chunk@.len() <= u64::MAX,
        ensures
            final(self).wf(),
            final(self).start_line == old(self).start_line,
            final(self).terminator == old(self).terminator,
            final(self).consumed == old(self).consumed + chunk@.len(),
            final(self).seen@ == old(self).seen@ + chunk@,
            final(self).eof == (chunk@.len() == 0),
    {
        let t = self.terminator;
        let len = chunk.len();
        let base = self.consumed;
        let l = self.start_line;
        let ghost old_seen = self.seen@;
        let ghost w = old_seen + chunk@;
        if len == 0 {
            self.eof = true;
            self.result = Some(base);
            proof {
                assert(w =~= old_seen);
                assert forall|file: Seq<u8>|
                    file.len() >= base && #[trigger] file.subrange(0, base as int) == w && (true
                        ==> file.len() == base) implies is_record_start(file, l as nat, t, base as int) by {
                    assert(file =~= file.subrange(0, base as int));
                }
            }
            self.seen = Ghost(w);
            return;
        }
        let (hit, c) = scan_forward(chunk, t, self.counted, l - 1);
        self.consumed = base + len as u64;
        self.seen = Ghost(w);
        match hit {
            Some(i) => {
                let r: u64 = base + i as u64 + 1;
                proof {
                    let pre = w.subrange(0, r as int);
                    assert(pre =~= old_seen + chunk@.subrange(0, i + 1));
                    lemma_count_concat(old_seen, chunk@.subrange(0, i + 1), t);
                    assert(w[r - 1] == t);
                    assert forall|file: Seq<u8>|
                        file.len() >= base + len && #[trigger] file.subrange(0, (base + len) as int)
                            == w && (false ==> file.len() == base + len) implies is_record_start(
                            file,
                            l as nat,
                            t,
                            r as int,
                        ) by {
                        assert(file.subrange(0, r as int) =~= pre);
                        assert(file[r - 1] == w[r - 1]);
                        crate::records::lemma_count_split(file, r as int, t);
                    }
                }
                self.result = Some(r);
            },
            None => {
                self.counted = c;
                proof {
                    lemma_count_concat(old_seen, chunk@, t);
                }
            },
        }
    }
}

/// The offset from which the last `num_lines` records of `data` are emitted:
/// scans `data` backward in chunks.
pub fn tail_file(data: &[u8], num_lines: u64, zero_terminated: bool) -> (r: u64)
    ensures
        is_last_records_start(data@, num_lines as nat, terminator_of(zero_terminated), r as int),
{
    let t = terminator_byte(zero_terminated);
    let n: usize = data.len();
    let mut scan = BackwardScan::new(n as u64, num_lines, t);
    proof {
        assert(suffix(data@, data@.len() as int) =~= scan.seen@);
    }
    while !scan.is_done()
        invariant
            scan.wf(),
            scan.size == n == data@.len(),
            scan.num_lines == num_lines,
            scan.terminator == t,
            scan.seen@ == suffix(data@, scan.pos as int),
        decreases scan.pos,
    {
        let (off, len) = scan.next_chunk();
        assert(off + len <= n);
        let start: usize = off as usize;
        let chunk = slice_subrange(data, start, start + len);
        let ghost before = scan.seen@;
        scan.feed(chunk);
        proof {
            assert(suffix(data@, scan.pos as int) =~= chunk@ + before);
        }
    }
    let r = scan.result.unwrap();
    proof {
        assert(suffix(data@, scan.pos as int) == scan.seen@);
    }
    r
}

/// The offset of the first byte of record `start_line` (counted from 1) of `data`:
/// scans `data` forward in chunks.
pub fn offset_tail(data: &[u8], start_line: u64, zero_terminated: bool) -> (r: u64)
    ensures
        is_record_start(data@, start_line as nat, terminator_of(zero_terminated), r as int),
{
    let t = terminator_byte(zero_terminated);
    let n: usize = data.len();
    let mut scan = ForwardScan::new(start_line, t);
    let mut from: usize = 0;
    proof {
        assert(data@.subrange(0, 0) =~= scan.seen@);
    }
    while !scan.is_done()
        invariant
            scan.wf(),
            scan.start_line == start_line,
            scan.terminator == t,
            scan.consumed == from <= n == data@.len(),
            scan.seen@ == data@.subrange(0, from as int),
            scan.eof ==> from == n,
        decreases n - from + if scan.eof { 0int } else { 1int },
    {
        let step: usize = if n - from < CHUNK_SIZE as usize { n - from } else { CHUNK_SIZE as usize };
        let chunk = slice_subrange(data, from, from + step);
        let ghost before = scan.seen@;
        scan.feed(chunk);
        from = from + step;
        proof {
            assert(data@.subrange(0, from as int) =~= before + chunk@);
        }
    }
    let r = scan.result.unwrap();
    proof {
        assert(data@.subrange(0, scan.consumed as int) == scan.seen@);
        if scan.eof {
            assert(data@.len() == scan.consumed);
        }
    }
    r
}

} // verus!
