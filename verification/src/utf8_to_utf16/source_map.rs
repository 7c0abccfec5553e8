//! Source files with their per-character records, and the conversion of
//! byte positions into UTF-16 offsets.

use std::sync::Arc;
use vstd::prelude::*;
use vstd::string::StrSliceExecFns;

use super::analyze_source_file::{
    analyze_source_file,
    at,
    lines_of,
    multi_byte_chars_of,
    non_narrow_chars_of,
};
use super::pos::{
    extra_units,
    ByteToCharPosState,
    BytePos,
    MultiByteChar,
    NonNarrowChar,
    Pos,
    Span,
};
use super::text::{char_utf16_len, char_utf8_len, utf16_len, utf8_len};

verus! {

/// `s` without a leading byte order mark.
pub open spec fn without_bom(s: Seq<char>) -> Seq<char> {
    if s.len() > 0 && s[0] == '\u{feff}' {
        s.drop_first()
    } else {
        s
    }
}

/// The extra UTF-8 bytes, over UTF-16 code units, of all of `ms`.
pub open spec fn extra_all(ms: Seq<MultiByteChar>) -> int
    decreases ms.len(),
{
    if ms.len() == 0 {
        0
    } else {
        extra_all(ms.drop_last()) + extra_units(ms.last().bytes)
    }
}

/// The extra UTF-8 bytes, over UTF-16 code units, of those of `ms` that
/// start before `b`.
pub open spec fn extra_before(ms: Seq<MultiByteChar>, b: BytePos) -> int
    decreases ms.len(),
{
    if ms.len() == 0 {
        0
    } else {
        extra_before(ms.drop_last(), b) + if ms.last().pos.0 < b.0 {
            extra_units(ms.last().bytes)
        } else {
            0
        }
    }
}

/// Multi-byte records as a loaded file has them: in strictly increasing
/// position, each at least one byte long, with a total that fits in `u32`.
pub open spec fn mbcs_ordered(ms: Seq<MultiByteChar>) -> bool {
    &&& forall|i: int, j: int| 0 <= i < j < ms.len() ==> ms[i].pos.0 < ms[j].pos.0
    &&& forall|i: int| 0 <= i < ms.len() ==> ms[i].bytes >= 1
    &&& extra_all(ms) <= u32::MAX
}

/// The cache `st` agrees with `ms`: the first `st.mbc_index` records, and
/// only they, lie before `st.pos`, and `st.total_extra_bytes` is their total.
pub open spec fn cache_valid(ms: Seq<MultiByteChar>, st: ByteToCharPosState) -> bool {
    &&& st.mbc_index <= ms.len()
    &&& forall|j: int| 0 <= j < st.mbc_index ==> ms[j].pos.0 < st.pos.0
    &&& forall|j: int| st.mbc_index <= j < ms.len() ==> ms[j].pos.0 >= st.pos.0
    &&& st.total_extra_bytes == extra_all(ms.take(st.mbc_index as int))
}

/// Every record of `ms` is at least one byte long.
pub open spec fn mbcs_nonempty(ms: Seq<MultiByteChar>) -> bool {
    forall|i: int| 0 <= i < ms.len() ==> (#[trigger] ms[i]).bytes >= 1
}

/// Where a walk forward over the records `ms` from index `i` stops: at the
/// first record from there on that does not start before `b`.
pub open spec fn walk_forward(ms: Seq<MultiByteChar>, b: BytePos, i: int) -> int
    decreases ms.len() - i,
{
    if 0 <= i < ms.len() && ms[i].pos.0 < b.0 {
        walk_forward(ms, b, i + 1)
    } else {
        i
    }
}

/// Where a walk backward over the records `ms` from index `i` stops: just
/// after the last record before `i` that starts before `b`.
pub open spec fn walk_backward(ms: Seq<MultiByteChar>, b: BytePos, i: int) -> int
    decreases i,
{
    if 0 < i <= ms.len() && ms[i - 1].pos.0 >= b.0 {
        walk_backward(ms, b, i - 1)
    } else {
        i
    }
}

/// The record index that an offset query for `b` stops at, starting from a
/// cache at position `from` and index `i`: it walks forward when `b` is not
/// before `from`, else backward.
pub open spec fn walk_from(ms: Seq<MultiByteChar>, from: BytePos, i: int, b: BytePos) -> int {
    if b.0 >= from.0 {
        walk_forward(ms, b, i)
    } else {
        walk_backward(ms, b, i)
    }
}

/// The record index that the query for the start of `span` stops at, from
/// a fresh cache.
pub open spec fn span_lo_index(ms: Seq<MultiByteChar>, span: Span) -> int {
    walk_forward(ms, span.lo, 0)
}

/// The record index that the query for the end of `span` stops at, from the
/// cache the start left.
pub open spec fn span_hi_index(ms: Seq<MultiByteChar>, span: Span) -> int {
    walk_from(ms, span.lo, span_lo_index(ms, span), span.hi)
}

/// The extra UTF-8 bytes, over UTF-16 code units, of the characters of `s`
/// whose encoding starts before byte `b`.
pub open spec fn text_extra_before(s: Seq<char>, b: int) -> int
    decreases s.len(),
{
    if s.len() == 0 {
        0
    } else {
        text_extra_before(s.drop_last(), b) + if utf8_len(s.drop_last()) < b {
            char_utf8_len(s.last()) - char_utf16_len(s.last())
        } else {
            0
        }
    }
}

/// The UTF-16 offset that byte offset `b` of `s` is converted to.
pub open spec fn utf16_offset(s: Seq<char>, b: int) -> int {
    b - text_extra_before(s, b)
}

/// The counter value after a file of `len` bytes starting at `start` is
/// handed out: one past its end, wrapping around as `usize` arithmetic does.
pub open spec fn counter_after(start: usize, len: int) -> int {
    let n = start + len + 1;
    if n > usize::MAX {
        n - (usize::MAX + 1)
    } else {
        n
    }
}

/// A loaded source text: where it starts in its source map, and the
/// positions of its lines, multi-byte characters and non-narrow characters.
#[derive(Clone)]
pub struct SourceFile {
    pub src: Arc<String>,
    pub start_pos: BytePos,
    pub lines: Vec<BytePos>,
    pub multibyte_chars: Vec<MultiByteChar>,
    pub non_narrow_chars: Vec<NonNarrowChar>,
}

impl SourceFile {
    /// The text of the file.
    pub open spec fn text(&self) -> Seq<char> {
        self.src@
    }

    /// The records are those of the text, which fits below `u32::MAX` from
    /// its start.
    pub open spec fn wf(&self) -> bool {
        &&& self.start_pos.0 + utf8_len(self.text()) <= u32::MAX
        &&& self.lines@ == lines_of(self.text(), self.start_pos)
        &&& self.multibyte_chars@ == multi_byte_chars_of(self.text(), self.start_pos)
        &&& self.non_narrow_chars@ == non_narrow_chars_of(self.text(), self.start_pos)
    }

    /// Loads `src`, without its byte order mark, at `start_pos`.
    pub fn new(src: String, start_pos: BytePos) -> (r: SourceFile)
        requires
            start_pos.0 + utf8_len(without_bom(src@)) <= u32::MAX,
        ensures
            r.text() == without_bom(src@),
            r.start_pos == start_pos,
            r.wf(),
    {
        let mut src = src;
        remove_bom(&mut src);
        Self::new_from(Arc::new(src), start_pos)
    }

    /// Loads `src` as it is at `start_pos`.
    pub fn new_from(src: Arc<String>, start_pos: BytePos) -> (r: SourceFile)
        requires
            start_pos.0 + utf8_len(src@) <= u32::MAX,
        ensures
            r.text() == src@,
            r.start_pos == start_pos,
            r.wf(),
    {
        let (lines, multibyte_chars, non_narrow_chars) = analyze_source_file(
            src.as_str(),
            start_pos,
        );
        SourceFile { src, start_pos, lines, multibyte_chars, non_narrow_chars }
    }
}

/// Hands out the start positions of the files loaded into it: each file
/// takes its byte length plus one.
pub struct SourceMap {
    start_pos: usize,
}

impl Default for SourceMap {
    /// The same as `SourceMap::new`.
    fn default() -> (r: SourceMap)
        ensures
            r.next_start() == 1,
    {
        Self::new()
    }
}

impl SourceMap {
    /// Where the next loaded file will start.
    pub closed spec fn next_start(&self) -> usize {
        self.start_pos
    }

    /// A map whose first file starts at position 1.
    pub fn new() -> (r: SourceMap)
        ensures
            r.next_start() == 1,
    {
        SourceMap { start_pos: 1 }
    }

    /// Loads `src`, without its byte order mark, as the next file.
    pub fn new_source_file(&mut self, src: String) -> (r: Arc<SourceFile>)
        requires
            old(self).next_start() as u32 + utf8_len(without_bom(src@)) <= u32::MAX,
            utf8_len(without_bom(src@)) < usize::MAX,
        ensures
            r.text() == without_bom(src@),
            r.start_pos.0 == old(self).next_start() as u32,
            r.wf(),
            final(self).next_start() == counter_after(
                old(self).next_start(),
                utf8_len(without_bom(src@)) as int,
            ),
    {
        let mut src = src;
        remove_bom(&mut src);
        self.new_source_file_from(Arc::new(src))
    }

    /// Loads `src` as it is as the next file.
    pub fn new_source_file_from(&mut self, src: Arc<String>) -> (r: Arc<SourceFile>)
        requires
            old(self).next_start() as u32 + utf8_len(src@) <= u32::MAX,
            utf8_len(src@) < usize::MAX,
        ensures
            r.text() == src@,
            r.start_pos.0 == old(self).next_start() as u32,
            r.wf(),
            final(self).next_start() == counter_after(old(self).next_start(), utf8_len(src@) as int),
    {
        proof {
            super::text::lemma_encode_utf8_len(src@);
        }
        let start_pos: usize = self.next_start_pos(src.as_str().len());
        let source_file = Arc::new(SourceFile::new_from(src, Pos::from_usize(start_pos)));
        source_file
    }

    /// Takes the start of a file of `len` bytes and moves one past its end,
    /// wrapping around past `usize::MAX`.
    fn next_start_pos(&mut self, len: usize) -> (r: usize)
        requires
            len < usize::MAX,
        ensures
            r == old(self).start_pos,
            final(self).start_pos == counter_after(old(self).start_pos, len as int),
    {
        let r = self.start_pos;
        self.start_pos = self.start_pos.wrapping_add(len + 1);
        r
    }

    /// The UTF-16 offsets, from the start of `file`, of the ends of `span`.
    /// Each end is converted on its own: the start by walking the records
    /// from the first, the end by walking on from where the start stopped.
    /// On records in increasing position, as a file of `SourceFile::new`
    /// has, the walks count exactly the records before each end.
    pub fn span_to_char_offset(&self, file: &SourceFile, span: Span) -> (r: (u32, u32))
        requires
            mbcs_nonempty(file.multibyte_chars@),
            extra_all(file.multibyte_chars@.take(span_lo_index(file.multibyte_chars@, span)))
                <= span.lo.0 - file.start_pos.0,
            extra_all(file.multibyte_chars@.take(span_hi_index(file.multibyte_chars@, span)))
                <= span.hi.0 - file.start_pos.0,
        ensures
            r.0 == span.lo.0 - file.start_pos.0 - extra_all(
                file.multibyte_chars@.take(span_lo_index(file.multibyte_chars@, span)),
            ),
            r.1 == span.hi.0 - file.start_pos.0 - extra_all(
                file.multibyte_chars@.take(span_hi_index(file.multibyte_chars@, span)),
            ),
            mbcs_ordered(file.multibyte_chars@) ==> r.0 == span.lo.0 - file.start_pos.0
                - extra_before(file.multibyte_chars@, span.lo),
            mbcs_ordered(file.multibyte_chars@) ==> r.1 == span.hi.0 - file.start_pos.0
                - extra_before(file.multibyte_chars@, span.hi),
    {
        let ghost ms = file.multibyte_chars@;
        proof {
            lemma_walk_forward(ms, span.lo, 0);
            lemma_walk_from(ms, span.lo, span_lo_index(ms, span), span.hi);
            lemma_extra_all_take_nonneg(ms, span_lo_index(ms, span));
            lemma_extra_all_take_nonneg(ms, span_hi_index(ms, span));
            if mbcs_ordered(ms) {
                lemma_ordered_span(ms, span);
            }
            assert(ms.take(0) =~= Seq::<MultiByteChar>::empty());
        }
        let start_offset = file.start_pos;

        let mut state = ByteToCharPosState::default();
        let start = span.lo.to_u32() - start_offset.to_u32() - self.calc_utf16_offset(
            file,
            span.lo,
            &mut state,
        );
        let end = span.hi.to_u32() - start_offset.to_u32() - self.calc_utf16_offset(
            file,
            span.hi,
            &mut state,
        );

        (start, end)
    }

    /// The extra UTF-8 bytes of the multi-byte characters of `file` before
    /// `bpos`, found by walking from the cached position.
    fn calc_utf16_offset(
        &self,
        file: &SourceFile,
        bpos: BytePos,
        state: &mut ByteToCharPosState,
    ) -> (r: u32)
        requires
            mbcs_nonempty(file.multibyte_chars@),
            old(state).mbc_index <= file.multibyte_chars@.len(),
            old(state).total_extra_bytes == extra_all(
                file.multibyte_chars@.take(old(state).mbc_index as int),
            ),
            extra_all(
                file.multibyte_chars@.take(
                    walk_from(
                        file.multibyte_chars@,
                        old(state).pos,
                        old(state).mbc_index as int,
                        bpos,
                    ),
                ),
            ) <= u32::MAX,
        ensures
            final(state).mbc_index == walk_from(
                file.multibyte_chars@,
                old(state).pos,
                old(state).mbc_index as int,
                bpos,
            ),
            r == extra_all(file.multibyte_chars@.take(final(state).mbc_index as int)),
            final(state).pos == bpos,
            final(state).total_extra_bytes == r,
            mbcs_ordered(file.multibyte_chars@) && cache_valid(file.multibyte_chars@, *old(state))
                ==> r == extra_before(file.multibyte_chars@, bpos) && cache_valid(
                file.multibyte_chars@,
                *final(state),
            ),
    {
        let ghost ms = file.multibyte_chars@;
        let ghost target = walk_from(ms, state.pos, state.mbc_index as int, bpos);
        proof {
            lemma_walk_from(ms, state.pos, state.mbc_index as int, bpos);
        }
        let mut total_extra_bytes = state.total_extra_bytes;
        let mut index = state.mbc_index;
        let len = file.multibyte_chars.len();

        if bpos.0 >= state.pos.0 {
            while index < len
                invariant
                    len == ms.len(),
                    ms == file.multibyte_chars@,
                    mbcs_nonempty(ms),
                    index <= target <= len,
                    walk_forward(ms, bpos, index as int) == target,
                    extra_all(ms.take(target)) <= u32::MAX,
                    total_extra_bytes == extra_all(ms.take(index as int)),
                ensures
                    index == target,
                    total_extra_bytes == extra_all(ms.take(index as int)),
                decreases len - index,
            {
                let mbc = &file.multibyte_chars[index];
                if mbc.pos.0 >= bpos.0 {
                    break;
                }
                proof {
                    lemma_walk_forward(ms, bpos, index + 1);
                    lemma_extra_all_take_step(ms, index as int);
                    lemma_extra_all_take_mono(ms, index + 1, target);
                }
                total_extra_bytes += mbc.byte_to_char_diff() as u32;
                index += 1;
            }
        } else {
            while index > 0
                invariant
                    len == ms.len(),
                    ms == file.multibyte_chars@,
                    mbcs_nonempty(ms),
                    target <= index <= len,
                    walk_backward(ms, bpos, index as int) == target,
                    total_extra_bytes == extra_all(ms.take(index as int)),
                ensures
                    index == target,
                    total_extra_bytes == extra_all(ms.take(index as int)),
                decreases index,
            {
                let mbc = &file.multibyte_chars[index - 1];
                if mbc.pos.0 < bpos.0 {
                    break;
                }
                proof {
                    lemma_walk_backward(ms, bpos, index - 1);
                    lemma_extra_all_take_step(ms, index - 1);
                    lemma_extra_all_take_nonneg(ms, index - 1);
                }
                total_extra_bytes -= mbc.byte_to_char_diff() as u32;
                index -= 1;
            }
        }
        proof {
            if mbcs_ordered(ms) && cache_valid(ms, *old(state)) {
                lemma_walk_split(ms, old(state).pos, old(state).mbc_index as int, bpos);
                lemma_extra_before_split(ms, bpos, index as int);
            }
        }

        state.pos = bpos;
        state.total_extra_bytes = total_extra_bytes;
        state.mbc_index = index;

        total_extra_bytes
    }
}

/// On records in increasing position, an offset query gives the same
/// result from any cache that agrees with the records, whatever positions
/// were queried before: the extra bytes of the records before the queried
/// position; and the cache it leaves agrees with the records for that
/// position.
pub proof fn lemma_query_ignores_cache(
    ms: Seq<MultiByteChar>,
    st1: ByteToCharPosState,
    st2: ByteToCharPosState,
    b: BytePos,
)
    requires
        mbcs_ordered(ms),
        cache_valid(ms, st1),
        cache_valid(ms, st2),
    ensures
        extra_all(ms.take(walk_from(ms, st1.pos, st1.mbc_index as int, b))) == extra_before(ms, b),
        extra_all(ms.take(walk_from(ms, st1.pos, st1.mbc_index as int, b))) == extra_all(
            ms.take(walk_from(ms, st2.pos, st2.mbc_index as int, b)),
        ),
        forall|j: int|
            0 <= j < walk_from(ms, st1.pos, st1.mbc_index as int, b) ==> ms[j].pos.0 < b.0,
        forall|j: int|
            walk_from(ms, st1.pos, st1.mbc_index as int, b) <= j < ms.len() ==> ms[j].pos.0 >= b.0,
{
    lemma_walk_split(ms, st1.pos, st1.mbc_index as int, b);
    lemma_walk_split(ms, st2.pos, st2.mbc_index as int, b);
    lemma_extra_before_split(ms, b, walk_from(ms, st1.pos, st1.mbc_index as int, b));
    lemma_extra_before_split(ms, b, walk_from(ms, st2.pos, st2.mbc_index as int, b));
}

/// On records in increasing position, as a loaded file has, the ends of a
/// span are converted each on its own, also when the end comes before the
/// start: the start as in the empty span at the start, the end as in the
/// empty span at the end.
pub proof fn lemma_span_ends_convert_on_their_own(ms: Seq<MultiByteChar>, a: BytePos, b: BytePos)
    requires
        mbcs_ordered(ms),
    ensures
        extra_all(ms.take(span_lo_index(ms, Span { lo: a, hi: b }))) == extra_all(
            ms.take(span_lo_index(ms, Span { lo: a, hi: a })),
        ),
        extra_all(ms.take(span_hi_index(ms, Span { lo: a, hi: b }))) == extra_all(
            ms.take(span_hi_index(ms, Span { lo: b, hi: b })),
        ),
{
    lemma_ordered_span(ms, Span { lo: a, hi: b });
    lemma_ordered_span(ms, Span { lo: a, hi: a });
    lemma_ordered_span(ms, Span { lo: b, hi: b });
}

/// A walk forward stops at or after where it starts, passing only records
/// before `b`, and at the end or at a record that does not start before `b`.
proof fn lemma_walk_forward(ms: Seq<MultiByteChar>, b: BytePos, i: int)
    requires
        0 <= i <= ms.len(),
    ensures
        i <= walk_forward(ms, b, i) <= ms.len(),
        forall|j: int| i <= j < walk_forward(ms, b, i) ==> ms[j].pos.0 < b.0,
        walk_forward(ms, b, i) < ms.len() ==> ms[walk_forward(ms, b, i)].pos.0 >= b.0,
    decreases ms.len() - i,
{
    if i < ms.len() && ms[i].pos.0 < b.0 {
        lemma_walk_forward(ms, b, i + 1);
    }
}

/// A walk backward stops at or before where it starts, passing only records
/// that do not start before `b`, and at the start or just after a record
/// before `b`.
proof fn lemma_walk_backward(ms: Seq<MultiByteChar>, b: BytePos, i: int)
    requires
        0 <= i <= ms.len(),
    ensures
        0 <= walk_backward(ms, b, i) <= i,
        forall|j: int| walk_backward(ms, b, i) <= j < i ==> ms[j].pos.0 >= b.0,
        walk_backward(ms, b, i) > 0 ==> ms[walk_backward(ms, b, i) - 1].pos.0 < b.0,
    decreases i,
{
    if i > 0 && ms[i - 1].pos.0 >= b.0 {
        lemma_walk_backward(ms, b, i - 1);
    }
}

proof fn lemma_walk_from(ms: Seq<MultiByteChar>, from: BytePos, i: int, b: BytePos)
    requires
        0 <= i <= ms.len(),
    ensures
        0 <= walk_from(ms, from, i, b) <= ms.len(),
        b.0 >= from.0 ==> i <= walk_from(ms, from, i, b),
        b.0 < from.0 ==> walk_from(ms, from, i, b) <= i,
{
    if b.0 >= from.0 {
        lemma_walk_forward(ms, b, i);
    } else {
        lemma_walk_backward(ms, b, i);
    }
}

/// On records in increasing position, a walk from an index that splits
/// them at `from` stops at the index that splits them at `b`.
proof fn lemma_walk_split(ms: Seq<MultiByteChar>, from: BytePos, i: int, b: BytePos)
    requires
        mbcs_ordered(ms),
        0 <= i <= ms.len(),
        forall|j: int| 0 <= j < i ==> ms[j].pos.0 < from.0,
        forall|j: int| i <= j < ms.len() ==> ms[j].pos.0 >= from.0,
    ensures
        0 <= walk_from(ms, from, i, b) <= ms.len(),
        forall|j: int| 0 <= j < walk_from(ms, from, i, b) ==> ms[j].pos.0 < b.0,
        forall|j: int| walk_from(ms, from, i, b) <= j < ms.len() ==> ms[j].pos.0 >= b.0,
{
    let k = walk_from(ms, from, i, b);
    if b.0 >= from.0 {
        lemma_walk_forward(ms, b, i);
        assert forall|j: int| k <= j < ms.len() implies ms[j].pos.0 >= b.0 by {
            assert(ms[k].pos.0 <= ms[j].pos.0);
        }
    } else {
        lemma_walk_backward(ms, b, i);
        assert forall|j: int| 0 <= j < k implies ms[j].pos.0 < b.0 by {
            assert(ms[j].pos.0 <= ms[k - 1].pos.0);
        }
    }
}

/// On records in increasing position, the walks for the ends of `span`
/// count exactly the records before each end.
proof fn lemma_ordered_span(ms: Seq<MultiByteChar>, span: Span)
    requires
        mbcs_ordered(ms),
    ensures
        extra_all(ms.take(span_lo_index(ms, span))) == extra_before(ms, span.lo),
        extra_all(ms.take(span_hi_index(ms, span))) == extra_before(ms, span.hi),
        0 <= span_lo_index(ms, span) <= ms.len(),
        0 <= span_hi_index(ms, span) <= ms.len(),
{
    lemma_walk_split(ms, BytePos(0), 0, span.lo);
    lemma_walk_split(ms, span.lo, span_lo_index(ms, span), span.hi);
    lemma_extra_before_split(ms, span.lo, span_lo_index(ms, span));
    lemma_extra_before_split(ms, span.hi, span_hi_index(ms, span));
}

proof fn lemma_extra_all_take_nonneg(ms: Seq<MultiByteChar>, k: int)
    requires
        0 <= k <= ms.len(),
        mbcs_nonempty(ms),
    ensures
        0 <= extra_all(ms.take(k)),
{
    let t = ms.take(k);
    assert(mbcs_nonempty(t)) by {
        assert forall|i: int| 0 <= i < t.len() implies (#[trigger] t[i]).bytes >= 1 by {
            assert(t[i] == ms[i]);
        }
    }
    lemma_extra_all_take_le(t, k);
    assert(t.take(k) =~= t);
}

proof fn lemma_extra_all_take_mono(ms: Seq<MultiByteChar>, a: int, c: int)
    requires
        0 <= a <= c <= ms.len(),
        mbcs_nonempty(ms),
    ensures
        0 <= extra_all(ms.take(a)) <= extra_all(ms.take(c)),
{
    let t = ms.take(c);
    assert forall|i: int| 0 <= i < t.len() implies (#[trigger] t[i]).bytes >= 1 by {
        assert(t[i] == ms[i]);
    }
    lemma_extra_all_take_le(t, a);
    assert(t.take(a) =~= ms.take(a));
}

proof fn lemma_extra_all_take_step(ms: Seq<MultiByteChar>, i: int)
    requires
        0 <= i < ms.len(),
    ensures
        extra_all(ms.take(i + 1)) == extra_all(ms.take(i)) + extra_units(ms[i].bytes),
{
    assert(ms.take(i + 1).drop_last() =~= ms.take(i));
}

proof fn lemma_extra_all_take_le(ms: Seq<MultiByteChar>, k: int)
    requires
        0 <= k <= ms.len(),
        forall|i: int| 0 <= i < ms.len() ==> ms[i].bytes >= 1,
    ensures
        0 <= extra_all(ms.take(k)) <= extra_all(ms),
    decreases ms.len(),
{
    if ms.len() > 0 {
        if k == ms.len() {
            assert(ms.take(k) =~= ms);
            lemma_extra_all_take_le(ms.drop_last(), k - 1);
            assert(ms.drop_last().take(k - 1) =~= ms.drop_last());
        } else {
            lemma_extra_all_take_le(ms.drop_last(), k);
            assert(ms.drop_last().take(k) =~= ms.take(k));
            lemma_extra_all_take_le(ms.drop_last(), ms.len() - 1);
            assert(ms.drop_last().take(ms.len() - 1) =~= ms.drop_last());
        }
    }
}

proof fn lemma_extra_before_all(ms: Seq<MultiByteChar>, b: BytePos)
    requires
        forall|j: int| 0 <= j < ms.len() ==> ms[j].pos.0 < b.0,
    ensures
        extra_before(ms, b) == extra_all(ms),
    decreases ms.len(),
{
    if ms.len() > 0 {
        lemma_extra_before_all(ms.drop_last(), b);
    }
}

proof fn lemma_extra_before_split(ms: Seq<MultiByteChar>, b: BytePos, k: int)
    requires
        0 <= k <= ms.len(),
        forall|j: int| 0 <= j < k ==> ms[j].pos.0 < b.0,
        forall|j: int| k <= j < ms.len() ==> ms[j].pos.0 >= b.0,
    ensures
        extra_before(ms, b) == extra_all(ms.take(k)),
    decreases ms.len(),
{
    if k == ms.len() {
        assert(ms.take(k) =~= ms);
        lemma_extra_before_all(ms, b);
    } else {
        lemma_extra_before_split(ms.drop_last(), b, k);
        assert(ms.drop_last().take(k) =~= ms.take(k));
    }
}

/// The records of a text that fits below `u32::MAX` from its start are
/// ordered, lie inside the text, and add up to at most its byte length.
pub proof fn lemma_multi_byte_chars_shape(s: Seq<char>, start: BytePos)
    requires
        start.0 + utf8_len(s) <= u32::MAX,
    ensures
        mbcs_ordered(multi_byte_chars_of(s, start)),
        forall|j: int|
            0 <= j < multi_byte_chars_of(s, start).len() ==> multi_byte_chars_of(s, start)[j].pos.0
                < start.0 + utf8_len(s),
        extra_all(multi_byte_chars_of(s, start)) <= utf8_len(s),
    decreases s.len(),
{
    if s.len() > 0 {
        let p = s.drop_last();
        let c = s.last();
        lemma_multi_byte_chars_shape(p, start);
        let mp = multi_byte_chars_of(p, start);
        if char_utf8_len(c) > 1 {
            let m = mp.push(
                MultiByteChar { pos: at(start, utf8_len(p)), bytes: char_utf8_len(c) as u8 },
            );
            assert(m.drop_last() =~= mp);
            assert(m == multi_byte_chars_of(s, start));
            assert(forall|j: int| 0 <= j < mp.len() ==> m[j] == mp[j]);
        }
    }
}

/// The records of a well-formed file can be walked by offset queries.
pub proof fn lemma_wf_file_is_ordered(file: SourceFile)
    requires
        file.wf(),
    ensures
        mbcs_ordered(file.multibyte_chars@),
{
    lemma_multi_byte_chars_shape(file.text(), file.start_pos);
}

proof fn lemma_extra_units_of_char(c: char)
    requires
        char_utf8_len(c) > 1,
    ensures
        extra_units(char_utf8_len(c) as u8) == char_utf8_len(c) - char_utf16_len(c),
{
}

/// Walking the records of a text and walking its characters give the same
/// extra bytes before any position.
pub proof fn lemma_extra_before_text(s: Seq<char>, start: BytePos, b: BytePos)
    requires
        start.0 + utf8_len(s) <= u32::MAX,
    ensures
        extra_before(multi_byte_chars_of(s, start), b) == text_extra_before(s, b.0 - start.0),
    decreases s.len(),
{
    if s.len() > 0 {
        let p = s.drop_last();
        let c = s.last();
        lemma_extra_before_text(p, start, b);
        let mp = multi_byte_chars_of(p, start);
        if char_utf8_len(c) > 1 {
            lemma_extra_units_of_char(c);
            let m = mp.push(
                MultiByteChar { pos: at(start, utf8_len(p)), bytes: char_utf8_len(c) as u8 },
            );
            assert(m.drop_last() =~= mp);
            assert(m == multi_byte_chars_of(s, start));
        }
    }
}

/// Past the end of a text every character counts.
proof fn lemma_text_extra_past_end(s: Seq<char>, b: int)
    requires
        b >= utf8_len(s),
    ensures
        text_extra_before(s, b) == utf8_len(s) - utf16_len(s),
    decreases s.len(),
{
    if s.len() > 0 {
        lemma_text_extra_past_end(s.drop_last(), b);
    }
}

proof fn lemma_utf8_len_prefix(s: Seq<char>, k: int)
    requires
        0 <= k <= s.len(),
    ensures
        utf8_len(s.take(k)) <= utf8_len(s),
{
    super::text::lemma_utf8_len_concat(s.take(k), s.skip(k));
    assert(s.take(k) + s.skip(k) =~= s);
}

/// The byte offset of a character boundary is converted to the number of
/// UTF-16 code units of the characters before it.
pub proof fn lemma_utf16_offset_of_boundary(s: Seq<char>, k: int)
    requires
        0 <= k <= s.len(),
    ensures
        utf16_offset(s, utf8_len(s.take(k)) as int) == utf16_len(s.take(k)),
    decreases s.len(),
{
    if k == s.len() {
        assert(s.take(k) =~= s);
        lemma_text_extra_past_end(s, utf8_len(s) as int);
    } else {
        let p = s.drop_last();
        assert(p.take(k) =~= s.take(k));
        lemma_utf8_len_prefix(p, k);
        lemma_utf16_offset_of_boundary(p, k);
    }
}

/// Turns UTF-8 byte ranges of one text into UTF-16 code-unit ranges.
pub struct Utf8ToUtf16 {
    source_map: Arc<SourceMap>,
    source_file: Arc<SourceFile>,
}

impl Utf8ToUtf16 {
    /// The file is the analysis of the text, loaded at position 1.
    #[verifier::type_invariant]
    closed spec fn inv(self) -> bool {
        &&& self.source_file.wf()
        &&& self.source_file.start_pos.0 == 1
    }

    /// The text that offsets refer to.
    pub closed spec fn text(&self) -> Seq<char> {
        self.source_file.text()
    }

    /// Prepares the conversion for `src`, without its byte order mark.
    pub fn new(src: String) -> (r: Self)
        requires
            utf8_len(without_bom(src@)) < u32::MAX,
        ensures
            r.text() == without_bom(src@),
    {
        let mut source_map = SourceMap::default();
        let source_file = source_map.new_source_file(src);
        let source_map = Arc::new(source_map);
        Utf8ToUtf16 { source_map, source_file }
    }

    /// Prepares the conversion for `src` as it is, a byte order mark
    /// included, so that offsets count every character of `src`.
    pub(crate) fn from_text(src: String) -> (r: Self)
        requires
            utf8_len(src@) < u32::MAX,
        ensures
            r.text() == src@,
    {
        let mut source_map = SourceMap::default();
        let source_file = source_map.new_source_file_from(Arc::new(src));
        let source_map = Arc::new(source_map);
        Utf8ToUtf16 { source_map, source_file }
    }

    /// Whether `offset` is a byte offset that `utf8_to_utf16` can convert:
    /// below `u32::MAX`, and not inside a character whose extra bytes would
    /// take the result below zero.
    pub fn accepts(&self, offset: u32) -> (r: bool)
        ensures
            r == (offset < u32::MAX && utf16_offset(self.text(), offset as int) >= 0),
    {
        proof {
            use_type_invariant(self);
        }
        if offset == u32::MAX {
            return false;
        }
        let pos = BytePos(offset + 1);
        proof {
            let file = *self.source_file;
            let ms = file.multibyte_chars@;
            lemma_multi_byte_chars_shape(file.text(), file.start_pos);
            lemma_extra_before_text(file.text(), file.start_pos, pos);
            lemma_walk_forward(ms, pos, 0);
            lemma_extra_all_take_le(ms, walk_forward(ms, pos, 0));
            assert(ms.take(0) =~= Seq::<MultiByteChar>::empty());
        }
        let mut state = ByteToCharPosState::default();
        let extra = self.source_map.calc_utf16_offset(&*self.source_file, pos, &mut state);
        extra <= offset
    }

    /// The UTF-16 offsets of the UTF-8 byte offsets `range.0` and `range.1`
    /// of the text.
    pub fn utf8_to_utf16(&self, range: (u32, u32)) -> (r: (u32, u32))
        requires
            range.0 < u32::MAX,
            range.1 < u32::MAX,
            utf16_offset(self.text(), range.0 as int) >= 0,
            utf16_offset(self.text(), range.1 as int) >= 0,
        ensures
            r.0 == utf16_offset(self.text(), range.0 as int),
            r.1 == utf16_offset(self.text(), range.1 as int),
    {
        proof {
            use_type_invariant(self);
        }
        let utf8_range = range;
        let span = Span { lo: BytePos(utf8_range.0 + 1), hi: BytePos(utf8_range.1 + 1) };
        proof {
            let file = *self.source_file;
            lemma_multi_byte_chars_shape(file.text(), file.start_pos);
            lemma_extra_before_text(file.text(), file.start_pos, span.lo);
            lemma_extra_before_text(file.text(), file.start_pos, span.hi);
            lemma_ordered_span(file.multibyte_chars@, span);
        }
        let utf16_range = self.source_map.span_to_char_offset(&*self.source_file, span);
        utf16_range
    }
}

/// Removes a leading byte order mark.
pub(crate) fn remove_bom(src: &mut String)
    ensures
        final(src)@ == without_bom(old(src)@),
{
    if !src.as_str().is_empty() && src.as_str().get_char(0) == '\u{feff}' {
        let n = src.as_str().unicode_len();
        let rest = src.as_str().substring_char(1, n).to_owned();
        *src = rest;
    }
}

} // verus!
