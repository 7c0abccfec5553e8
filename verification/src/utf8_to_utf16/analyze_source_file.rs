//! One pass over a text that records where its lines start, which of its
//! characters take more than one UTF-8 byte, and which are not one column
//! wide.

use vstd::prelude::*;

use super::pos::{BytePos, MultiByteChar, NonNarrowChar, Pos};
use super::text::{char_utf8_len, chars_of, lemma_encode_utf8_len, lemma_utf8_len_concat, utf8_len};

verus! {

/// What `UnicodeWidthChar::width` of unicode-width returns for `c`.
pub uninterp spec fn char_display_width(c: char) -> Option<usize>;

/// Calls `UnicodeWidthChar::width` of unicode-width. Its source gives `None`
/// for the control characters U+0001..U+001F and U+007F..U+009F, `Some(0)`
/// for U+0000, `Some(1)` for U+0020..U+007E, and otherwise reads a table
/// whose entries are 0, 1 or 2 (ambiguous characters count as 1).
#[verifier::external_body]
fn char_width(c: char) -> (r: Option<usize>)
    ensures
        r == char_display_width(c),
        r is Some ==> r.unwrap() <= 2,
        c == '\0' ==> r == Some(0usize),
        (0x01 <= (c as u32) < 0x20) || (0x7F <= (c as u32) < 0xA0) ==> r is None,
        0x20 <= (c as u32) < 0x7F ==> r == Some(1usize),
{
    unicode_width::UnicodeWidthChar::width(c)
}

/// The position `off` bytes after `start`.
pub open spec fn at(start: BytePos, off: nat) -> BytePos {
    BytePos((start.0 + off) as u32)
}

/// Whether a line ends with the character at `k`: a `\n`, or a `\r` that no
/// `\n` follows.
pub open spec fn ends_line(s: Seq<char>, k: int) -> bool {
    ||| s[k] == '\n'
    ||| s[k] == '\r' && !(k + 1 < s.len() && s[k + 1] == '\n')
}

/// The starts of the lines that follow the line ends among the first `n`
/// characters of `s`.
pub open spec fn line_breaks(s: Seq<char>, start: BytePos, n: nat) -> Seq<BytePos>
    decreases n,
{
    if n == 0 {
        seq![]
    } else {
        let prev = line_breaks(s, start, (n - 1) as nat);
        if ends_line(s, n - 1) {
            prev.push(at(start, utf8_len(s.take(n as int))))
        } else {
            prev
        }
    }
}

/// The start of every line of `s`, where `s` begins at `start`; a line
/// break at the very end starts no line.
pub open spec fn lines_of(s: Seq<char>, start: BytePos) -> Seq<BytePos> {
    let l = seq![start] + line_breaks(s, start, s.len());
    if l.last() == at(start, utf8_len(s)) {
        l.drop_last()
    } else {
        l
    }
}

/// The multi-byte characters of `s`, where `s` begins at `start`.
pub open spec fn multi_byte_chars_of(s: Seq<char>, start: BytePos) -> Seq<MultiByteChar>
    decreases s.len(),
{
    if s.len() == 0 {
        seq![]
    } else {
        let prev = multi_byte_chars_of(s.drop_last(), start);
        let c = s.last();
        if char_utf8_len(c) > 1 {
            prev.push(
                MultiByteChar {
                    pos: at(start, utf8_len(s.drop_last())),
                    bytes: char_utf8_len(c) as u8,
                },
            )
        } else {
            prev
        }
    }
}

/// The record, if any, of `c` at `pos` among the characters that are not
/// one column wide: tabs, control characters other than line ends, and
/// characters from U+007F on whose display width is not one.
pub open spec fn non_narrow_of(c: char, pos: BytePos) -> Option<NonNarrowChar> {
    if (c as u32) < 32 {
        if c == '\t' {
            Some(NonNarrowChar::Tab(pos))
        } else if c == '\n' || c == '\r' {
            None
        } else {
            Some(NonNarrowChar::ZeroWidth(pos))
        }
    } else if (c as u32) >= 127 {
        let w: usize = match char_display_width(c) {
            Some(w) => w,
            None => 0,
        };
        if w == 1 {
            None
        } else if w == 0 {
            Some(NonNarrowChar::ZeroWidth(pos))
        } else {
            Some(NonNarrowChar::Wide(pos))
        }
    } else {
        None
    }
}

/// The characters of `s` that are not one column wide, where `s` begins at
/// `start`.
pub open spec fn non_narrow_chars_of(s: Seq<char>, start: BytePos) -> Seq<NonNarrowChar>
    decreases s.len(),
{
    if s.len() == 0 {
        seq![]
    } else {
        let prev = non_narrow_chars_of(s.drop_last(), start);
        match non_narrow_of(s.last(), at(start, utf8_len(s.drop_last()))) {
            Some(r) => prev.push(r),
            None => prev,
        }
    }
}

/// The number of UTF-8 bytes of `c`.
pub(crate) fn char_utf8_width(c: char) -> (r: u32)
    ensures
        r == char_utf8_len(c),
{
    let cu = c as u32;
    if cu < 0x80 {
        1
    } else if cu < 0x800 {
        2
    } else if cu < 0x10000 {
        3
    } else {
        4
    }
}

proof fn lemma_take_step(s: Seq<char>, i: int)
    requires
        0 <= i < s.len(),
    ensures
        s.take(i + 1).drop_last() == s.take(i),
        s.take(i + 1).last() == s[i],
        utf8_len(s.take(i + 1)) == utf8_len(s.take(i)) + char_utf8_len(s[i]),
        utf8_len(s.take(i + 1)) <= utf8_len(s),
{
    assert(s.take(i + 1).drop_last() =~= s.take(i));
    lemma_utf8_len_concat(s.take(i + 1), s.skip(i + 1));
    assert(s.take(i + 1) + s.skip(i + 1) =~= s);
}

/// Finds all newlines, multi-byte characters, and non-narrow characters in
/// `src`, a text that begins at `source_file_start_pos`.
pub fn analyze_source_file(src: &str, source_file_start_pos: BytePos) -> (r: (
    Vec<BytePos>,
    Vec<MultiByteChar>,
    Vec<NonNarrowChar>,
))
    requires
        source_file_start_pos.0 + utf8_len(src@) <= u32::MAX,
    ensures
        r.0@ == lines_of(src@, source_file_start_pos),
        r.1@ == multi_byte_chars_of(src@, source_file_start_pos),
        r.2@ == non_narrow_chars_of(src@, source_file_start_pos),
{
    let ghost s = src@;
    let start = source_file_start_pos;
    let chars = chars_of(src);
    let n = chars.len();
    let mut lines: Vec<BytePos> = vec![start];
    let mut multi_byte_chars: Vec<MultiByteChar> = Vec::new();
    let mut non_narrow_chars: Vec<NonNarrowChar> = Vec::new();
    let mut i: usize = 0;
    let mut off: u32 = 0;
    assert(s.take(0) =~= Seq::<char>::empty());
    while i < n
        invariant
            chars@ == s,
            n == s.len(),
            i <= n,
            off == utf8_len(s.take(i as int)),
            start.0 + utf8_len(s) <= u32::MAX,
            lines@ == seq![start] + line_breaks(s, start, i as nat),
            multi_byte_chars@ == multi_byte_chars_of(s.take(i as int), start),
            non_narrow_chars@ == non_narrow_chars_of(s.take(i as int), start),
        decreases n - i,
    {
        let c = chars[i];
        let cu = c as u32;
        proof {
            lemma_take_step(s, i as int);
        }
        let char_len = char_utf8_width(c);
        let pos = BytePos::from_u32(off) + start;
        assert(pos == at(start, utf8_len(s.take(i as int))));
        if cu < 32 {
            if c == '\r' {
                if i + 1 < n && chars[i + 1] == '\n' {
                    proof {
                        lemma_take_step(s, i + 1);
                        assert(s.take(i + 2).drop_last() == s.take(i + 1));
                        assert(!ends_line(s, i as int));
                        assert(ends_line(s, i + 1));
                        assert(line_breaks(s, start, (i + 1) as nat) == line_breaks(
                            s,
                            start,
                            i as nat,
                        ));
                        assert(multi_byte_chars_of(s.take(i + 1), start) == multi_byte_chars_of(
                            s.take(i as int),
                            start,
                        ));
                        assert(multi_byte_chars_of(s.take(i + 2), start) == multi_byte_chars_of(
                            s.take(i + 1),
                            start,
                        ));
                        assert(non_narrow_chars_of(s.take(i + 1), start) == non_narrow_chars_of(
                            s.take(i as int),
                            start,
                        ));
                        assert(non_narrow_chars_of(s.take(i + 2), start) == non_narrow_chars_of(
                            s.take(i + 1),
                            start,
                        ));
                    }
                    lines.push(pos + BytePos(2));
                    i += 2;
                    off += 2;
                    continue;
                }
                lines.push(pos + BytePos(1));
            } else if c == '\n' {
                lines.push(pos + BytePos(1));
            } else if c == '\t' {
                non_narrow_chars.push(NonNarrowChar::Tab(pos));
            } else {
                non_narrow_chars.push(NonNarrowChar::ZeroWidth(pos));
            }
        } else if cu >= 127 {
            if char_len > 1 {
                let mbc = MultiByteChar { pos, bytes: char_len as u8 };
                multi_byte_chars.push(mbc);
            }
            let char_width = match char_width(c) {
                Some(w) => w,
                None => 0,
            };
            if char_width != 1 {
                non_narrow_chars.push(NonNarrowChar::new(pos, char_width));
            }
        }
        i += 1;
        off += char_len;
    }
    assert(s.take(n as int) =~= s);
    proof {
        lemma_encode_utf8_len(s);
    }
    let last_line_start = lines[lines.len() - 1];
    let source_file_end = start + BytePos::from_usize(src.len());
    if last_line_start.0 == source_file_end.0 {
        lines.pop();
    }
    (lines, multi_byte_chars, non_narrow_chars)
}

} // verus!
