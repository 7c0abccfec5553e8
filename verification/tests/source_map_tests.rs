use std::sync::Arc;

use hoshino::utf8_to_utf16::analyze_source_file::analyze_source_file;
use hoshino::utf8_to_utf16::pos::{BytePos, ByteToCharPosState, MultiByteChar, NonNarrowChar, Pos, Span};
use hoshino::utf8_to_utf16::source_map::{SourceFile, SourceMap, Utf8ToUtf16};

#[test]
fn run() {
    let text = "中文测试cc是😅é是我是是";

    let ins = Utf8ToUtf16::new(text.into());

    assert_eq!(ins.utf8_to_utf16((12, 13)), (4, 5)); // c
    assert_eq!(ins.utf8_to_utf16((17, 21)), (7, 9)); // 😅
    assert_eq!(ins.utf8_to_utf16((21, 24)), (9, 11)); // é
}

#[test]
fn readme_range_of_emoji() {
    let ins = Utf8ToUtf16::new("c😅é文".into());
    assert_eq!(ins.utf8_to_utf16((0, 1)), (0, 1));
    assert_eq!(ins.utf8_to_utf16((1, 5)), (1, 3));
    assert_eq!(ins.utf8_to_utf16((5, 7)), (3, 4));
    assert_eq!(ins.utf8_to_utf16((7, 10)), (4, 5));
}

/// At every character boundary the offset is the UTF-16 length of the prefix.
#[test]
fn boundaries_give_utf16_prefix_lengths() {
    for text in ["", "abc", "中文测试cc是😅é是我是是", "\u{10000}x\u{7ff}\u{800}\u{ffff}", "a\r\nb\tc"] {
        let ins = Utf8ToUtf16::new(text.to_string());
        let mut b = 0usize;
        for c in text.chars().chain(std::iter::once('\0')) {
            let expected = text[..b].encode_utf16().count() as u32;
            assert!(ins.accepts(b as u32));
            assert_eq!(ins.utf8_to_utf16((b as u32, b as u32)), (expected, expected));
            b += c.len_utf8();
            if b > text.len() {
                break;
            }
        }
    }
}

#[test]
fn offsets_past_the_end_count_all_characters() {
    let ins = Utf8ToUtf16::new("é".to_string());
    assert_eq!(ins.utf8_to_utf16((2, 10)), (1, 9));
}

#[test]
fn offset_inside_a_character() {
    let ins = Utf8ToUtf16::new("😅".to_string());
    assert!(ins.accepts(0));
    assert!(!ins.accepts(1));
    assert!(ins.accepts(2));
    assert!(ins.accepts(4));
    assert!(!ins.accepts(u32::MAX));
    assert_eq!(ins.utf8_to_utf16((2, 3)), (0, 1));
}

#[test]
fn byte_order_mark_is_dropped() {
    let ins = Utf8ToUtf16::new("\u{feff}a😅".to_string());
    assert_eq!(ins.utf8_to_utf16((0, 1)), (0, 1));
    assert_eq!(ins.utf8_to_utf16((1, 5)), (1, 3));
}

#[test]
fn same_as_azusa() {
    for text in ["中文测试cc是😅é是我是是", "c😅é文", "plain", "\u{feff}bom 😅"] {
        let ours = Utf8ToUtf16::new(text.to_string());
        let theirs = azusa::Azusa::new(text.to_string());
        let stripped = text.strip_prefix('\u{feff}').unwrap_or(text);
        let mut b = 0usize;
        let mut bounds = vec![];
        for c in stripped.chars() {
            bounds.push(b);
            b += c.len_utf8();
        }
        bounds.push(b);
        for &x in &bounds {
            for &y in &bounds {
                assert_eq!(ours.utf8_to_utf16((x as u32, y as u32)), theirs.utf8_to_utf16((x as u32, y as u32)));
            }
        }
    }
}

#[test]
fn source_map_hands_out_consecutive_starts() {
    let mut map = SourceMap::new();
    let a = map.new_source_file("ab".to_string());
    let b = map.new_source_file("\u{feff}xyz".to_string());
    let c = map.new_source_file_from(Arc::new("é".to_string()));
    assert_eq!(a.start_pos, BytePos(1));
    assert_eq!(b.start_pos, BytePos(4));
    assert_eq!(b.src.as_str(), "xyz");
    assert_eq!(c.start_pos, BytePos(8));
    assert_eq!(c.multibyte_chars, vec![MultiByteChar { pos: BytePos(8), bytes: 2 }]);
    let d = SourceMap::default().new_source_file(String::new());
    assert_eq!(d.start_pos, BytePos(1));
}

#[test]
fn span_to_char_offset_counts_from_the_file_start() {
    let map = SourceMap::new();
    let file = SourceFile::new("a😅b中c".to_string(), BytePos(100));
    assert_eq!(map.span_to_char_offset(&file, Span { lo: BytePos(105), hi: BytePos(109) }), (3, 5));
    assert_eq!(map.span_to_char_offset(&file, Span { lo: BytePos(109), hi: BytePos(100) }), (5, 0));
}

#[test]
fn span_to_char_offset_walks_records_in_their_order() {
    let map = SourceMap::new();
    let mut file = SourceFile::new("ab".to_string(), BytePos(0));
    file.multibyte_chars = vec![MultiByteChar { pos: BytePos(5), bytes: 2 }, MultiByteChar { pos: BytePos(1), bytes: 3 }];
    // The start walks past both records; walking back for the end stops at
    // the second, which starts before it, so both still count.
    assert_eq!(map.span_to_char_offset(&file, Span { lo: BytePos(6), hi: BytePos(4) }), (3, 1));
    // Walking forward from the start for the end stops at the first record.
    assert_eq!(map.span_to_char_offset(&file, Span { lo: BytePos(4), hi: BytePos(4) }), (4, 4));
}

#[test]
fn source_file_removes_bom_and_analyzes() {
    let file = SourceFile::new("\u{feff}a\nβ\t".to_string(), BytePos(10));
    assert_eq!(file.src.as_str(), "a\nβ\t");
    assert_eq!(file.start_pos, BytePos(10));
    assert_eq!(file.lines, vec![BytePos(10), BytePos(12)]);
    assert_eq!(file.multibyte_chars, vec![MultiByteChar { pos: BytePos(12), bytes: 2 }]);
    assert_eq!(file.non_narrow_chars, vec![NonNarrowChar::Tab(BytePos(14))]);
    let same = SourceFile::new_from(Arc::new("a\nβ\t".to_string()), BytePos(10));
    assert_eq!(same.lines, file.lines);
}

fn expect_analysis(text: &str, start: u32, lines: Vec<u32>, mbcs: Vec<(u32, u8)>, nncs: Vec<(u32, usize)>) {
    let (l, m, n) = analyze_source_file(text, BytePos(start));
    assert_eq!(l, lines.into_iter().map(BytePos).collect::<Vec<_>>());
    assert_eq!(m, mbcs.into_iter().map(|(pos, bytes)| MultiByteChar { pos: BytePos(pos), bytes }).collect::<Vec<_>>());
    assert_eq!(n, nncs.into_iter().map(|(pos, w)| NonNarrowChar::new(BytePos(pos), w)).collect::<Vec<_>>());
}

#[test]
fn analyze_empty_text() {
    expect_analysis("", 0, vec![], vec![], vec![]);
}

#[test]
fn analyze_newlines() {
    expect_analysis("a\nc", 0, vec![0, 2], vec![], vec![]);
    expect_analysis("012345678\nabcdef012345678\na", 0, vec![0, 10, 26], vec![], vec![]);
    expect_analysis("/**\r * foo\r */\r012345678\rabcdef012345678\ra", 0, vec![0, 4, 11, 15, 25, 41], vec![], vec![]);
    expect_analysis("/**\r\n * foo\r\n */\r\n012345678\r\nabcdef012345678\r\na", 0, vec![0, 5, 13, 18, 29, 46], vec![], vec![]);
    expect_analysis("ab\n", 0, vec![0], vec![], vec![]);
}

#[test]
fn analyze_multi_byte_and_non_narrow() {
    expect_analysis("01234β789\nbcdef0123456789abcdef", 0, vec![0, 11], vec![(5, 2)], vec![]);
    expect_analysis("01234\u{07}6789\nbcdef0123456789abcdef", 0, vec![0, 11], vec![], vec![(5, 0)]);
    expect_analysis("aβc", 0, vec![0], vec![(1, 2)], vec![]);
    expect_analysis("0123456789abcΔf012345β", 0, vec![0], vec![(13, 2), (22, 2)], vec![]);
    expect_analysis("0\t2", 0, vec![0], vec![], vec![(1, 4)]);
    expect_analysis("01\t3456789abcdef01234567\u{07}9", 0, vec![0], vec![], vec![(2, 4), (24, 0)]);
    expect_analysis(
        "01\t345\n789abcΔf01234567\u{07}9\nbcΔf",
        1000,
        vec![1000, 1007, 1027],
        vec![(1013, 2), (1029, 2)],
        vec![(1002, 4), (1024, 0)],
    );
    expect_analysis("中\u{7f}😅\u{301}", 0, vec![0], vec![(0, 3), (4, 4), (8, 2)], vec![(0, 2), (3, 0), (4, 2), (8, 0)]);
}

#[test]
fn byte_pos_arithmetic() {
    assert_eq!(BytePos(3) + BytePos(4), BytePos(7));
    assert_eq!(BytePos(u32::MAX) + BytePos(2), BytePos(1));
    assert_eq!(BytePos(9) - BytePos(4), BytePos(5));
    assert_eq!(BytePos::from_usize(5), BytePos(5));
    assert_eq!(BytePos::from_u32(6).to_u32(), 6);
    assert_eq!(BytePos(7).to_usize(), 7);
    assert_eq!(BytePos::default(), BytePos(0));
}

#[test]
fn multi_byte_char_diff() {
    assert_eq!(MultiByteChar { pos: BytePos(0), bytes: 2 }.byte_to_char_diff(), 1);
    assert_eq!(MultiByteChar { pos: BytePos(0), bytes: 3 }.byte_to_char_diff(), 2);
    assert_eq!(MultiByteChar { pos: BytePos(0), bytes: 4 }.byte_to_char_diff(), 2);
}

#[test]
fn non_narrow_char_records() {
    let z = NonNarrowChar::new(BytePos(3), 0);
    let w = NonNarrowChar::new(BytePos(4), 2);
    let t = NonNarrowChar::new(BytePos(5), 4);
    assert_eq!(z, NonNarrowChar::ZeroWidth(BytePos(3)));
    assert_eq!((w.pos(), w.width()), (BytePos(4), 2));
    assert_eq!((t.pos(), t.width()), (BytePos(5), 4));
    assert_eq!(z.width(), 0);
    assert_eq!(t + BytePos(10), NonNarrowChar::Tab(BytePos(15)));
    assert_eq!(w - BytePos(4), NonNarrowChar::Wide(BytePos(0)));
}

#[test]
fn default_cache_state() {
    let s = ByteToCharPosState::default();
    assert_eq!((s.pos, s.total_extra_bytes, s.mbc_index), (BytePos(0), 0, 0));
}
