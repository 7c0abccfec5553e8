use hoshino::find::{
    find_all_match, find_all_match_sync, find_all_output, find_left_first_longest_match,
    find_left_first_longest_match_sync, find_left_first_match, find_left_first_match_sync,
    find_match, find_match_sync, find_output, FindError, FindMode, FindOutput, FindTask, Input,
    Options,
};

fn input(patterns: &[&str], haystack: &str) -> Input {
    Input {
        haystack: haystack.to_string(),
        patterns: Some(patterns.iter().map(|p| p.to_string()).collect()),
    }
}

fn hit(start: i64, end: i64, pattern: i64) -> (Option<i64>, Option<i64>, Option<i64>, bool) {
    (Some(start), Some(end), Some(pattern), true)
}

fn parts(o: &FindOutput) -> (Option<i64>, Option<i64>, Option<i64>, bool) {
    (o.start, o.end, o.pattern, o.matched)
}

const HAYSTACK: &str = "Nobody likes maple in their apple flavored Snapple.";

#[test]
fn readme_find_all() {
    let r = find_all_match_sync(input(&["apple", "maple", "Snapple"], HAYSTACK), None, None).unwrap();
    let got: Vec<_> = r.iter().map(parts).collect();
    assert_eq!(got, vec![hit(13, 18, 1), hit(28, 33, 0), hit(43, 50, 2)]);
    assert_eq!(&HAYSTACK[13..18], "maple");
}

#[test]
fn readme_left_first() {
    let r = find_left_first_match_sync(input(&["apple", "maple", "Snapple"], HAYSTACK), None, None).unwrap();
    assert_eq!(parts(&r), hit(13, 18, 1));
}

#[test]
fn readme_left_first_longest() {
    let r = find_left_first_longest_match_sync(input(&["map", "maple", "Snapple"], HAYSTACK), None, None)
        .unwrap();
    assert_eq!(parts(&r), hit(13, 18, 1));
    let first = find_left_first_match_sync(input(&["map", "maple", "Snapple"], HAYSTACK), None, None).unwrap();
    assert_eq!(parts(&first), hit(13, 16, 0));
}

#[test]
fn standard_reports_the_earliest_end() {
    let r = find_match_sync(input(&["abcd", "bc"], "xabcd"), None, None).unwrap();
    assert_eq!(parts(&r), hit(2, 4, 1));
}

#[test]
fn no_match() {
    let r = find_match_sync(input(&["zzz"], HAYSTACK), None, None).unwrap();
    assert_eq!(parts(&r), (None, None, None, false));
    let all = find_all_match_sync(input(&["zzz"], HAYSTACK), None, None).unwrap();
    assert!(all.is_empty());
}

#[test]
fn offsets_are_utf16() {
    let r = find_all_match_sync(input(&["是", "😅", "cc"], "中文测试cc是😅é是"), None, None).unwrap();
    let got: Vec<_> = r.iter().map(parts).collect();
    assert_eq!(got, vec![hit(4, 6, 2), hit(6, 7, 0), hit(7, 9, 1), hit(10, 11, 0)]);
}

#[test]
fn case_insensitive_option() {
    let opts = || Some(Options { case_insensitive: Some(true) });
    let r = find_left_first_match_sync(input(&["MAPLE"], HAYSTACK), opts(), None).unwrap();
    assert_eq!(parts(&r), hit(13, 18, 0));
    let r = find_left_first_match_sync(input(&["MAPLE"], HAYSTACK), Some(Options { case_insensitive: Some(false) }), None)
        .unwrap();
    assert!(!r.matched);
    let r = find_left_first_match_sync(input(&["MAPLE"], HAYSTACK), Some(Options { case_insensitive: None }), None).unwrap();
    assert!(!r.matched);
    let all = find_all_match_sync(input(&["APPLE"], HAYSTACK), opts(), None).unwrap();
    let got: Vec<_> = all.iter().map(parts).collect();
    assert_eq!(got, vec![hit(28, 33, 0), hit(45, 50, 0)]);
}

#[test]
fn patterns_are_required() {
    let no_patterns = Input { haystack: HAYSTACK.to_string(), patterns: None };
    let e = find_match_sync(no_patterns, None, None).unwrap_err();
    assert_eq!(e, FindError::PatternsRequired);
    assert_eq!(e.message(), "patterns is required, please set it in input or load it by loadPatterns");
    let e = find_all_match_sync(Input { haystack: String::new(), patterns: None }, None, None).unwrap_err();
    assert_eq!(e, FindError::PatternsRequired);
}

#[test]
fn loaded_patterns_are_used_when_the_input_has_none() {
    let loaded = vec!["flavored".to_string()];
    let no_patterns = Input { haystack: HAYSTACK.to_string(), patterns: None };
    let r = find_left_first_match_sync(no_patterns, None, Some(&loaded)).unwrap();
    assert_eq!(parts(&r), hit(34, 42, 0));
    let own = find_left_first_match_sync(input(&["apple"], HAYSTACK), None, Some(&loaded)).unwrap();
    assert_eq!(parts(&own), hit(28, 33, 0));
}

#[test]
fn empty_pattern_inside_a_character_is_refused() {
    let e = find_all_match_sync(input(&[""], "😅"), None, None).unwrap_err();
    assert_eq!(e, FindError::OffsetNotConvertible);
    let r = find_match_sync(input(&[""], "😅"), None, None).unwrap();
    assert_eq!(parts(&r), hit(0, 0, 0));
}

#[test]
fn byte_order_mark_counts_as_one_unit() {
    let r = find_left_first_match_sync(input(&["b"], "\u{feff}ab"), None, None).unwrap();
    // The mark is one UTF-16 unit of the haystack, as JavaScript sees it.
    assert_eq!(parts(&r), hit(2, 3, 0));
    let all = find_all_match_sync(input(&["a", "b"], "\u{feff}ab"), None, None).unwrap();
    assert_eq!(all.iter().map(parts).collect::<Vec<_>>(), vec![hit(1, 2, 0), hit(2, 3, 1)]);
    assert_eq!(utf16_slice("\u{feff}ab", 2, 3), "b");
}

#[test]
fn empty_pattern_list_finds_nothing() {
    let r = find_all_match_sync(input(&[], "abc"), None, Some(&vec!["a".to_string()])).unwrap();
    assert!(r.is_empty());
    let one = find_match_sync(input(&[], "abc"), None, Some(&vec!["a".to_string()])).unwrap();
    assert_eq!(parts(&one), (None, None, None, false));
}

#[test]
fn standard_prefers_the_longest_then_the_earliest_pattern() {
    let r = find_match_sync(input(&["bc", "abc"], "xabc"), None, None).unwrap();
    assert_eq!(parts(&r), hit(1, 4, 1));
    let r = find_match_sync(input(&["ab", "ab"], "ab"), None, None).unwrap();
    assert_eq!(parts(&r), hit(0, 2, 0));
    let ci = Some(Options { case_insensitive: Some(true) });
    let r = find_match_sync(input(&["x", "AB", "ab"], "aB"), ci, None).unwrap();
    assert_eq!(parts(&r), hit(0, 2, 1));
    let all = find_all_match_sync(input(&["c", "bc", "abc"], "abcabc"), None, None).unwrap();
    assert_eq!(all.iter().map(parts).collect::<Vec<_>>(), vec![hit(0, 3, 2), hit(3, 6, 2)]);
}

#[test]
fn matches_do_not_overlap() {
    let r = find_all_match_sync(input(&["aa"], "aaa"), None, None).unwrap();
    assert_eq!(r.iter().map(parts).collect::<Vec<_>>(), vec![hit(0, 2, 0)]);
}

#[test]
fn all_matches_leave_no_occurrence_out() {
    let r = find_all_match_sync(input(&["abcd", "bc"], "xabcd xbc"), None, None).unwrap();
    assert_eq!(r.iter().map(parts).collect::<Vec<_>>(), vec![hit(2, 4, 1), hit(7, 9, 1)]);
    let r = find_all_match_sync(input(&["是是", "我"], "是是是我是是"), None, None).unwrap();
    assert_eq!(r.iter().map(parts).collect::<Vec<_>>(), vec![hit(0, 2, 0), hit(3, 4, 1), hit(4, 6, 0)]);
}

#[test]
fn all_matches_start_with_the_standard_match() {
    for (pats, hay) in [(&["abcd", "bc"][..], "xabcd xbc"), (&["apple", "maple", "Snapple"][..], HAYSTACK)] {
        let all = find_all_match_sync(input(pats, hay), None, None).unwrap();
        let one = find_match_sync(input(pats, hay), None, None).unwrap();
        assert_eq!(parts(&all[0]), parts(&one));
    }
}

#[test]
fn offsets_count_utf16_units_before_the_match() {
    let task = FindTask { input: input(&["c"], "中文c"), opts: None };
    assert_eq!(parts(&task.find(FindMode::LeftmostFirst, None).unwrap()), hit(2, 3, 0));
    let first = find_left_first_match_sync(input(&["map", "maple"], "maple"), None, None).unwrap();
    assert_eq!(parts(&first), hit(0, 3, 0));
    let ci = FindTask { input: input(&["hello"], "HELLO"), opts: Some(Options { case_insensitive: Some(true) }) };
    assert_eq!(parts(&ci.find(FindMode::Standard, None).unwrap()), hit(0, 5, 0));
}

#[test]
fn deferred_tasks() {
    let t = find_all_match(input(&["apple"], HAYSTACK), None);
    assert_eq!(t.compute(None).unwrap().len(), 2);
    let t = find_left_first_longest_match(input(&["map", "maple"], HAYSTACK), None);
    assert_eq!(parts(&t.compute(None).unwrap()), hit(13, 18, 1));
    let t = find_left_first_match(input(&["map", "maple"], HAYSTACK), None);
    assert_eq!(parts(&t.compute(None).unwrap()), hit(13, 16, 0));
    let t = find_match(input(&["ple"], HAYSTACK), None);
    assert_eq!(parts(&t.compute(None).unwrap()), hit(15, 18, 0));
}

#[test]
fn find_task_and_outputs() {
    let task = FindTask { input: input(&["是"], "a是b"), opts: None };
    assert_eq!(parts(&task.find(FindMode::LeftmostFirst, None).unwrap()), hit(1, 2, 0));
    assert_eq!(task.find_all(None).unwrap().len(), 1);
    let h = "a😅b".to_string();
    assert_eq!(parts(&find_output(&h, Some((1, 5, 3))).unwrap()), hit(1, 3, 3));
    let emoji_first = "😅b".to_string();
    assert_eq!(find_output(&emoji_first, Some((1, 5, 0))).unwrap_err(), FindError::OffsetNotConvertible);
    assert_eq!(parts(&find_output(&h, Some((2, 5, 0))).unwrap()), hit(0, 3, 0));
    assert_eq!(parts(&find_output(&h, None).unwrap()), (None, None, None, false));
    let all = find_all_output(&h, &vec![(0, 1, 0), (5, 6, 1)]).unwrap();
    assert_eq!(all.iter().map(parts).collect::<Vec<_>>(), vec![hit(0, 1, 0), hit(3, 4, 1)]);
    assert_eq!(find_all_output(&emoji_first, &vec![(0, 4, 0), (1, 5, 1)]).unwrap_err(), FindError::OffsetNotConvertible);
}

#[test]
fn defaults() {
    let o = FindOutput::default();
    assert_eq!(parts(&o), (None, None, None, false));
    let i = Input::default();
    assert!(i.haystack.is_empty() && i.patterns.is_none());
}

fn utf16_slice(text: &str, start: i64, end: i64) -> String {
    let units: Vec<u16> = text.encode_utf16().collect();
    String::from_utf16(&units[start as usize..end as usize]).unwrap()
}

/// Each reported range, read as a JavaScript string slice, is the pattern,
/// and the ranges come in order without overlap.
#[test]
fn reported_ranges_slice_out_the_patterns() {
    let patterns = ["是", "😅", "cc", "é", "文测"];
    let haystack = "中文测试cc是😅é是我是是😅cc";
    let all = find_all_match_sync(input(&patterns, haystack), None, None).unwrap();
    assert_eq!(all.len(), 10);
    let mut last_end = 0;
    for o in &all {
        let (start, end) = (o.start.unwrap(), o.end.unwrap());
        assert_eq!(utf16_slice(haystack, start, end), patterns[o.pattern.unwrap() as usize]);
        assert!(last_end <= start);
        last_end = end;
    }
    let first = find_left_first_longest_match_sync(input(&patterns, haystack), None, None).unwrap();
    assert_eq!(utf16_slice(haystack, first.start.unwrap(), first.end.unwrap()), "文测");
    let ci = find_left_first_match_sync(
        input(&["CC😅"], "aé😅cC😅"),
        Some(Options { case_insensitive: Some(true) }),
        None,
    )
    .unwrap();
    assert_eq!(utf16_slice("aé😅cC😅", ci.start.unwrap(), ci.end.unwrap()), "cC😅");
}
