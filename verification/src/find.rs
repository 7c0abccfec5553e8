//! Multi-pattern search over a haystack, with the matches reported as
//! UTF-16 offsets.

use vstd::prelude::*;
use vstd::utf8::encode_utf8;

use crate::utf8_to_utf16::source_map::{utf16_offset, Utf8ToUtf16};
use crate::utf8_to_utf16::text::{lemma_encode_utf8_len, utf8_len};

verus! {

/// What to search: the haystack, and the patterns unless loaded beforehand.
#[derive(Debug)]
pub struct Input {
    pub haystack: String,
    pub patterns: Option<Vec<String>>,
}

impl Default for Input {
    fn default() -> (r: Input)
        ensures
            r.haystack@ == Seq::<char>::empty(),
            r.patterns is None,
    {
        Input { haystack: String::new(), patterns: None }
    }
}

/// One search result: whether something matched and, if so, its UTF-16
/// range in the haystack and the index of the pattern.
#[derive(Debug)]
pub struct FindOutput {
    pub start: Option<i64>,
    pub end: Option<i64>,
    pub pattern: Option<i64>,
    pub matched: bool,
}

impl Default for FindOutput {
    fn default() -> (r: FindOutput)
        ensures
            r == no_match(),
    {
        FindOutput { start: None, end: None, pattern: None, matched: false }
    }
}

/// Search options.
pub struct Options {
    pub case_insensitive: Option<bool>,
}

/// The match semantics of a search.
#[derive(Clone, Copy, PartialEq, Eq, Structural, Debug)]
pub enum FindMode {
    /// Matches are reported as soon as they are seen.
    Standard,
    /// The leftmost match; among those, the earliest pattern.
    LeftmostFirst,
    /// The leftmost match; among those, the longest.
    LeftmostLongest,
}

/// Why a search gave no result.
#[derive(Clone, Copy, PartialEq, Eq, Structural, Debug)]
pub enum FindError {
    /// Neither the input nor a loaded set held patterns.
    PatternsRequired,
    /// The automaton for the patterns could not be built.
    AutomatonBuild,
    /// A match boundary fell where no UTF-16 offset corresponds to it.
    OffsetNotConvertible,
}

impl FindError {
    /// The text that reports the error.
    pub fn message(&self) -> (r: &'static str)
        ensures
            *self == FindError::PatternsRequired ==> r@
                == "patterns is required, please set it in input or load it by loadPatterns"@,
            *self == FindError::AutomatonBuild ==> r@
                == "the patterns could not be compiled into a searcher"@,
            *self == FindError::OffsetNotConvertible ==> r@ == "a match boundary has no UTF-16 offset"@,
    {
        match self {
            FindError::PatternsRequired => "patterns is required, please set it in input or load it by loadPatterns",
            FindError::AutomatonBuild => "the patterns could not be compiled into a searcher",
            FindError::OffsetNotConvertible => "a match boundary has no UTF-16 offset",
        }
    }
}

/// The texts of `v`.
pub open spec fn pattern_texts(v: Seq<String>) -> Seq<Seq<char>> {
    v.map_values(|s: String| s@)
}

/// `b` with an ASCII upper-case letter turned into lower case.
pub open spec fn ascii_fold(b: u8) -> u8 {
    if 0x41 <= b <= 0x5A {
        (b + 32) as u8
    } else {
        b
    }
}

/// Bytes `x` and `y` are the same, up to the case of ASCII letters when
/// `ci` holds.
pub open spec fn byte_eq(x: u8, y: u8, ci: bool) -> bool {
    if ci {
        ascii_fold(x) == ascii_fold(y)
    } else {
        x == y
    }
}

/// The code point `v` with an ASCII upper-case letter turned into lower
/// case.
pub open spec fn ascii_fold_code(v: u32) -> u32 {
    if 0x41 <= v <= 0x5A {
        (v + 32) as u32
    } else {
        v
    }
}

/// Characters `a` and `b` are the same, up to the case of ASCII letters when
/// `ci` holds.
pub open spec fn char_eq(a: char, b: char, ci: bool) -> bool {
    if ci {
        ascii_fold_code(a as u32) == ascii_fold_code(b as u32)
    } else {
        a == b
    }
}

/// Texts `a` and `b` are the same, character by character, up to the case
/// of ASCII letters when `ci` holds.
pub open spec fn chars_eq(a: Seq<char>, b: Seq<char>, ci: bool) -> bool {
    &&& a.len() == b.len()
    &&& forall|i: int| 0 <= i < a.len() ==> char_eq(#[trigger] a[i], b[i], ci)
}

/// The bytes of `pat` occur in `hay` at `start`, up to the case of ASCII
/// letters when `ci` holds.
pub open spec fn bytes_at(hay: Seq<u8>, start: int, pat: Seq<u8>, ci: bool) -> bool {
    &&& 0 <= start
    &&& start + pat.len() <= hay.len()
    &&& forall|i: int| 0 <= i < pat.len() ==> byte_eq(#[trigger] hay[start + i], pat[i], ci)
}

/// Pattern `p` of `pats` occurs in `hay` at bytes `s..e`.
pub open spec fn is_occurrence(
    pats: Seq<Seq<char>>,
    ci: bool,
    hay: Seq<char>,
    s: int,
    e: int,
    p: int,
) -> bool {
    &&& 0 <= p < pats.len()
    &&& e == s + encode_utf8(pats[p]).len()
    &&& bytes_at(encode_utf8(hay), s, encode_utf8(pats[p]), ci)
}

/// Some pattern of `pats` occurs somewhere in `hay`.
pub open spec fn occurs(pats: Seq<Seq<char>>, ci: bool, hay: Seq<char>) -> bool {
    exists|s: int, e: int, p: int| is_occurrence(pats, ci, hay, s, e, p)
}

/// What the documentation of aho-corasick promises of the first match
/// `found` of `pats` in `hay`: there is one exactly when some pattern
/// occurs, it is an occurrence of its pattern, the leftmost one in the
/// leftmost modes and the earliest ending one in the standard mode; of the
/// leftmost ones, that of the earliest pattern in leftmost-first mode and
/// the longest in leftmost-longest mode; of the earliest ending ones in the
/// standard mode, the longest, and of those the earliest pattern.
pub open spec fn first_match_facts(
    pats: Seq<Seq<char>>,
    ci: bool,
    mode: FindMode,
    hay: Seq<char>,
    found: Option<(usize, usize, usize)>,
) -> bool {
    &&& (found is None <==> !occurs(pats, ci, hay))
    &&& match found {
        Some(m) => {
            &&& is_occurrence(pats, ci, hay, m.0 as int, m.1 as int, m.2 as int)
            &&& (mode != FindMode::Standard ==> forall|s: int, e: int, p: int|
                is_occurrence(pats, ci, hay, s, e, p) ==> m.0 <= s)
            &&& (mode == FindMode::Standard ==> forall|s: int, e: int, p: int|
                is_occurrence(pats, ci, hay, s, e, p) ==> m.1 <= e)
            &&& (mode == FindMode::Standard ==> forall|s: int, e: int, p: int|
                is_occurrence(pats, ci, hay, s, e, p) && e == m.1 ==> m.0 <= s && (s == m.0 ==> m.2
                    <= p))
            &&& (mode == FindMode::LeftmostFirst ==> forall|e: int, p: int|
                is_occurrence(pats, ci, hay, m.0 as int, e, p) ==> m.2 <= p)
            &&& (mode == FindMode::LeftmostLongest ==> forall|e: int, p: int|
                is_occurrence(pats, ci, hay, m.0 as int, e, p) ==> e <= m.1)
        },
        None => true,
    }
}

/// What the source of aho-corasick shows of the matches `found` of its
/// non-overlapping iterator: the first is what the searcher with standard
/// semantics finds first, so there is none exactly when that finds
/// nothing; each is an occurrence of its pattern, and each starts where
/// the one before it ended or later and ends no later than any occurrence
/// that starts there or later and ends after it; of the occurrences that end
/// with it and start after the one before it ended (or where it ended, when
/// it is not empty), it is the longest, and of those the earliest pattern;
/// after the last one no
/// pattern occurs but, where the last one ends the haystack, the empty one
/// there.
pub open spec fn all_matches_facts(
    pats: Seq<Seq<char>>,
    ci: bool,
    hay: Seq<char>,
    found: Seq<(usize, usize, usize)>,
) -> bool {
    &&& (found.len() == 0 <==> first_match(pats, ci, FindMode::Standard, hay) is None)
    &&& (found.len() > 0 ==> first_match(pats, ci, FindMode::Standard, hay) == Some(found[0]))
    &&& forall|i: int|
        0 <= i < found.len() ==> is_occurrence(
            pats,
            ci,
            hay,
            (#[trigger] found[i]).0 as int,
            found[i].1 as int,
            found[i].2 as int,
        )
    &&& forall|i: int| 0 <= i < found.len() - 1 ==> (#[trigger] found[i]).1 <= found[i + 1].0
    &&& forall|i: int, s: int, e: int, p: int|
        #![trigger found[i], is_occurrence(pats, ci, hay, s, e, p)]
        0 <= i < found.len() - 1 && is_occurrence(pats, ci, hay, s, e, p) && found[i].1 <= s
            && found[i].1 < e ==> found[i + 1].1 <= e
    &&& forall|i: int, s: int, e: int, p: int|
        #![trigger found[i], is_occurrence(pats, ci, hay, s, e, p)]
        0 <= i < found.len() - 1 && is_occurrence(pats, ci, hay, s, e, p) && found[i].1 <= s
            && e == found[i + 1].1 && (found[i].1 < s || found[i + 1].0 < found[i + 1].1)
            ==> found[i + 1].0 <= s && (s == found[i + 1].0 ==> found[i + 1].2 <= p)
    &&& (found.len() > 0 ==> forall|s: int, e: int, p: int|
        #![trigger is_occurrence(pats, ci, hay, s, e, p)]
        is_occurrence(pats, ci, hay, s, e, p) && found.last().1 <= s ==> s == e && e
            == found.last().1)
}

/// The number of bytes in the UTF-8 encodings of all of `pats`.
pub open spec fn patterns_utf8_len(pats: Seq<Seq<char>>) -> nat
    decreases pats.len(),
{
    if pats.len() == 0 {
        0
    } else {
        patterns_utf8_len(pats.drop_last()) + utf8_len(pats.last())
    }
}

/// At most 256 patterns of at most 1024 bytes in all: too few for the
/// searcher of aho-corasick to reach any of its limits.
pub open spec fn small_pattern_set(pats: Seq<Seq<char>>) -> bool {
    &&& pats.len() <= 256
    &&& patterns_utf8_len(pats) <= 1024
}

/// Whether aho-corasick builds a searcher for `patterns` with ASCII
/// case-insensitivity as given and the match kind of `mode`.
pub uninterp spec fn automaton_builds(
    patterns: Seq<Seq<char>>,
    case_insensitive: bool,
    mode: FindMode,
) -> bool;

/// What the searcher of aho-corasick finds first in `haystack`.
pub uninterp spec fn first_match(
    patterns: Seq<Seq<char>>,
    case_insensitive: bool,
    mode: FindMode,
    haystack: Seq<char>,
) -> Option<(usize, usize, usize)>;

/// What the iterator of non-overlapping matches of aho-corasick yields for
/// `haystack`, with standard semantics.
pub uninterp spec fn all_matches(
    patterns: Seq<Seq<char>>,
    case_insensitive: bool,
    haystack: Seq<char>,
) -> Seq<(usize, usize, usize)>;

#[verifier::external_type_specification]
#[verifier::external_body]
pub struct ExBuildError(aho_corasick::BuildError);

/// Builds an `AhoCorasick` searcher of aho-corasick for `patterns`, with
/// ASCII case-insensitivity as given and the match kind of `mode`, and
/// calls its `find` on `haystack`, giving the start, end and pattern index
/// of the match. Building fails only when a limit of the crate on states,
/// patterns or pattern length is exceeded, which depends on the patterns
/// and options alone (named `automaton_builds`). With the default automatic
/// choice of automaton only the non-contiguous NFA can fail to build (the
/// DFA and the contiguous NFA fall back), and its limits are all
/// `i32::MAX - 1` on 32- and 64-bit targets. For P patterns of L bytes in
/// all it makes at most L + 4 states, 769 + 2L sparse transitions,
/// 1 + 256(L + 4) dense ones and 1 + (L + 4)(2L + 1)P match links, so it
/// builds whenever P <= 256 and L <= 1024. The crate's documentation gives
/// that a reported match is an occurrence of its pattern, that a match is
/// found whenever some pattern occurs, that leftmost kinds report the
/// leftmost match, preferring the earlier pattern or the longer match, and
/// that the standard kind reports matches as soon as they are seen. Its
/// source shows that the standard kind reports the first pattern that the
/// state reached lists, and each state lists the patterns it spells in the
/// order given before those of its shorter suffixes: of the matches ending
/// first, the longest, then the earliest pattern. What is left to the name
/// `first_match` is which of several equally long leftmost-longest matches
/// is reported.
#[verifier::external_body]
fn search_first(
    patterns: &Vec<String>,
    case_insensitive: bool,
    mode: FindMode,
    haystack: &str,
) -> (r: Result<Option<(usize, usize, usize)>, aho_corasick::BuildError>)
    ensures
        r is Ok <==> automaton_builds(pattern_texts(patterns@), case_insensitive, mode),
        small_pattern_set(pattern_texts(patterns@)) ==> r is Ok,
        r is Ok ==> r->Ok_0 == first_match(
            pattern_texts(patterns@),
            case_insensitive,
            mode,
            haystack@,
        ),
        r is Ok ==> first_match_facts(
            pattern_texts(patterns@),
            case_insensitive,
            mode,
            haystack@,
            r->Ok_0,
        ),
{
    let kind = match mode {
        FindMode::Standard => aho_corasick::MatchKind::Standard,
        FindMode::LeftmostFirst => aho_corasick::MatchKind::LeftmostFirst,
        FindMode::LeftmostLongest => aho_corasick::MatchKind::LeftmostLongest,
    };
    let ac = aho_corasick::AhoCorasick::builder().ascii_case_insensitive(case_insensitive).match_kind(
        kind,
    ).build(patterns)?;
    Ok(ac.find(haystack).map(|m| (m.start(), m.end(), m.pattern().as_usize())))
}

/// Builds an `AhoCorasick` searcher of aho-corasick for `patterns`, with
/// ASCII case-insensitivity as given and standard semantics, and collects
/// its `find_iter` over `haystack` as (start, end, pattern index). Building
/// is as for `search_first` with standard semantics. The crate's source
/// shows that the iterator's first search is the searcher's `find`, that
/// every match is an occurrence of its pattern and that each search
/// resumes where the previous match ended, so the matches come in order and
/// do not overlap: each later match is what a standard search of the rest
/// of the haystack finds, from where the last match ended (one byte
/// further where that search finds an empty match there), and the iterator
/// ends when such a search finds nothing; each search picks among matches
/// ending at the same place as `search_first` does in the standard kind.
#[verifier::external_body]
fn search_all(patterns: &Vec<String>, case_insensitive: bool, haystack: &str) -> (r: Result<
    Vec<(usize, usize, usize)>,
    aho_corasick::BuildError,
>)
    ensures
        r is Ok <==> automaton_builds(
            pattern_texts(patterns@),
            case_insensitive,
            FindMode::Standard,
        ),
        small_pattern_set(pattern_texts(patterns@)) ==> r is Ok,
        r is Ok ==> r->Ok_0@ == all_matches(pattern_texts(patterns@), case_insensitive, haystack@),
        r is Ok ==> first_match_facts(
            pattern_texts(patterns@),
            case_insensitive,
            FindMode::Standard,
            haystack@,
            first_match(pattern_texts(patterns@), case_insensitive, FindMode::Standard, haystack@),
        ),
        r is Ok ==> all_matches_facts(
            pattern_texts(patterns@),
            case_insensitive,
            haystack@,
            r->Ok_0@,
        ),
{
    let ac = aho_corasick::AhoCorasick::builder().ascii_case_insensitive(case_insensitive).build(
        patterns,
    )?;
    Ok(ac.find_iter(haystack).map(|m| (m.start(), m.end(), m.pattern().as_usize())).collect())
}

/// The result that reports no match.
pub open spec fn no_match() -> FindOutput {
    FindOutput { start: None, end: None, pattern: None, matched: false }
}

/// The result for the match `m` of bytes `m.0..m.1` of pattern `m.2` in
/// `hay`: its UTF-16 range in `hay`.
pub open spec fn match_output(hay: Seq<char>, m: (usize, usize, usize)) -> FindOutput {
    FindOutput {
        start: Some(utf16_offset(hay, m.0 as int) as i64),
        end: Some(utf16_offset(hay, m.1 as int) as i64),
        pattern: Some(m.2 as i64),
        matched: true,
    }
}

/// Both ends of `m` have a UTF-16 offset in `hay`.
pub open spec fn convertible(hay: Seq<char>, m: (usize, usize, usize)) -> bool {
    &&& utf16_offset(hay, m.0 as int) >= 0
    &&& utf16_offset(hay, m.1 as int) >= 0
}

/// What a search that found `found` in `hay` returns.
pub open spec fn output_of(hay: Seq<char>, found: Option<(usize, usize, usize)>) -> Result<
    FindOutput,
    FindError,
> {
    match found {
        None => Ok(no_match()),
        Some(m) => if convertible(hay, m) {
            Ok(match_output(hay, m))
        } else {
            Err(FindError::OffsetNotConvertible)
        },
    }
}

/// What a search that found all of `found` in `hay` returns.
pub open spec fn outputs_of(hay: Seq<char>, found: Seq<(usize, usize, usize)>) -> Result<
    Seq<FindOutput>,
    FindError,
> {
    if forall|i: int| 0 <= i < found.len() ==> convertible(hay, #[trigger] found[i]) {
        Ok(found.map_values(|m: (usize, usize, usize)| match_output(hay, m)))
    } else {
        Err(FindError::OffsetNotConvertible)
    }
}

/// The patterns a search uses: those of the input, else the loaded ones.
pub open spec fn chosen_patterns(input: Input, loaded: Option<Seq<String>>) -> Option<
    Seq<String>,
> {
    match input.patterns {
        Some(p) => Some(p@),
        None => loaded,
    }
}

/// Whether the options ask for ASCII case-insensitive matching.
pub open spec fn case_insensitive_of(opts: Option<Options>) -> bool {
    match opts {
        Some(o) => o.case_insensitive == Some(true),
        None => false,
    }
}

/// The loaded patterns, if any, as a sequence.
pub open spec fn loaded_view(loaded: Option<&Vec<String>>) -> Option<Seq<String>> {
    match loaded {
        Some(v) => Some(v@),
        None => None,
    }
}

/// The result of a search in `haystack` that found `found`: no match, or
/// the UTF-16 range and pattern of the match; an error where a boundary
/// of the match has no UTF-16 offset.
pub fn find_output(haystack: &String, found: Option<(usize, usize, usize)>) -> (r: Result<
    FindOutput,
    FindError,
>)
    requires
        utf8_len(haystack@) < u32::MAX,
        found matches Some(m) ==> m.0 <= m.1 <= utf8_len(haystack@),
    ensures
        r == output_of(haystack@, found),
{
    match found {
        None => Ok(FindOutput { matched: false, ..Default::default() }),
        Some((start, end, pattern)) => {
            let transformer = Utf8ToUtf16::from_text(haystack.clone());
            if !transformer.accepts(start as u32) || !transformer.accepts(end as u32) {
                return Err(FindError::OffsetNotConvertible);
            }
            let js_range = transformer.utf8_to_utf16((start as u32, end as u32));
            Ok(
                FindOutput {
                    matched: true,
                    start: Some(js_range.0 as i64),
                    end: Some(js_range.1 as i64),
                    pattern: Some(pattern as i64),
                },
            )
        },
    }
}

/// The results of a search in `haystack` that found all of `found`, in
/// order; an error where a boundary of some match has no UTF-16 offset.
pub fn find_all_output(haystack: &String, found: &Vec<(usize, usize, usize)>) -> (r: Result<
    Vec<FindOutput>,
    FindError,
>)
    requires
        utf8_len(haystack@) < u32::MAX,
        forall|i: int|
            0 <= i < found@.len() ==> (#[trigger] found@[i]).0 <= found@[i].1 <= utf8_len(
                haystack@,
            ),
    ensures
        results_view(r) == outputs_of(haystack@, found@),
{
    let transformer = Utf8ToUtf16::from_text(haystack.clone());
    let mut matches: Vec<FindOutput> = Vec::new();
    let n = found.len();
    for i in 0..n
        invariant
            n == found@.len(),
            transformer.text() == haystack@,
            utf8_len(haystack@) < u32::MAX,
            forall|j: int|
                0 <= j < found@.len() ==> (#[trigger] found@[j]).0 <= found@[j].1 <= utf8_len(
                    haystack@,
                ),
            matches@.len() == i,
            forall|j: int| 0 <= j < i ==> convertible(haystack@, #[trigger] found@[j]),
            forall|j: int|
                0 <= j < i ==> #[trigger] matches@[j] == match_output(haystack@, found@[j]),
    {
        let (start, end, pattern) = found[i];
        if !transformer.accepts(start as u32) || !transformer.accepts(end as u32) {
            assert(!convertible(haystack@, found@[i as int]));
            return Err(FindError::OffsetNotConvertible);
        }
        let js_range = transformer.utf8_to_utf16((start as u32, end as u32));
        matches.push(
            FindOutput {
                matched: true,
                start: Some(js_range.0 as i64),
                end: Some(js_range.1 as i64),
                pattern: Some(pattern as i64),
            },
        );
    }
    assert(matches@ =~= found@.map_values(
        |m: (usize, usize, usize)| match_output(haystack@, m),
    ));
    Ok(matches)
}

/// A result holding a vector, with the vector as a sequence.
pub open spec fn results_view(r: Result<Vec<FindOutput>, FindError>) -> Result<
    Seq<FindOutput>,
    FindError,
> {
    match r {
        Ok(v) => Ok(v@),
        Err(e) => Err(e),
    }
}

/// What a search of `input` with `opts` in `mode` returns: an error
/// without patterns; otherwise an error exactly when the searcher cannot be
/// built, and else the output of what the searcher found first, which has
/// the properties that its documentation promises.
pub open spec fn search_outcome(
    input: Input,
    opts: Option<Options>,
    loaded: Option<Seq<String>>,
    mode: FindMode,
    r: Result<FindOutput, FindError>,
) -> bool {
    match chosen_patterns(input, loaded) {
        None => r == Err::<FindOutput, FindError>(FindError::PatternsRequired),
        Some(p) => {
            let pats = pattern_texts(p);
            let ci = case_insensitive_of(opts);
            let h = input.haystack@;
            let found = first_match(pats, ci, mode, h);
            &&& (small_pattern_set(pats) ==> automaton_builds(pats, ci, mode))
            &&& (!automaton_builds(pats, ci, mode) ==> r == Err::<FindOutput, FindError>(
                FindError::AutomatonBuild,
            ))
            &&& (automaton_builds(pats, ci, mode) ==> r == output_of(h, found))
            &&& (automaton_builds(pats, ci, mode) ==> first_match_facts(pats, ci, mode, h, found))
        },
    }
}

/// What a search of `input` with `opts` for all matches returns: an error
/// without patterns; otherwise an error exactly when the searcher cannot be
/// built, and else the outputs of all the matches of the searcher, which
/// have the properties that its source shows.
pub open spec fn search_all_outcome(
    input: Input,
    opts: Option<Options>,
    loaded: Option<Seq<String>>,
    r: Result<Vec<FindOutput>, FindError>,
) -> bool {
    match chosen_patterns(input, loaded) {
        None => r == Err::<Vec<FindOutput>, FindError>(FindError::PatternsRequired),
        Some(p) => {
            let pats = pattern_texts(p);
            let ci = case_insensitive_of(opts);
            let h = input.haystack@;
            let found = all_matches(pats, ci, h);
            let first = first_match(pats, ci, FindMode::Standard, h);
            &&& (small_pattern_set(pats) ==> automaton_builds(pats, ci, FindMode::Standard))
            &&& (!automaton_builds(pats, ci, FindMode::Standard) ==> r == Err::<
                Vec<FindOutput>,
                FindError,
            >(FindError::AutomatonBuild))
            &&& (automaton_builds(pats, ci, FindMode::Standard) ==> results_view(r) == outputs_of(
                h,
                found,
            ))
            &&& (automaton_builds(pats, ci, FindMode::Standard) ==> all_matches_facts(
                pats,
                ci,
                h,
                found,
            ))
            &&& (automaton_builds(pats, ci, FindMode::Standard) ==> first_match_facts(
                pats,
                ci,
                FindMode::Standard,
                h,
                first,
            ))
        },
    }
}

/// A search: the input, and the options.
pub struct FindTask {
    pub input: Input,
    pub opts: Option<Options>,
}

impl FindTask {
    /// The patterns of the input, else the loaded ones.
    fn get_pattern<'a>(&'a self, loaded: Option<&'a Vec<String>>) -> (r: Result<
        &'a Vec<String>,
        FindError,
    >)
        ensures
            match chosen_patterns(self.input, loaded_view(loaded)) {
                Some(p) => r is Ok && r->Ok_0@ == p,
                None => r is Err && r->Err_0 == FindError::PatternsRequired,
            },
    {
        if let Some(p) = &self.input.patterns {
            Ok(p)
        } else if let Some(p) = loaded {
            Ok(p)
        } else {
            Err(FindError::PatternsRequired)
        }
    }

    fn case_insensitive(&self) -> (r: bool)
        ensures
            r == case_insensitive_of(self.opts),
    {
        match &self.opts {
            Some(o) => match o.case_insensitive {
                Some(v) => v,
                None => false,
            },
            None => false,
        }
    }

    /// Searches the haystack for the first match in `mode`.
    pub fn find(&self, mode: FindMode, loaded: Option<&Vec<String>>) -> (r: Result<
        FindOutput,
        FindError,
    >)
        requires
            utf8_len(self.input.haystack@) < u32::MAX,
        ensures
            search_outcome(self.input, self.opts, loaded_view(loaded), mode, r),
    {
        let patterns = self.get_pattern(loaded)?;
        let case_insensitive = self.case_insensitive();
        let haystack = &self.input.haystack;
        let found = match search_first(patterns, case_insensitive, mode, haystack.as_str()) {
            Ok(m) => m,
            Err(_) => return Err(FindError::AutomatonBuild),
        };
        proof {
            lemma_encode_utf8_len(haystack@);
        }
        find_output(haystack, found)
    }

    /// Searches the haystack for all non-overlapping matches.
    pub fn find_all(&self, loaded: Option<&Vec<String>>) -> (r: Result<Vec<FindOutput>, FindError>)
        requires
            utf8_len(self.input.haystack@) < u32::MAX,
        ensures
            search_all_outcome(self.input, self.opts, loaded_view(loaded), r),
    {
        let patterns = self.get_pattern(loaded)?;
        let case_insensitive = self.case_insensitive();
        let haystack = &self.input.haystack;
        let found = match search_all(patterns, case_insensitive, haystack.as_str()) {
            Ok(v) => v,
            Err(_) => return Err(FindError::AutomatonBuild),
        };
        proof {
            lemma_encode_utf8_len(haystack@);
        }
        find_all_output(haystack, &found)
    }
}

/// The leftmost match, preferring the pattern given first.
pub fn find_left_first_match_sync(
    input: Input,
    opts: Option<Options>,
    loaded: Option<&Vec<String>>,
) -> (r: Result<FindOutput, FindError>)
    requires
        utf8_len(input.haystack@) < u32::MAX,
    ensures
        search_outcome(input, opts, loaded_view(loaded), FindMode::LeftmostFirst, r),
{
    FindTask { input, opts }.find(FindMode::LeftmostFirst, loaded)
}

/// The first match seen, with standard semantics.
pub fn find_match_sync(input: Input, opts: Option<Options>, loaded: Option<&Vec<String>>) -> (r:
    Result<FindOutput, FindError>)
    requires
        utf8_len(input.haystack@) < u32::MAX,
    ensures
        search_outcome(input, opts, loaded_view(loaded), FindMode::Standard, r),
{
    FindTask { input, opts }.find(FindMode::Standard, loaded)
}

/// The leftmost match, preferring the longest.
pub fn find_left_first_longest_match_sync(
    input: Input,
    opts: Option<Options>,
    loaded: Option<&Vec<String>>,
) -> (r: Result<FindOutput, FindError>)
    requires
        utf8_len(input.haystack@) < u32::MAX,
    ensures
        search_outcome(input, opts, loaded_view(loaded), FindMode::LeftmostLongest, r),
{
    FindTask { input, opts }.find(FindMode::LeftmostLongest, loaded)
}

/// All non-overlapping matches, with standard semantics.
pub fn find_all_match_sync(
    input: Input,
    opts: Option<Options>,
    loaded: Option<&Vec<String>>,
) -> (r: Result<Vec<FindOutput>, FindError>)
    requires
        utf8_len(input.haystack@) < u32::MAX,
    ensures
        search_all_outcome(input, opts, loaded_view(loaded), r),
{
    FindTask { input, opts }.find_all(loaded)
}

/// A search for all matches, to be run later.
pub struct FindAllMatchTask {
    task: FindTask,
}

impl FindAllMatchTask {
    /// The search to run.
    pub closed spec fn spec_task(&self) -> FindTask {
        self.task
    }

    /// Runs the search.
    pub fn compute(&self, loaded: Option<&Vec<String>>) -> (r: Result<Vec<FindOutput>, FindError>)
        requires
            utf8_len(self.spec_task().input.haystack@) < u32::MAX,
        ensures
            search_all_outcome(self.spec_task().input, self.spec_task().opts, loaded_view(loaded), r),
    {
        self.task.find_all(loaded)
    }
}

/// A search for the first match in one mode, to be run later.
pub struct FindMatchByModeTask {
    task: FindTask,
    mode: FindMode,
}

impl FindMatchByModeTask {
    /// The search to run.
    pub closed spec fn spec_task(&self) -> FindTask {
        self.task
    }

    /// Its match semantics.
    pub closed spec fn spec_mode(&self) -> FindMode {
        self.mode
    }

    /// Runs the search.
    pub fn compute(&self, loaded: Option<&Vec<String>>) -> (r: Result<FindOutput, FindError>)
        requires
            utf8_len(self.spec_task().input.haystack@) < u32::MAX,
        ensures
            search_outcome(
                self.spec_task().input,
                self.spec_task().opts,
                loaded_view(loaded),
                self.spec_mode(),
                r,
            ),
    {
        self.task.find(self.mode, loaded)
    }
}

/// A deferred search for all matches.
pub fn find_all_match(input: Input, opts: Option<Options>) -> (r: FindAllMatchTask)
    ensures
        r.spec_task() == (FindTask { input, opts }),
{
    FindAllMatchTask { task: FindTask { input, opts } }
}

/// A deferred search for the leftmost match, preferring the longest.
pub fn find_left_first_longest_match(input: Input, opts: Option<Options>) -> (r:
    FindMatchByModeTask)
    ensures
        r.spec_task() == (FindTask { input, opts }),
        r.spec_mode() == FindMode::LeftmostLongest,
{
    FindMatchByModeTask { task: FindTask { input, opts }, mode: FindMode::LeftmostLongest }
}

/// A deferred search for the first match seen, with standard semantics.
pub fn find_match(input: Input, opts: Option<Options>) -> (r: FindMatchByModeTask)
    ensures
        r.spec_task() == (FindTask { input, opts }),
        r.spec_mode() == FindMode::Standard,
{
    FindMatchByModeTask { task: FindTask { input, opts }, mode: FindMode::Standard }
}

/// A deferred search for the leftmost match, preferring the pattern given
/// first.
pub fn find_left_first_match(input: Input, opts: Option<Options>) -> (r: FindMatchByModeTask)
    ensures
        r.spec_task() == (FindTask { input, opts }),
        r.spec_mode() == FindMode::LeftmostFirst,
{
    FindMatchByModeTask { task: FindTask { input, opts }, mode: FindMode::LeftmostFirst }
}

} // verus!
