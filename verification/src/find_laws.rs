//! What the search results mean in terms of characters: a reported match
//! is the UTF-16 range of an occurrence of its pattern, and the matches of a
//! search for all of them come in order and leave no occurrence out.

use vstd::prelude::*;
use vstd::utf8::{encode_scalar, encode_utf8, is_continuation_byte};

use crate::find::{
    ascii_fold_code,
    occurs,
    all_matches,
    all_matches_facts,
    automaton_builds,
    byte_eq,
    bytes_at,
    case_insensitive_of,
    char_eq,
    chars_eq,
    chosen_patterns,
    convertible,
    first_match,
    first_match_facts,
    is_occurrence,
    match_output,
    outputs_of,
    pattern_texts,
    results_view,
    search_all_outcome,
    search_outcome,
    small_pattern_set,
    FindError,
    FindMode,
    FindOutput,
    Input,
    Options,
};
use crate::utf8_to_utf16::source_map::lemma_utf16_offset_of_boundary;
use crate::utf8_to_utf16::text::{
    lemma_encode_utf8_concat,
    lemma_encode_scalar_bytes,
    lemma_encode_scalar_injective,
    lemma_encode_utf8_first,
    lemma_encode_utf8_len,
    lemma_take_monotone,
    lemma_utf16_len_concat,
    lemma_utf16_len_le_utf8_len,
    lemma_utf8_len_at_least_len,
    lemma_utf8_len_concat,
    lemma_utf8_len_cons,
    utf16_len,
    utf8_len,
};

verus! {

/// Where the encoding of `t` begins with that of `p`, up to the case of
/// ASCII letters when `ci` holds, `t` begins with `p` up to the same case.
proof fn lemma_prefix_chars(t: Seq<char>, p: Seq<char>, ci: bool)
    requires
        encode_utf8(p).len() <= encode_utf8(t).len(),
        forall|i: int|
            0 <= i < encode_utf8(p).len() ==> byte_eq(
                #[trigger] encode_utf8(t)[i],
                encode_utf8(p)[i],
                ci,
            ),
    ensures
        p.len() <= t.len(),
        chars_eq(t.take(p.len() as int), p, ci),
        utf8_len(t.take(p.len() as int)) == utf8_len(p),
    decreases p.len(),
{
    if p.len() == 0 {
        assert(t.take(0) =~= Seq::<char>::empty());
        assert(p =~= Seq::<char>::empty());
    } else {
        lemma_encode_utf8_len(p);
        lemma_encode_utf8_len(t);
        if t.len() == 0 {
            assert(utf8_len(t) == 0);
            assert(false);
        }
        let a = t[0];
        let b = p[0];
        let ea = encode_scalar(a as u32);
        let eb = encode_scalar(b as u32);
        let t1 = t.drop_first();
        let p1 = p.drop_first();
        lemma_encode_utf8_first(t);
        lemma_encode_utf8_first(p);
        lemma_encode_scalar_bytes(a);
        lemma_encode_scalar_bytes(b);
        let et = encode_utf8(t);
        let ep = encode_utf8(p);
        assert(et[0] == ea[0]);
        assert(ep[0] == eb[0]);
        assert(byte_eq(et[0], ep[0], ci));
        if (b as u32) < 0x80 {
            if (a as u32) >= 0x80 {
                assert(false);
            }
            if !ci {
                vstd::utf8::char_u32_cast(a, a as u32);
                vstd::utf8::char_u32_cast(b, b as u32);
            }
            assert(ea.len() == 1 && eb.len() == 1);
            assert(ea =~= eb || ci);
        } else {
            assert(ea[0] == eb[0]);
            assert((a as u32) >= 0x80);
            assert(ea.len() == eb.len());
            assert forall|i: int| 1 <= i < ea.len() implies ea[i] == eb[i] by {
                assert(et[i] == ea[i]);
                assert(ep[i] == eb[i]);
                assert(byte_eq(et[i], ep[i], ci));
                assert(is_continuation_byte(ea[i]));
                assert(is_continuation_byte(eb[i]));
            }
            assert(ea =~= eb);
            lemma_encode_scalar_injective(a, b);
        }
        let n = ea.len() as int;
        assert(n == eb.len());
        assert(encode_utf8(t1) =~= et.skip(n));
        assert(encode_utf8(p1) =~= ep.skip(n));
        assert forall|i: int| 0 <= i < encode_utf8(p1).len() implies byte_eq(
            #[trigger] encode_utf8(t1)[i],
            encode_utf8(p1)[i],
            ci,
        ) by {
            assert(byte_eq(et[n + i], ep[n + i], ci));
        }
        lemma_prefix_chars(t1, p1, ci);
        assert(char_eq(a, b, ci));
        let m = p.len() as int;
        assert(t.take(m) =~= seq![a] + t1.take(m - 1));
        assert(p =~= seq![b] + p1);
        lemma_utf8_len_cons(a, t1.take(m - 1));
        lemma_utf8_len_cons(b, p1);
        assert forall|i: int| 0 <= i < m implies char_eq(#[trigger] t.take(m)[i], p[i], ci) by {
            if i > 0 {
                assert(t.take(m)[i] == t1.take(m - 1)[i - 1]);
                assert(p[i] == p1[i - 1]);
            }
        }
    }
}

/// An occurrence, at byte `s` of `h`, of the bytes of a non-empty text `p`
/// starts at a character boundary `k` of `h`, and the characters of `h`
/// from there are those of `p`, up to the case of ASCII letters when `ci`
/// holds.
pub proof fn lemma_occurrence_aligned(h: Seq<char>, s: int, p: Seq<char>, ci: bool) -> (k: int)
    requires
        p.len() > 0,
        bytes_at(encode_utf8(h), s, encode_utf8(p), ci),
    ensures
        0 <= k,
        k + p.len() <= h.len(),
        utf8_len(h.take(k)) == s,
        utf8_len(h.take(k + p.len())) == s + utf8_len(p),
        chars_eq(h.subrange(k, k + p.len()), p, ci),
    decreases h.len(),
{
    lemma_encode_utf8_len(h);
    lemma_encode_utf8_len(p);
    lemma_encode_utf8_first(p);
    lemma_encode_scalar_bytes(p[0]);
    let eh = encode_utf8(h);
    let ep = encode_utf8(p);
    if h.len() == 0 {
        assert(eh.len() == 0);
        assert(false);
        0
    } else {
        let a = h[0];
        let ea = encode_scalar(a as u32);
        let h1 = h.drop_first();
        lemma_encode_utf8_first(h);
        lemma_encode_scalar_bytes(a);
        if s == 0 {
            assert forall|i: int| 0 <= i < ep.len() implies byte_eq(
                #[trigger] eh[i],
                ep[i],
                ci,
            ) by {
                assert(byte_eq(eh[0 + i], ep[i], ci));
            }
            lemma_prefix_chars(h, p, ci);
            assert(h.take(0) =~= Seq::<char>::empty());
            assert(h.subrange(0, p.len() as int) =~= h.take(p.len() as int));
            0
        } else if s < ea.len() {
            assert(eh[s] == ea[s]);
            assert(is_continuation_byte(ea[s]));
            assert(byte_eq(eh[s + 0], ep[0], ci));
            assert(ep[0] == encode_scalar(p[0] as u32)[0]);
            assert(false);
            0
        } else {
            let n = ea.len() as int;
            assert(encode_utf8(h1) =~= eh.skip(n));
            assert forall|i: int| 0 <= i < ep.len() implies byte_eq(
                #[trigger] encode_utf8(h1)[(s - n) + i],
                ep[i],
                ci,
            ) by {
                assert(byte_eq(eh[s + i], ep[i], ci));
            }
            let k1 = lemma_occurrence_aligned(h1, s - n, p, ci);
            let k = k1 + 1;
            assert(h.take(k) =~= seq![a] + h1.take(k1));
            assert(h.take(k + p.len()) =~= seq![a] + h1.take(k1 + p.len()));
            lemma_utf8_len_cons(a, h1.take(k1));
            lemma_utf8_len_cons(a, h1.take(k1 + p.len()));
            assert(h.subrange(k, k + p.len()) =~= h1.subrange(k1, k1 + p.len()));
            k
        }
    }
}

/// The output for a match that covers characters `k..k + n` of `h` with
/// pattern `q`: the UTF-16 offsets of those characters.
pub open spec fn range_output(h: Seq<char>, k: int, n: int, q: int) -> FindOutput {
    FindOutput {
        start: Some(utf16_len(h.take(k)) as i64),
        end: Some(utf16_len(h.take(k + n)) as i64),
        pattern: Some(q as i64),
        matched: true,
    }
}

/// The output of an occurrence of a non-empty pattern in a text has UTF-16 offsets, and they delimit the characters of
/// the occurrence: the range that slices the pattern, up to the case of
/// ASCII letters when `ci` holds, out of the text.
pub proof fn lemma_match_output_is_pattern_range(
    pats: Seq<Seq<char>>,
    ci: bool,
    h: Seq<char>,
    m: (usize, usize, usize),
) -> (k: int)
    requires
        is_occurrence(pats, ci, h, m.0 as int, m.1 as int, m.2 as int),
        pats[m.2 as int].len() > 0,
        utf8_len(h) < u32::MAX,
    ensures
        convertible(h, m),
        0 <= k,
        k + pats[m.2 as int].len() <= h.len(),
        utf8_len(h.take(k)) == m.0,
        utf8_len(h.take(k + pats[m.2 as int].len())) == m.1,
        chars_eq(h.subrange(k, k + pats[m.2 as int].len()), pats[m.2 as int], ci),
        match_output(h, m) == range_output(h, k, pats[m.2 as int].len() as int, m.2 as int),
{
    let p = pats[m.2 as int];
    lemma_encode_utf8_len(p);
    let k = lemma_occurrence_aligned(h, m.0 as int, p, ci);
    lemma_utf16_offset_of_boundary(h, k);
    lemma_utf16_offset_of_boundary(h, k + p.len());
    lemma_take_monotone(h, k + p.len(), h.len() as int);
    lemma_take_monotone(h, 0, h.len() as int);
    assert(h.take(h.len() as int) =~= h);
    k
}

/// Output `o` is the UTF-16 range of characters `k..` of `h` that are
/// pattern `q` of `pats`, up to the case of ASCII letters when `ci` holds.
pub open spec fn is_pattern_range(
    h: Seq<char>,
    pats: Seq<Seq<char>>,
    ci: bool,
    o: FindOutput,
    k: int,
    q: int,
) -> bool {
    &&& 0 <= q < pats.len()
    &&& 0 <= k
    &&& k + pats[q].len() <= h.len()
    &&& chars_eq(h.subrange(k, k + pats[q].len()), pats[q], ci)
    &&& o == range_output(h, k, pats[q].len() as int, q)
}

/// Output `o` is the UTF-16 range of some occurrence of some pattern of
/// `pats` in `h`, up to the case of ASCII letters when `ci` holds.
pub open spec fn is_occurrence_range(h: Seq<char>, pats: Seq<Seq<char>>, ci: bool, o: FindOutput) -> bool {
    exists|k: int, q: int| #[trigger] is_pattern_range(h, pats, ci, o, k, q)
}

/// All patterns of `ps`, when there are any, are non-empty.
pub open spec fn patterns_nonempty(ps: Option<Seq<String>>) -> bool {
    match ps {
        Some(p) => forall|i: int| 0 <= i < p.len() ==> (#[trigger] p[i])@.len() > 0,
        None => true,
    }
}

/// A match that a search reports, of non-empty patterns, is the UTF-16
/// range of an occurrence of the reported pattern: the characters in that range are the pattern, up to
/// the case of ASCII letters when the search ignores it.
pub proof fn lemma_reported_match_is_pattern_range(
    input: Input,
    opts: Option<Options>,
    loaded: Option<Seq<String>>,
    mode: FindMode,
    o: FindOutput,
)
    requires
        search_outcome(input, opts, loaded, mode, Ok(o)),
        o.matched,
        patterns_nonempty(chosen_patterns(input, loaded)),
        utf8_len(input.haystack@) < u32::MAX,
    ensures
        chosen_patterns(input, loaded) is Some,
        is_occurrence_range(
            input.haystack@,
            pattern_texts(chosen_patterns(input, loaded)->0),
            case_insensitive_of(opts),
            o,
        ),
{
    let ps = chosen_patterns(input, loaded)->0;
    let pats = pattern_texts(ps);
    let ci = case_insensitive_of(opts);
    let h = input.haystack@;
    let found = first_match(pats, ci, mode, h);
    let m = found->0;
    assert(pats[m.2 as int] == ps[m.2 as int]@);
    let k = lemma_match_output_is_pattern_range(pats, ci, h, m);
    assert(is_pattern_range(h, pats, ci, o, k, m.2 as int));
}

/// The matches that a search for all matches reports, of non-empty patterns,
/// are UTF-16 ranges of occurrences of their patterns, in order and without overlap.
pub proof fn lemma_reported_matches_are_ordered_pattern_ranges(
    input: Input,
    opts: Option<Options>,
    loaded: Option<Seq<String>>,
    v: Vec<FindOutput>,
)
    requires
        search_all_outcome(input, opts, loaded, Ok(v)),
        patterns_nonempty(chosen_patterns(input, loaded)),
        utf8_len(input.haystack@) < u32::MAX,
    ensures
        chosen_patterns(input, loaded) is Some,
        forall|i: int|
            0 <= i < v@.len() ==> is_occurrence_range(
                input.haystack@,
                pattern_texts(chosen_patterns(input, loaded)->0),
                case_insensitive_of(opts),
                #[trigger] v@[i],
            ),
        forall|i: int|
            0 <= i < v@.len() - 1 ==> (#[trigger] v@[i]).end->0 <= v@[i + 1].start->0,
{
    let ps = chosen_patterns(input, loaded)->0;
    let pats = pattern_texts(ps);
    let ci = case_insensitive_of(opts);
    let h = input.haystack@;
    let found = all_matches(pats, ci, h);
    assert(results_view(Ok(v)) == Ok::<Seq<FindOutput>, FindError>(v@));
    assert(outputs_of(h, found) == Ok::<Seq<FindOutput>, FindError>(v@));
    assert(v@ == found.map_values(|m: (usize, usize, usize)| match_output(h, m)));
    assert(forall|i: int| 0 <= i < found.len() ==> v@[i] == match_output(h, #[trigger] found[i]));
    assert forall|i: int| 0 <= i < pats.len() implies (#[trigger] pats[i]).len() > 0 by {
        assert(pats[i] == ps[i]@);
    }
    lemma_outputs_are_pattern_ranges(pats, ci, h, found, v@);
    lemma_outputs_are_ordered(pats, ci, h, found, v@);
}

/// The output of each match that is an occurrence of a non-empty pattern is
/// the UTF-16 range of that occurrence.
proof fn lemma_outputs_are_pattern_ranges(
    pats: Seq<Seq<char>>,
    ci: bool,
    h: Seq<char>,
    found: Seq<(usize, usize, usize)>,
    out: Seq<FindOutput>,
)
    requires
        all_matches_facts(pats, ci, h, found),
        forall|i: int| 0 <= i < pats.len() ==> (#[trigger] pats[i]).len() > 0,
        utf8_len(h) < u32::MAX,
        out.len() == found.len(),
        forall|i: int| 0 <= i < found.len() ==> out[i] == match_output(h, #[trigger] found[i]),
    ensures
        forall|i: int| 0 <= i < out.len() ==> is_occurrence_range(h, pats, ci, #[trigger] out[i]),
{
    assert forall|i: int| 0 <= i < out.len() implies is_occurrence_range(
        h,
        pats,
        ci,
        #[trigger] out[i],
    ) by {
        let m = found[i];
        assert(out[i] == match_output(h, m));
        assert(is_occurrence(pats, ci, h, m.0 as int, m.1 as int, m.2 as int));
        assert(pats[m.2 as int].len() > 0);
        let k = lemma_match_output_is_pattern_range(pats, ci, h, m);
        assert(is_pattern_range(h, pats, ci, out[i], k, m.2 as int));
    }
}

/// The outputs of matches that are in order and are occurrences of
/// non-empty patterns are in order too.
proof fn lemma_outputs_are_ordered(
    pats: Seq<Seq<char>>,
    ci: bool,
    h: Seq<char>,
    found: Seq<(usize, usize, usize)>,
    out: Seq<FindOutput>,
)
    requires
        all_matches_facts(pats, ci, h, found),
        forall|i: int| 0 <= i < pats.len() ==> (#[trigger] pats[i]).len() > 0,
        utf8_len(h) < u32::MAX,
        out.len() == found.len(),
        forall|i: int| 0 <= i < found.len() ==> out[i] == match_output(h, #[trigger] found[i]),
    ensures
        forall|i: int| 0 <= i < out.len() - 1 ==> (#[trigger] out[i]).end->0 <= out[i + 1].start->0,
{
    assert forall|i: int| 0 <= i < out.len() - 1 implies (#[trigger] out[i]).end->0 <= out[i
        + 1].start->0 by {
        let m1 = found[i];
        let m2 = found[i + 1];
        assert(out[i] == match_output(h, m1));
        assert(out[i + 1] == match_output(h, m2));
        assert(m1.1 <= m2.0);
        lemma_consecutive_matches_ordered(pats, ci, h, m1, m2);
    }
}

/// Of two occurrences of non-empty patterns, the first ending no later than
/// the second starts, the UTF-16 range of the first ends no later than that
/// of the second starts.
proof fn lemma_consecutive_matches_ordered(
    pats: Seq<Seq<char>>,
    ci: bool,
    h: Seq<char>,
    m1: (usize, usize, usize),
    m2: (usize, usize, usize),
)
    requires
        is_occurrence(pats, ci, h, m1.0 as int, m1.1 as int, m1.2 as int),
        is_occurrence(pats, ci, h, m2.0 as int, m2.1 as int, m2.2 as int),
        pats[m1.2 as int].len() > 0,
        pats[m2.2 as int].len() > 0,
        m1.1 <= m2.0,
        utf8_len(h) < u32::MAX,
    ensures
        match_output(h, m1).end->0 <= match_output(h, m2).start->0,
{
    let k1 = lemma_match_output_is_pattern_range(pats, ci, h, m1);
    let k2 = lemma_match_output_is_pattern_range(pats, ci, h, m2);
    let e1 = k1 + pats[m1.2 as int].len();
    if e1 > k2 {
        lemma_take_monotone(h, k2, e1);
        assert(false);
    }
    lemma_take_monotone(h, e1, k2);
    lemma_take_monotone(h, k2, h.len() as int);
    assert(h.take(h.len() as int) =~= h);
    lemma_utf16_len_le_utf8_len(h);
}

/// Text `p` occurs at character `k` of `h`, up to the case of ASCII
/// letters when `ci` holds.
pub open spec fn occurs_at(h: Seq<char>, p: Seq<char>, ci: bool, k: int) -> bool {
    &&& 0 <= k
    &&& k + p.len() <= h.len()
    &&& chars_eq(h.subrange(k, k + p.len()), p, ci)
}

/// Some non-empty pattern of `pats` occurs at some character of `h`.
pub open spec fn occurs_in_chars(pats: Seq<Seq<char>>, ci: bool, h: Seq<char>) -> bool {
    exists|q: int, k: int| 0 <= q < pats.len() && #[trigger] occurs_at(h, pats[q], ci, k)
}

/// Characters that are the same up to ASCII case have encodings that are
/// the same byte for byte up to ASCII case.
proof fn lemma_char_eq_bytes(a: char, b: char, ci: bool)
    requires
        char_eq(a, b, ci),
    ensures
        encode_scalar(a as u32).len() == encode_scalar(b as u32).len(),
        forall|i: int|
            0 <= i < encode_scalar(a as u32).len() ==> byte_eq(
                #[trigger] encode_scalar(a as u32)[i],
                encode_scalar(b as u32)[i],
                ci,
            ),
{
    lemma_encode_scalar_bytes(a);
    lemma_encode_scalar_bytes(b);
    if a != b {
        assert(ci);
        assert(ascii_fold_code(a as u32) == ascii_fold_code(b as u32));
        assert((a as u32) < 0x80 && (b as u32) < 0x80);
    }
}

/// Texts that are the same up to ASCII case have encodings that are the
/// same byte for byte up to ASCII case.
proof fn lemma_chars_eq_bytes(a: Seq<char>, b: Seq<char>, ci: bool)
    requires
        chars_eq(a, b, ci),
    ensures
        encode_utf8(a).len() == encode_utf8(b).len(),
        forall|i: int|
            0 <= i < encode_utf8(a).len() ==> byte_eq(
                #[trigger] encode_utf8(a)[i],
                encode_utf8(b)[i],
                ci,
            ),
    decreases a.len(),
{
    if a.len() == 0 {
        assert(b.len() == 0);
        assert(encode_utf8(a) =~= Seq::<u8>::empty());
        assert(encode_utf8(b) =~= Seq::<u8>::empty());
    } else {
        let a1 = a.drop_first();
        let b1 = b.drop_first();
        assert(char_eq(a[0], b[0], ci));
        assert forall|i: int| 0 <= i < a1.len() implies char_eq(#[trigger] a1[i], b1[i], ci) by {
            assert(char_eq(a[i + 1], b[i + 1], ci));
        }
        lemma_chars_eq_bytes(a1, b1, ci);
        lemma_char_eq_bytes(a[0], b[0], ci);
        lemma_encode_utf8_first(a);
        lemma_encode_utf8_first(b);
        let ea = encode_scalar(a[0] as u32);
        let eb = encode_scalar(b[0] as u32);
        assert forall|i: int| 0 <= i < encode_utf8(a).len() implies byte_eq(
            #[trigger] encode_utf8(a)[i],
            encode_utf8(b)[i],
            ci,
        ) by {
            if i < ea.len() {
                assert(encode_utf8(a)[i] == ea[i]);
                assert(encode_utf8(b)[i] == eb[i]);
            } else {
                assert(encode_utf8(a)[i] == encode_utf8(a1)[i - ea.len()]);
                assert(encode_utf8(b)[i] == encode_utf8(b1)[i - eb.len()]);
            }
        }
    }
}

/// An occurrence of a text at character `k` is an occurrence of its bytes
/// at the byte offset of `k`.
proof fn lemma_chars_occurrence_bytes(h: Seq<char>, p: Seq<char>, ci: bool, k: int)
    requires
        occurs_at(h, p, ci, k),
    ensures
        bytes_at(encode_utf8(h), utf8_len(h.take(k)) as int, encode_utf8(p), ci),
{
    let n = p.len() as int;
    let pre = h.take(k);
    let mid = h.subrange(k, k + n);
    let post = h.skip(k + n);
    assert(h =~= pre + mid + post);
    lemma_encode_utf8_concat(pre + mid, post);
    lemma_encode_utf8_concat(pre, mid);
    lemma_encode_utf8_len(pre);
    lemma_chars_eq_bytes(mid, p, ci);
    let eh = encode_utf8(h);
    let s = utf8_len(pre) as int;
    assert forall|i: int| 0 <= i < encode_utf8(p).len() implies byte_eq(
        #[trigger] eh[s + i],
        encode_utf8(p)[i],
        ci,
    ) by {
        assert(eh[s + i] == encode_utf8(mid)[i]);
        assert(byte_eq(encode_utf8(mid)[i], encode_utf8(p)[i], ci));
    }
}

/// With non-empty patterns, a search reports a match exactly when some
/// pattern occurs in the characters of the haystack, up to ASCII case when
/// the search ignores it.
pub proof fn lemma_search_matches_iff_some_pattern_occurs(
    input: Input,
    opts: Option<Options>,
    loaded: Option<Seq<String>>,
    mode: FindMode,
    o: FindOutput,
)
    requires
        search_outcome(input, opts, loaded, mode, Ok(o)),
        patterns_nonempty(chosen_patterns(input, loaded)),
    ensures
        chosen_patterns(input, loaded) is Some,
        o.matched <==> occurs_in_chars(
            pattern_texts(chosen_patterns(input, loaded)->0),
            case_insensitive_of(opts),
            input.haystack@,
        ),
{
    let ps = chosen_patterns(input, loaded)->0;
    let pats = pattern_texts(ps);
    let ci = case_insensitive_of(opts);
    let h = input.haystack@;
    let found = first_match(pats, ci, mode, h);
    if o.matched {
        let m = found->0;
        assert(pats[m.2 as int] == ps[m.2 as int]@);
        let k = lemma_occurrence_aligned(h, m.0 as int, pats[m.2 as int], ci);
        assert(h.subrange(k, k + pats[m.2 as int].len()) == h.subrange(
            k,
            k + pats[m.2 as int].len(),
        ));
        assert(occurs_at(h, pats[m.2 as int], ci, k));
    } else {
        if occurs_in_chars(pats, ci, h) {
            let (q, k) = choose|q: int, k: int|
                0 <= q < pats.len() && #[trigger] occurs_at(h, pats[q], ci, k);
            lemma_chars_occurrence_bytes(h, pats[q], ci, k);
            let s = utf8_len(h.take(k)) as int;
            assert(is_occurrence(pats, ci, h, s, s + encode_utf8(pats[q]).len(), q));
            assert(occurs(pats, ci, h));
        }
    }
}

/// A match that a search in a leftmost mode reports, of non-empty patterns,
/// covers the first character at which any pattern occurs.
pub proof fn lemma_leftmost_match_is_first_occurrence(
    input: Input,
    opts: Option<Options>,
    loaded: Option<Seq<String>>,
    mode: FindMode,
    o: FindOutput,
)
    requires
        search_outcome(input, opts, loaded, mode, Ok(o)),
        mode != FindMode::Standard,
        o.matched,
        patterns_nonempty(chosen_patterns(input, loaded)),
        utf8_len(input.haystack@) < u32::MAX,
    ensures
        chosen_patterns(input, loaded) is Some,
        exists|k: int, q: int|
            {
                &&& #[trigger] is_pattern_range(
                    input.haystack@,
                    pattern_texts(chosen_patterns(input, loaded)->0),
                    case_insensitive_of(opts),
                    o,
                    k,
                    q,
                )
                &&& forall|q2: int, k2: int|
                    0 <= q2 < pattern_texts(chosen_patterns(input, loaded)->0).len()
                        && #[trigger] occurs_at(
                        input.haystack@,
                        pattern_texts(chosen_patterns(input, loaded)->0)[q2],
                        case_insensitive_of(opts),
                        k2,
                    ) ==> k <= k2
            },
{
    let ps = chosen_patterns(input, loaded)->0;
    let pats = pattern_texts(ps);
    let ci = case_insensitive_of(opts);
    let h = input.haystack@;
    let found = first_match(pats, ci, mode, h);
    let m = found->0;
    assert(pats[m.2 as int] == ps[m.2 as int]@);
    let k = lemma_match_output_is_pattern_range(pats, ci, h, m);
    assert(is_pattern_range(h, pats, ci, o, k, m.2 as int));
    assert forall|q2: int, k2: int|
        0 <= q2 < pats.len() && #[trigger] occurs_at(h, pats[q2], ci, k2) implies k <= k2 by {
        lemma_chars_occurrence_bytes(h, pats[q2], ci, k2);
        let s = utf8_len(h.take(k2)) as int;
        assert(is_occurrence(pats, ci, h, s, s + encode_utf8(pats[q2]).len(), q2));
        if k2 < k {
            lemma_take_monotone(h, k2, k);
            assert(false);
        }
    }
}

/// A search for all matches and a standard search for one match of the
/// same input: where the one fails, the other fails with the same error;
/// where the search for all succeeds, so does the other, and the list is
/// empty exactly when that reports no match, and otherwise starts with
/// that match.
pub proof fn lemma_all_matches_start_with_standard_match(
    input: Input,
    opts: Option<Options>,
    loaded: Option<Seq<String>>,
    all: Result<Vec<FindOutput>, FindError>,
    one: Result<FindOutput, FindError>,
)
    requires
        search_all_outcome(input, opts, loaded, all),
        search_outcome(input, opts, loaded, FindMode::Standard, one),
    ensures
        one is Err ==> all is Err && all->Err_0 == one->Err_0,
        all is Ok ==> one is Ok,
        all is Ok ==> (all->Ok_0@.len() == 0 <==> !one->Ok_0.matched),
        all is Ok && all->Ok_0@.len() > 0 ==> all->Ok_0@[0] == one->Ok_0,
{
    if let Some(ps) = chosen_patterns(input, loaded) {
        let pats = pattern_texts(ps);
        let ci = case_insensitive_of(opts);
        let h = input.haystack@;
        let found = all_matches(pats, ci, h);
        if automaton_builds(pats, ci, FindMode::Standard) {
            if found.len() > 0 {
                if !convertible(h, found[0]) {
                    assert(!(forall|i: int|
                        0 <= i < found.len() ==> convertible(h, #[trigger] found[i])));
                }
            }
            if all is Ok {
                assert(outputs_of(h, found) == results_view(all));
                if found.len() > 0 {
                    assert(convertible(h, found[0]));
                }
            }
        }
    }
}

/// A search gives one result for one input, options, loaded patterns and
/// mode, so a deferred search computes what the synchronous one returns.
pub proof fn lemma_search_result_is_determined(
    input: Input,
    opts: Option<Options>,
    loaded: Option<Seq<String>>,
    mode: FindMode,
    r1: Result<FindOutput, FindError>,
    r2: Result<FindOutput, FindError>,
)
    requires
        search_outcome(input, opts, loaded, mode, r1),
        search_outcome(input, opts, loaded, mode, r2),
    ensures
        r1 == r2,
{
}

/// A search for all matches gives one result for one input, options and
/// loaded patterns, so a deferred search computes what the synchronous one
/// returns.
pub proof fn lemma_all_matches_result_is_determined(
    input: Input,
    opts: Option<Options>,
    loaded: Option<Seq<String>>,
    r1: Result<Vec<FindOutput>, FindError>,
    r2: Result<Vec<FindOutput>, FindError>,
)
    requires
        search_all_outcome(input, opts, loaded, r1),
        search_all_outcome(input, opts, loaded, r2),
    ensures
        results_view(r1) == results_view(r2),
{
}

/// A longer prefix of a text has more UTF-16 units.
proof fn lemma_take_utf16_grows(h: Seq<char>, j: int, k: int)
    requires
        0 <= j < k <= h.len(),
    ensures
        utf16_len(h.take(j)) < utf16_len(h.take(k)),
{
    let mid = h.subrange(j, k);
    assert(h.take(k) =~= h.take(j) + mid);
    lemma_utf16_len_concat(h.take(j), mid);
}

/// Every prefix of a text of fewer than `u32::MAX` bytes has fewer UTF-16
/// units than that.
proof fn lemma_take_utf16_bounded(h: Seq<char>, j: int)
    requires
        0 <= j <= h.len(),
        utf8_len(h) < u32::MAX,
    ensures
        utf16_len(h.take(j)) < u32::MAX,
{
    lemma_take_monotone(h, j, h.len() as int);
    assert(h.take(h.len() as int) =~= h);
    lemma_utf16_len_le_utf8_len(h);
}

/// An occurrence of a non-empty pattern at character `k` of `h` is an
/// occurrence at the bytes of those characters, and it is not empty.
proof fn lemma_char_occurrence_bytes(pats: Seq<Seq<char>>, ci: bool, h: Seq<char>, q: int, k: int)
    requires
        0 <= q < pats.len(),
        pats[q].len() > 0,
        occurs_at(h, pats[q], ci, k),
    ensures
        is_occurrence(
            pats,
            ci,
            h,
            utf8_len(h.take(k)) as int,
            utf8_len(h.take(k + pats[q].len())) as int,
            q,
        ),
        utf8_len(h.take(k)) < utf8_len(h.take(k + pats[q].len())),
{
    let p = pats[q];
    let mid = h.subrange(k, k + p.len());
    lemma_chars_occurrence_bytes(h, p, ci, k);
    lemma_chars_eq_bytes(mid, p, ci);
    assert(h.take(k + p.len()) =~= h.take(k) + mid);
    lemma_utf8_len_concat(h.take(k), mid);
    lemma_encode_utf8_len(mid);
    lemma_utf8_len_at_least_len(mid);
}

/// An occurrence of a non-empty pattern that starts at or after the end of
/// match `m1`, where every such occurrence ending after `m1` ends no earlier
/// than match `m2`, ends no earlier than `m2` in UTF-16 units too.
proof fn lemma_occurrence_after_match_ends_later(
    pats: Seq<Seq<char>>,
    ci: bool,
    h: Seq<char>,
    m1: (usize, usize, usize),
    m2: (usize, usize, usize),
    q: int,
    k: int,
)
    requires
        is_occurrence(pats, ci, h, m1.0 as int, m1.1 as int, m1.2 as int),
        is_occurrence(pats, ci, h, m2.0 as int, m2.1 as int, m2.2 as int),
        forall|i: int| 0 <= i < pats.len() ==> (#[trigger] pats[i]).len() > 0,
        utf8_len(h) < u32::MAX,
        0 <= q < pats.len(),
        occurs_at(h, pats[q], ci, k),
        match_output(h, m1).end->0 <= utf16_len(h.take(k)),
        forall|s: int, e: int, p: int|
            #![trigger is_occurrence(pats, ci, h, s, e, p)]
            is_occurrence(pats, ci, h, s, e, p) && m1.1 <= s && m1.1 < e ==> m2.1 <= e,
    ensures
        match_output(h, m2).end->0 <= utf16_len(h.take(k + pats[q].len())),
{
    let k1 = lemma_match_output_is_pattern_range(pats, ci, h, m1);
    let k2 = lemma_match_output_is_pattern_range(pats, ci, h, m2);
    let e1 = k1 + pats[m1.2 as int].len();
    let e2 = k2 + pats[m2.2 as int].len();
    let n = pats[q].len() as int;
    lemma_char_occurrence_bytes(pats, ci, h, q, k);
    lemma_take_utf16_bounded(h, e1);
    lemma_take_utf16_bounded(h, e2);
    lemma_take_utf16_bounded(h, k);
    lemma_take_utf16_bounded(h, k + n);
    if k < e1 {
        lemma_take_utf16_grows(h, k, e1);
    }
    lemma_take_monotone(h, e1, k);
    let s = utf8_len(h.take(k)) as int;
    let e = utf8_len(h.take(k + n)) as int;
    assert(is_occurrence(pats, ci, h, s, e, q));
    if e2 > k + n {
        lemma_take_monotone(h, k + n, e2);
    }
    lemma_take_monotone(h, e2, k + n);
}

/// Where nothing but an empty match occurs at or after the end of match
/// `m`, every occurrence of a non-empty pattern starts before `m` ends, in
/// UTF-16 units too.
proof fn lemma_occurrence_before_match_end(
    pats: Seq<Seq<char>>,
    ci: bool,
    h: Seq<char>,
    m: (usize, usize, usize),
    q: int,
    k: int,
)
    requires
        is_occurrence(pats, ci, h, m.0 as int, m.1 as int, m.2 as int),
        forall|i: int| 0 <= i < pats.len() ==> (#[trigger] pats[i]).len() > 0,
        utf8_len(h) < u32::MAX,
        0 <= q < pats.len(),
        occurs_at(h, pats[q], ci, k),
        forall|s: int, e: int, p: int|
            #![trigger is_occurrence(pats, ci, h, s, e, p)]
            is_occurrence(pats, ci, h, s, e, p) && m.1 <= s ==> s == e && e == m.1,
    ensures
        utf16_len(h.take(k)) < match_output(h, m).end->0,
{
    let k1 = lemma_match_output_is_pattern_range(pats, ci, h, m);
    let e1 = k1 + pats[m.2 as int].len();
    lemma_char_occurrence_bytes(pats, ci, h, q, k);
    lemma_take_utf16_bounded(h, e1);
    lemma_take_utf16_bounded(h, k);
    if k >= e1 {
        lemma_take_monotone(h, e1, k);
        let s = utf8_len(h.take(k)) as int;
        let e = utf8_len(h.take(k + pats[q].len())) as int;
        assert(is_occurrence(pats, ci, h, s, e, q));
    } else {
        lemma_take_utf16_grows(h, k, e1);
    }
}

/// The outputs of all matches, of non-empty patterns, leave no occurrence
/// out.
proof fn lemma_outputs_leave_no_occurrence_out(
    pats: Seq<Seq<char>>,
    ci: bool,
    h: Seq<char>,
    found: Seq<(usize, usize, usize)>,
    out: Seq<FindOutput>,
)
    requires
        all_matches_facts(pats, ci, h, found),
        first_match_facts(pats, ci, FindMode::Standard, h, first_match(pats, ci, FindMode::Standard, h)),
        forall|i: int| 0 <= i < pats.len() ==> (#[trigger] pats[i]).len() > 0,
        utf8_len(h) < u32::MAX,
        out.len() == found.len(),
        forall|i: int| 0 <= i < found.len() ==> out[i] == match_output(h, #[trigger] found[i]),
    ensures
        out.len() == 0 ==> !occurs_in_chars(pats, ci, h),
        forall|i: int, q: int, k: int|
            #![trigger out[i], occurs_at(h, pats[q], ci, k)]
            0 <= i < out.len() - 1 && 0 <= q < pats.len() && occurs_at(h, pats[q], ci, k)
                && out[i].end->0 <= utf16_len(h.take(k)) ==> out[i + 1].end->0 <= utf16_len(
                h.take(k + pats[q].len()),
            ),
        out.len() > 0 ==> forall|q: int, k: int|
            0 <= q < pats.len() && #[trigger] occurs_at(h, pats[q], ci, k) ==> utf16_len(h.take(k))
                < out.last().end->0,
{
    if out.len() == 0 && occurs_in_chars(pats, ci, h) {
        let (q, k) = choose|q: int, k: int|
            0 <= q < pats.len() && #[trigger] occurs_at(h, pats[q], ci, k);
        lemma_char_occurrence_bytes(pats, ci, h, q, k);
        assert(occurs(pats, ci, h));
    }
    assert forall|i: int, q: int, k: int|
        #![trigger out[i], occurs_at(h, pats[q], ci, k)]
        0 <= i < out.len() - 1 && 0 <= q < pats.len() && occurs_at(h, pats[q], ci, k)
            && out[i].end->0 <= utf16_len(h.take(k)) implies out[i + 1].end->0 <= utf16_len(
        h.take(k + pats[q].len()),
    ) by {
        let m1 = found[i];
        let m2 = found[i + 1];
        assert(out[i] == match_output(h, m1));
        assert(out[i + 1] == match_output(h, m2));
        assert forall|s: int, e: int, p: int|
            #![trigger is_occurrence(pats, ci, h, s, e, p)]
            is_occurrence(pats, ci, h, s, e, p) && m1.1 <= s && m1.1 < e implies m2.1 <= e by {
            assert(found[i] == m1);
        }
        lemma_occurrence_after_match_ends_later(pats, ci, h, m1, m2, q, k);
    }
    if out.len() > 0 {
        let m = found.last();
        assert(out.last() == match_output(h, m));
        assert forall|q: int, k: int|
            0 <= q < pats.len() && #[trigger] occurs_at(h, pats[q], ci, k) implies utf16_len(
            h.take(k),
        ) < out.last().end->0 by {
            lemma_occurrence_before_match_end(pats, ci, h, m, q, k);
        }
    }
}

/// A search for all matches, of non-empty patterns, leaves no occurrence
/// out: with no match reported no pattern occurs; an occurrence that starts
/// at or after the end of a reported match ends no earlier than the next
/// one; and none starts at or after the end of the last one.
pub proof fn lemma_all_matches_leave_no_occurrence_out(
    input: Input,
    opts: Option<Options>,
    loaded: Option<Seq<String>>,
    v: Vec<FindOutput>,
)
    requires
        search_all_outcome(input, opts, loaded, Ok(v)),
        patterns_nonempty(chosen_patterns(input, loaded)),
        utf8_len(input.haystack@) < u32::MAX,
    ensures
        chosen_patterns(input, loaded) is Some,
        v@.len() == 0 ==> !occurs_in_chars(
            pattern_texts(chosen_patterns(input, loaded)->0),
            case_insensitive_of(opts),
            input.haystack@,
        ),
        forall|i: int, q: int, k: int|
            #![trigger v@[i], occurs_at(input.haystack@, pattern_texts(chosen_patterns(input, loaded)->0)[q], case_insensitive_of(opts), k)]
            0 <= i < v@.len() - 1 && 0 <= q < pattern_texts(chosen_patterns(input, loaded)->0).len()
                && occurs_at(
                input.haystack@,
                pattern_texts(chosen_patterns(input, loaded)->0)[q],
                case_insensitive_of(opts),
                k,
            ) && v@[i].end->0 <= utf16_len(input.haystack@.take(k)) ==> v@[i + 1].end->0
                <= utf16_len(
                input.haystack@.take(k + pattern_texts(chosen_patterns(input, loaded)->0)[q].len()),
            ),
        v@.len() > 0 ==> forall|q: int, k: int|
            0 <= q < pattern_texts(chosen_patterns(input, loaded)->0).len() && #[trigger] occurs_at(
                input.haystack@,
                pattern_texts(chosen_patterns(input, loaded)->0)[q],
                case_insensitive_of(opts),
                k,
            ) ==> utf16_len(input.haystack@.take(k)) < v@.last().end->0,
{
    let ps = chosen_patterns(input, loaded)->0;
    let pats = pattern_texts(ps);
    let ci = case_insensitive_of(opts);
    let h = input.haystack@;
    let found = all_matches(pats, ci, h);
    assert(results_view(Ok(v)) == Ok::<Seq<FindOutput>, FindError>(v@));
    assert(outputs_of(h, found) == Ok::<Seq<FindOutput>, FindError>(v@));
    assert(v@ == found.map_values(|m: (usize, usize, usize)| match_output(h, m)));
    assert(forall|i: int| 0 <= i < found.len() ==> v@[i] == match_output(h, #[trigger] found[i]));
    assert forall|i: int| 0 <= i < pats.len() implies (#[trigger] pats[i]).len() > 0 by {
        assert(pats[i] == ps[i]@);
    }
    lemma_outputs_leave_no_occurrence_out(pats, ci, h, found, v@);
}


/// A search of non-empty patterns `p`, the input's own when it has some and
/// else the loaded ones, with ASCII case ignored exactly when the options
/// hold `case_insensitive: Some(true)`: it never lacks patterns and never
/// fails to convert a match, whatever the length or index of the match; it
/// succeeds for a small pattern set; it reports a match exactly when some
/// pattern of `p` occurs, up to case only where asked; a reported match is
/// the UTF-16 range of such an occurrence, and no match is reported by an
/// empty result.
pub proof fn lemma_search_follows_input_and_options(
    input: Input,
    opts: Option<Options>,
    loaded: Option<Seq<String>>,
    mode: FindMode,
    p: Seq<String>,
    r: Result<FindOutput, FindError>,
)
    requires
        search_outcome(input, opts, loaded, mode, r),
        (input.patterns is Some && p == input.patterns->0@) || (input.patterns is None && loaded
            == Some(p)),
        patterns_nonempty(Some(p)),
        utf8_len(input.haystack@) < u32::MAX,
    ensures
        r != Err::<FindOutput, FindError>(FindError::PatternsRequired),
        r != Err::<FindOutput, FindError>(FindError::OffsetNotConvertible),
        small_pattern_set(pattern_texts(p)) ==> r is Ok,
        r is Ok ==> (r->Ok_0.matched <==> occurs_in_chars(
            pattern_texts(p),
            opts matches Some(x) && x.case_insensitive == Some(true),
            input.haystack@,
        )),
        r is Ok && r->Ok_0.matched ==> is_occurrence_range(
            input.haystack@,
            pattern_texts(p),
            opts matches Some(x) && x.case_insensitive == Some(true),
            r->Ok_0,
        ),
        r is Ok && !r->Ok_0.matched ==> r->Ok_0 == (FindOutput {
            start: None,
            end: None,
            pattern: None,
            matched: false,
        }),
{
    let pats = pattern_texts(p);
    let ci = case_insensitive_of(opts);
    let h = input.haystack@;
    assert(chosen_patterns(input, loaded) == Some(p));
    if automaton_builds(pats, ci, mode) {
        let found = first_match(pats, ci, mode, h);
        if let Some(m) = found {
            assert(pats[m.2 as int] == p[m.2 as int]@);
            lemma_match_output_is_pattern_range(pats, ci, h, m);
        }
        if let Ok(o) = r {
            lemma_search_matches_iff_some_pattern_occurs(input, opts, loaded, mode, o);
            if o.matched {
                lemma_reported_match_is_pattern_range(input, opts, loaded, mode, o);
            }
        }
    }
}

/// A search for all matches of non-empty patterns `p`, the input's own
/// when it has some and else the loaded ones, with ASCII case ignored
/// exactly when the options hold `case_insensitive: Some(true)`: it never
/// lacks patterns and never fails to convert a match, however many matches
/// there are; it succeeds for a small pattern set; its list is empty
/// exactly when no pattern of `p` occurs, up to case only where asked, and
/// each item is the UTF-16 range of such an occurrence, in order.
pub proof fn lemma_all_matches_follow_input_and_options(
    input: Input,
    opts: Option<Options>,
    loaded: Option<Seq<String>>,
    p: Seq<String>,
    r: Result<Vec<FindOutput>, FindError>,
)
    requires
        search_all_outcome(input, opts, loaded, r),
        (input.patterns is Some && p == input.patterns->0@) || (input.patterns is None && loaded
            == Some(p)),
        patterns_nonempty(Some(p)),
        utf8_len(input.haystack@) < u32::MAX,
    ensures
        r != Err::<Vec<FindOutput>, FindError>(FindError::PatternsRequired),
        r != Err::<Vec<FindOutput>, FindError>(FindError::OffsetNotConvertible),
        small_pattern_set(pattern_texts(p)) ==> r is Ok,
        r is Ok ==> (r->Ok_0@.len() == 0 <==> !occurs_in_chars(
            pattern_texts(p),
            opts matches Some(x) && x.case_insensitive == Some(true),
            input.haystack@,
        )),
        r is Ok ==> forall|i: int|
            0 <= i < r->Ok_0@.len() ==> is_occurrence_range(
                input.haystack@,
                pattern_texts(p),
                opts matches Some(x) && x.case_insensitive == Some(true),
                #[trigger] r->Ok_0@[i],
            ),
        r is Ok ==> forall|i: int|
            0 <= i < r->Ok_0@.len() - 1 ==> (#[trigger] r->Ok_0@[i]).end->0 <= r->Ok_0@[i
                + 1].start->0,
{
    let pats = pattern_texts(p);
    let ci = case_insensitive_of(opts);
    let h = input.haystack@;
    assert(chosen_patterns(input, loaded) == Some(p));
    if automaton_builds(pats, ci, FindMode::Standard) {
        let found = all_matches(pats, ci, h);
        assert forall|i: int| 0 <= i < found.len() implies convertible(h, #[trigger] found[i]) by {
            let m = found[i];
            assert(is_occurrence(pats, ci, h, m.0 as int, m.1 as int, m.2 as int));
            assert(pats[m.2 as int] == p[m.2 as int]@);
            lemma_match_output_is_pattern_range(pats, ci, h, m);
        }
        if let Ok(v) = r {
            lemma_reported_matches_are_ordered_pattern_ranges(input, opts, loaded, v);
            lemma_all_matches_leave_no_occurrence_out(input, opts, loaded, v);
            if v@.len() > 0 {
                assert(is_occurrence_range(h, pats, ci, v@[0]));
                let (k, q) = choose|k: int, q: int| #[trigger]
                    is_pattern_range(h, pats, ci, v@[0], k, q);
                assert(occurs_at(h, pats[q], ci, k));
            }
        }
    }
}

/// When the input has patterns of its own, the loaded ones do not change
/// what a search returns.
pub proof fn lemma_loaded_patterns_unused_when_input_has_some(
    input: Input,
    opts: Option<Options>,
    l1: Option<Seq<String>>,
    l2: Option<Seq<String>>,
    mode: FindMode,
    r1: Result<FindOutput, FindError>,
    r2: Result<FindOutput, FindError>,
    a1: Result<Vec<FindOutput>, FindError>,
    a2: Result<Vec<FindOutput>, FindError>,
)
    requires
        input.patterns is Some,
        search_outcome(input, opts, l1, mode, r1),
        search_outcome(input, opts, l2, mode, r2),
        search_all_outcome(input, opts, l1, a1),
        search_all_outcome(input, opts, l2, a2),
    ensures
        r1 == r2,
        results_view(a1) == results_view(a2),
{
}

} // verus!
