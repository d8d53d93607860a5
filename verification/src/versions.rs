//! Version-list decoding for the vulnerability feed.
//!
//! The feed encodes the vulnerable versions of a package as a single string:
//! one or more version specifiers joined by a `||` separator, each optionally
//! prefixed with `=`, which is stripped, and trimmed of whitespace.

use vstd::prelude::*;

verus! {

/// Whitespace stripped from the ends of a version specifier.
pub open spec fn is_ws(c: char) -> bool {
    c == ' ' || c == '\t' || c == '\n' || c == '\r'
}

/// `s` with its optional `=` prefix removed; an equals sign anywhere else
/// belongs to the specifier and stays.
pub open spec fn strip_eq_prefix(s: Seq<char>) -> Seq<char> {
    if s.len() > 0 && s.first() == '=' {
        s.drop_first()
    } else {
        s
    }
}

/// `s` with leading whitespace removed.
pub open spec fn trim_front(s: Seq<char>) -> Seq<char>
    decreases s.len(),
{
    if s.len() > 0 && is_ws(s.first()) {
        trim_front(s.drop_first())
    } else {
        s
    }
}

/// `s` with trailing whitespace removed.
pub open spec fn trim_back(s: Seq<char>) -> Seq<char>
    decreases s.len(),
{
    if s.len() > 0 && is_ws(s.last()) {
        trim_back(s.drop_last())
    } else {
        s
    }
}

/// Both ends trimmed of whitespace.
pub open spec fn trim_ws(s: Seq<char>) -> Seq<char> {
    trim_back(trim_front(s))
}

/// A cleaned version specifier: whitespace trimmed, the optional leading
/// `=` stripped, and whitespace the prefix covered trimmed again.
pub open spec fn clean_version_spec(s: Seq<char>) -> Seq<char> {
    trim_ws(strip_eq_prefix(trim_ws(s)))
}

/// The separator `||` occurs in `s` at position `i`.
pub open spec fn sep_at(s: Seq<char>, i: int) -> bool {
    0 <= i && i + 2 <= s.len() && s[i] == '|' && s[i + 1] == '|'
}

/// `i` is the leftmost separator position in `s`.
pub open spec fn is_first_sep(s: Seq<char>, i: int) -> bool {
    sep_at(s, i) && (forall|t: int| 0 <= t < i ==> !sep_at(s, t))
}

/// `s` split on the leftmost separator, repeatedly; a string without a
/// separator is one piece.
pub open spec fn split_spec(s: Seq<char>) -> Seq<Seq<char>>
    decreases s.len(),
{
    if exists|i: int| is_first_sep(s, i) {
        let i = choose|i: int| is_first_sep(s, i);
        seq![s.subrange(0, i)] + split_spec(s.subrange(i + 2, s.len() as int))
    } else {
        seq![s]
    }
}

/// The decoded version list: each piece of the split, cleaned.
pub open spec fn split_versions_spec(s: Seq<char>) -> Seq<Seq<char>> {
    split_spec(s).map_values(|p: Seq<char>| clean_version_spec(p))
}

proof fn lemma_first_sep_unique(s: Seq<char>, i: int, j: int)
    requires
        is_first_sep(s, i),
        is_first_sep(s, j),
    ensures
        i == j,
{
}

/// Unfolds one split step at the leftmost separator.
proof fn lemma_split_unfold(s: Seq<char>, i: int)
    requires
        is_first_sep(s, i),
    ensures
        split_spec(s) == seq![s.subrange(0, i)] + split_spec(s.subrange(i + 2, s.len() as int)),
{
    let c = choose|c: int| is_first_sep(s, c);
    lemma_first_sep_unique(s, i, c);
}

/// A string with no separator splits into itself alone.
proof fn lemma_split_whole(s: Seq<char>)
    requires
        forall|t: int| !sep_at(s, t),
    ensures
        split_spec(s) == seq![s],
{
    assert(!exists|i: int| is_first_sep(s, i));
}

proof fn lemma_trim_front_at(s: Seq<char>, lo: int)
    requires
        0 <= lo <= s.len(),
        forall|t: int| 0 <= t < lo ==> is_ws(#[trigger] s[t]),
        lo == s.len() || !is_ws(s[lo]),
    ensures
        trim_front(s) == s.subrange(lo, s.len() as int),
    decreases lo,
{
    if lo == 0 {
        assert(s.subrange(0, s.len() as int) =~= s);
    } else {
        assert(is_ws(s.first()));
        let d = s.drop_first();
        assert forall|t: int| 0 <= t < lo - 1 implies is_ws(#[trigger] d[t]) by {
            assert(d[t] == s[t + 1]);
        }
        lemma_trim_front_at(d, lo - 1);
        assert(d.subrange(lo - 1, d.len() as int) =~= s.subrange(lo, s.len() as int));
    }
}

proof fn lemma_trim_back_at(s: Seq<char>, hi: int)
    requires
        0 <= hi <= s.len(),
        forall|t: int| hi <= t < s.len() ==> is_ws(#[trigger] s[t]),
        hi == 0 || !is_ws(s[hi - 1]),
    ensures
        trim_back(s) == s.subrange(0, hi),
    decreases s.len(),
{
    if hi == s.len() {
        if s.len() > 0 {
            assert(!is_ws(s.last()));
        }
        assert(s.subrange(0, s.len() as int) =~= s);
    } else {
        assert(is_ws(s.last()));
        let d = s.drop_last();
        lemma_trim_back_at(d, hi);
        assert(d.subrange(0, hi) =~= s.subrange(0, hi));
    }
}

/// Trimming both ends yields the window `[lo, hi)` when everything outside
/// it is whitespace and its edges are not.
proof fn lemma_trim_ws_at(s: Seq<char>, lo: int, hi: int)
    requires
        0 <= lo <= hi <= s.len(),
        forall|t: int| 0 <= t < lo ==> is_ws(#[trigger] s[t]),
        forall|t: int| hi <= t < s.len() ==> is_ws(#[trigger] s[t]),
        lo == s.len() || !is_ws(s[lo]),
        hi == lo || !is_ws(s[hi - 1]),
    ensures
        trim_ws(s) == s.subrange(lo, hi),
{
    lemma_trim_front_at(s, lo);
    let f = s.subrange(lo, s.len() as int);
    if hi > lo {
        assert(f[hi - lo - 1] == s[hi - 1]);
    }
    assert forall|t: int| hi - lo <= t < f.len() implies is_ws(#[trigger] f[t]) by {
        assert(f[t] == s[t + lo]);
    }
    lemma_trim_back_at(f, hi - lo);
    assert(f.subrange(0, hi - lo) =~= s.subrange(lo, hi));
}

/// Cleans one version specifier: trims whitespace and strips the optional
/// leading `=`.
fn clean_version(piece: &str) -> (r: String)
    ensures
        r@ == clean_version_spec(piece@),
{
    let len = piece.unicode_len();
    // trim both ends
    let mut lo: usize = 0;
    while lo < len && is_ws_char(piece.get_char(lo))
        invariant
            len == piece@.len(),
            0 <= lo <= len,
            forall|t: int| 0 <= t < lo ==> is_ws(#[trigger] piece@[t]),
        decreases len - lo,
    {
        lo += 1;
    }
    let mut hi: usize = len;
    while hi > lo && is_ws_char(piece.get_char(hi - 1))
        invariant
            len == piece@.len(),
            0 <= lo <= hi <= len,
            forall|t: int| hi <= t < len ==> is_ws(#[trigger] piece@[t]),
        decreases hi,
    {
        hi -= 1;
    }
    let ghost trimmed = piece@.subrange(lo as int, hi as int);
    proof {
        lemma_trim_ws_at(piece@, lo as int, hi as int);
    }
    // the optional `=` prefix
    let ghost lo1: int = if lo < hi && piece@[lo as int] == '=' { lo + 1 } else { lo as int };
    if lo < hi && piece.get_char(lo) == '=' {
        proof {
            assert(trimmed[0] == piece@[lo as int]);
            assert(strip_eq_prefix(trimmed) =~= piece@.subrange(lo + 1, hi as int));
        }
        lo += 1;
    } else {
        proof {
            if trimmed.len() > 0 {
                assert(trimmed[0] == piece@[lo as int]);
            }
        }
    }
    let ghost stripped = piece@.subrange(lo1, hi as int);
    proof {
        assert(strip_eq_prefix(trimmed) == stripped);
    }
    // stripping the prefix may expose whitespace: trim the front again
    while lo < hi && is_ws_char(piece.get_char(lo))
        invariant
            len == piece@.len(),
            0 <= lo1 <= lo <= hi <= len,
            forall|t: int| lo1 <= t < lo ==> is_ws(#[trigger] piece@[t]),
        decreases len - lo,
    {
        lo += 1;
    }
    let r = piece.substring_char(lo, hi).to_owned();
    proof {
        assert forall|t: int| 0 <= t < lo - lo1 implies is_ws(#[trigger] stripped[t]) by {
            assert(stripped[t] == piece@[t + lo1]);
        }
        if lo < hi {
            assert(stripped[lo - lo1] == piece@[lo as int]);
            assert(stripped[hi - lo1 - 1] == piece@[hi - 1]);
        }
        lemma_trim_ws_at(stripped, lo - lo1, hi - lo1);
        assert(stripped.subrange(lo - lo1, hi - lo1) =~= piece@.subrange(lo as int, hi as int));
    }
    r
}

/// Whether a character counts as whitespace.
fn is_ws_char(c: char) -> (r: bool)
    ensures
        r == is_ws(c),
{
    c == ' ' || c == '\t' || c == '\n' || c == '\r'
}

/// Decodes a feed version string: splits it on `||` and cleans each piece.
pub fn split_versions(s: &str) -> (r: Vec<String>)
    ensures
        r.deep_view() == split_versions_spec(s@),
        r@.len() > 0,
{
    let n = s.unicode_len();
    let mut out: Vec<String> = Vec::new();
    let ghost mut done: Seq<Seq<char>> = Seq::empty();
    let mut start: usize = 0;
    let mut i: usize = 0;
    proof {
        assert(s@.subrange(0, n as int) =~= s@);
        assert(done + split_spec(s@) =~= split_spec(s@));
    }
    while n > 1 && i < n - 1
        invariant
            n == s@.len(),
            0 <= start <= i <= n,
            split_spec(s@) == done + split_spec(s@.subrange(start as int, n as int)),
            out.deep_view() == done.map_values(|p: Seq<char>| clean_version_spec(p)),
            out@.len() == done.len(),
            forall|j: int| start <= j < i ==> !sep_at(s@, j),
        decreases n - i,
    {
        if s.get_char(i) == '|' && s.get_char(i + 1) == '|' {
            let ghost suf = s@.subrange(start as int, n as int);
            proof {
                assert(sep_at(s@, i as int));
                assert forall|t: int| 0 <= t < i - start implies !sep_at(suf, t) by {
                    assert(suf[t] == s@[t + start]);
                    if sep_at(suf, t) {
                        assert(suf[t + 1] == s@[t + start + 1]);
                        assert(sep_at(s@, t + start));
                    }
                }
                assert(sep_at(suf, i - start)) by {
                    assert(suf[i - start] == s@[i as int]);
                    assert(suf[i - start + 1] == s@[i + 1]);
                }
                lemma_split_unfold(suf, i - start);
                assert(suf.subrange(0, i - start) =~= s@.subrange(start as int, i as int));
                assert(suf.subrange(i - start + 2, suf.len() as int)
                    =~= s@.subrange(i + 2, n as int));
            }
            let piece = s.substring_char(start, i);
            let cleaned = clean_version(piece);
            let ghost prev_out = out.deep_view();
            let ghost prev_raw = out@;
            let ghost prev_done = done;
            out.push(cleaned);
            proof {
                done = done.push(s@.subrange(start as int, i as int));
                let f = |p: Seq<char>| clean_version_spec(p);
                assert forall|j: int| 0 <= j < done.len() implies
                    out.deep_view()[j] == done.map_values(f)[j] by {
                    if j < prev_done.len() {
                        assert(out@[j] == prev_raw[j]);
                        assert(out.deep_view()[j] == prev_out[j]);
                        assert(prev_out[j] == prev_done.map_values(f)[j]);
                        assert(done[j] == prev_done[j]);
                    } else {
                        assert(out@[j]@ == clean_version_spec(s@.subrange(start as int, i as int)));
                    }
                }
                assert(out.deep_view() =~= done.map_values(f));
                assert(out.deep_view() =~= done.map_values(|p: Seq<char>| clean_version_spec(p)));
                assert(split_spec(s@) =~= done + split_spec(s@.subrange(i + 2, n as int)));
            }
            i += 2;
            start = i;
        } else {
            proof {
                if sep_at(s@, i as int) {
                    assert(s@[i as int] == '|' && s@[i + 1] == '|');
                }
            }
            i += 1;
        }
    }
    // no separator in the final piece
    let ghost suf = s@.subrange(start as int, n as int);
    proof {
        assert forall|t: int| true implies !sep_at(suf, t) by {
            if sep_at(suf, t) {
                assert(suf[t] == s@[t + start]);
                assert(suf[t + 1] == s@[t + start + 1]);
                assert(sep_at(s@, t + start));
                assert(start <= t + start < i);
            }
        }
        lemma_split_whole(suf);
    }
    let piece = s.substring_char(start, n);
    let cleaned = clean_version(piece);
    let ghost prev_out = out.deep_view();
    let ghost prev_raw = out@;
    let ghost prev_done = done;
    out.push(cleaned);
    proof {
        done = done.push(suf);
        let f = |p: Seq<char>| clean_version_spec(p);
        assert forall|j: int| 0 <= j < done.len() implies
            out.deep_view()[j] == done.map_values(f)[j] by {
            if j < prev_done.len() {
                assert(out@[j] == prev_raw[j]);
                assert(out.deep_view()[j] == prev_out[j]);
                assert(prev_out[j] == prev_done.map_values(f)[j]);
                assert(done[j] == prev_done[j]);
            } else {
                assert(out@[j]@ == clean_version_spec(suf));
            }
        }
        assert(out.deep_view() =~= done.map_values(f));
        assert(split_spec(s@) =~= done);
        assert(out.deep_view() =~= split_versions_spec(s@));
        assert(out.deep_view() == split_versions_spec(s@));
    }
    out
}

} // verus!
