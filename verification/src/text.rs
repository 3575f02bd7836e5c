//! Character and string utilities the pipeline is built on: whitespace
//! classification, joining with a separator, literal replacement, and
//! repeated prefix/suffix stripping. Each executable function is proved
//! against a small recursive specification.

use vstd::prelude::*;

verus! {

/// The Unicode `White_Space` characters, as `str::trim` removes them.
pub open spec fn is_ws_char(c: char) -> bool {
    c == ' ' || c == '\t' || c == '\n' || c == '\r' || c == '\u{0b}' || c == '\u{0c}'
        || c == '\u{85}' || c == '\u{a0}' || c == '\u{1680}' || c == '\u{2000}' || c == '\u{2001}'
        || c == '\u{2002}' || c == '\u{2003}' || c == '\u{2004}' || c == '\u{2005}'
        || c == '\u{2006}' || c == '\u{2007}' || c == '\u{2008}' || c == '\u{2009}'
        || c == '\u{200a}' || c == '\u{2028}' || c == '\u{2029}' || c == '\u{202f}'
        || c == '\u{205f}' || c == '\u{3000}'
}

pub fn is_ws(c: char) -> (r: bool)
    ensures
        r == is_ws_char(c),
{
    c == ' ' || c == '\t' || c == '\n' || c == '\r' || c == '\u{0b}' || c == '\u{0c}'
        || c == '\u{85}' || c == '\u{a0}' || c == '\u{1680}' || c == '\u{2000}' || c == '\u{2001}'
        || c == '\u{2002}' || c == '\u{2003}' || c == '\u{2004}' || c == '\u{2005}'
        || c == '\u{2006}' || c == '\u{2007}' || c == '\u{2008}' || c == '\u{2009}'
        || c == '\u{200a}' || c == '\u{2028}' || c == '\u{2029}' || c == '\u{202f}'
        || c == '\u{205f}' || c == '\u{3000}'
}

/// A text is blank when every character is whitespace; `s.trim().is_empty()`
/// holds exactly of such texts.
pub open spec fn is_blank(s: Seq<char>) -> bool {
    forall|i: int| 0 <= i < s.len() ==> is_ws_char(#[trigger] s[i])
}

pub fn check_blank(s: &str) -> (r: bool)
    ensures
        r == is_blank(s@),
{
    let n: usize = s.unicode_len();
    let mut i: usize = 0;
    while i < n
        invariant
            i <= n,
            n == s@.len(),
            forall|k: int| 0 <= k < i ==> is_ws_char(#[trigger] s@[k]),
        decreases n - i,
    {
        if !is_ws(s.get_char(i)) {
            return false;
        }
        i += 1;
    }
    true
}

/// The parts joined with `sep` between each adjacent pair.
pub open spec fn spec_join(parts: Seq<Seq<char>>, sep: Seq<char>) -> Seq<char>
    decreases parts.len(),
{
    if parts.len() == 0 {
        Seq::empty()
    } else if parts.len() == 1 {
        parts[0]
    } else {
        parts[0] + sep + spec_join(parts.drop_first(), sep)
    }
}

proof fn lemma_join_push(parts: Seq<Seq<char>>, sep: Seq<char>, x: Seq<char>)
    requires
        parts.len() >= 1,
    ensures
        spec_join(parts.push(x), sep) == spec_join(parts, sep) + sep + x,
    decreases parts.len(),
{
    if parts.len() == 1 {
        assert(parts.push(x).drop_first() =~= seq![x]);
        assert(parts.push(x)[0] == parts[0]);
        assert(spec_join(seq![x], sep) == x);
        assert(spec_join(parts.push(x), sep) =~= spec_join(parts, sep) + sep + x);
    } else {
        lemma_join_push(parts.drop_first(), sep, x);
        assert(parts.push(x).drop_first() =~= parts.drop_first().push(x));
        assert(parts.push(x)[0] == parts[0]);
        assert(spec_join(parts.push(x), sep) =~= spec_join(parts, sep) + sep + x);
    }
}

pub fn join(parts: &Vec<String>, sep: &str) -> (r: String)
    ensures
        r@ == spec_join(parts.deep_view(), sep@),
{
    let n: usize = parts.len();
    if n == 0 {
        let r = String::new();
        assert(r@ =~= spec_join(parts.deep_view(), sep@));
        return r;
    }
    let mut r: String = parts[0].clone();
    assert(parts.deep_view().take(1) =~= seq![parts@[0]@]);
    let mut i: usize = 1;
    while i < n
        invariant
            1 <= i <= n,
            n == parts@.len(),
            r@ == spec_join(parts.deep_view().take(i as int), sep@),
        decreases n - i,
    {
        r.append(sep);
        r.append(parts[i].as_str());
        proof {
            lemma_join_push(parts.deep_view().take(i as int), sep@, parts.deep_view()[i as int]);
            assert(parts.deep_view().take(i as int).push(parts.deep_view()[i as int]) =~= parts
                .deep_view()
                .take(i + 1));
        }
        i += 1;
    }
    assert(parts.deep_view().take(n as int) =~= parts.deep_view());
    r
}

/// Does `pat` occur in `s` at position `i`?
pub open spec fn occurs_at(s: Seq<char>, pat: Seq<char>, i: int) -> bool {
    0 <= i && i + pat.len() <= s.len() && s.subrange(i, i + pat.len() as int) == pat
}

pub fn matches_at(s: &str, pat: &str, i: usize) -> (r: bool)
    requires
        i <= s@.len(),
    ensures
        r == occurs_at(s@, pat@, i as int),
{
    let n: usize = s.unicode_len();
    let m: usize = pat.unicode_len();
    if m > n - i {
        assert(!occurs_at(s@, pat@, i as int));
        return false;
    }
    let mut j: usize = 0;
    while j < m
        invariant
            j <= m,
            i + m <= n,
            n == s@.len(),
            m == pat@.len(),
            forall|k: int| 0 <= k < j ==> s@[i + k] == pat@[k],
        decreases m - j,
    {
        if s.get_char(i + j) != pat.get_char(j) {
            proof {
                if occurs_at(s@, pat@, i as int) {
                    assert(s@.subrange(i as int, i + m as int)[j as int] == s@[i + j]);
                }
            }
            return false;
        }
        j += 1;
    }
    assert(s@.subrange(i as int, i + m as int) =~= pat@);
    true
}

/// Character-for-character equality of two texts.
pub fn str_eq(a: &str, b: &str) -> (r: bool)
    ensures
        r == (a@ == b@),
{
    let n: usize = a.unicode_len();
    let m: usize = b.unicode_len();
    if n != m {
        proof {
            if a@ == b@ {
                assert(a@.len() == b@.len());
            }
        }
        return false;
    }
    let r = matches_at(a, b, 0);
    proof {
        if occurs_at(a@, b@, 0) {
            assert(a@.subrange(0, m as int) =~= a@);
        }
        if a@ == b@ {
            assert(a@.subrange(0, m as int) =~= b@);
        }
    }
    r
}

/// `s` with every non-overlapping occurrence of `pat`, found left to right,
/// replaced by `to` — what `str::replace` computes.
pub open spec fn spec_replace(s: Seq<char>, pat: Seq<char>, to: Seq<char>) -> Seq<char>
    decreases s.len(),
{
    if pat.len() == 0 {
        s
    } else if s.len() < pat.len() {
        s
    } else if s.subrange(0, pat.len() as int) == pat {
        to + spec_replace(s.skip(pat.len() as int), pat, to)
    } else {
        seq![s[0]] + spec_replace(s.drop_first(), pat, to)
    }
}

pub fn replace(s: &str, pat: &str, to: &str) -> (r: String)
    requires
        pat@.len() >= 1,
    ensures
        r@ == spec_replace(s@, pat@, to@),
{
    let n: usize = s.unicode_len();
    let m: usize = pat.unicode_len();
    let mut r: String = String::new();
    let mut i: usize = 0;
    proof {
        assert(s@.skip(0) =~= s@);
        assert(r@ + spec_replace(s@, pat@, to@) =~= spec_replace(s@, pat@, to@));
    }
    while m <= n && i <= n - m
        invariant
            i <= n,
            n == s@.len(),
            m == pat@.len(),
            m >= 1,
            r@ + spec_replace(s@.skip(i as int), pat@, to@) == spec_replace(s@, pat@, to@),
        decreases n - i,
    {
        if matches_at(s, pat, i) {
            r.append(to);
            proof {
                assert(s@.skip(i as int).subrange(0, m as int) =~= s@.subrange(
                    i as int,
                    i + m as int,
                ));
                assert(s@.skip(i as int).skip(m as int) =~= s@.skip(i + m as int));
            }
            i += m;
        } else {
            let piece = s.substring_char(i, i + 1);
            r.append(piece);
            proof {
                assert(s@.skip(i as int).subrange(0, m as int) =~= s@.subrange(
                    i as int,
                    i + m as int,
                ));
                assert(seq![s@.skip(i as int)[0]] =~= s@.subrange(i as int, i + 1));
                assert(s@.skip(i as int).drop_first() =~= s@.skip(i + 1));
            }
            i += 1;
        }
    }
    proof {
        assert(s@.skip(i as int).len() < m || m > n);
        assert(spec_replace(s@.skip(i as int), pat@, to@) == s@.skip(i as int));
        assert(s@.skip(i as int) =~= s@.subrange(i as int, n as int));
    }
    let rest = s.substring_char(i, n);
    r.append(rest);
    r
}

/// `s` with every leading repetition of `pat` removed, as
/// `str::trim_start_matches` does.
pub open spec fn spec_strip_prefix_rep(s: Seq<char>, pat: Seq<char>) -> Seq<char>
    decreases s.len(),
{
    if pat.len() >= 1 && pat.len() <= s.len() && s.subrange(0, pat.len() as int) == pat {
        spec_strip_prefix_rep(s.skip(pat.len() as int), pat)
    } else {
        s
    }
}

pub fn strip_prefix_rep(s: &str, pat: &str) -> (r: String)
    requires
        pat@.len() >= 1,
    ensures
        r@ == spec_strip_prefix_rep(s@, pat@),
{
    let n: usize = s.unicode_len();
    let m: usize = pat.unicode_len();
    let mut i: usize = 0;
    proof {
        assert(s@.skip(0) =~= s@);
    }
    while matches_at(s, pat, i)
        invariant
            i <= n,
            n == s@.len(),
            m == pat@.len(),
            m >= 1,
            spec_strip_prefix_rep(s@.skip(i as int), pat@) == spec_strip_prefix_rep(s@, pat@),
        decreases n - i,
    {
        proof {
            assert(s@.skip(i as int).subrange(0, m as int) =~= s@.subrange(i as int, i + m as int));
            assert(s@.skip(i as int).skip(m as int) =~= s@.skip(i + m as int));
        }
        i += m;
    }
    proof {
        let t = s@.skip(i as int);
        if i + m <= n {
            assert(t.subrange(0, m as int) =~= s@.subrange(i as int, i + m as int));
            assert(t.subrange(0, m as int) != pat@);
        } else {
            assert(t.len() < m);
        }
        assert(spec_strip_prefix_rep(t, pat@) == t);
        assert(t =~= s@.subrange(i as int, n as int));
    }
    let r = s.substring_char(i, n);
    r.to_owned()
}

/// `s` with every trailing repetition of `pat` removed, as
/// `str::trim_end_matches` does.
pub open spec fn spec_strip_suffix_rep(s: Seq<char>, pat: Seq<char>) -> Seq<char>
    decreases s.len(),
{
    if pat.len() >= 1 && pat.len() <= s.len() && s.subrange(
        s.len() - pat.len(),
        s.len() as int,
    ) == pat {
        spec_strip_suffix_rep(s.take(s.len() - pat.len()), pat)
    } else {
        s
    }
}

pub fn strip_suffix_rep(s: &str, pat: &str) -> (r: String)
    requires
        pat@.len() >= 1,
    ensures
        r@ == spec_strip_suffix_rep(s@, pat@),
{
    let n: usize = s.unicode_len();
    let m: usize = pat.unicode_len();
    let mut j: usize = n;
    proof {
        assert(s@.take(n as int) =~= s@);
    }
    while j >= m && matches_at(s, pat, j - m)
        invariant
            j <= n,
            n == s@.len(),
            m == pat@.len(),
            m >= 1,
            spec_strip_suffix_rep(s@.take(j as int), pat@) == spec_strip_suffix_rep(s@, pat@),
        decreases j,
    {
        proof {
            let t = s@.take(j as int);
            assert(t.subrange(t.len() - m, t.len() as int) =~= s@.subrange(j - m, j as int));
            assert(t.take(t.len() - m) =~= s@.take(j - m));
        }
        j -= m;
    }
    proof {
        let t = s@.take(j as int);
        if j >= m {
            assert(t.subrange(t.len() - m, t.len() as int) =~= s@.subrange(j - m, j as int));
            assert(t.subrange(t.len() - m, t.len() as int) != pat@);
        } else {
            assert(t.len() < m);
        }
        assert(spec_strip_suffix_rep(t, pat@) == t);
        assert(t =~= s@.subrange(0, j as int));
    }
    let r = s.substring_char(0, j);
    r.to_owned()
}

/// Leading whitespace removed.
pub open spec fn spec_trim_start(s: Seq<char>) -> Seq<char>
    decreases s.len(),
{
    if s.len() >= 1 && is_ws_char(s[0]) {
        spec_trim_start(s.drop_first())
    } else {
        s
    }
}

/// Trailing whitespace removed.
pub open spec fn spec_trim_end(s: Seq<char>) -> Seq<char>
    decreases s.len(),
{
    if s.len() >= 1 && is_ws_char(s[s.len() - 1]) {
        spec_trim_end(s.take(s.len() - 1))
    } else {
        s
    }
}

/// Whitespace removed from both ends, as `str::trim` does.
pub open spec fn spec_trim(s: Seq<char>) -> Seq<char> {
    spec_trim_end(spec_trim_start(s))
}

pub fn trim_ws(s: &str) -> (r: String)
    ensures
        r@ == spec_trim(s@),
{
    let n: usize = s.unicode_len();
    let mut i: usize = 0;
    proof {
        assert(s@.skip(0) =~= s@);
    }
    while i < n && is_ws(s.get_char(i))
        invariant
            i <= n,
            n == s@.len(),
            spec_trim_start(s@.skip(i as int)) == spec_trim_start(s@),
        decreases n - i,
    {
        proof {
            assert(s@.skip(i as int)[0] == s@[i as int]);
            assert(s@.skip(i as int).drop_first() =~= s@.skip(i + 1));
        }
        i += 1;
    }
    proof {
        if i < n {
            assert(s@.skip(i as int)[0] == s@[i as int]);
        }
        assert(spec_trim_start(s@) == s@.skip(i as int));
        assert(s@.skip(i as int) =~= s@.subrange(i as int, n as int));
    }
    let mut j: usize = n;
    while j > i && is_ws(s.get_char(j - 1))
        invariant
            i <= j <= n,
            n == s@.len(),
            spec_trim_start(s@) == s@.skip(i as int),
            spec_trim_end(s@.subrange(i as int, j as int)) == spec_trim_end(s@.skip(i as int)),
        decreases j,
    {
        proof {
            let t = s@.subrange(i as int, j as int);
            assert(t[t.len() - 1] == s@[j - 1]);
            assert(t.take(t.len() - 1) =~= s@.subrange(i as int, j - 1));
        }
        j -= 1;
    }
    proof {
        let t = s@.subrange(i as int, j as int);
        if j > i {
            assert(t[t.len() - 1] == s@[j - 1]);
        }
        assert(spec_trim_end(t) == t);
        assert(s@.skip(i as int) =~= s@.subrange(i as int, n as int));
    }
    let r = s.substring_char(i, j);
    r.to_owned()
}

} // verus!
