//! The scanner: splits one documentation fragment into an ordered token
//! sequence. The text is first split on the three-backtick fence marker —
//! keeping the marker itself as a token — and each remaining span is then
//! split on single spaces into word tokens. Re-joining words later uses
//! exactly one space, so the original inter-word spacing width is
//! deliberately not preserved. The scanner also recognises the directive
//! token that asks for a diagram body to be read from a file.

use vstd::prelude::*;

use crate::text::{
    matches_at, occurs_at, spec_strip_prefix_rep, spec_strip_suffix_rep, spec_trim,
    strip_prefix_rep, strip_suffix_rep, trim_ws,
};

verus! {

/// The fence marker: three backticks.
pub open spec fn ticks() -> Seq<char> {
    seq!['`', '`', '`']
}

/// The word that, right after a fence marker, opens a diagram block.
pub open spec fn mermaid_word() -> Seq<char> {
    seq!['m', 'e', 'r', 'm', 'a', 'i', 'd']
}

/// Splitting `s` on `d`, keeping each occurrence of `d` itself as an
/// element: `pend` is text scanned since the last occurrence. Empty spans
/// between occurrences are dropped, as is an empty trailing span.
pub open spec fn si_go(s: Seq<char>, d: Seq<char>, pend: Seq<char>) -> Seq<Seq<char>>
    decreases s.len(),
{
    if d.len() == 0 {
        Seq::empty()
    } else if s.len() < d.len() {
        if pend.len() + s.len() > 0 {
            seq![pend + s]
        } else {
            Seq::empty()
        }
    } else if s.subrange(0, d.len() as int) == d {
        (if pend.len() > 0 {
            seq![pend]
        } else {
            Seq::empty()
        }) + seq![d] + si_go(s.skip(d.len() as int), d, Seq::empty())
    } else {
        si_go(s.drop_first(), d, pend.push(s[0]))
    }
}

pub open spec fn spec_split_inclusive(s: Seq<char>, d: Seq<char>) -> Seq<Seq<char>> {
    si_go(s, d, Seq::empty())
}

pub fn nonempty<'a>(s: &'a str) -> (r: Option<&'a str>)
    ensures
        match r {
            Option::Some(t) => s@.len() > 0 && t@ == s@,
            Option::None => s@.len() == 0,
        },
{
    if s.is_empty() {
        None
    } else {
        Some(s)
    }
}

/// Splits `input` on `delim`, keeping the delimiter occurrences as
/// elements of the result.
pub fn split_inclusive(input: &str, delim: &str) -> (r: Vec<String>)
    requires
        delim@.len() >= 1,
    ensures
        r.deep_view() == spec_split_inclusive(input@, delim@),
{
    let n: usize = input.unicode_len();
    let dn: usize = delim.unicode_len();
    let mut out: Vec<String> = Vec::new();
    let mut prev: usize = 0;
    let mut i: usize = 0;
    proof {
        assert(input@.skip(0) =~= input@);
        assert(input@.subrange(0, 0) =~= Seq::<char>::empty());
        assert(out.deep_view() + si_go(input@, delim@, Seq::empty()) =~= si_go(
            input@,
            delim@,
            Seq::empty(),
        ));
    }
    while dn <= n && i <= n - dn
        invariant
            prev <= i <= n,
            n == input@.len(),
            dn == delim@.len(),
            dn >= 1,
            spec_split_inclusive(input@, delim@) == out.deep_view() + si_go(
                input@.skip(i as int),
                delim@,
                input@.subrange(prev as int, i as int),
            ),
        decreases n - i,
    {
        let ghost rem = input@.skip(i as int);
        let ghost pend = input@.subrange(prev as int, i as int);
        if matches_at(input, delim, i) {
            proof {
                assert(rem.subrange(0, dn as int) =~= input@.subrange(i as int, i + dn as int));
                assert(rem.skip(dn as int) =~= input@.skip(i + dn));
            }
            let ghost dv0 = out.deep_view();
            let piece = input.substring_char(prev, i);
            match nonempty(piece) {
                Some(p) => {
                    out.push(p.to_owned());
                    proof {
                        assert(out.deep_view() =~= dv0 + seq![pend]);
                    }
                },
                None => {
                    proof {
                        assert(out.deep_view() =~= dv0 + Seq::<Seq<char>>::empty());
                    }
                },
            }
            let ghost dv1 = out.deep_view();
            out.push(delim.to_owned());
            proof {
                assert(out.deep_view() =~= dv1.push(delim@));
                assert(dv1.push(delim@) =~= dv1 + seq![delim@]);
                assert(input@.subrange((i + dn) as int, (i + dn) as int) =~= Seq::<char>::empty());
            }
            i = i + dn;
            prev = i;
        } else {
            proof {
                assert(rem.subrange(0, dn as int) =~= input@.subrange(i as int, i + dn as int));
                assert(rem.subrange(0, dn as int) != delim@);
                assert(rem.drop_first() =~= input@.skip(i + 1));
                assert(rem[0] == input@[i as int]);
                assert(pend.push(input@[i as int]) =~= input@.subrange(prev as int, i + 1));
            }
            i = i + 1;
        }
    }
    proof {
        let rem = input@.skip(i as int);
        let pend = input@.subrange(prev as int, i as int);
        assert(rem.len() < dn);
        assert(pend + rem =~= input@.subrange(prev as int, n as int));
    }
    let ghost dv2 = out.deep_view();
    let piece = input.substring_char(prev, n);
    match nonempty(piece) {
        Some(p) => {
            let q = p.to_owned();
            out.push(q);
            proof {
                assert(out.deep_view() =~= dv2 + seq![input@.subrange(prev as int, n as int)]);
            }
        },
        None => {
            proof {
                assert(out.deep_view() =~= dv2 + Seq::<Seq<char>>::empty());
            }
        },
    }
    out
}

/// Splitting on single spaces, keeping empty words — `"a  b"` has an empty
/// word between the two spaces, and an empty text has one empty word.
pub open spec fn ss_go(s: Seq<char>, pend: Seq<char>) -> Seq<Seq<char>>
    decreases s.len(),
{
    if s.len() == 0 {
        seq![pend]
    } else if s[0] == ' ' {
        seq![pend] + ss_go(s.drop_first(), Seq::empty())
    } else {
        ss_go(s.drop_first(), pend.push(s[0]))
    }
}

pub open spec fn spec_split_spaces(s: Seq<char>) -> Seq<Seq<char>> {
    ss_go(s, Seq::empty())
}

pub fn split_spaces(input: &str) -> (r: Vec<String>)
    ensures
        r.deep_view() == spec_split_spaces(input@),
{
    let n: usize = input.unicode_len();
    let mut out: Vec<String> = Vec::new();
    let mut prev: usize = 0;
    let mut i: usize = 0;
    proof {
        assert(input@.skip(0) =~= input@);
        assert(input@.subrange(0, 0) =~= Seq::<char>::empty());
        assert(out.deep_view() + ss_go(input@, Seq::empty()) =~= ss_go(input@, Seq::empty()));
    }
    while i < n
        invariant
            prev <= i <= n,
            n == input@.len(),
            spec_split_spaces(input@) == out.deep_view() + ss_go(
                input@.skip(i as int),
                input@.subrange(prev as int, i as int),
            ),
        decreases n - i,
    {
        let ghost rem = input@.skip(i as int);
        let ghost pend = input@.subrange(prev as int, i as int);
        proof {
            assert(rem[0] == input@[i as int]);
            assert(rem.drop_first() =~= input@.skip(i + 1));
        }
        if input.get_char(i) == ' ' {
            let ghost dv0 = out.deep_view();
            let piece = input.substring_char(prev, i);
            out.push(piece.to_owned());
            proof {
                assert(out.deep_view() =~= dv0 + seq![pend]);
                assert(input@.subrange((i + 1) as int, (i + 1) as int) =~= Seq::<char>::empty());
            }
            prev = i + 1;
        } else {
            proof {
                assert(pend.push(input@[i as int]) =~= input@.subrange(prev as int, i + 1));
            }
        }
        i = i + 1;
    }
    let ghost dv1 = out.deep_view();
    let piece = input.substring_char(prev, n);
    out.push(piece.to_owned());
    proof {
        assert(input@.skip(n as int).len() == 0);
        assert(out.deep_view() =~= dv1 + seq![input@.subrange(prev as int, n as int)]);
    }
    out
}

/// All the word tokens of the spans, in order.
pub open spec fn tok_pieces(ps: Seq<Seq<char>>) -> Seq<Seq<char>>
    decreases ps.len(),
{
    if ps.len() == 0 {
        Seq::empty()
    } else {
        spec_split_spaces(ps[0]) + tok_pieces(ps.drop_first())
    }
}

/// The token sequence of one fragment: fence markers kept intact, the
/// remaining spans split on single spaces.
pub open spec fn spec_tokenize(s: Seq<char>) -> Seq<Seq<char>> {
    tok_pieces(spec_split_inclusive(s, ticks()))
}

pub fn tokenize_doc_str(input: &str) -> (r: Vec<String>)
    ensures
        r.deep_view() == spec_tokenize(input@),
{
    proof {
        reveal_strlit("```");
        assert("```"@ =~= ticks());
    }
    let pieces = split_inclusive(input, "```");
    let mut out: Vec<String> = Vec::new();
    let np: usize = pieces.len();
    let mut k: usize = 0;
    proof {
        assert(pieces.deep_view().skip(0) =~= pieces.deep_view());
        assert(out.deep_view() + tok_pieces(pieces.deep_view()) =~= tok_pieces(
            pieces.deep_view(),
        ));
    }
    while k < np
        invariant
            k <= np,
            np == pieces@.len(),
            pieces.deep_view() == spec_split_inclusive(input@, ticks()),
            spec_tokenize(input@) == out.deep_view() + tok_pieces(pieces.deep_view().skip(k as int)),
        decreases np - k,
    {
        let ghost rem = pieces.deep_view().skip(k as int);
        proof {
            assert(rem[0] == pieces.deep_view()[k as int]);
            assert(rem.drop_first() =~= pieces.deep_view().skip(k + 1));
        }
        let ghost dv0 = out.deep_view();
        let mut ws = split_spaces(pieces[k].as_str());
        let ghost wdv = ws.deep_view();
        out.append(&mut ws);
        proof {
            assert(out.deep_view() =~= dv0 + wdv);
        }
        k += 1;
    }
    proof {
        assert(pieces.deep_view().skip(np as int).len() == 0);
        assert(out.deep_view() + Seq::<Seq<char>>::empty() =~= out.deep_view());
    }
    out
}

/// The directive prefix that asks for a diagram body to be read from a
/// file: `include_mmd!`.
pub open spec fn dir_prefix() -> Seq<char> {
    seq!['i', 'n', 'c', 'l', 'u', 'd', 'e', '_', 'm', 'm', 'd', '!']
}

/// A token carries the directive when it begins with the directive prefix.
pub open spec fn spec_is_directive(t: Seq<char>) -> bool {
    t.len() >= dir_prefix().len() && t.subrange(0, dir_prefix().len() as int) == dir_prefix()
}

pub fn is_directive_token(t: &str) -> (r: bool)
    ensures
        r == spec_is_directive(t@),
{
    proof {
        reveal_strlit("include_mmd!");
        assert("include_mmd!"@ =~= dir_prefix());
    }
    matches_at(t, "include_mmd!", 0)
}

/// The path carried by a directive token: the prefix, then surrounding
/// whitespace, parentheses and quotes are stripped.
pub open spec fn spec_directive_path(t: Seq<char>) -> Seq<char> {
    let s1 = spec_strip_prefix_rep(t, dir_prefix());
    let s2 = spec_trim(s1);
    let s3 = spec_strip_prefix_rep(s2, seq!['(']);
    let s4 = spec_strip_suffix_rep(s3, seq![')']);
    spec_strip_suffix_rep(spec_strip_prefix_rep(s4, seq!['"']), seq!['"'])
}

pub fn extract_directive_path(t: &str) -> (r: String)
    ensures
        r@ == spec_directive_path(t@),
{
    proof {
        reveal_strlit("include_mmd!");
        reveal_strlit("(");
        reveal_strlit(")");
        reveal_strlit("\"");
        assert("include_mmd!"@ =~= dir_prefix());
        assert("("@ =~= seq!['(']);
        assert(")"@ =~= seq![')']);
        assert("\""@ =~= seq!['"']);
    }
    let s1 = strip_prefix_rep(t, "include_mmd!");
    let s2 = trim_ws(s1.as_str());
    let s3 = strip_prefix_rep(s2.as_str(), "(");
    let s4 = strip_suffix_rep(s3.as_str(), ")");
    let s5 = strip_prefix_rep(s4.as_str(), "\"");
    strip_suffix_rep(s5.as_str(), "\"")
}

} // verus!
