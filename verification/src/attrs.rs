//! The classifier: a state machine folded over the token streams of a
//! declaration's documentation fragments. It produces the typed attribute
//! sequence — pass-through annotations, plain text, and diagram runs — and
//! carries the inside/outside state across fragment boundaries, so a
//! diagram block may open in one fragment and close in a later one.

use vstd::pervasive::unreached;
use vstd::prelude::*;

use crate::scanner::{
    extract_directive_path, is_directive_token, mermaid_word, spec_directive_path,
    spec_is_directive, spec_tokenize, ticks, tokenize_doc_str,
};
use crate::text::{check_blank, is_blank, join, spec_join, str_eq};

verus! {

/// One typed entry of the classifier's output.
#[derive(Debug, Clone, PartialEq, Eq)]
pub enum Attr {
    /// An annotation forwarded as-is, untouched.
    Forward(String),
    /// Documentation text that passes through; the first field is the index
    /// of the fragment it came from.
    DocComment(usize, String),
    /// Opens a diagram run.
    DiagramStart(usize),
    /// One line of a diagram's body.
    DiagramEntry(usize, String),
    /// Closes a diagram run.
    DiagramEnd(usize),
    /// A directive asking for a diagram body to be read from the file at
    /// the carried relative path.
    DiagramIncludeAnchor(usize, String),
}

/// The mathematical value of an [`Attr`].
pub enum AttrView {
    Forward(Seq<char>),
    DocComment(int, Seq<char>),
    DiagramStart(int),
    DiagramEntry(int, Seq<char>),
    DiagramEnd(int),
    DiagramIncludeAnchor(int, Seq<char>),
}

impl View for Attr {
    type V = AttrView;

    open spec fn view(&self) -> AttrView {
        match self {
            Attr::Forward(s) => AttrView::Forward(s@),
            Attr::DocComment(i, s) => AttrView::DocComment(*i as int, s@),
            Attr::DiagramStart(i) => AttrView::DiagramStart(*i as int),
            Attr::DiagramEntry(i, s) => AttrView::DiagramEntry(*i as int, s@),
            Attr::DiagramEnd(i) => AttrView::DiagramEnd(*i as int),
            Attr::DiagramIncludeAnchor(i, s) => AttrView::DiagramIncludeAnchor(*i as int, s@),
        }
    }
}

impl DeepView for Attr {
    type V = AttrView;

    open spec fn deep_view(&self) -> AttrView {
        self.view()
    }
}

impl Attr {
    /// The index of the source fragment this entry came from; a forwarded
    /// annotation carries none.
    pub fn as_ident(&self) -> (r: Option<usize>)
        ensures
            match r {
                Option::Some(i) => !(self@ is Forward) && self@ == self.view_with_ident(i as int),
                Option::None => self@ is Forward,
            },
    {
        match self {
            Attr::Forward(_) => None,
            Attr::DocComment(i, _) => Some(*i),
            Attr::DiagramStart(i) => Some(*i),
            Attr::DiagramEntry(i, _) => Some(*i),
            Attr::DiagramEnd(i) => Some(*i),
            Attr::DiagramIncludeAnchor(i, _) => Some(*i),
        }
    }

    /// `self@`, with the fragment index it carries pinned to `i`.
    pub open spec fn view_with_ident(&self, i: int) -> AttrView {
        match self@ {
            AttrView::Forward(s) => AttrView::Forward(s),
            AttrView::DocComment(_, s) => AttrView::DocComment(i, s),
            AttrView::DiagramStart(_) => AttrView::DiagramStart(i),
            AttrView::DiagramEntry(_, s) => AttrView::DiagramEntry(i, s),
            AttrView::DiagramEnd(_) => AttrView::DiagramEnd(i),
            AttrView::DiagramIncludeAnchor(_, s) => AttrView::DiagramIncludeAnchor(i, s),
        }
    }

    pub fn is_diagram_end(&self) -> (r: bool)
        ensures
            r == (self@ is DiagramEnd),
    {
        match self {
            Attr::DiagramEnd(_) => true,
            _ => false,
        }
    }

    pub fn is_diagram_start(&self) -> (r: bool)
        ensures
            r == (self@ is DiagramStart),
    {
        match self {
            Attr::DiagramStart(_) => true,
            _ => false,
        }
    }

    /// The body text of a diagram line entry.
    pub fn expect_diagram_entry_text(&self) -> (r: &str)
        requires
            self@ is DiagramEntry,
        ensures
            r@ == self@->DiagramEntry_1,
    {
        match self {
            Attr::DiagramEntry(_, body) => body.as_str(),
            _ => unreached(),
        }
    }
}

/// Whether the classifier currently stands inside a diagram block. The
/// state is scoped to one declaration's fragment sequence and carried
/// across its fragments, never across declarations.
#[derive(Debug, Clone, Copy, PartialEq, Eq, Structural)]
pub enum Location {
    OutsideDiagram,
    InsideDiagram,
}

impl Location {
    pub fn is_inside(self) -> (r: bool)
        ensures
            r == (self is InsideDiagram),
    {
        match self {
            Location::InsideDiagram => true,
            _ => false,
        }
    }
}

/// A fatal fault in the structure of one declaration's documentation.
/// Each carries the index of the fragment it was detected in; the whole
/// declaration's transformation is abandoned, nothing partial is kept.
#[derive(Debug, Clone, Copy, PartialEq, Eq, Structural)]
pub enum StructuralError {
    /// A diagram block was opened — last in the fragment at `open_fragment`
    /// — and never closed.
    UnterminatedDiagram { open_fragment: usize },
    /// A non-documentation annotation stood inside a diagram block; only
    /// documentation may appear there.
    UnexpectedAttr { fragment: usize },
    /// A file-backed diagram directive stood inside a diagram block; the
    /// directive is recognised outside one only.
    DirectiveInsideDiagram { fragment: usize },
}

/// The pending text buffer flushed as pass-through documentation: nothing
/// when empty, otherwise one entry with the words joined by single spaces.
pub open spec fn flush_doc(idx: int, buf: Seq<Seq<char>>) -> Seq<AttrView> {
    if buf.len() == 0 {
        Seq::empty()
    } else {
        seq![AttrView::DocComment(idx, spec_join(buf, seq![' ']))]
    }
}

/// The pending text buffer flushed as one diagram line: blank buffered
/// content is dropped, never emitted as an empty diagram line.
pub open spec fn flush_entry(idx: int, buf: Seq<Seq<char>>) -> Seq<AttrView> {
    let s = spec_join(buf, seq![' ']);
    if is_blank(s) {
        Seq::empty()
    } else {
        seq![AttrView::DiagramEntry(idx, s)]
    }
}

/// Prepends `prefix` to the entries of a successful classification step.
pub open spec fn cmap(
    prefix: Seq<AttrView>,
    r: Result<(Seq<AttrView>, Location), StructuralError>,
) -> Result<(Seq<AttrView>, Location), StructuralError> {
    match r {
        Ok((rest, l)) => Ok((prefix + rest, l)),
        Err(e) => Err(e),
    }
}

/// The classifier's transition function over one fragment's remaining
/// tokens: a fence marker immediately followed by the word `mermaid` opens
/// a diagram while outside; a bare fence marker closes it while inside; a
/// directive token while outside becomes an anchor at once, bypassing the
/// buffer; a directive token while inside is a structural fault; everything
/// else is buffered. At the end of the fragment the buffer is flushed under
/// the current state.
pub open spec fn spec_classify(
    idx: int,
    toks: Seq<Seq<char>>,
    loc: Location,
    buf: Seq<Seq<char>>,
) -> Result<(Seq<AttrView>, Location), StructuralError>
    decreases toks.len(),
{
    if toks.len() == 0 {
        Ok(
            (
                if loc is InsideDiagram {
                    flush_entry(idx, buf)
                } else {
                    flush_doc(idx, buf)
                },
                loc,
            ),
        )
    } else {
        let t = toks[0];
        if spec_is_directive(t) {
            if loc is InsideDiagram {
                Err(StructuralError::DirectiveInsideDiagram { fragment: idx as usize })
            } else {
                cmap(
                    seq![AttrView::DiagramIncludeAnchor(idx, spec_directive_path(t))],
                    spec_classify(idx, toks.drop_first(), loc, buf),
                )
            }
        } else if loc is OutsideDiagram && t == ticks() && toks.len() >= 2 && toks[1]
            == mermaid_word() {
            cmap(
                flush_doc(idx, buf) + seq![AttrView::DiagramStart(idx)],
                spec_classify(idx, toks.skip(2), Location::InsideDiagram, Seq::empty()),
            )
        } else if loc is InsideDiagram && t == ticks() {
            cmap(
                flush_entry(idx, buf) + seq![AttrView::DiagramEnd(idx)],
                spec_classify(idx, toks.drop_first(), Location::OutsideDiagram, Seq::empty()),
            )
        } else {
            spec_classify(idx, toks.drop_first(), loc, buf.push(t))
        }
    }
}

/// The classification of one whole fragment, starting from state `loc`. A
/// fragment with no tokens at all, met while outside, still yields one
/// empty pass-through entry, so empty documentation lines are preserved.
pub open spec fn spec_split_attr_body(idx: int, text: Seq<char>, loc: Location) -> Result<
    (Seq<AttrView>, Location),
    StructuralError,
> {
    let toks = spec_tokenize(text);
    if toks.len() == 0 && !(loc is InsideDiagram) {
        Ok((seq![AttrView::DocComment(idx, Seq::empty())], loc))
    } else {
        spec_classify(idx, toks, loc, Seq::empty())
    }
}

proof fn lemma_cmap_assoc(
    a: Seq<AttrView>,
    b: Seq<AttrView>,
    r: Result<(Seq<AttrView>, Location), StructuralError>,
)
    ensures
        cmap(a, cmap(b, r)) == cmap(a + b, r),
{
    match r {
        Ok((rest, l)) => {
            assert(a + (b + rest) =~= (a + b) + rest);
        },
        Err(_) => {},
    }
}

/// Classifies one fragment's text into typed entries, threading the
/// inside/outside state through `loc`. `idx` is the fragment's index in
/// its declaration's sequence, recorded on each produced entry. On a
/// structural fault the state is left as it was.
pub fn split_attr_body(idx: usize, input: &str, loc: &mut Location) -> (r: Result<
    Vec<Attr>,
    StructuralError,
>)
    ensures
        match spec_split_attr_body(idx as int, input@, *old(loc)) {
            Ok((attrs, l2)) => r is Ok && r->Ok_0.deep_view() == attrs && *final(loc) == l2,
            Err(e) => r == Err::<Vec<Attr>, StructuralError>(e) && *final(loc) == *old(loc),
        },
{
    proof {
        reveal_strlit("```");
        reveal_strlit("mermaid");
        reveal_strlit(" ");
        assert("```"@ =~= ticks());
        assert("mermaid"@ =~= mermaid_word());
        assert(" "@ =~= seq![' ']);
    }
    let toks = tokenize_doc_str(input);
    let ghost toksv = toks.deep_view();
    let nt: usize = toks.len();
    let mut cur: Location = *loc;
    if nt == 0 && !cur.is_inside() {
        let mut out: Vec<Attr> = Vec::new();
        out.push(Attr::DocComment(idx, String::new()));
        proof {
            assert(out.deep_view() =~= seq![
                AttrView::DocComment(idx as int, Seq::<char>::empty()),
            ]);
        }
        return Ok(out);
    }
    let ghost l0 = cur;
    let ghost full = spec_classify(idx as int, toksv, l0, Seq::empty());
    let mut out: Vec<Attr> = Vec::new();
    let mut buf: Vec<String> = Vec::new();
    let mut i: usize = 0;
    proof {
        assert(toksv.skip(0) =~= toksv);
        assert(buf.deep_view() =~= Seq::<Seq<char>>::empty());
        match spec_classify(idx as int, toksv, l0, Seq::empty()) {
            Ok((rest, _l)) => {
                assert(out.deep_view() + rest =~= rest);
            },
            Err(_) => {},
        }
    }
    while i < nt
        invariant
            i <= nt,
            nt == toks@.len(),
            toksv == toks.deep_view(),
            toksv == spec_tokenize(input@),
            toksv.len() == nt,
            l0 == *old(loc),
            nt > 0 || l0 is InsideDiagram,
            full == spec_classify(idx as int, toksv, l0, Seq::empty()),
            full == cmap(
                out.deep_view(),
                spec_classify(idx as int, toksv.skip(i as int), cur, buf.deep_view()),
            ),
            "```"@ == ticks(),
            "mermaid"@ == mermaid_word(),
            " "@ == seq![' '],
        decreases nt - i,
    {
        let ghost rem = toksv.skip(i as int);
        let ghost bufv = buf.deep_view();
        let ghost c0 = cur;
        proof {
            assert(rem[0] == toksv[i as int]);
            assert(toksv[i as int] == toks@[i as int]@);
            assert(rem.drop_first() =~= toksv.skip(i + 1));
        }
        let inside = cur.is_inside();
        if is_directive_token(toks[i].as_str()) {
            if inside {
                proof {
                    let e = StructuralError::DirectiveInsideDiagram { fragment: idx };
                    assert(spec_is_directive(rem[0]));
                    assert(spec_classify(idx as int, rem, cur, bufv) == Err::<
                        (Seq<AttrView>, Location),
                        StructuralError,
                    >(e));
                    assert(full == Err::<(Seq<AttrView>, Location), StructuralError>(e));
                    assert(toksv.len() > 0);
                    assert(spec_split_attr_body(idx as int, input@, l0) == full);
                }
                return Err(StructuralError::DirectiveInsideDiagram { fragment: idx });
            }
            let p = extract_directive_path(toks[i].as_str());
            let ghost dv0 = out.deep_view();
            out.push(Attr::DiagramIncludeAnchor(idx, p));
            proof {
                let anchor = seq![
                    AttrView::DiagramIncludeAnchor(idx as int, spec_directive_path(rem[0])),
                ];
                let sub = spec_classify(idx as int, toksv.skip(i + 1), cur, bufv);
                assert(spec_classify(idx as int, rem, cur, bufv) == cmap(anchor, sub));
                assert(out.deep_view() =~= dv0 + anchor);
                lemma_cmap_assoc(dv0, anchor, sub);
            }
            i += 1;
        } else if !inside && str_eq(toks[i].as_str(), "```") && i + 1 < nt && str_eq(
            toks[i + 1].as_str(),
            "mermaid",
        ) {
            proof {
                assert(rem[1] == toksv[i + 1]);
                assert(toksv[i + 1] == toks@[i + 1]@);
                assert(rem.skip(2) =~= toksv.skip(i + 2));
            }
            let ghost dv0 = out.deep_view();
            if buf.len() > 0 {
                let j = join(&buf, " ");
                out.push(Attr::DocComment(idx, j));
            }
            proof {
                assert(out.deep_view() =~= dv0 + flush_doc(idx as int, bufv));
            }
            let ghost dv1 = out.deep_view();
            out.push(Attr::DiagramStart(idx));
            buf = Vec::new();
            cur = Location::InsideDiagram;
            proof {
                let prefix = flush_doc(idx as int, bufv) + seq![AttrView::DiagramStart(idx as int)];
                let sub = spec_classify(
                    idx as int,
                    toksv.skip(i + 2),
                    Location::InsideDiagram,
                    Seq::empty(),
                );
                assert(spec_classify(idx as int, rem, c0, bufv) == cmap(prefix, sub));
                assert(buf.deep_view() =~= Seq::<Seq<char>>::empty());
                assert(out.deep_view() =~= dv1.push(AttrView::DiagramStart(idx as int)));
                assert(out.deep_view() =~= dv0 + prefix);
                lemma_cmap_assoc(dv0, prefix, sub);
            }
            i += 2;
        } else if inside && str_eq(toks[i].as_str(), "```") {
            let ghost dv0 = out.deep_view();
            let j = join(&buf, " ");
            if !check_blank(j.as_str()) {
                out.push(Attr::DiagramEntry(idx, j));
            }
            proof {
                assert(out.deep_view() =~= dv0 + flush_entry(idx as int, bufv));
            }
            let ghost dv1 = out.deep_view();
            out.push(Attr::DiagramEnd(idx));
            buf = Vec::new();
            cur = Location::OutsideDiagram;
            proof {
                let prefix = flush_entry(idx as int, bufv) + seq![AttrView::DiagramEnd(idx as int)];
                let sub = spec_classify(
                    idx as int,
                    toksv.skip(i + 1),
                    Location::OutsideDiagram,
                    Seq::empty(),
                );
                assert(spec_classify(idx as int, rem, c0, bufv) == cmap(prefix, sub));
                assert(buf.deep_view() =~= Seq::<Seq<char>>::empty());
                assert(out.deep_view() =~= dv1.push(AttrView::DiagramEnd(idx as int)));
                assert(out.deep_view() =~= dv0 + prefix);
                lemma_cmap_assoc(dv0, prefix, sub);
            }
            i += 1;
        } else {
            buf.push(toks[i].clone());
            proof {
                assert(buf.deep_view() =~= bufv.push(rem[0]));
            }
            i += 1;
        }
    }
    proof {
        assert(toksv.skip(nt as int).len() == 0);
    }
    let ghost dv0 = out.deep_view();
    let ghost bufv = buf.deep_view();
    if cur.is_inside() {
        let j = join(&buf, " ");
        if !check_blank(j.as_str()) {
            out.push(Attr::DiagramEntry(idx, j));
        }
        proof {
            assert(out.deep_view() =~= dv0 + flush_entry(idx as int, bufv));
        }
    } else {
        if buf.len() > 0 {
            let j = join(&buf, " ");
            out.push(Attr::DocComment(idx, j));
        }
        proof {
            assert(out.deep_view() =~= dv0 + flush_doc(idx as int, bufv));
        }
    }
    *loc = cur;
    Ok(out)
}

/// One input annotation of a declaration: either text-bearing
/// documentation, or an opaque annotation that passes through untouched.
#[derive(Debug, Clone, PartialEq, Eq)]
pub enum SourceAttr {
    Doc(String),
    Other(String),
}

/// The mathematical value of a [`SourceAttr`].
pub enum SourceAttrView {
    Doc(Seq<char>),
    Other(Seq<char>),
}

impl View for SourceAttr {
    type V = SourceAttrView;

    open spec fn view(&self) -> SourceAttrView {
        match self {
            SourceAttr::Doc(s) => SourceAttrView::Doc(s@),
            SourceAttr::Other(s) => SourceAttrView::Other(s@),
        }
    }
}

impl DeepView for SourceAttr {
    type V = SourceAttrView;

    open spec fn deep_view(&self) -> SourceAttrView {
        self.view()
    }
}

/// Does the sequence contain a diagram start?
pub open spec fn contains_start(s: Seq<AttrView>) -> bool {
    exists|j: int| 0 <= j < s.len() && (#[trigger] s[j]) is DiagramStart
}

/// The classification of the annotations from absolute index `i` on,
/// starting in state `loc`; `start` is the fragment of the most recent
/// diagram start seen so far. Returns the produced entries, the final
/// state, and the updated most-recent-start marker — or the error met
/// first.
pub open spec fn push_go(
    frags: Seq<SourceAttrView>,
    i: int,
    loc: Location,
    start: Option<usize>,
) -> Result<(Seq<AttrView>, Location, Option<usize>), StructuralError>
    decreases frags.len(),
{
    if frags.len() == 0 {
        Ok((Seq::empty(), loc, start))
    } else {
        match frags[0] {
            SourceAttrView::Doc(text) => {
                match spec_split_attr_body(i, text, loc) {
                    Ok((attrs, l2)) => {
                        let ns = if contains_start(attrs) {
                            Some(i as usize)
                        } else {
                            start
                        };
                        compose(attrs, push_go(frags.drop_first(), i + 1, l2, ns))
                    },
                    Err(e) => Err(e),
                }
            },
            SourceAttrView::Other(raw) => {
                if loc is InsideDiagram {
                    Err(StructuralError::UnexpectedAttr { fragment: i as usize })
                } else {
                    compose(
                        seq![AttrView::Forward(raw)],
                        push_go(frags.drop_first(), i + 1, loc, start),
                    )
                }
            },
        }
    }
}

/// Prepends `prefix` to the entries of a successful classification.
pub open spec fn compose(
    prefix: Seq<AttrView>,
    r: Result<(Seq<AttrView>, Location, Option<usize>), StructuralError>,
) -> Result<(Seq<AttrView>, Location, Option<usize>), StructuralError> {
    match r {
        Ok((rest, lf, sf)) => Ok((prefix + rest, lf, sf)),
        Err(e) => Err(e),
    }
}

proof fn lemma_compose_assoc(
    a: Seq<AttrView>,
    b: Seq<AttrView>,
    r: Result<(Seq<AttrView>, Location, Option<usize>), StructuralError>,
)
    ensures
        compose(a, compose(b, r)) == compose(a + b, r),
{
    match r {
        Ok((rest, lf, sf)) => {
            assert(a + (b + rest) =~= (a + b) + rest);
        },
        Err(_) => {},
    }
}

/// The classification of one declaration's whole annotation sequence: the
/// fold starts outside any diagram, and a state still inside a diagram
/// after the last fragment is the unterminated-block error, reported at
/// the fragment of the unmatched opening marker.
pub open spec fn spec_push_attrs(frags: Seq<SourceAttrView>) -> Result<
    Seq<AttrView>,
    StructuralError,
> {
    match push_go(frags, 0, Location::OutsideDiagram, None) {
        Ok((attrs, lf, sf)) => {
            if lf is InsideDiagram {
                Err(
                    StructuralError::UnterminatedDiagram {
                        open_fragment: if sf is Some {
                            sf->0
                        } else {
                            0
                        },
                    },
                )
            } else {
                Ok(attrs)
            }
        },
        Err(e) => Err(e),
    }
}

/// The typed attribute sequence produced for one declaration.
#[derive(Clone)]
pub struct Attrs(Vec<Attr>);

impl View for Attrs {
    type V = Seq<AttrView>;

    closed spec fn view(&self) -> Seq<AttrView> {
        self.0.deep_view()
    }
}

impl Default for Attrs {
    fn default() -> (r: Self)
        ensures
            r@ == Seq::<AttrView>::empty(),
    {
        let v: Vec<Attr> = Vec::new();
        proof {
            assert(v.deep_view() =~= Seq::<AttrView>::empty());
        }
        Attrs(v)
    }
}

impl Attrs {
    /// The entries, in source order.
    pub fn entries(&self) -> (r: &Vec<Attr>)
        ensures
            r.deep_view() == self@,
    {
        &self.0
    }

    /// Classifies a declaration's annotations and appends the produced
    /// entries; on a structural fault nothing is appended.
    pub fn push_attrs(&mut self, attrs: Vec<SourceAttr>) -> (r: Result<(), StructuralError>)
        ensures
            match spec_push_attrs(attrs.deep_view()) {
                Ok(new) => r is Ok && final(self)@ == old(self)@ + new,
                Err(e) => r == Err::<(), StructuralError>(e) && final(self)@ == old(self)@,
            },
    {
        let ghost fragsv = attrs.deep_view();
        let ghost full = push_go(fragsv, 0, Location::OutsideDiagram, None);
        let n: usize = attrs.len();
        let mut out: Vec<Attr> = Vec::new();
        let mut cur: Location = Location::OutsideDiagram;
        let mut start: Option<usize> = None;
        let mut k: usize = 0;
        proof {
            assert(fragsv.skip(0) =~= fragsv);
            assert(out.deep_view() =~= Seq::<AttrView>::empty());
            match push_go(fragsv, 0, Location::OutsideDiagram, None) {
                Ok((rest, lf, sf)) => {
                    assert(out.deep_view() + rest =~= rest);
                },
                Err(_) => {},
            }
        }
        while k < n
            invariant
                k <= n,
                n == attrs@.len(),
                fragsv == attrs.deep_view(),
                cur is InsideDiagram ==> start is Some,
                full == push_go(fragsv, 0, Location::OutsideDiagram, None),
                full == compose(
                    out.deep_view(),
                    push_go(fragsv.skip(k as int), k as int, cur, start),
                ),
            decreases n - k,
        {
            let ghost rem = fragsv.skip(k as int);
            let ghost c0 = cur;
            let ghost s0 = start;
            proof {
                assert(rem[0] == fragsv[k as int]);
                assert(fragsv[k as int] == attrs@[k as int].deep_view());
                assert(rem.drop_first() =~= fragsv.skip(k + 1));
            }
            match &attrs[k] {
                SourceAttr::Doc(text) => {
                    let mut produced = match split_attr_body(k, text.as_str(), &mut cur) {
                        Ok(p) => p,
                        Err(e) => {
                            proof {
                                assert(push_go(rem, k as int, c0, s0) == Err::<
                                    (Seq<AttrView>, Location, Option<usize>),
                                    StructuralError,
                                >(e));
                            }
                            return Err(e);
                        },
                    };
                    let ghost pv = produced.deep_view();
                    let pn: usize = produced.len();
                    let mut saw = false;
                    let mut j: usize = 0;
                    while j < pn
                        invariant
                            j <= pn,
                            pn == produced@.len(),
                            pv == produced.deep_view(),
                            saw <==> exists|t: int|
                                0 <= t < j && (#[trigger] pv[t]) is DiagramStart,
                        decreases pn - j,
                    {
                        proof {
                            assert(pv[j as int] == produced@[j as int]@);
                        }
                        if produced[j].is_diagram_start() {
                            saw = true;
                        }
                        j += 1;
                    }
                    if saw {
                        start = Some(k);
                    }
                    proof {
                        let (attrs2, l2) = spec_split_attr_body(k as int, text@, c0)->Ok_0;
                        assert(pv == attrs2);
                        assert(saw == contains_start(attrs2));
                        if cur is InsideDiagram {
                            if c0 is OutsideDiagram {
                                lemma_split_attr_body_starts(k as int, text@, c0);
                                assert(contains_start(attrs2));
                            }
                            assert(start is Some);
                        }
                    }
                    let ghost dv0 = out.deep_view();
                    out.append(&mut produced);
                    proof {
                        assert(out.deep_view() =~= dv0 + pv);
                        let sub = push_go(fragsv.skip(k + 1), k + 1 as int, cur, start);
                        assert(push_go(rem, k as int, c0, s0) == compose(pv, sub));
                        lemma_compose_assoc(dv0, pv, sub);
                    }
                },
                SourceAttr::Other(raw) => {
                    if cur.is_inside() {
                        proof {
                            assert(push_go(rem, k as int, c0, s0) == Err::<
                                (Seq<AttrView>, Location, Option<usize>),
                                StructuralError,
                            >(StructuralError::UnexpectedAttr { fragment: k }));
                        }
                        return Err(StructuralError::UnexpectedAttr { fragment: k });
                    }
                    let ghost dv0 = out.deep_view();
                    out.push(Attr::Forward(raw.clone()));
                    proof {
                        assert(out.deep_view() =~= dv0 + seq![AttrView::Forward(raw@)]);
                        let sub = push_go(fragsv.skip(k + 1), k + 1 as int, cur, start);
                        assert(push_go(rem, k as int, c0, s0) == compose(
                            seq![AttrView::Forward(raw@)],
                            sub,
                        ));
                        lemma_compose_assoc(dv0, seq![AttrView::Forward(raw@)], sub);
                    }
                },
            }
            k += 1;
        }
        proof {
            assert(fragsv.skip(n as int).len() == 0);
            assert(push_go(fragsv.skip(n as int), n as int, cur, start) == Ok::<
                (Seq<AttrView>, Location, Option<usize>),
                StructuralError,
            >((Seq::empty(), cur, start)));
            assert(out.deep_view() + Seq::<AttrView>::empty() =~= out.deep_view());
        }
        if cur.is_inside() {
            match start {
                Some(s) => Err(StructuralError::UnterminatedDiagram { open_fragment: s }),
                None => unreached(),
            }
        } else {
            let ghost dv = self.0.deep_view();
            let ghost ov = out.deep_view();
            self.0.append(&mut out);
            proof {
                assert(self.0.deep_view() =~= dv + ov);
            }
            Ok(())
        }
    }

    /// Classifies one declaration's annotations into a fresh sequence; on
    /// a structural fault no entries at all are produced.
    pub fn from_attrs(attrs: Vec<SourceAttr>) -> (r: Result<Attrs, StructuralError>)
        ensures
            ({
                let s = spec_push_attrs(attrs.deep_view());
                match r {
                    Ok(a) => s is Ok && a@ == s->Ok_0,
                    Err(e) => s == Err::<Seq<AttrView>, StructuralError>(e),
                }
            }),
    {
        let ghost fragsv = attrs.deep_view();
        let mut out = Attrs::default();
        match out.push_attrs(attrs) {
            Ok(()) => {
                proof {
                    assert(Seq::<AttrView>::empty() + spec_push_attrs(fragsv)->Ok_0 =~= spec_push_attrs(
                        fragsv,
                    )->Ok_0);
                }
                Ok(out)
            },
            Err(e) => Err(e),
        }
    }
}

/// If one whole fragment's classification moves the state from outside to
/// inside a diagram, a diagram start was emitted for that fragment.
proof fn lemma_classify_starts(idx: int, toks: Seq<Seq<char>>, loc: Location, buf: Seq<Seq<char>>)
    ensures
        match spec_classify(idx, toks, loc, buf) {
            Ok((attrs, l2)) => loc is OutsideDiagram && l2 is InsideDiagram ==> contains_start(
                attrs,
            ),
            Err(_) => true,
        },
    decreases toks.len(),
{
    if toks.len() == 0 {
    } else {
        let t = toks[0];
        if spec_is_directive(t) {
            if loc is InsideDiagram {
            } else {
                lemma_classify_starts(idx, toks.drop_first(), loc, buf);
                match spec_classify(idx, toks.drop_first(), loc, buf) {
                    Ok((rest, l)) => {
                        let attrs = seq![
                            AttrView::DiagramIncludeAnchor(idx, spec_directive_path(t)),
                        ] + rest;
                        if loc is OutsideDiagram && l is InsideDiagram {
                            let j = choose|j: int|
                                0 <= j < rest.len() && (#[trigger] rest[j]) is DiagramStart;
                            assert(attrs[1 + j] == rest[j]);
                            assert(0 <= 1 + j < attrs.len() && (attrs[1 + j]) is DiagramStart);
                        }
                    },
                    Err(_) => {},
                }
            }
        } else if loc is OutsideDiagram && t == ticks() && toks.len() >= 2 && toks[1]
            == mermaid_word() {
            match spec_classify(idx, toks.skip(2), Location::InsideDiagram, Seq::empty()) {
                Ok((rest, _l)) => {
                    let fd = flush_doc(idx, buf);
                    let attrs = (fd + seq![AttrView::DiagramStart(idx)]) + rest;
                    assert(attrs[fd.len() as int] == (fd + seq![AttrView::DiagramStart(idx)])[fd.len() as int]);
                    assert(0 <= fd.len() < attrs.len() && (attrs[fd.len() as int])
                        is DiagramStart);
                },
                Err(_) => {},
            }
        } else if loc is InsideDiagram && t == ticks() {
        } else {
            lemma_classify_starts(idx, toks.drop_first(), loc, buf.push(t));
        }
    }
}

/// As [`lemma_classify_starts`], for a whole fragment including the
/// empty-fragment special case.
proof fn lemma_split_attr_body_starts(idx: int, text: Seq<char>, loc: Location)
    ensures
        match spec_split_attr_body(idx, text, loc) {
            Ok((attrs, l2)) => loc is OutsideDiagram && l2 is InsideDiagram ==> contains_start(
                attrs,
            ),
            Err(_) => true,
        },
{
    let toks = spec_tokenize(text);
    if toks.len() == 0 && !(loc is InsideDiagram) {
    } else {
        lemma_classify_starts(idx, toks, loc, Seq::empty());
    }
}

/// Every diagram start emitted for one fragment carries that fragment's
/// index.
proof fn lemma_classify_start_tags(
    idx: int,
    toks: Seq<Seq<char>>,
    loc: Location,
    buf: Seq<Seq<char>>,
)
    ensures
        match spec_classify(idx, toks, loc, buf) {
            Ok((attrs, l2)) => forall|j: int|
                0 <= j < attrs.len() && (#[trigger] attrs[j]) is DiagramStart ==> attrs[j]
                    == AttrView::DiagramStart(idx),
            Err(_) => true,
        },
    decreases toks.len(),
{
    if toks.len() == 0 {
    } else {
        let t = toks[0];
        if spec_is_directive(t) {
            if loc is InsideDiagram {
            } else {
                lemma_classify_start_tags(idx, toks.drop_first(), loc, buf);
                match spec_classify(idx, toks.drop_first(), loc, buf) {
                    Ok((rest, _l)) => {
                        let attrs = seq![
                            AttrView::DiagramIncludeAnchor(idx, spec_directive_path(t)),
                        ] + rest;
                        assert forall|j: int|
                            0 <= j < attrs.len() && (#[trigger] attrs[j])
                                is DiagramStart implies attrs[j] == AttrView::DiagramStart(
                            idx,
                        ) by {
                            if j >= 1 {
                                assert(attrs[j] == rest[j - 1]);
                            }
                        }
                    },
                    Err(_) => {},
                }
            }
        } else if loc is OutsideDiagram && t == ticks() && toks.len() >= 2 && toks[1]
            == mermaid_word() {
            lemma_classify_start_tags(idx, toks.skip(2), Location::InsideDiagram, Seq::empty());
            match spec_classify(idx, toks.skip(2), Location::InsideDiagram, Seq::empty()) {
                Ok((rest, _l)) => {
                    let fd = flush_doc(idx, buf);
                    let attrs = (fd + seq![AttrView::DiagramStart(idx)]) + rest;
                    assert forall|j: int|
                        0 <= j < attrs.len() && (#[trigger] attrs[j]) is DiagramStart implies attrs[j]
                        == AttrView::DiagramStart(idx) by {
                        if j < fd.len() {
                            assert(attrs[j] == fd[j]);
                        } else if j == fd.len() {
                            assert(attrs[j] == AttrView::DiagramStart(idx));
                        } else {
                            assert(attrs[j] == rest[j - fd.len() - 1]);
                        }
                    }
                },
                Err(_) => {},
            }
        } else if loc is InsideDiagram && t == ticks() {
            lemma_classify_start_tags(
                idx,
                toks.drop_first(),
                Location::OutsideDiagram,
                Seq::empty(),
            );
            match spec_classify(idx, toks.drop_first(), Location::OutsideDiagram, Seq::empty()) {
                Ok((rest, _l)) => {
                    let fe = flush_entry(idx, buf);
                    let attrs = (fe + seq![AttrView::DiagramEnd(idx)]) + rest;
                    assert forall|j: int|
                        0 <= j < attrs.len() && (#[trigger] attrs[j]) is DiagramStart implies attrs[j]
                        == AttrView::DiagramStart(idx) by {
                        if j < fe.len() {
                            assert(attrs[j] == fe[j]);
                        } else if j == fe.len() {
                            assert(attrs[j] == AttrView::DiagramEnd(idx));
                        } else {
                            assert(attrs[j] == rest[j - fe.len() - 1]);
                        }
                    }
                },
                Err(_) => {},
            }
        } else {
            lemma_classify_start_tags(idx, toks.drop_first(), loc, buf.push(t));
        }
    }
}

proof fn lemma_split_attr_body_start_tags(idx: int, text: Seq<char>, loc: Location)
    ensures
        match spec_split_attr_body(idx, text, loc) {
            Ok((attrs, l2)) => forall|j: int|
                0 <= j < attrs.len() && (#[trigger] attrs[j]) is DiagramStart ==> attrs[j]
                    == AttrView::DiagramStart(idx),
            Err(_) => true,
        },
{
    let toks = spec_tokenize(text);
    if toks.len() == 0 && !(loc is InsideDiagram) {
    } else {
        lemma_classify_start_tags(idx, toks, loc, Seq::empty());
    }
}

/// The fold's error, where it errs, is an in-stream fault — never the
/// end-of-sequence one.
proof fn lemma_push_go_err_kind(frags: Seq<SourceAttrView>, i: int, loc: Location, start: Option<usize>)
    ensures
        match push_go(frags, i, loc, start) {
            Ok(_) => true,
            Err(e) => !(e is UnterminatedDiagram),
        },
    decreases frags.len(),
{
    if frags.len() == 0 {
    } else {
        match frags[0] {
            SourceAttrView::Doc(text) => {
                match spec_split_attr_body(i, text, loc) {
                    Ok((attrs, l2)) => {
                        let ns = if contains_start(attrs) {
                            Some(i as usize)
                        } else {
                            start
                        };
                        lemma_push_go_err_kind(frags.drop_first(), i + 1, l2, ns);
                    },
                    Err(e) => {
                        lemma_split_attr_body_err_kind(i, text, loc);
                    },
                }
            },
            SourceAttrView::Other(_) => {
                if loc is InsideDiagram {
                } else {
                    lemma_push_go_err_kind(frags.drop_first(), i + 1, loc, start);
                }
            },
        }
    }
}

/// The classifier's own error is always the inside-directive fault.
proof fn lemma_classify_err_kind(idx: int, toks: Seq<Seq<char>>, loc: Location, buf: Seq<Seq<char>>)
    ensures
        match spec_classify(idx, toks, loc, buf) {
            Ok(_) => true,
            Err(e) => e is DirectiveInsideDiagram,
        },
    decreases toks.len(),
{
    if toks.len() == 0 {
    } else {
        let t = toks[0];
        if spec_is_directive(t) {
            if loc is InsideDiagram {
            } else {
                lemma_classify_err_kind(idx, toks.drop_first(), loc, buf);
            }
        } else if loc is OutsideDiagram && t == ticks() && toks.len() >= 2 && toks[1]
            == mermaid_word() {
            lemma_classify_err_kind(idx, toks.skip(2), Location::InsideDiagram, Seq::empty());
        } else if loc is InsideDiagram && t == ticks() {
            lemma_classify_err_kind(idx, toks.drop_first(), Location::OutsideDiagram, Seq::empty());
        } else {
            lemma_classify_err_kind(idx, toks.drop_first(), loc, buf.push(t));
        }
    }
}

proof fn lemma_split_attr_body_err_kind(idx: int, text: Seq<char>, loc: Location)
    ensures
        match spec_split_attr_body(idx, text, loc) {
            Ok(_) => true,
            Err(e) => e is DirectiveInsideDiagram,
        },
{
    let toks = spec_tokenize(text);
    if toks.len() == 0 && !(loc is InsideDiagram) {
    } else {
        lemma_classify_err_kind(idx, toks, loc, Seq::empty());
    }
}

/// The marker either stood already, or a diagram start tagged with its
/// fragment stands among the entries.
pub open spec fn start_marker_ok(
    attrs: Seq<AttrView>,
    start: Option<usize>,
    sf: Option<usize>,
) -> bool {
    sf == start || (sf is Some && exists|j: int|
        0 <= j < attrs.len() && (#[trigger] attrs[j]) == AttrView::DiagramStart(sf->0 as int))
}

/// The recorded most-recent-start marker is sound: where the fold ends
/// inside a diagram it is set, and where it moved it points at a fragment
/// whose classification emitted the corresponding diagram start.
proof fn lemma_push_go_start(frags: Seq<SourceAttrView>, i: int, loc: Location, start: Option<usize>)
    requires
        loc is InsideDiagram ==> start is Some,
        0 <= i,
        i + frags.len() <= usize::MAX,
    ensures
        match push_go(frags, i, loc, start) {
            Ok((attrs, lf, sf)) => (lf is InsideDiagram ==> sf is Some) && start_marker_ok(
                attrs,
                start,
                sf,
            ),
            Err(_) => true,
        },
    decreases frags.len(),
{
    if frags.len() == 0 {
    } else {
        match frags[0] {
            SourceAttrView::Doc(text) => {
                if spec_split_attr_body(i, text, loc) is Err {
                } else {
                let (a, l2) = spec_split_attr_body(i, text, loc)->Ok_0;
                let ns = if contains_start(a) {
                    Some(i as usize)
                } else {
                    start
                };
                lemma_split_attr_body_starts(i, text, loc);
                assert(l2 is InsideDiagram ==> ns is Some);
                lemma_push_go_start(frags.drop_first(), i + 1, l2, ns);
                match push_go(frags.drop_first(), i + 1, l2, ns) {
                    Ok((rest, lf, sf)) => {
                        let attrs = a + rest;
                        if sf == ns {
                            if ns != start {
                                assert(contains_start(a));
                                lemma_split_attr_body_start_tags(i, text, loc);
                                let j = choose|j: int|
                                    0 <= j < a.len() && (#[trigger] a[j]) is DiagramStart;
                                assert(a[j] == AttrView::DiagramStart(i));
                                assert(attrs[j] == a[j]);
                                assert(sf->0 == i as usize);
                                assert((attrs[j]) == AttrView::DiagramStart(sf->0 as int));
                            }
                        } else {
                            assert(sf is Some);
                            let j = choose|j: int|
                                0 <= j < rest.len() && (#[trigger] rest[j])
                                    == AttrView::DiagramStart(sf->0 as int);
                            assert(attrs[a.len() + j] == rest[j]);
                        }
                        assert(start_marker_ok(attrs, start, sf));
                        assert(push_go(frags, i, loc, start) == Ok::<
                            (Seq<AttrView>, Location, Option<usize>),
                            StructuralError,
                        >((attrs, lf, sf)));
                    },
                    Err(_) => {},
                }
                }
            },
            SourceAttrView::Other(raw) => {
                if loc is InsideDiagram {
                } else {
                    lemma_push_go_start(frags.drop_first(), i + 1, loc, start);
                    match push_go(frags.drop_first(), i + 1, loc, start) {
                        Ok((rest, lf, sf)) => {
                            let attrs = seq![AttrView::Forward(raw)] + rest;
                            if sf != start {
                                let j = choose|j: int|
                                    0 <= j < rest.len() && (#[trigger] rest[j])
                                        == AttrView::DiagramStart(sf->0 as int);
                                assert(attrs[1 + j] == rest[j]);
                            }
                            assert(start_marker_ok(attrs, start, sf));
                            assert(push_go(frags, i, loc, start) == Ok::<
                                (Seq<AttrView>, Location, Option<usize>),
                                StructuralError,
                            >((attrs, lf, sf)));
                        },
                        Err(_) => {},
                    }
                }
            },
        }
    }
}

/// A fragment sequence whose classification ends still inside a diagram
/// fails with the unterminated-block error, and the error's fragment index
/// is the opening location: the fold's entries — produced up to the point
/// where the failure is detected, and discarded — hold a diagram start
/// tagged with exactly that fragment.
pub proof fn lemma_unterminated_references_open(frags: Seq<SourceAttrView>, k: usize)
    requires
        frags.len() <= usize::MAX,
        spec_push_attrs(frags) == Err::<Seq<AttrView>, StructuralError>(
            StructuralError::UnterminatedDiagram { open_fragment: k },
        ),
    ensures
        push_go(frags, 0, Location::OutsideDiagram, None) is Ok,
        exists|j: int|
            0 <= j < push_go(frags, 0, Location::OutsideDiagram, None)->Ok_0.0.len() && (#[trigger] push_go(
                frags,
                0,
                Location::OutsideDiagram,
                None,
            )->Ok_0.0[j]) == AttrView::DiagramStart(k as int),
{
    lemma_push_go_err_kind(frags, 0, Location::OutsideDiagram, None);
    lemma_push_go_start(frags, 0, Location::OutsideDiagram, None);
    match push_go(frags, 0, Location::OutsideDiagram, None) {
        Ok((attrs, lf, sf)) => {
            assert(lf is InsideDiagram);
            assert(sf is Some);
            assert(sf != None::<usize>);
            assert(sf->0 == k);
        },
        Err(e) => {
            assert(!(e is UnterminatedDiagram));
            assert(false);
        },
    }
}

/// The alternation shape of a classified sequence read from state `l0` to
/// state `l1`: pass-through material stands outside diagram runs, a start
/// opens a run, only diagram lines stand inside one, and an end closes it.
pub open spec fn wf_between(s: Seq<AttrView>, l0: Location, l1: Location) -> bool
    decreases s.len(),
{
    if s.len() == 0 {
        l0 == l1
    } else {
        match s[0] {
            AttrView::DiagramStart(_) => l0 is OutsideDiagram && wf_between(
                s.drop_first(),
                Location::InsideDiagram,
                l1,
            ),
            AttrView::DiagramEnd(_) => l0 is InsideDiagram && wf_between(
                s.drop_first(),
                Location::OutsideDiagram,
                l1,
            ),
            AttrView::DiagramEntry(_, _) => l0 is InsideDiagram && wf_between(
                s.drop_first(),
                Location::InsideDiagram,
                l1,
            ),
            _ => l0 is OutsideDiagram && wf_between(s.drop_first(), Location::OutsideDiagram, l1),
        }
    }
}

pub proof fn lemma_wf_concat(a: Seq<AttrView>, b: Seq<AttrView>, l0: Location, l1: Location, l2: Location)
    requires
        wf_between(a, l0, l1),
        wf_between(b, l1, l2),
    ensures
        wf_between(a + b, l0, l2),
    decreases a.len(),
{
    if a.len() == 0 {
        assert(a + b =~= b);
    } else {
        assert((a + b)[0] == a[0]);
        assert((a + b).drop_first() =~= a.drop_first() + b);
        match a[0] {
            AttrView::DiagramStart(_) => {
                lemma_wf_concat(a.drop_first(), b, Location::InsideDiagram, l1, l2);
            },
            AttrView::DiagramEnd(_) => {
                lemma_wf_concat(a.drop_first(), b, Location::OutsideDiagram, l1, l2);
            },
            AttrView::DiagramEntry(_, _) => {
                lemma_wf_concat(a.drop_first(), b, Location::InsideDiagram, l1, l2);
            },
            AttrView::Forward(_) => {
                lemma_wf_concat(a.drop_first(), b, Location::OutsideDiagram, l1, l2);
            },
            AttrView::DocComment(_, _) => {
                lemma_wf_concat(a.drop_first(), b, Location::OutsideDiagram, l1, l2);
            },
            AttrView::DiagramIncludeAnchor(_, _) => {
                lemma_wf_concat(a.drop_first(), b, Location::OutsideDiagram, l1, l2);
            },
        }
    }
}

proof fn lemma_wf_singleton(x: AttrView, l0: Location, l1: Location)
    requires
        match x {
            AttrView::DiagramStart(_) => l0 is OutsideDiagram && l1 is InsideDiagram,
            AttrView::DiagramEnd(_) => l0 is InsideDiagram && l1 is OutsideDiagram,
            AttrView::DiagramEntry(_, _) => l0 is InsideDiagram && l1 is InsideDiagram,
            _ => l0 is OutsideDiagram && l1 is OutsideDiagram,
        },
    ensures
        wf_between(seq![x], l0, l1),
{
    let s = seq![x];
    assert(s[0] == x);
    assert(s.drop_first() =~= Seq::<AttrView>::empty());
    assert(wf_between(s.drop_first(), l1, l1));
    match x {
        AttrView::DiagramStart(_) => {
            assert(wf_between(s, l0, l1));
        },
        AttrView::DiagramEnd(_) => {
            assert(wf_between(s, l0, l1));
        },
        AttrView::DiagramEntry(_, _) => {
            assert(wf_between(s, l0, l1));
        },
        AttrView::Forward(_) => {
            assert(wf_between(s, l0, l1));
        },
        AttrView::DocComment(_, _) => {
            assert(wf_between(s, l0, l1));
        },
        AttrView::DiagramIncludeAnchor(_, _) => {
            assert(wf_between(s, l0, l1));
        },
    }
}

proof fn lemma_wf_flush_doc(idx: int, buf: Seq<Seq<char>>)
    ensures
        wf_between(flush_doc(idx, buf), Location::OutsideDiagram, Location::OutsideDiagram),
{
    if buf.len() == 0 {
    } else {
        lemma_wf_singleton(
            AttrView::DocComment(idx, spec_join(buf, seq![' '])),
            Location::OutsideDiagram,
            Location::OutsideDiagram,
        );
    }
}

proof fn lemma_wf_flush_entry(idx: int, buf: Seq<Seq<char>>)
    ensures
        wf_between(flush_entry(idx, buf), Location::InsideDiagram, Location::InsideDiagram),
{
    let s = spec_join(buf, seq![' ']);
    if is_blank(s) {
    } else {
        lemma_wf_singleton(
            AttrView::DiagramEntry(idx, s),
            Location::InsideDiagram,
            Location::InsideDiagram,
        );
    }
}

/// The classifier only ever emits well-formed sequences: reading the
/// produced entries replays the state it threads.
proof fn lemma_classify_wf(idx: int, toks: Seq<Seq<char>>, loc: Location, buf: Seq<Seq<char>>)
    ensures
        match spec_classify(idx, toks, loc, buf) {
            Ok((attrs, l2)) => wf_between(attrs, loc, l2),
            Err(_) => true,
        },
    decreases toks.len(),
{
    if toks.len() == 0 {
        if loc is InsideDiagram {
            lemma_wf_flush_entry(idx, buf);
        } else {
            lemma_wf_flush_doc(idx, buf);
        }
    } else {
        let t = toks[0];
        if spec_is_directive(t) {
            if loc is InsideDiagram {
            } else {
                lemma_classify_wf(idx, toks.drop_first(), loc, buf);
                match spec_classify(idx, toks.drop_first(), loc, buf) {
                    Ok((rest, l)) => {
                        lemma_wf_singleton(
                            AttrView::DiagramIncludeAnchor(idx, spec_directive_path(t)),
                            Location::OutsideDiagram,
                            Location::OutsideDiagram,
                        );
                        lemma_wf_concat(
                            seq![AttrView::DiagramIncludeAnchor(idx, spec_directive_path(t))],
                            rest,
                            Location::OutsideDiagram,
                            Location::OutsideDiagram,
                            l,
                        );
                    },
                    Err(_) => {},
                }
            }
        } else if loc is OutsideDiagram && t == ticks() && toks.len() >= 2 && toks[1]
            == mermaid_word() {
            lemma_classify_wf(idx, toks.skip(2), Location::InsideDiagram, Seq::empty());
            match spec_classify(idx, toks.skip(2), Location::InsideDiagram, Seq::empty()) {
                Ok((rest, l)) => {
                    lemma_wf_flush_doc(idx, buf);
                    lemma_wf_singleton(
                        AttrView::DiagramStart(idx),
                        Location::OutsideDiagram,
                        Location::InsideDiagram,
                    );
                    lemma_wf_concat(
                        flush_doc(idx, buf),
                        seq![AttrView::DiagramStart(idx)],
                        Location::OutsideDiagram,
                        Location::OutsideDiagram,
                        Location::InsideDiagram,
                    );
                    lemma_wf_concat(
                        flush_doc(idx, buf) + seq![AttrView::DiagramStart(idx)],
                        rest,
                        Location::OutsideDiagram,
                        Location::InsideDiagram,
                        l,
                    );
                },
                Err(_) => {},
            }
        } else if loc is InsideDiagram && t == ticks() {
            lemma_classify_wf(idx, toks.drop_first(), Location::OutsideDiagram, Seq::empty());
            match spec_classify(idx, toks.drop_first(), Location::OutsideDiagram, Seq::empty()) {
                Ok((rest, l)) => {
                    lemma_wf_flush_entry(idx, buf);
                    lemma_wf_singleton(
                        AttrView::DiagramEnd(idx),
                        Location::InsideDiagram,
                        Location::OutsideDiagram,
                    );
                    lemma_wf_concat(
                        flush_entry(idx, buf),
                        seq![AttrView::DiagramEnd(idx)],
                        Location::InsideDiagram,
                        Location::InsideDiagram,
                        Location::OutsideDiagram,
                    );
                    lemma_wf_concat(
                        flush_entry(idx, buf) + seq![AttrView::DiagramEnd(idx)],
                        rest,
                        Location::InsideDiagram,
                        Location::OutsideDiagram,
                        l,
                    );
                },
                Err(_) => {},
            }
        } else {
            lemma_classify_wf(idx, toks.drop_first(), loc, buf.push(t));
        }
    }
}

proof fn lemma_split_attr_body_wf(idx: int, text: Seq<char>, loc: Location)
    ensures
        match spec_split_attr_body(idx, text, loc) {
            Ok((attrs, l2)) => wf_between(attrs, loc, l2),
            Err(_) => true,
        },
{
    let toks = spec_tokenize(text);
    if toks.len() == 0 && !(loc is InsideDiagram) {
        lemma_wf_singleton(
            AttrView::DocComment(idx, Seq::empty()),
            Location::OutsideDiagram,
            Location::OutsideDiagram,
        );
        assert(loc is OutsideDiagram);
    } else {
        lemma_classify_wf(idx, toks, loc, Seq::empty());
    }
}

proof fn lemma_push_go_wf(frags: Seq<SourceAttrView>, i: int, loc: Location, start: Option<usize>)
    ensures
        match push_go(frags, i, loc, start) {
            Ok((attrs, lf, _sf)) => wf_between(attrs, loc, lf),
            Err(_) => true,
        },
    decreases frags.len(),
{
    if frags.len() == 0 {
    } else {
        match frags[0] {
            SourceAttrView::Doc(text) => {
                match spec_split_attr_body(i, text, loc) {
                    Ok((attrs, l2)) => {
                        let ns = if contains_start(attrs) {
                            Some(i as usize)
                        } else {
                            start
                        };
                        lemma_split_attr_body_wf(i, text, loc);
                        lemma_push_go_wf(frags.drop_first(), i + 1, l2, ns);
                        match push_go(frags.drop_first(), i + 1, l2, ns) {
                            Ok((rest, lf, _sf)) => {
                                lemma_wf_concat(attrs, rest, loc, l2, lf);
                            },
                            Err(_) => {},
                        }
                    },
                    Err(_) => {},
                }
            },
            SourceAttrView::Other(raw) => {
                if loc is InsideDiagram {
                } else {
                    lemma_push_go_wf(frags.drop_first(), i + 1, loc, start);
                    match push_go(frags.drop_first(), i + 1, loc, start) {
                        Ok((rest, lf, _sf)) => {
                            lemma_wf_singleton(AttrView::Forward(raw), loc, loc);
                            lemma_wf_concat(seq![AttrView::Forward(raw)], rest, loc, loc, lf);
                        },
                        Err(_) => {},
                    }
                }
            },
        }
    }
}

/// For any annotation sequence whose open and close markers balance — the
/// classification succeeds — the produced entries alternate pass-through
/// material and complete start..end diagram runs, in source order: reading
/// them from the outside state ends in the outside state.
pub proof fn lemma_balanced_output(frags: Seq<SourceAttrView>, attrs: Seq<AttrView>)
    requires
        spec_push_attrs(frags) == Ok::<Seq<AttrView>, StructuralError>(attrs),
    ensures
        wf_between(attrs, Location::OutsideDiagram, Location::OutsideDiagram),
{
    lemma_push_go_wf(frags, 0, Location::OutsideDiagram, None);
    match push_go(frags, 0, Location::OutsideDiagram, None) {
        Ok((a, lf, _sf)) => {
            match lf {
                Location::OutsideDiagram => {},
                Location::InsideDiagram => {
                    assert(false);
                },
            }
        },
        Err(_) => {
            assert(false);
        },
    }
}

} // verus!
