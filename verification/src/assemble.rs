//! The assembler: walks the typed attribute sequence in order and
//! reconstitutes the documentation. Pass-through entries are kept verbatim;
//! each diagram run becomes one container-wrapped body preceded by a
//! loader-script annotation; a file-backed diagram body, supplied by the
//! caller as resolved content, is wrapped standalone the same way.

use vstd::prelude::*;

use crate::attrs::{Attr, AttrView, Attrs, SourceAttrView, StructuralError, spec_push_attrs};
use crate::text::{replace, spec_join, spec_replace};

verus! {

/// Relative path of the rendering-runtime module inside the output tree.
pub const MERMAID_JS_LOCAL: &'static str = "static.files.mermaid/mermaid.esm.min.mjs";

/// Directory of the rendering-runtime bundle inside the output tree.
pub const MERMAID_JS_LOCAL_DIR: &'static str = "static.files.mermaid";

/// Remote fallback location of the rendering-runtime module.
pub const MERMAID_JS_CDN: &'static str = "https://unpkg.com/mermaid@10/dist/mermaid.esm.min.mjs";

/// The loader-script template. The two placeholders are substituted with
/// the local path and the remote fallback location; the script tries the
/// local module first, then the remote one, and on total failure replaces
/// each diagram container with a visible warning explaining the
/// local-file access restriction and how to work around it.
pub const MERMAID_INIT_SCRIPT: &'static str = "\n    const mermaidModuleFile = \"{mermaidModuleFile}\";\n    const fallbackRemoteUrl = \"{fallbackRemoteUrl}\";\n    const rustdocVarsId= \"rustdoc-vars\";\n    const dataRootPathAttr = \"data-root-path\";\n\n\n    function initializeMermaid(mermaid) {\n     var amrn_mermaid_theme =\n         window.matchMedia && window.matchMedia('(prefers-color-scheme: dark)').matches\n         ? 'dark'\n         : 'default';\n\n      mermaid.initialize({\n        'startOnLoad':'true',\n        'theme': amrn_mermaid_theme,\n        'logLevel': 3 });\n      mermaid.run();\n    }\n\n\tfunction failedToLoadWarnings() {\n\t\tfor(var elem of document.getElementsByClassName(\"mermaid\")) {\n\t\t\t elem.innerHTML =\n\t\t\t `<div> <mark>\n\t\t\t  &#9888; Cannot render diagram! Failed to import module from local\n\t\t\t  file and remote location also!\n\t\t\t  Either access the rustdocs via HTTP/S using a\n\t\t\t  <a href=\"https://developer.mozilla.org/en-US/docs/Learn/Common_questions/Tools_and_setup/set_up_a_local_testing_server\">\n\t\t\t   local web server\n\t\t\t  </a>, for example:\n\t\t\t   python3 -m http.server --directory target/doc/, <br> or enable local file access in your\n\t\t\t   Safari/Firefox/Chrome browser, for example\n\t\t\t  starting Chrome with flag '--allow-file-access-from-files'.\n\t\t\t  </mark></div> `;\n\t\t}\n\t}\n\n\n    // If rustdoc is read from file directly, the import of mermaid module\n    // from file will fail. In this case falling back to remote location.\n    // If neither succeeds, the mermaid markdown is replaced by notice to\n    // enable file acecss in browser.\n    try {\n       var rootPath = document\n         .getElementById(rustdocVarsId)\n         .attributes[dataRootPathAttr]\n         .value;\n       const {\n         default: mermaid,\n       } = await import(rootPath + mermaidModuleFile);\n\t   initializeMermaid(mermaid);\n    } catch (e) {\n       try {\n         const {\n            default: mermaid,\n         } = await import(fallbackRemoteUrl);\n\t     initializeMermaid(mermaid);\n       } catch (e) {\n\t\t failedToLoadWarnings();\n\t   }\n    }\n";

/// Opens the container a diagram body is wrapped in.
pub const DIAGRAM_OPEN: &'static str = "<div class=\"mermaid\">";

/// Closes the container a diagram body is wrapped in.
pub const DIAGRAM_CLOSE: &'static str = "</div>";

/// One output annotation: an opaque annotation passed through untouched,
/// or a documentation annotation carrying the given text.
#[derive(Debug, Clone, PartialEq, Eq)]
pub enum RenderedAttr {
    Forward(String),
    Doc(String),
}

/// The mathematical value of a [`RenderedAttr`].
pub enum RenderedAttrView {
    Forward(Seq<char>),
    Doc(Seq<char>),
}

impl View for RenderedAttr {
    type V = RenderedAttrView;

    open spec fn view(&self) -> RenderedAttrView {
        match self {
            RenderedAttr::Forward(s) => RenderedAttrView::Forward(s@),
            RenderedAttr::Doc(s) => RenderedAttrView::Doc(s@),
        }
    }
}

impl DeepView for RenderedAttr {
    type V = RenderedAttrView;

    open spec fn deep_view(&self) -> RenderedAttrView {
        self.view()
    }
}

/// The loader script annotation: the template with both placeholders
/// substituted, wrapped in a script element.
pub open spec fn spec_loader_script() -> Seq<char> {
    "<script type=\"module\">"@ + spec_replace(
        spec_replace(MERMAID_INIT_SCRIPT@, "{mermaidModuleFile}"@, MERMAID_JS_LOCAL@),
        "{fallbackRemoteUrl}"@,
        MERMAID_JS_CDN@,
    ) + "</script>"@
}

pub fn loader_script() -> (r: String)
    ensures
        r@ == spec_loader_script(),
{
    proof {
        reveal_strlit("{mermaidModuleFile}");
        reveal_strlit("{fallbackRemoteUrl}");
    }
    let s1 = replace(MERMAID_INIT_SCRIPT, "{mermaidModuleFile}", MERMAID_JS_LOCAL);
    let s2 = replace(s1.as_str(), "{fallbackRemoteUrl}", MERMAID_JS_CDN);
    let mut r = String::from_str("<script type=\"module\">");
    r.append(s2.as_str());
    r.append("</script>");
    r
}

/// A diagram's body annotation: the lines joined with newlines, between
/// the opening and closing container markup.
pub open spec fn spec_diagram_body(parts: Seq<Seq<char>>) -> Seq<char> {
    spec_join(seq![DIAGRAM_OPEN@] + parts + seq![DIAGRAM_CLOSE@], seq!['\n'])
}

/// The two annotations emitted for one diagram: its loader script, then
/// its wrapped body.
pub open spec fn spec_diagram_docs(parts: Seq<Seq<char>>) -> Seq<RenderedAttrView> {
    seq![
        RenderedAttrView::Doc(spec_loader_script()),
        RenderedAttrView::Doc(spec_diagram_body(parts)),
    ]
}

/// Builds the loader script and the wrapped body for one diagram's lines.
pub fn generate_diagram_rustdoc(parts: &Vec<String>) -> (r: (String, String))
    ensures
        r.0@ == spec_loader_script(),
        r.1@ == spec_diagram_body(parts.deep_view()),
{
    proof {
        reveal_strlit("\n");
        assert("\n"@ =~= seq!['\n']);
    }
    let script = loader_script();
    let mut v: Vec<String> = Vec::new();
    v.push(String::from_str(DIAGRAM_OPEN));
    proof {
        assert(v.deep_view() =~= seq![DIAGRAM_OPEN@]);
    }
    let n: usize = parts.len();
    let mut i: usize = 0;
    while i < n
        invariant
            i <= n,
            n == parts@.len(),
            v.deep_view() == seq![DIAGRAM_OPEN@] + parts.deep_view().take(i as int),
        decreases n - i,
    {
        let ghost dv0 = v.deep_view();
        v.push(parts[i].clone());
        proof {
            assert(v.deep_view() =~= dv0.push(parts.deep_view()[i as int]));
            assert(dv0.push(parts.deep_view()[i as int]) =~= seq![DIAGRAM_OPEN@]
                + parts.deep_view().take(i + 1));
        }
        i += 1;
    }
    let ghost dv1 = v.deep_view();
    v.push(String::from_str(DIAGRAM_CLOSE));
    proof {
        assert(parts.deep_view().take(n as int) =~= parts.deep_view());
        assert(v.deep_view() =~= dv1.push(DIAGRAM_CLOSE@));
        assert(v.deep_view() =~= seq![DIAGRAM_OPEN@] + parts.deep_view() + seq![DIAGRAM_CLOSE@]);
    }
    let body = crate::text::join(&v, "\n");
    (script, body)
}

/// The number of entries of one diagram run: everything up to, and not
/// counting, the first closing entry.
pub open spec fn run_len(s: Seq<AttrView>) -> nat
    decreases s.len(),
{
    if s.len() == 0 {
        0
    } else if s[0] is DiagramEnd {
        0
    } else {
        (1 + run_len(s.drop_first())) as nat
    }
}

pub proof fn lemma_run_len_le(s: Seq<AttrView>)
    ensures
        run_len(s) <= s.len(),
    decreases s.len(),
{
    if s.len() == 0 {
    } else if s[0] is DiagramEnd {
    } else {
        lemma_run_len_le(s.drop_first());
    }
}

/// The body texts of the diagram-line entries of a run, in order.
pub open spec fn entry_texts(s: Seq<AttrView>) -> Seq<Seq<char>>
    decreases s.len(),
{
    if s.len() == 0 {
        Seq::empty()
    } else {
        match s[0] {
            AttrView::DiagramEntry(_, t) => seq![t] + entry_texts(s.drop_first()),
            _ => entry_texts(s.drop_first()),
        }
    }
}

/// What the assembler accepts: after each diagram start, everything up to
/// the run's closing entry — or the end of the sequence — is a diagram
/// line. The classifier only produces such sequences.
pub open spec fn render_input_wf(s: Seq<AttrView>) -> bool
    decreases s.len(),
{
    if s.len() == 0 {
        true
    } else if s[0] is DiagramStart {
        let tail = s.drop_first();
        let n = run_len(tail) as int;
        (forall|j: int| 0 <= j < n ==> (#[trigger] tail[j]) is DiagramEntry) && (if n < tail.len() {
            render_input_wf(tail.skip(n + 1))
        } else {
            true
        })
    } else {
        render_input_wf(s.drop_first())
    }
}

/// How many file-backed diagram directives the sequence holds.
pub open spec fn anchor_count(s: Seq<AttrView>) -> int
    decreases s.len(),
{
    if s.len() == 0 {
        0
    } else {
        (if s[0] is DiagramIncludeAnchor {
            1int
        } else {
            0
        }) + anchor_count(s.drop_first())
    }
}

/// The paths of the file-backed diagram directives, in order.
pub open spec fn spec_anchor_paths(s: Seq<AttrView>) -> Seq<Seq<char>>
    decreases s.len(),
{
    if s.len() == 0 {
        Seq::empty()
    } else {
        match s[0] {
            AttrView::DiagramIncludeAnchor(_, p) => seq![p] + spec_anchor_paths(s.drop_first()),
            _ => spec_anchor_paths(s.drop_first()),
        }
    }
}

pub proof fn lemma_anchor_paths_count(s: Seq<AttrView>)
    ensures
        spec_anchor_paths(s).len() == anchor_count(s),
        anchor_count(s) >= 0,
    decreases s.len(),
{
    if s.len() == 0 {
    } else {
        lemma_anchor_paths_count(s.drop_first());
    }
}

/// The assembled output for the typed entries `s`, with `incl` holding the
/// resolved content of each file-backed directive in order — `None` where
/// the read failed, in which case that one entry is skipped and the rest
/// is unaffected.
pub open spec fn spec_render(s: Seq<AttrView>, incl: Seq<Option<Seq<char>>>) -> Seq<
    RenderedAttrView,
>
    decreases s.len(),
{
    if s.len() == 0 {
        Seq::empty()
    } else {
        match s[0] {
            AttrView::Forward(t) => seq![RenderedAttrView::Forward(t)] + spec_render(
                s.drop_first(),
                incl,
            ),
            AttrView::DocComment(_, t) => seq![RenderedAttrView::Doc(t)] + spec_render(
                s.drop_first(),
                incl,
            ),
            AttrView::DiagramStart(_) => {
                let tail = s.drop_first();
                let n = run_len(tail) as int;
                let docs = spec_diagram_docs(entry_texts(tail.take(n)));
                if n < tail.len() {
                    docs + spec_render(tail.skip(n + 1), incl)
                } else {
                    docs
                }
            },
            AttrView::DiagramEntry(_, _) => spec_render(s.drop_first(), incl),
            AttrView::DiagramEnd(_) => spec_render(s.drop_first(), incl),
            AttrView::DiagramIncludeAnchor(_, _) => {
                if incl.len() == 0 {
                    spec_render(s.drop_first(), incl)
                } else {
                    match incl[0] {
                        Some(content) => spec_diagram_docs(seq![content]) + spec_render(
                            s.drop_first(),
                            incl.drop_first(),
                        ),
                        None => spec_render(s.drop_first(), incl.drop_first()),
                    }
                }
            },
        }
    }
}

proof fn lemma_anchor_count_skip(s: Seq<AttrView>, m: int)
    requires
        0 <= m <= s.len(),
        forall|j: int| 0 <= j < m ==> !((#[trigger] s[j]) is DiagramIncludeAnchor),
    ensures
        anchor_count(s.skip(m)) == anchor_count(s),
    decreases m,
{
    if m > 0 {
        assert(!(s[0] is DiagramIncludeAnchor));
        assert forall|j: int| 0 <= j < m - 1 implies !((#[trigger] s.drop_first()[j])
            is DiagramIncludeAnchor) by {
            assert(s.drop_first()[j] == s[j + 1]);
        }
        lemma_anchor_count_skip(s.drop_first(), m - 1);
        assert(s.skip(m) =~= s.drop_first().skip(m - 1));
    } else {
        assert(s.skip(0) =~= s);
    }
}

proof fn lemma_run_len_at(s: Seq<AttrView>, m: int)
    requires
        0 <= m <= s.len(),
        forall|j: int| 0 <= j < m ==> !((#[trigger] s[j]) is DiagramEnd),
        m == s.len() || s[m] is DiagramEnd,
    ensures
        run_len(s) == m,
    decreases m,
{
    if m == 0 {
    } else {
        assert(!(s[0] is DiagramEnd));
        assert forall|j: int| 0 <= j < m - 1 implies !((#[trigger] s.drop_first()[j])
            is DiagramEnd) by {
            assert(s.drop_first()[j] == s[j + 1]);
        }
        if m < s.len() {
            assert(s.drop_first()[m - 1] == s[m]);
        }
        lemma_run_len_at(s.drop_first(), m - 1);
    }
}

proof fn lemma_run_len_lower(s: Seq<AttrView>, m: int)
    requires
        0 <= m < s.len(),
        forall|j: int| 0 <= j <= m ==> !((#[trigger] s[j]) is DiagramEnd),
    ensures
        run_len(s) >= m + 1,
    decreases m,
{
    assert(!(s[0] is DiagramEnd));
    if m == 0 {
    } else {
        assert forall|j: int| 0 <= j <= m - 1 implies !((#[trigger] s.drop_first()[j])
            is DiagramEnd) by {
            assert(s.drop_first()[j] == s[j + 1]);
        }
        lemma_run_len_lower(s.drop_first(), m - 1);
    }
}

proof fn lemma_entry_texts_push(s: Seq<AttrView>, x: AttrView)
    ensures
        entry_texts(s.push(x)) == entry_texts(s) + (match x {
            AttrView::DiagramEntry(_, t) => seq![t],
            _ => Seq::<Seq<char>>::empty(),
        }),
    decreases s.len(),
{
    let tailpart = (match x {
        AttrView::DiagramEntry(_, t) => seq![t],
        _ => Seq::<Seq<char>>::empty(),
    });
    if s.len() == 0 {
        assert(s.push(x)[0] == x);
        assert(s.push(x).drop_first() =~= Seq::<AttrView>::empty());
        assert(entry_texts(Seq::<AttrView>::empty()) == Seq::<Seq<char>>::empty());
        assert(entry_texts(s) == Seq::<Seq<char>>::empty());
        match x {
            AttrView::DiagramEntry(_, t) => {
                assert(entry_texts(s.push(x)) == seq![t] + entry_texts(
                    s.push(x).drop_first(),
                ));
                assert(entry_texts(s.push(x)) =~= entry_texts(s) + tailpart);
            },
            _ => {
                assert(entry_texts(s.push(x)) == entry_texts(s.push(x).drop_first()));
                assert(entry_texts(s.push(x)) =~= entry_texts(s) + tailpart);
            },
        }
    } else {
        lemma_entry_texts_push(s.drop_first(), x);
        assert(s.push(x)[0] == s[0]);
        assert(s.push(x).drop_first() =~= s.drop_first().push(x));
        assert(entry_texts(s.push(x).drop_first()) == entry_texts(s.drop_first().push(x)));
        match s[0] {
            AttrView::DiagramEntry(_, t) => {
                assert(entry_texts(s.push(x)) == seq![t] + entry_texts(s.drop_first().push(x)));
                assert(entry_texts(s) == seq![t] + entry_texts(s.drop_first()));
                assert(seq![t] + (entry_texts(s.drop_first()) + tailpart) =~= (seq![t]
                    + entry_texts(s.drop_first())) + tailpart);
            },
            _ => {
                assert(entry_texts(s.push(x)) == entry_texts(s.drop_first().push(x)));
                assert(entry_texts(s) == entry_texts(s.drop_first()));
            },
        }
        assert(entry_texts(s.push(x)) =~= entry_texts(s) + tailpart);
    }
}

impl Attrs {
    /// The paths of the file-backed diagram directives, in order; the
    /// caller resolves each against the externally supplied project root
    /// and hands the contents to [`Attrs::assemble`].
    pub fn anchor_paths(&self) -> (r: Vec<String>)
        ensures
            r.deep_view() == spec_anchor_paths(self@),
            r@.len() == anchor_count(self@),
    {
        let ghost sv = self@;
        let entries = self.entries();
        let n: usize = entries.len();
        let mut out: Vec<String> = Vec::new();
        let mut i: usize = 0;
        proof {
            assert(sv.skip(0) =~= sv);
            assert(out.deep_view() + spec_anchor_paths(sv) =~= spec_anchor_paths(sv));
        }
        while i < n
            invariant
                i <= n,
                n == entries@.len(),
                sv == entries.deep_view(),
                out.deep_view() + spec_anchor_paths(sv.skip(i as int)) == spec_anchor_paths(sv),
            decreases n - i,
        {
            let ghost rem = sv.skip(i as int);
            proof {
                assert(rem[0] == sv[i as int]);
                assert(sv[i as int] == entries@[i as int]@);
                assert(rem.drop_first() =~= sv.skip(i + 1));
            }
            match &entries[i] {
                Attr::DiagramIncludeAnchor(_, p) => {
                    let ghost dv0 = out.deep_view();
                    out.push(p.clone());
                    proof {
                        assert(out.deep_view() =~= dv0.push(p@));
                        assert(dv0.push(p@) =~= dv0 + seq![p@]);
                    }
                },
                _ => {},
            }
            i += 1;
        }
        proof {
            assert(sv.skip(n as int).len() == 0);
            assert(out.deep_view() + Seq::<Seq<char>>::empty() =~= out.deep_view());
            lemma_anchor_paths_count(sv);
        }
        out
    }

    /// Assembles the output annotations for this attribute sequence.
    /// `resolved` holds the content read for each file-backed directive,
    /// in order, with `None` where the read failed: that entry is skipped
    /// and the rest of the sequence is unaffected.
    pub fn assemble(&self, resolved: &Vec<Option<String>>) -> (r: Vec<RenderedAttr>)
        requires
            render_input_wf(self@),
            resolved.deep_view().len() == anchor_count(self@),
        ensures
            r.deep_view() == spec_render(self@, resolved.deep_view()),
    {
        let ghost sv = self@;
        let ghost rv = resolved.deep_view();
        let entries = self.entries();
        let n: usize = entries.len();
        let rn: usize = resolved.len();
        let mut out: Vec<RenderedAttr> = Vec::new();
        let mut i: usize = 0;
        let mut k: usize = 0;
        proof {
            assert(sv.skip(0) =~= sv);
            assert(rv.skip(0) =~= rv);
            assert(out.deep_view() + spec_render(sv, rv) =~= spec_render(sv, rv));
        }
        while i < n
            invariant
                i <= n,
                k <= rn,
                rn == resolved@.len(),
                n == entries@.len(),
                sv == entries.deep_view(),
                sv == self@,
                rv == resolved.deep_view(),
                rv.len() == resolved@.len(),
                render_input_wf(sv.skip(i as int)),
                anchor_count(sv.skip(i as int)) == rv.len() - k,
                out.deep_view() + spec_render(sv.skip(i as int), rv.skip(k as int)) == spec_render(
                    sv,
                    rv,
                ),
            decreases n - i,
        {
            let ghost rem = sv.skip(i as int);
            let ghost rvk = rv.skip(k as int);
            proof {
                assert(rem[0] == sv[i as int]);
                assert(sv[i as int] == entries@[i as int]@);
                assert(rem.drop_first() =~= sv.skip(i + 1));
            }
            match &entries[i] {
                Attr::Forward(t) => {
                    let ghost dv0 = out.deep_view();
                    out.push(RenderedAttr::Forward(t.clone()));
                    proof {
                        assert(out.deep_view() =~= dv0.push(RenderedAttrView::Forward(t@)));
                        assert(dv0.push(RenderedAttrView::Forward(t@)) =~= dv0 + seq![
                            RenderedAttrView::Forward(t@),
                        ]);
                        lemma_anchor_paths_count(rem.drop_first());
                    }
                    i += 1;
                },
                Attr::DocComment(_, t) => {
                    let ghost dv0 = out.deep_view();
                    out.push(RenderedAttr::Doc(t.clone()));
                    proof {
                        assert(out.deep_view() =~= dv0.push(RenderedAttrView::Doc(t@)));
                        assert(dv0.push(RenderedAttrView::Doc(t@)) =~= dv0 + seq![
                            RenderedAttrView::Doc(t@),
                        ]);
                        lemma_anchor_paths_count(rem.drop_first());
                    }
                    i += 1;
                },
                Attr::DiagramStart(_) => {
                    let ghost tail = sv.skip(i + 1);
                    let ghost nrun = run_len(tail) as int;
                    proof {
                        assert(rem.drop_first() =~= tail);
                        assert(render_input_wf(rem));
                        lemma_run_len_le(tail);
                        assert(tail.take(0) =~= Seq::<AttrView>::empty());
                    }
                    let mut parts: Vec<String> = Vec::new();
                    let mut j: usize = i + 1;
                    while j < n && !entries[j].is_diagram_end()
                        invariant
                            i + 1 <= j <= n,
                            n == entries@.len(),
                            sv == entries.deep_view(),
                            tail == sv.skip(i + 1),
                            i < n,
                            nrun == run_len(tail),
                            nrun <= tail.len(),
                            tail.len() == n - i - 1,
                            forall|t: int| 0 <= t < nrun ==> (#[trigger] tail[t]) is DiagramEntry,
                            forall|t: int|
                                0 <= t < j - i - 1 ==> !((#[trigger] tail[t]) is DiagramEnd),
                            parts.deep_view() == entry_texts(tail.take(j - i - 1)),
                        decreases n - j,
                    {
                        let ghost m = j - i - 1;
                        proof {
                            assert(tail[m] == sv[j as int]);
                            assert(sv[j as int] == entries@[j as int]@);
                            assert(!(tail[m] is DiagramEnd));
                            lemma_run_len_lower(tail, m);
                            assert(m < nrun);
                            assert(tail[m] is DiagramEntry);
                        }
                        let text = entries[j].expect_diagram_entry_text();
                        let ghost pdv = parts.deep_view();
                        parts.push(text.to_owned());
                        proof {
                            lemma_entry_texts_push(tail.take(m), tail[m]);
                            assert(tail.take(m).push(tail[m]) =~= tail.take(m + 1));
                            assert(parts.deep_view() =~= pdv.push(text@));
                            assert(pdv.push(text@) =~= entry_texts(tail.take(m)) + seq![text@]);
                        }
                        j += 1;
                    }
                    let ghost m = j - i - 1;
                    proof {
                        if j < n {
                            assert(tail[m] == sv[j as int]);
                            assert(sv[j as int] == entries@[j as int]@);
                            assert(tail[m] is DiagramEnd);
                        }
                        lemma_run_len_at(tail, m);
                        assert(nrun == m);
                        assert(tail.take(m) =~= tail.take(nrun));
                    }
                    let (script, body) = generate_diagram_rustdoc(&parts);
                    let ghost dv0 = out.deep_view();
                    out.push(RenderedAttr::Doc(script));
                    out.push(RenderedAttr::Doc(body));
                    proof {
                        assert(out.deep_view() =~= dv0 + spec_diagram_docs(
                            entry_texts(tail.take(nrun)),
                        ));
                    }
                    let ni: usize = if j < n {
                        j + 1
                    } else {
                        j
                    };
                    proof {
                        assert forall|j2: int| 0 <= j2 < ni - i implies !((#[trigger] rem[j2])
                            is DiagramIncludeAnchor) by {
                            if j2 == 0 {
                            } else if j2 <= m {
                                assert(rem[j2] == tail[j2 - 1]);
                                assert(tail[j2 - 1] is DiagramEntry);
                            } else {
                                assert(j2 == m + 1 && j < n);
                                assert(rem[j2] == tail[m]);
                            }
                        }
                        lemma_anchor_count_skip(rem, ni - i);
                        assert(rem.skip(ni - i) =~= sv.skip(ni as int));
                        if nrun < tail.len() {
                            assert(ni == j + 1);
                            assert(tail.skip(nrun + 1) =~= sv.skip(ni as int));
                        } else {
                            assert(ni == n);
                            assert(sv.skip(ni as int).len() == 0);
                            assert(spec_render(sv.skip(ni as int), rv.skip(k as int))
                                =~= Seq::<RenderedAttrView>::empty());
                        }
                        assert(out.deep_view() + spec_render(sv.skip(ni as int), rv.skip(k as int))
                            =~= dv0 + spec_render(rem, rvk));
                    }
                    i = ni;
                },
                Attr::DiagramEntry(_, _) => {
                    proof {
                        lemma_anchor_paths_count(rem.drop_first());
                    }
                    i += 1;
                },
                Attr::DiagramEnd(_) => {
                    proof {
                        lemma_anchor_paths_count(rem.drop_first());
                    }
                    i += 1;
                },
                Attr::DiagramIncludeAnchor(_, _) => {
                    proof {
                        lemma_anchor_paths_count(rem.drop_first());
                        assert(anchor_count(rem) == 1 + anchor_count(rem.drop_first()));
                        assert(k < rv.len());
                        assert(rvk[0] == rv[k as int]);
                        assert(rv[k as int] == resolved@[k as int].deep_view());
                        assert(rvk.drop_first() =~= rv.skip(k + 1));
                    }
                    match &resolved[k] {
                        Some(content) => {
                            let mut parts: Vec<String> = Vec::new();
                            parts.push(content.clone());
                            proof {
                                assert(parts.deep_view() =~= seq![content@]);
                            }
                            let (script, body) = generate_diagram_rustdoc(&parts);
                            let ghost dv0 = out.deep_view();
                            out.push(RenderedAttr::Doc(script));
                            out.push(RenderedAttr::Doc(body));
                            proof {
                                assert(out.deep_view() =~= dv0 + spec_diagram_docs(seq![content@]));
                                assert(out.deep_view() + spec_render(sv.skip(i + 1), rv.skip(k + 1))
                                    =~= dv0 + spec_render(rem, rvk));
                            }
                        },
                        None => {
                            proof {
                                assert(spec_render(rem, rvk) == spec_render(
                                    rem.drop_first(),
                                    rvk.drop_first(),
                                ));
                            }
                        },
                    }
                    k += 1;
                    i += 1;
                },
            }
        }
        proof {
            assert(sv.skip(n as int).len() == 0);
            assert(out.deep_view() + Seq::<RenderedAttrView>::empty() =~= out.deep_view());
        }
        out
    }
}

/// Inside a well-formed run, everything up to the closing entry is a
/// diagram line, and what follows the close is well-formed again.
proof fn lemma_wf_run(t: Seq<AttrView>, l1: crate::attrs::Location)
    requires
        crate::attrs::wf_between(t, crate::attrs::Location::InsideDiagram, l1),
    ensures
        forall|j: int| 0 <= j < run_len(t) ==> (#[trigger] t[j]) is DiagramEntry,
        run_len(t) < t.len() ==> crate::attrs::wf_between(
            t.skip(run_len(t) as int + 1),
            crate::attrs::Location::OutsideDiagram,
            l1,
        ),
    decreases t.len(),
{
    if t.len() == 0 {
    } else {
        match t[0] {
            AttrView::DiagramEnd(_) => {
                assert(run_len(t) == 0);
                assert(t.skip(1) =~= t.drop_first());
            },
            AttrView::DiagramEntry(_, _) => {
                lemma_wf_run(t.drop_first(), l1);
                lemma_run_len_le(t.drop_first());
                let n = run_len(t) as int;
                assert(n == 1 + run_len(t.drop_first()));
                assert forall|j: int| 0 <= j < n implies (#[trigger] t[j]) is DiagramEntry by {
                    if j > 0 {
                        assert(t[j] == t.drop_first()[j - 1]);
                    }
                }
                if n < t.len() {
                    assert(t.skip(n + 1) =~= t.drop_first().skip(n));
                }
            },
            _ => {
                assert(false);
            },
        }
    }
}

/// A balanced attribute sequence — as the classifier emits on success — is
/// valid assembler input.
pub proof fn lemma_wf_render_input(s: Seq<AttrView>, l1: crate::attrs::Location)
    requires
        crate::attrs::wf_between(s, crate::attrs::Location::OutsideDiagram, l1),
    ensures
        render_input_wf(s),
    decreases s.len(),
{
    if s.len() == 0 {
    } else {
        match s[0] {
            AttrView::DiagramStart(_) => {
                let tail = s.drop_first();
                let n = run_len(tail) as int;
                lemma_wf_run(tail, l1);
                lemma_run_len_le(tail);
                if n < tail.len() {
                    lemma_wf_render_input(tail.skip(n + 1), l1);
                }
            },
            AttrView::DiagramEnd(_) => {
                assert(false);
            },
            AttrView::DiagramEntry(_, _) => {
                assert(false);
            },
            _ => {
                lemma_wf_render_input(s.drop_first(), l1);
            },
        }
    }
}

/// Running the pipeline twice on the same input yields identical attribute
/// sequences and identical assembled output: both stages are functions of
/// the input alone, with the asset-placement side effect outside them.
pub proof fn lemma_pipeline_deterministic(
    frags: Seq<SourceAttrView>,
    incl: Seq<Option<Seq<char>>>,
    a1: Result<Seq<AttrView>, StructuralError>,
    a2: Result<Seq<AttrView>, StructuralError>,
)
    requires
        a1 == spec_push_attrs(frags),
        a2 == spec_push_attrs(frags),
    ensures
        a1 == a2,
        a1 is Ok ==> spec_render(a1->Ok_0, incl) == spec_render(a2->Ok_0, incl),
{
}

} // verus!
