//! Showcase declarations whose documentation exercises the syntax the
//! pipeline recognises: an inline diagram block, a styled diagram, and a
//! diagram loaded from a file through the directive token. Each runs the
//! whole pipeline on its own example text; the balance laws discharge the
//! assembler's preconditions, so the chain needs no runtime checks.

use vstd::prelude::*;

use crate::assemble::{
    anchor_count, lemma_wf_render_input, spec_render, RenderedAttr,
};
use crate::attrs::{lemma_balanced_output, spec_push_attrs, Attrs, Location, SourceAttr};

verus! {

/// Classifies the fragments and assembles them, with every file-backed
/// directive left unresolved — as after a failed read, each such entry is
/// skipped. The one structural-fault answer is `None`.
fn classify_and_assemble(frags: Vec<SourceAttr>) -> (r: Option<Vec<RenderedAttr>>)
    ensures
        match r {
            Option::Some(out) => spec_push_attrs(frags.deep_view()) is Ok && out.deep_view()
                == spec_render(
                spec_push_attrs(frags.deep_view())->Ok_0,
                Seq::new(
                    anchor_count(spec_push_attrs(frags.deep_view())->Ok_0) as nat,
                    |i: int| None::<Seq<char>>,
                ),
            ),
            Option::None => spec_push_attrs(frags.deep_view()) is Err,
        },
{
    let ghost fv = frags.deep_view();
    match Attrs::from_attrs(frags) {
        Ok(a) => {
            proof {
                lemma_balanced_output(fv, a@);
                lemma_wf_render_input(a@, Location::OutsideDiagram);
            }
            let paths = a.anchor_paths();
            let n: usize = paths.len();
            let mut resolved: Vec<Option<String>> = Vec::new();
            let mut i: usize = 0;
            while i < n
                invariant
                    i <= n,
                    resolved.deep_view() =~= Seq::new(i as nat, |j: int| None::<Seq<char>>),
                decreases n - i,
            {
                let ghost dv0 = resolved.deep_view();
                resolved.push(None);
                proof {
                    assert(resolved.deep_view() =~= dv0.push(None::<Seq<char>>));
                    assert(dv0.push(None::<Seq<char>>) =~= Seq::new(
                        (i + 1) as nat,
                        |j: int| None::<Seq<char>>,
                    ));
                }
                i += 1;
            }
            proof {
                assert(resolved.deep_view().len() == anchor_count(a@));
            }
            Some(a.assemble(&resolved))
        },
        Err(_) => None,
    }
}

/// A function showcasing the pipeline's defaults.
///
/// A diagram is embedded in documentation with a fenced code snippet:
///
/// ```mermaid
/// graph LR
///     s([Source]) --> a[[aquamarine]]
///     r[[rustdoc]] --> f([Docs w/ Mermaid!])
///     subgraph rustc[Rust Compiler]
///     a -. "inject mermaid.js" .-> r
///     end
/// ```
///
/// The rendered diagram stands in place of the code snippet, and the
/// comments around it are preserved.
pub fn example() {
    let mut frags: Vec<SourceAttr> = Vec::new();
    frags.push(SourceAttr::Doc(String::from_str("A diagram stands below.")));
    frags.push(SourceAttr::Doc(String::from_str("```mermaid graph LR")));
    frags.push(SourceAttr::Doc(String::from_str("s([Source]) --> r[[rustdoc]]```")));
    let _ = classify_and_assemble(frags);
}

/// A custom theme applies on a per-diagram basis through the `%%init%%`
/// annotation on the first diagram line.
///
/// ```mermaid
/// %%{init: {
///     'theme': 'base',
///     'themeVariables': {
///            'primaryColor': '#ffcccc',
///            'edgeLabelBackground':'#ccccff',
///            'tertiaryColor': '#fff0f0' }}}%%
/// graph TD
///      A(Diagram needs to be drawn) --> B{Does it have 'init' annotation?}
///      B -->|No| C(Apply default theme)
///      B -->|Yes| D(Apply customized theme)
/// ```
pub fn example_with_styling() {
    let mut frags: Vec<SourceAttr> = Vec::new();
    frags.push(SourceAttr::Doc(String::from_str("```mermaid %%{init: {'theme': 'base'}}%%")));
    frags.push(SourceAttr::Doc(String::from_str("graph TD")));
    frags.push(SourceAttr::Doc(String::from_str("A --> B```")));
    let _ = classify_and_assemble(frags);
}

/// A diagram can be loaded from a file as well, which keeps large diagram
/// bodies out of the documentation text:
///
/// include_mmd!("diagram_0.mmd")
///
/// Several file-backed diagrams may stand in a single documentation
/// block, each through its own `include_mmd!("/path/to/diagram.mmd")`
/// directive.
///
/// include_mmd!(diagram_1.mmd)
pub fn example_load_from_file() {
    let mut frags: Vec<SourceAttr> = Vec::new();
    frags.push(SourceAttr::Doc(String::from_str("include_mmd!(\"diagram_0.mmd\")")));
    frags.push(SourceAttr::Doc(String::from_str("include_mmd!(diagram_1.mmd)")));
    let _ = classify_and_assemble(frags);
}

} // verus!
