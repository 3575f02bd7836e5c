use aquamarine::assemble::{
    RenderedAttr, DIAGRAM_CLOSE, DIAGRAM_OPEN, MERMAID_INIT_SCRIPT, MERMAID_JS_CDN,
    MERMAID_JS_LOCAL,
};
use aquamarine::attrs::{Attr, Attrs, SourceAttr, StructuralError};
use aquamarine::check_input_attrs;

fn doc(s: &str) -> SourceAttr {
    SourceAttr::Doc(s.to_string())
}

fn other(s: &str) -> SourceAttr {
    SourceAttr::Other(s.to_string())
}

fn expected_script() -> String {
    format!(
        "<script type=\"module\">{}</script>",
        MERMAID_INIT_SCRIPT
            .replace("{mermaidModuleFile}", MERMAID_JS_LOCAL)
            .replace("{fallbackRemoteUrl}", MERMAID_JS_CDN)
    )
}

fn wrapped(body_lines: &[&str]) -> String {
    let mut parts: Vec<&str> = vec![DIAGRAM_OPEN];
    parts.extend_from_slice(body_lines);
    parts.push(DIAGRAM_CLOSE);
    parts.join("\n")
}

#[test]
fn block_spanning_three_fragments() {
    let attrs = Attrs::from_attrs(vec![
        doc("```mermaid graph"),
        doc("a --> b"),
        doc("c --> d```"),
    ])
    .unwrap();
    assert_eq!(
        attrs.entries(),
        &vec![
            Attr::DiagramStart(0),
            Attr::DiagramEntry(0, "graph".to_string()),
            Attr::DiagramEntry(1, "a --> b".to_string()),
            Attr::DiagramEntry(2, "c --> d".to_string()),
            Attr::DiagramEnd(2),
        ]
    );
}

#[test]
fn unterminated_block_fails_with_opening_location() {
    let r = Attrs::from_attrs(vec![doc("plain text"), doc("```mermaid graph")]);
    assert_eq!(r.map(|a| a.entries().clone()), Err(StructuralError::UnterminatedDiagram {
        open_fragment: 1,
    }));

    let r = Attrs::from_attrs(vec![doc("```mermaid still open"), doc("more lines")]);
    assert_eq!(r.map(|a| a.entries().clone()), Err(StructuralError::UnterminatedDiagram {
        open_fragment: 0,
    }));
}

#[test]
fn non_doc_attr_inside_diagram_fails() {
    let r = Attrs::from_attrs(vec![doc("```mermaid graph"), other("#[derive(Debug)]")]);
    assert_eq!(r.map(|a| a.entries().clone()), Err(StructuralError::UnexpectedAttr {
        fragment: 1,
    }));
}

#[test]
fn empty_fragment_yields_empty_entry() {
    let attrs = Attrs::from_attrs(vec![doc("before"), doc(""), doc("after")]).unwrap();
    assert_eq!(
        attrs.entries(),
        &vec![
            Attr::DocComment(0, "before".to_string()),
            Attr::DocComment(1, String::new()),
            Attr::DocComment(2, "after".to_string()),
        ]
    );
}

#[test]
fn forward_attrs_pass_through() {
    let attrs = Attrs::from_attrs(vec![other("#[inline]"), doc("hi")]).unwrap();
    assert_eq!(
        attrs.entries(),
        &vec![
            Attr::Forward("#[inline]".to_string()),
            Attr::DocComment(1, "hi".to_string()),
        ]
    );
    let out = attrs.assemble(&Vec::new());
    assert_eq!(
        out,
        vec![
            RenderedAttr::Forward("#[inline]".to_string()),
            RenderedAttr::Doc("hi".to_string()),
        ]
    );
}

#[test]
fn assemble_wraps_diagram_run() {
    let attrs = Attrs::from_attrs(vec![doc("```mermaid abcd```")]).unwrap();
    let out = attrs.assemble(&Vec::new());
    assert_eq!(
        out,
        vec![
            RenderedAttr::Doc(expected_script()),
            RenderedAttr::Doc(wrapped(&["abcd"])),
        ]
    );
    assert_eq!(wrapped(&["abcd"]), "<div class=\"mermaid\">\nabcd\n</div>");
}

#[test]
fn assemble_keeps_source_order() {
    let attrs = Attrs::from_attrs(vec![doc("left```mermaid abcd```right")]).unwrap();
    let out = attrs.assemble(&Vec::new());
    assert_eq!(
        out,
        vec![
            RenderedAttr::Doc("left".to_string()),
            RenderedAttr::Doc(expected_script()),
            RenderedAttr::Doc(wrapped(&["abcd"])),
            RenderedAttr::Doc("right".to_string()),
        ]
    );
}

#[test]
fn assemble_resolved_directive() {
    let attrs = Attrs::from_attrs(vec![doc("include_mmd!(\"diagram_0.mmd\")")]).unwrap();
    assert_eq!(attrs.anchor_paths(), vec!["diagram_0.mmd".to_string()]);

    let out = attrs.assemble(&vec![Some("graph TD".to_string())]);
    assert_eq!(
        out,
        vec![
            RenderedAttr::Doc(expected_script()),
            RenderedAttr::Doc(wrapped(&["graph TD"])),
        ]
    );
}

#[test]
fn assemble_skips_failed_directive_read() {
    let attrs = Attrs::from_attrs(vec![
        doc("include_mmd!(\"missing.mmd\")"),
        doc("tail text"),
    ])
    .unwrap();
    assert_eq!(attrs.anchor_paths(), vec!["missing.mmd".to_string()]);

    let out = attrs.assemble(&vec![None]);
    assert_eq!(out, vec![RenderedAttr::Doc("tail text".to_string())]);
}

#[test]
fn pipeline_is_deterministic() {
    let frags = vec![
        doc("intro"),
        doc("```mermaid graph"),
        doc("a --> b```"),
        doc("include_mmd!(\"d.mmd\")"),
    ];
    let resolved = vec![Some("sequenceDiagram".to_string())];

    let a1 = Attrs::from_attrs(frags.clone()).unwrap();
    let a2 = Attrs::from_attrs(frags).unwrap();
    assert_eq!(a1.entries(), a2.entries());

    let o1 = a1.assemble(&resolved);
    let o2 = a2.assemble(&resolved);
    assert_eq!(o1, o2);
}

#[test]
fn repeated_marker_attribute_is_reported() {
    let paths = vec!["doc".to_string(), "aquamarine".to_string(), "doc".to_string()];
    assert_eq!(check_input_attrs(&paths), Some(1));

    let paths = vec!["doc".to_string(), "inline".to_string()];
    assert_eq!(check_input_attrs(&paths), None);
}

#[test]
fn directive_inside_diagram_across_fragments_fails() {
    let r = Attrs::from_attrs(vec![
        doc("```mermaid graph"),
        doc("include_mmd!(\"d.mmd\")"),
    ]);
    assert_eq!(r.map(|a| a.entries().clone()), Err(StructuralError::DirectiveInsideDiagram {
        fragment: 1,
    }));
}
