use aquamarine::attrs::{split_attr_body, Attr, Location, StructuralError};

struct TestCase<'a> {
    location: Location,
    input: &'a str,
    expect_location: Location,
    expect_attrs: Vec<Attr>,
}

fn check(case: TestCase) {
    let mut loc = case.location;
    let attrs = split_attr_body(0, case.input, &mut loc).unwrap();
    assert_eq!(loc, case.expect_location);
    assert_eq!(attrs, case.expect_attrs);
}

#[test]
fn one_line_one_diagram() {
    let case = TestCase {
        location: Location::OutsideDiagram,
        input: "```mermaid abcd```",
        expect_location: Location::OutsideDiagram,
        expect_attrs: vec![
            Attr::DiagramStart(0),
            Attr::DiagramEntry(0, "abcd".into()),
            Attr::DiagramEnd(0),
        ],
    };

    check(case)
}

#[test]
fn one_line_multiple_diagrams() {
    let case = TestCase {
        location: Location::OutsideDiagram,
        input: "```mermaid abcd``` ```mermaid efgh``` ```mermaid ijkl```",
        expect_location: Location::OutsideDiagram,
        expect_attrs: vec![
            Attr::DiagramStart(0),
            Attr::DiagramEntry(0, "abcd".into()),
            Attr::DiagramEnd(0),
            Attr::DocComment(0, " ".into()),
            Attr::DiagramStart(0),
            Attr::DiagramEntry(0, "efgh".into()),
            Attr::DiagramEnd(0),
            Attr::DocComment(0, " ".into()),
            Attr::DiagramStart(0),
            Attr::DiagramEntry(0, "ijkl".into()),
            Attr::DiagramEnd(0),
        ],
    };

    check(case)
}

#[test]
fn other_snippet() {
    let case = TestCase {
        location: Location::OutsideDiagram,
        input: "```rust panic!()```",
        expect_location: Location::OutsideDiagram,
        expect_attrs: vec![Attr::DocComment(0, "``` rust panic!() ```".into())],
    };

    check(case)
}

#[test]
fn carry_over() {
    let case = TestCase {
        location: Location::OutsideDiagram,
        input: "left```mermaid abcd```right",
        expect_location: Location::OutsideDiagram,
        expect_attrs: vec![
            Attr::DocComment(0, "left".into()),
            Attr::DiagramStart(0),
            Attr::DiagramEntry(0, "abcd".into()),
            Attr::DiagramEnd(0),
            Attr::DocComment(0, "right".into()),
        ],
    };

    check(case)
}

#[test]
fn multiline_termination() {
    let case = TestCase {
        location: Location::InsideDiagram,
        input: "abcd```",
        expect_location: Location::OutsideDiagram,
        expect_attrs: vec![
            Attr::DiagramEntry(0, "abcd".into()),
            Attr::DiagramEnd(0),
        ],
    };

    check(case)
}

#[test]
fn multiline_termination_single_token() {
    let case = TestCase {
        location: Location::InsideDiagram,
        input: "```",
        expect_location: Location::OutsideDiagram,
        expect_attrs: vec![Attr::DiagramEnd(0)],
    };

    check(case)
}

#[test]
fn multiline_termination_carry() {
    let case = TestCase {
        location: Location::InsideDiagram,
        input: "abcd```right",
        expect_location: Location::OutsideDiagram,
        expect_attrs: vec![
            Attr::DiagramEntry(0, "abcd".into()),
            Attr::DiagramEnd(0),
            Attr::DocComment(0, "right".into()),
        ],
    };

    check(case)
}

#[test]
fn empty_fragment_preserved() {
    let case = TestCase {
        location: Location::OutsideDiagram,
        input: "",
        expect_location: Location::OutsideDiagram,
        expect_attrs: vec![Attr::DocComment(0, String::new())],
    };

    check(case)
}

#[test]
fn empty_fragment_inside_diagram() {
    let case = TestCase {
        location: Location::InsideDiagram,
        input: "",
        expect_location: Location::InsideDiagram,
        expect_attrs: Vec::new(),
    };

    check(case)
}

#[test]
fn blank_diagram_line_dropped() {
    let case = TestCase {
        location: Location::InsideDiagram,
        input: " ```",
        expect_location: Location::OutsideDiagram,
        expect_attrs: vec![Attr::DiagramEnd(0)],
    };

    check(case)
}

#[test]
fn directive_bypasses_buffer() {
    let case = TestCase {
        location: Location::OutsideDiagram,
        input: "see include_mmd!(\"d.mmd\") here",
        expect_location: Location::OutsideDiagram,
        expect_attrs: vec![
            Attr::DiagramIncludeAnchor(0, "d.mmd".into()),
            Attr::DocComment(0, "see here".into()),
        ],
    };

    check(case)
}

#[test]
fn directive_inside_diagram_is_an_error() {
    let mut loc = Location::InsideDiagram;
    let r = split_attr_body(7, "include_mmd!(\"d.mmd\")```", &mut loc);
    assert_eq!(r, Err(StructuralError::DirectiveInsideDiagram { fragment: 7 }));
    assert_eq!(loc, Location::InsideDiagram);
}

#[test]
fn attr_accessors() {
    let start = Attr::DiagramStart(3);
    assert!(start.is_diagram_start());
    assert!(!start.is_diagram_end());
    assert_eq!(start.as_ident(), Some(3));

    let end = Attr::DiagramEnd(4);
    assert!(end.is_diagram_end());
    assert_eq!(end.as_ident(), Some(4));

    let fwd = Attr::Forward("#[inline]".into());
    assert_eq!(fwd.as_ident(), None);

    let entry = Attr::DiagramEntry(5, "graph LR".into());
    assert_eq!(entry.expect_diagram_entry_text(), "graph LR");
}
