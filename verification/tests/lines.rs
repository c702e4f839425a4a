use token_visualizer::lines::{marker_label, marker_raw, strip_repeat};
use token_visualizer::parser::parse;

#[test]
fn marker_commands() {
    assert_eq!(marker_label("marker").as_deref(), Some(""));
    assert_eq!(marker_label("  MARKER  ").as_deref(), Some(""));
    assert_eq!(marker_label("marker: reviewed here ").as_deref(), Some("reviewed here"));
    assert_eq!(marker_label("Marker some text").as_deref(), Some("some text"));
    assert_eq!(marker_label("markers"), None);
    assert_eq!(marker_label("300 prompt"), None);
}

#[test]
fn marker_lines_read_back() {
    assert_eq!(marker_raw(""), "marker");
    assert_eq!(marker_raw("after review"), "marker: after review");
    for label in ["", "x", "after review", "a, b; c"] {
        assert_eq!(marker_label(&marker_raw(label)).as_deref(), Some(label));
    }
}

#[test]
fn strip_repeat_drops_directives() {
    assert_eq!(strip_repeat("300 prompt, 400 out, repeat 3"), "300 prompt, 400 out");
    assert_eq!(strip_repeat("5 times; 100 in;; 2 out "), "100 in, 2 out");
    assert_eq!(strip_repeat("  100 in  "), "100 in");
}

#[test]
fn stripped_line_counts_the_same_once() {
    let line = "300 prompt, 5000 tools, 400 out, cached 20, repeat 10";
    let a = parse(line).unwrap();
    let b = parse(&strip_repeat(line)).unwrap();
    assert_eq!(a.repeat, 10);
    assert_eq!(b.repeat, 1);
    assert_eq!((a.input, a.output, a.thinking, a.cached_override), (b.input, b.output, b.thinking, b.cached_override));
}

#[test]
fn stripping_twice_changes_nothing() {
    for line in ["300 prompt, 400 out, repeat 3", "marker: a, 2 times", "  ;; ", "cached 5; 10 in; repeat 2"] {
        let once = strip_repeat(line);
        assert_eq!(strip_repeat(&once), once);
    }
}

#[test]
fn joined_lines_add_up() {
    let a = "100 in, 5 out";
    let b = "cached 7, 2 thinking, 3 prompt";
    for joined in [format!("{a}, {b}"), format!("{b}, {a}")] {
        let p = parse(&joined).unwrap();
        assert_eq!((p.input, p.output, p.thinking, p.cached_override, p.repeat), (103, 5, 2, Some(7), 1));
    }
}
