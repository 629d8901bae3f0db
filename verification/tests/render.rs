use pretty::{BufWrite, Doc, SinkEvent};

#[derive(Clone, Debug, PartialEq, Eq)]
enum Color {
    Red,
    Blue,
}

fn text(s: &str) -> Doc<Color> {
    Doc::Text(s.to_string())
}

fn cat(l: Doc<Color>, r: Doc<Color>) -> Doc<Color> {
    Doc::Append(Box::new(l), Box::new(r))
}

fn group(d: Doc<Color>) -> Doc<Color> {
    Doc::Group(Box::new(d))
}

fn nest(n: usize, d: Doc<Color>) -> Doc<Color> {
    Doc::Nest(n, Box::new(d))
}

fn render(d: &Doc<Color>, width: usize) -> String {
    d.pretty(width).to_text()
}

fn hello_world() -> Doc<Color> {
    group(cat(cat(text("hello"), Doc::Space), text("world")))
}

#[test]
fn group_fits_wide() {
    assert_eq!(render(&hello_world(), 80), "hello world");
}

#[test]
fn group_breaks_narrow() {
    assert_eq!(render(&hello_world(), 5), "hello\nworld");
}

#[test]
fn nest_indents_broken_group() {
    let d = nest(2, group(cat(cat(text("a"), Doc::Space), text("b"))));
    assert_eq!(render(&d, 1), "a\n  b");
}

#[test]
fn group_exactly_fits() {
    assert_eq!(render(&hello_world(), 11), "hello world");
    assert_eq!(render(&hello_world(), 10), "hello\nworld");
}

#[test]
fn inner_group_uses_full_context_width() {
    // the outer group fits flat at width 8, so the inner group must render
    // flat too, even though "bb cc" would not fit a 2-column leftover budget
    // judged in isolation
    let inner = group(cat(cat(text("bb"), Doc::Space), text("cc")));
    let outer = group(cat(cat(text("aa"), Doc::Space), inner));
    assert_eq!(render(&outer, 8), "aa bb cc");
    assert_eq!(render(&outer, 7), "aa\nbb cc");
}

#[test]
fn lookahead_counts_text_after_group() {
    // the trailing "!!" shares the line with the group, so the group only
    // fits when the budget covers it too
    let d = cat(group(cat(cat(text("ab"), Doc::Space), text("cd"))), text("!!"));
    assert_eq!(render(&d, 7), "ab cd!!");
    assert_eq!(render(&d, 6), "ab\ncd!!");
}

#[test]
fn no_break_document_ignores_width() {
    let d = cat(text("one"), cat(text("two"), text("three")));
    assert_eq!(render(&d, 80), "onetwothree");
    assert_eq!(render(&d, 0), "onetwothree");
}

#[test]
fn hard_break_ignores_width() {
    let d = group(cat(cat(text("a"), Doc::Newline), text("b")));
    assert_eq!(render(&d, 80), "a\nb");
}

#[test]
fn hard_break_reflows_committed_flat_groups() {
    // a forced break inside content following a flat-committed group makes
    // the engine re-check what is left on the line
    let d = cat(
        group(cat(cat(text("xx"), Doc::Space), text("yy"))),
        cat(Doc::Newline, text("z")),
    );
    assert_eq!(render(&d, 80), "xx yy\nz");
}

#[test]
fn nest_composes() {
    let base = || group(cat(cat(text("a"), Doc::Space), text("b")));
    let twice = nest(1, nest(2, base()));
    let once = nest(3, base());
    assert_eq!(render(&twice, 1), render(&once, 1));
    assert_eq!(render(&twice, 1), "a\n   b");
}

#[test]
fn width_zero_breaks_every_group() {
    let d = group(cat(cat(text("a"), Doc::Space), text("b")));
    assert_eq!(render(&d, 0), "a\nb");
}

#[test]
fn literal_is_never_split() {
    let d = text("abcdef");
    assert_eq!(render(&d, 2), "abcdef");
}

#[test]
fn empty_document_renders_empty() {
    assert_eq!(render(&Doc::Nil, 10), "");
}

#[test]
fn repeated_renders_are_identical() {
    let d = cat(
        nest(4, group(cat(cat(text("k"), Doc::Space), text("v")))),
        cat(Doc::Newline, text("end")),
    );
    let first = render(&d, 3);
    let second = render(&d, 3);
    assert_eq!(first, second);
    let third = render(&d, 3);
    assert_eq!(first, third);
}

#[test]
fn wider_width_never_adds_breaks() {
    // width monotonicity, checked on a sample document without hard breaks
    let d = group(cat(
        cat(text("alpha"), Doc::Space),
        group(cat(cat(text("beta"), Doc::Space), text("gamma"))),
    ));
    let mut last_breaks = render(&d, 0).matches('\n').count();
    for w in 1..20 {
        let breaks = render(&d, w).matches('\n').count();
        assert!(breaks <= last_breaks);
        last_breaks = breaks;
    }
}

#[test]
fn annotations_nest_and_restore() {
    // push(Blue), push(Red), "x", pop (restoring Blue), "y", pop (reset)
    let d = Doc::Annotated(
        Color::Blue,
        Box::new(cat(
            Doc::Annotated(Color::Red, Box::new(text("x"))),
            text("y"),
        )),
    );
    let mut sink: BufWrite<Color> = BufWrite::new();
    let res = d.render_raw(80, &mut sink);
    assert!(res.is_ok());
    assert_eq!(
        sink.events,
        vec![
            SinkEvent::Push(Color::Blue),
            SinkEvent::Push(Color::Red),
            SinkEvent::Text("x".to_string()),
            SinkEvent::Pop,
            SinkEvent::Text("y".to_string()),
            SinkEvent::Pop,
        ]
    );
    assert_eq!(sink.to_text(), "xy");
}

#[test]
fn every_push_is_matched_by_one_pop() {
    let d = Doc::Annotated(
        Color::Blue,
        Box::new(cat(
            Doc::Annotated(
                Color::Red,
                Box::new(group(cat(cat(text("a"), Doc::Space), text("b")))),
            ),
            Doc::Annotated(Color::Red, Box::new(text("c"))),
        )),
    );
    let mut sink: BufWrite<Color> = BufWrite::new();
    d.render_raw(4, &mut sink).unwrap();
    let mut depth: isize = 0;
    let mut pushes = 0;
    let mut pops = 0;
    for ev in &sink.events {
        match ev {
            SinkEvent::Push(_) => {
                depth += 1;
                pushes += 1;
            }
            SinkEvent::Pop => {
                depth -= 1;
                pops += 1;
                assert!(depth >= 0);
            }
            SinkEvent::Text(_) => {}
        }
    }
    assert_eq!(depth, 0);
    assert_eq!(pushes, 3);
    assert_eq!(pops, 3);
}

#[test]
fn annotation_has_no_layout_effect() {
    let plain = group(cat(cat(text("hello"), Doc::Space), text("world")));
    let tagged = Doc::Annotated(
        Color::Red,
        Box::new(group(cat(cat(text("hello"), Doc::Space), text("world")))),
    );
    assert_eq!(render(&plain, 5), render(&tagged, 5));
    assert_eq!(render(&plain, 80), render(&tagged, 80));
}

#[test]
fn deep_append_chain_renders_iteratively() {
    let mut d = text("x");
    for _ in 0..50_000 {
        d = cat(d, text("x"));
    }
    let out = render(&d, 10);
    assert_eq!(out.len(), 50_001);
}
