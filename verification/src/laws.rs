//! Laws of the layout engine, proved against the model in [`crate::model`].

use vstd::prelude::*;

use crate::doc::{Doc, Mode};
use crate::model::{
    best_events, ch_evs, doc_events, drain, drain_count, fits, flat_suffix_start, lemma_texts_ch_evs,
    lemma_texts_concat, lemma_texts_push, lemma_texts_resume, line_text, pops, refit, rendered,
    resume, sat_add, stack_size, texts, Cmd, Ev,
};

verus! {

/// Rendering is deterministic: the text of a render is a function of the
/// document and the width alone, so any two successful renders of the same
/// document at the same width emit the same characters.
pub proof fn lemma_deterministic<A>(d: &Doc<A>, width: usize, out1: Seq<char>, out2: Seq<char>)
    requires
        out1 == rendered(*d, width),
        out2 == rendered(*d, width),
    ensures
        out1 == out2,
{
}

/// Indentation composes: nesting by `n1` and then by `n2` renders exactly as
/// nesting once by `n1 + n2`, events and text alike, at every width.
pub proof fn lemma_nest_compose<A>(
    n1: usize,
    n2: usize,
    n: usize,
    inner: Box<Doc<A>>,
    c: Box<Doc<A>>,
    width: usize,
)
    requires
        n == n1 + n2,
        *inner == Doc::Nest(n2, c),
    ensures
        doc_events(Doc::Nest(n1, inner), width) == doc_events(Doc::Nest(n, c), width),
        rendered(Doc::Nest(n1, inner), width) == rendered(Doc::Nest(n, c), width),
{
    let d1 = Doc::Nest(n1, inner);
    let d2 = Doc::Nest(n, c);
    lemma_nest_compose_at(width, 0, Seq::empty(), Seq::empty(), 0, Mode::Break, n1, n2, n, inner, c);
    assert(Seq::<Cmd<A>>::empty().push((0usize, Mode::Break, d1)) =~= seq![
        (0usize, Mode::Break, d1),
    ]);
    assert(Seq::<Cmd<A>>::empty().push((0usize, Mode::Break, d2)) =~= seq![
        (0usize, Mode::Break, d2),
    ]);
}

/// The same law at an arbitrary point of a render: with the two documents on
/// top of the same work stack, the remaining output is identical.
pub proof fn lemma_nest_compose_at<A>(
    w: usize,
    pos: usize,
    b: Seq<Cmd<A>>,
    marks: Seq<nat>,
    i: usize,
    m: Mode,
    n1: usize,
    n2: usize,
    n: usize,
    inner: Box<Doc<A>>,
    c: Box<Doc<A>>,
)
    requires
        n == n1 + n2,
        *inner == Doc::Nest(n2, c),
    ensures
        best_events(w, pos, b.push((i, m, Doc::Nest(n1, inner))), marks) == best_events(
            w,
            pos,
            b.push((i, m, Doc::Nest(n, c))),
            marks,
        ),
{
    let d1 = Doc::Nest(n1, inner);
    let d2 = Doc::Nest(n, c);
    let b1 = b.push((i, m, d1));
    let b2 = b.push((i, m, d2));
    assert(b1.drop_last() =~= b);
    assert(b2.drop_last() =~= b);
    let lvl = sat_add(i, n1 as nat);
    assert(sat_add(lvl, n2 as nat) == sat_add(i, n as nat));
    // one step on the composed document
    assert(best_events(w, pos, b2, marks) == resume(
        w,
        pos,
        b.push((sat_add(i, n as nat), m, *c)),
        marks,
    ));
    // two steps on the nested pair, with a vacuous drain in between
    let mid = b.push((lvl, m, *inner));
    assert(best_events(w, pos, b1, marks) == resume(w, pos, mid, marks));
    assert(resume(w, pos, mid, marks) == pops(drain_count(marks, mid.len())) + best_events(
        w,
        pos,
        mid,
        drain(marks, mid.len()),
    ));
    let marks1 = drain(marks, mid.len());
    assert(mid.drop_last() =~= b);
    assert(best_events(w, pos, mid, marks1) == resume(
        w,
        pos,
        b.push((sat_add(lvl, n2 as nat), m, *c)),
        marks1,
    ));
    let b3 = b.push((sat_add(i, n as nat), m, *c));
    assert(b.push((sat_add(lvl, n2 as nat), m, *c)) =~= b3);
    // the second drain finds nothing: the first one already ran at this depth
    lemma_drain_twice(marks, b3.len());
    assert(resume(w, pos, b3, marks1) == pops(drain_count(marks1, b3.len())) + best_events(
        w,
        pos,
        b3,
        drain(marks1, b3.len()),
    ));
    assert(pops::<A>(0) =~= Seq::<Ev<A>>::empty());
    assert(pops::<A>(drain_count(marks1, b3.len())) + best_events(w, pos, b3, drain(marks1, b3.len()))
        =~= best_events(w, pos, b3, drain(marks, b3.len())));
    assert(resume(w, pos, b2, marks) == pops(drain_count(marks, b3.len())) + best_events(
        w,
        pos,
        b3,
        drain(marks, b3.len()),
    ));
}

/// True of documents with no group, soft break or hard break: nothing in them
/// can cause or suppress a line break.
pub open spec fn no_breaks<A>(d: Doc<A>) -> bool
    decreases d,
{
    match d {
        Doc::Nil => true,
        Doc::Text(_) => true,
        Doc::Append(l, r) => no_breaks(*l) && no_breaks(*r),
        Doc::Nest(_, c) => no_breaks(*c),
        Doc::Annotated(_, c) => no_breaks(*c),
        Doc::Group(_) => false,
        Doc::Space => false,
        Doc::Newline => false,
    }
}

/// The literal contents of a document, concatenated left to right.
pub open spec fn flat_text<A>(d: Doc<A>) -> Seq<char>
    decreases d,
{
    match d {
        Doc::Text(s) => s@,
        Doc::Append(l, r) => flat_text(*l) + flat_text(*r),
        Doc::Nest(_, c) => flat_text(*c),
        Doc::Annotated(_, c) => flat_text(*c),
        Doc::Group(c) => flat_text(*c),
        Doc::Space => seq![' '],
        Doc::Newline => seq!['\n'],
        Doc::Nil => Seq::empty(),
    }
}

/// The literal contents of a work stack, top first.
pub open spec fn stack_flat_text<A>(b: Seq<Cmd<A>>) -> Seq<char>
    decreases b.len(),
{
    if b.len() == 0 {
        Seq::empty()
    } else {
        flat_text(b.last().2) + stack_flat_text(b.drop_last())
    }
}

/// A stack grown by one item prepends that item's literal contents.
pub broadcast proof fn lemma_stack_flat_text_push<A>(s: Seq<Cmd<A>>, c: Cmd<A>)
    ensures
        #[trigger] stack_flat_text(s.push(c)) == flat_text(c.2) + stack_flat_text(s),
{
    assert(s.push(c).drop_last() =~= s);
}

/// A document with no group, soft break or hard break renders as the plain
/// concatenation of its literal contents, whatever the width.
pub proof fn lemma_no_breaks_rendered<A>(d: Doc<A>, width: usize)
    requires
        no_breaks(d),
    ensures
        rendered(d, width) == flat_text(d),
{
    broadcast use lemma_stack_flat_text_push;

    let init = Seq::<Cmd<A>>::empty().push((0usize, Mode::Break, d));
    assert(init =~= seq![(0usize, Mode::Break, d)]);
    assert(init[0].2 == d);
    lemma_no_breaks_stack(width, 0, init, Seq::empty());
    assert(stack_flat_text(Seq::<Cmd<A>>::empty()) == Seq::<char>::empty());
    assert(flat_text(d) + Seq::<char>::empty() =~= flat_text(d));
}

/// The same law over a whole work stack of break-free documents.
proof fn lemma_no_breaks_stack<A>(w: usize, pos: usize, b: Seq<Cmd<A>>, marks: Seq<nat>)
    requires
        forall|j: int| 0 <= j < b.len() ==> no_breaks(#[trigger] b[j].2),
    ensures
        texts(best_events(w, pos, b, marks)) == stack_flat_text(b),
    decreases stack_size(b),
{
    broadcast use crate::model::lemma_stack_size_push;
    broadcast use lemma_stack_flat_text_push;

    if b.len() == 0 {
        assert(texts(best_events(w, pos, b, marks)) =~= Seq::<char>::empty());
    } else {
        let (i, m, d) = b.last();
        let b0 = b.drop_last();
        assert(no_breaks(b[b.len() - 1].2));
        assert(forall|j: int| 0 <= j < b0.len() ==> no_breaks(#[trigger] b0[j].2)) by {
            assert(forall|j: int| 0 <= j < b0.len() ==> b0[j] == b[j]);
        }
        match d {
            Doc::Nil => {
                lemma_texts_resume(w, pos, b0, marks);
                lemma_no_breaks_stack(w, pos, b0, drain(marks, b0.len()));
                assert(Seq::<char>::empty() + stack_flat_text(b0) =~= stack_flat_text(b0));
            },
            Doc::Append(l, r) => {
                let bm = b0.push((i, m, *r));
                let bn = bm.push((i, m, *l));
                assert(forall|j: int| 0 <= j < bn.len() ==> no_breaks(#[trigger] bn[j].2));
                lemma_texts_resume(w, pos, bn, marks);
                lemma_no_breaks_stack(w, pos, bn, drain(marks, bn.len()));
                assert(bn.drop_last() =~= bm);
                assert(bm.drop_last() =~= b0);
                assert(stack_flat_text(bn) == flat_text(*l) + (flat_text(*r) + stack_flat_text(
                    b0,
                )));
                assert(flat_text(*l) + (flat_text(*r) + stack_flat_text(b0)) =~= (flat_text(*l)
                    + flat_text(*r)) + stack_flat_text(b0));
            },
            Doc::Nest(off, c) => {
                let bn = b0.push((sat_add(i, off as nat), m, *c));
                assert(forall|j: int| 0 <= j < bn.len() ==> no_breaks(#[trigger] bn[j].2));
                lemma_texts_resume(w, pos, bn, marks);
                lemma_no_breaks_stack(w, pos, bn, drain(marks, bn.len()));
                assert(bn.drop_last() =~= b0);
            },
            Doc::Text(s) => {
                lemma_texts_resume(w, sat_add(pos, s@.len()), b0, marks);
                lemma_no_breaks_stack(w, sat_add(pos, s@.len()), b0, drain(marks, b0.len()));
                lemma_texts_ch_evs::<A>(s@);
                lemma_texts_concat(
                    ch_evs(s@),
                    resume(w, sat_add(pos, s@.len()), b0, marks),
                );
            },
            Doc::Annotated(a, c) => {
                let bn = b0.push((i, m, *c));
                let mn = marks.push(b0.len());
                assert(forall|j: int| 0 <= j < bn.len() ==> no_breaks(#[trigger] bn[j].2));
                lemma_texts_resume(w, pos, bn, mn);
                lemma_no_breaks_stack(w, pos, bn, drain(mn, bn.len()));
                assert(bn.drop_last() =~= b0);
                assert(best_events(w, pos, b, marks) == seq![Ev::Push::<A>(a)] + resume(
                    w,
                    pos,
                    bn,
                    mn,
                ));
                lemma_texts_concat(seq![Ev::Push::<A>(a)], resume(w, pos, bn, mn));
                assert(seq![Ev::Push::<A>(a)] =~= Seq::<Ev<A>>::empty().push(Ev::Push(a)));
                lemma_texts_push(Seq::<Ev<A>>::empty(), Ev::<A>::Push(a));
                assert(texts(seq![Ev::Push::<A>(a)]) =~= Seq::<char>::empty());
                assert(Seq::<char>::empty() + texts(resume(w, pos, bn, mn)) =~= texts(
                    resume(w, pos, bn, mn),
                ));
            },
            _ => {
                assert(false);
            },
        }
    }
}

/// True of documents that can never force a line break when rendered flat:
/// they hold no hard break, and no literal contains a newline character.
pub open spec fn newline_free<A>(d: Doc<A>) -> bool
    decreases d,
{
    match d {
        Doc::Newline => false,
        Doc::Text(s) => !s@.contains('\n'),
        Doc::Append(l, r) => newline_free(*l) && newline_free(*r),
        Doc::Nest(_, c) => newline_free(*c),
        Doc::Annotated(_, c) => newline_free(*c),
        Doc::Group(c) => newline_free(*c),
        _ => true,
    }
}

/// Flat mode emits no line break: from any engine state whose work items are
/// all in flat mode and newline-free, the remaining output contains no
/// newline.  This is the flattening half of the group rule: when the lookahead
/// lets a group render flat, its whole subtree is processed in exactly such a
/// state, so a flattened group shows no break inside.
pub proof fn lemma_flat_no_break<A>(w: usize, pos: usize, b: Seq<Cmd<A>>, marks: Seq<nat>)
    requires
        forall|j: int|
            0 <= j < b.len() ==> (#[trigger] b[j].1 == Mode::Flat && newline_free(b[j].2)),
    ensures
        !texts(best_events(w, pos, b, marks)).contains('\n'),
    decreases stack_size(b),
{
    broadcast use crate::model::lemma_stack_size_push;
    broadcast use vstd::seq::group_seq_axioms;

    if b.len() == 0 {
        assert(texts(best_events(w, pos, b, marks)) =~= Seq::<char>::empty());
        assert(!texts(best_events(w, pos, b, marks)).contains('\n'));
    } else {
        let (i, m, d) = b.last();
        let b0 = b.drop_last();
        assert(b[b.len() - 1].1 == Mode::Flat && newline_free(b[b.len() - 1].2));
        assert(forall|j: int|
            0 <= j < b0.len() ==> (#[trigger] b0[j].1 == Mode::Flat && newline_free(b0[j].2)))
            by {
            assert(forall|j: int| 0 <= j < b0.len() ==> b0[j] == b[j]);
        }
        match d {
            Doc::Nil => {
                lemma_texts_resume(w, pos, b0, marks);
                lemma_flat_no_break(w, pos, b0, drain(marks, b0.len()));
            },
            Doc::Append(l, r) => {
                let bn = b0.push((i, m, *r)).push((i, m, *l));
                lemma_texts_resume(w, pos, bn, marks);
                lemma_flat_no_break(w, pos, bn, drain(marks, bn.len()));
            },
            Doc::Group(c) => {
                let bn = b0.push((i, Mode::Flat, *c));
                lemma_texts_resume(w, pos, bn, marks);
                lemma_flat_no_break(w, pos, bn, drain(marks, bn.len()));
            },
            Doc::Nest(off, c) => {
                let bn = b0.push((sat_add(i, off as nat), m, *c));
                lemma_texts_resume(w, pos, bn, marks);
                lemma_flat_no_break(w, pos, bn, drain(marks, bn.len()));
            },
            Doc::Space => {
                lemma_texts_resume(w, sat_add(pos, 1), b0, marks);
                lemma_flat_no_break(w, sat_add(pos, 1), b0, drain(marks, b0.len()));
                lemma_texts_concat(
                    seq![Ev::Ch::<A>(' ')],
                    resume(w, sat_add(pos, 1), b0, marks),
                );
                assert(seq![Ev::Ch::<A>(' ')] =~= Seq::<Ev<A>>::empty().push(Ev::Ch(' ')));
                lemma_texts_push(Seq::<Ev<A>>::empty(), Ev::<A>::Ch(' '));
                assert(texts(seq![Ev::Ch::<A>(' ')]) =~= seq![' ']);
                lemma_not_contains_concat(
                    seq![' '],
                    texts(resume(w, sat_add(pos, 1), b0, marks)),
                    '\n',
                );
            },
            Doc::Text(t) => {
                lemma_texts_resume(w, sat_add(pos, t@.len()), b0, marks);
                lemma_flat_no_break(w, sat_add(pos, t@.len()), b0, drain(marks, b0.len()));
                lemma_texts_concat(ch_evs(t@), resume(w, sat_add(pos, t@.len()), b0, marks));
                lemma_texts_ch_evs::<A>(t@);
                lemma_not_contains_concat(
                    t@,
                    texts(resume(w, sat_add(pos, t@.len()), b0, marks)),
                    '\n',
                );
            },
            Doc::Annotated(a, c) => {
                let bn = b0.push((i, m, *c));
                let mn = marks.push(b0.len());
                lemma_texts_resume(w, pos, bn, mn);
                lemma_flat_no_break(w, pos, bn, drain(mn, bn.len()));
                lemma_texts_concat(seq![Ev::Push::<A>(a)], resume(w, pos, bn, mn));
                assert(seq![Ev::Push::<A>(a)] =~= Seq::<Ev<A>>::empty().push(Ev::Push(a)));
                lemma_texts_push(Seq::<Ev<A>>::empty(), Ev::<A>::Push(a));
                assert(texts(seq![Ev::Push::<A>(a)]) =~= Seq::<char>::empty());
                lemma_not_contains_concat(
                    Seq::<char>::empty(),
                    texts(resume(w, pos, bn, mn)),
                    '\n',
                );
            },
            Doc::Newline => {
                assert(false);
            },
        }
    }
}

/// A concatenation misses a character that both parts miss.
proof fn lemma_not_contains_concat(a: Seq<char>, b: Seq<char>, x: char)
    requires
        !a.contains(x),
        !b.contains(x),
    ensures
        !(a + b).contains(x),
{
    broadcast use vstd::seq::group_seq_axioms;

    if (a + b).contains(x) {
        let i = choose|i: int| 0 <= i < (a + b).len() && (a + b)[i] == x;
        if i < a.len() {
            assert(a[i] == x);
        } else {
            assert(b[i - a.len()] == x);
        }
    }
}

/// True of documents holding at least one hard break.
pub open spec fn has_newline<A>(d: Doc<A>) -> bool
    decreases d,
{
    match d {
        Doc::Newline => true,
        Doc::Append(l, r) => has_newline(*l) || has_newline(*r),
        Doc::Nest(_, c) => has_newline(*c),
        Doc::Annotated(_, c) => has_newline(*c),
        Doc::Group(c) => has_newline(*c),
        _ => false,
    }
}

/// A hard break always produces a line break, whatever the width: the text of
/// a render of any document holding one contains a newline.
pub proof fn lemma_hard_break_breaks<A>(d: Doc<A>, width: usize)
    requires
        has_newline(d),
    ensures
        rendered(d, width).contains('\n'),
{
    let init = seq![(0usize, Mode::Break, d)];
    assert(init[0].2 == d);
    lemma_newline_stack(width, 0, init, Seq::empty());
}

/// The same law over any work stack holding a hard break somewhere.
proof fn lemma_newline_stack<A>(w: usize, pos: usize, b: Seq<Cmd<A>>, marks: Seq<nat>)
    requires
        exists|j: int| 0 <= j < b.len() && has_newline(#[trigger] b[j].2),
    ensures
        texts(best_events(w, pos, b, marks)).contains('\n'),
    decreases stack_size(b), 0nat,
{
    broadcast use crate::model::lemma_stack_size_push;

    let jw = choose|j: int| 0 <= j < b.len() && has_newline(#[trigger] b[j].2);
    let (i, m, d) = b.last();
    let b0 = b.drop_last();
    let evs = best_events(w, pos, b, marks);
    if d is Newline {
        lemma_texts_concat(
            ch_evs(line_text(i as nat)),
            resume(w, i, refit(w, i, b0), marks),
        );
        lemma_texts_ch_evs::<A>(line_text(i as nat));
        assert(line_text(i as nat)[0] == '\n');
        assert(texts(evs)[0] == '\n');
        assert(texts(evs).contains('\n'));
    } else if jw == b.len() - 1 {
        // the hard break is inside the top item
        match d {
            Doc::Append(l, r) => {
                let bm = b0.push((i, m, *r));
                let bn = bm.push((i, m, *l));
                if has_newline(*l) {
                    assert(bn[bn.len() - 1].2 == *l);
                } else {
                    assert(bn[bn.len() - 2].2 == *r);
                }
                lemma_newline_after_step(w, pos, bn, marks, evs, Seq::empty());
            },
            Doc::Group(c) => {
                if m == Mode::Flat || fits(seq![(i, Mode::Flat, *c)], b0, w - pos) {
                    let bn = b0.push((i, Mode::Flat, *c));
                    assert(bn[bn.len() - 1].2 == *c);
                    lemma_newline_after_step(w, pos, bn, marks, evs, Seq::empty());
                } else {
                    let bn = b0.push((i, Mode::Break, *c));
                    assert(bn[bn.len() - 1].2 == *c);
                    lemma_newline_after_step(w, pos, bn, marks, evs, Seq::empty());
                }
            },
            Doc::Nest(off, c) => {
                let bn = b0.push((sat_add(i, off as nat), m, *c));
                assert(bn[bn.len() - 1].2 == *c);
                lemma_newline_after_step(w, pos, bn, marks, evs, Seq::empty());
            },
            Doc::Annotated(a, c) => {
                let bn = b0.push((i, m, *c));
                assert(bn[bn.len() - 1].2 == *c);
                assert(seq![Ev::Push::<A>(a)] =~= Seq::<Ev<A>>::empty().push(Ev::Push(a)));
                lemma_texts_push(Seq::<Ev<A>>::empty(), Ev::<A>::Push(a));
                assert(texts(seq![Ev::Push::<A>(a)]) =~= Seq::<char>::empty());
                lemma_newline_after_step(w, pos, bn, marks.push(b0.len()), evs, seq![
                    Ev::Push::<A>(a),
                ]);
            },
            _ => {
                assert(false);
            },
        }
    } else {
        // the hard break sits below the top item and survives the step
        assert(b0[jw] == b[jw]);
        match d {
            Doc::Nil => {
                lemma_newline_after_step(w, pos, b0, marks, evs, Seq::empty());
            },
            Doc::Append(l, r) => {
                let bn = b0.push((i, m, *r)).push((i, m, *l));
                assert(bn[jw].2 == b[jw].2);
                lemma_newline_after_step(w, pos, bn, marks, evs, Seq::empty());
            },
            Doc::Group(c) => {
                if m == Mode::Flat || fits(seq![(i, Mode::Flat, *c)], b0, w - pos) {
                    let bn = b0.push((i, Mode::Flat, *c));
                    assert(bn[jw].2 == b[jw].2);
                    lemma_newline_after_step(w, pos, bn, marks, evs, Seq::empty());
                } else {
                    let bn = b0.push((i, Mode::Break, *c));
                    assert(bn[jw].2 == b[jw].2);
                    lemma_newline_after_step(w, pos, bn, marks, evs, Seq::empty());
                }
            },
            Doc::Nest(off, c) => {
                let bn = b0.push((sat_add(i, off as nat), m, *c));
                assert(bn[jw].2 == b[jw].2);
                lemma_newline_after_step(w, pos, bn, marks, evs, Seq::empty());
            },
            Doc::Space => {
                if m == Mode::Flat {
                    lemma_texts_concat(seq![Ev::Ch::<A>(' ')], resume(w, sat_add(pos, 1), b0, marks));
                    lemma_texts_resume(w, sat_add(pos, 1), b0, marks);
                    lemma_newline_stack(w, sat_add(pos, 1), b0, drain(marks, b0.len()));
                    lemma_contains_concat_right(
                        texts(seq![Ev::Ch::<A>(' ')]),
                        texts(resume(w, sat_add(pos, 1), b0, marks)),
                        '\n',
                    );
                } else {
                    lemma_texts_concat(ch_evs(line_text(i as nat)), resume(w, i, b0, marks));
                    lemma_texts_ch_evs::<A>(line_text(i as nat));
                    assert(texts(evs)[0] == '\n');
                    assert(texts(evs).contains('\n'));
                }
            },
            Doc::Text(s) => {
                lemma_texts_concat(ch_evs(s@), resume(w, sat_add(pos, s@.len()), b0, marks));
                lemma_texts_resume(w, sat_add(pos, s@.len()), b0, marks);
                lemma_newline_stack(w, sat_add(pos, s@.len()), b0, drain(marks, b0.len()));
                lemma_contains_concat_right(
                    texts(ch_evs::<A>(s@)),
                    texts(resume(w, sat_add(pos, s@.len()), b0, marks)),
                    '\n',
                );
            },
            Doc::Annotated(a, c) => {
                let bn = b0.push((i, m, *c));
                assert(bn[jw].2 == b[jw].2);
                assert(seq![Ev::Push::<A>(a)] =~= Seq::<Ev<A>>::empty().push(Ev::Push(a)));
                lemma_texts_push(Seq::<Ev<A>>::empty(), Ev::<A>::Push(a));
                assert(texts(seq![Ev::Push::<A>(a)]) =~= Seq::<char>::empty());
                lemma_newline_after_step(w, pos, bn, marks.push(b0.len()), evs, seq![
                    Ev::Push::<A>(a),
                ]);
            },
            Doc::Newline => {
                assert(false);
            },
        }
    }
}

/// After one step that emitted no text, a hard break still on the stack still
/// forces a newline into the remaining text.
proof fn lemma_newline_after_step<A>(
    w: usize,
    pos: usize,
    bn: Seq<Cmd<A>>,
    mn: Seq<nat>,
    evs: Seq<Ev<A>>,
    emit: Seq<Ev<A>>,
)
    requires
        exists|j: int| 0 <= j < bn.len() && has_newline(#[trigger] bn[j].2),
        evs == emit + resume(w, pos, bn, mn),
        texts(emit) == Seq::<char>::empty(),
    ensures
        texts(evs).contains('\n'),
    decreases stack_size(bn), 1nat,
{
    broadcast use crate::model::lemma_stack_size_push;

    lemma_texts_concat(emit, resume(w, pos, bn, mn));
    lemma_texts_resume(w, pos, bn, mn);
    lemma_newline_stack(w, pos, bn, drain(mn, bn.len()));
    lemma_contains_concat_right(texts(emit), texts(resume(w, pos, bn, mn)), '\n');
}

/// Membership in the right part of a concatenation carries over to the whole.
proof fn lemma_contains_concat_right(a: Seq<char>, b: Seq<char>, x: char)
    requires
        b.contains(x),
    ensures
        (a + b).contains(x),
{
    let i = choose|i: int| 0 <= i < b.len() && b[i] == x;
    assert((a + b)[a.len() + i] == x);
}

/// Dyck balance of annotation events: with `open` regions already open, the
/// events close each of them exactly once, every region begun inside is
/// closed before an enclosing one, and no close ever lacks an open region.
pub open spec fn balanced<A>(evs: Seq<Ev<A>>, open: nat) -> bool
    decreases evs.len(),
{
    if evs.len() == 0 {
        open == 0
    } else {
        match evs.first() {
            Ev::Push(_) => balanced(evs.drop_first(), open + 1),
            Ev::Pop => open > 0 && balanced(evs.drop_first(), (open - 1) as nat),
            Ev::Ch(_) => balanced(evs.drop_first(), open),
        }
    }
}

/// Annotation pairing: in a full render, every region-begin event is matched
/// by exactly one later region-end event, correctly nested at any depth.
pub proof fn lemma_annotations_balanced<A>(d: Doc<A>, width: usize)
    ensures
        balanced(doc_events(d, width), 0),
{
    let init = Seq::<Cmd<A>>::empty().push((0usize, Mode::Break, d));
    assert(init =~= seq![(0usize, Mode::Break, d)]);
    lemma_balanced_stack(width, 0, init, Seq::empty());
}

/// The same law over any reachable engine state: the remaining events close
/// exactly the regions now open, whose markers sit below the stack top.
proof fn lemma_balanced_stack<A>(w: usize, pos: usize, b: Seq<Cmd<A>>, marks: Seq<nat>)
    requires
        forall|j: int| 0 <= j < marks.len() ==> #[trigger] marks[j] < b.len(),
        forall|j1: int, j2: int|
            0 <= j1 <= j2 < marks.len() ==> #[trigger] marks[j1] <= #[trigger] marks[j2],
    ensures
        balanced(best_events(w, pos, b, marks), marks.len()),
    decreases stack_size(b), 0nat,
{
    broadcast use crate::model::lemma_stack_size_push;
    broadcast use vstd::seq::group_seq_axioms;

    if b.len() == 0 {
        assert(marks.len() == 0) by {
            if marks.len() > 0 {
                assert(marks[0] < b.len());
            }
        }
    } else {
        let (i, m, d) = b.last();
        let b0 = b.drop_last();
        match d {
            Doc::Nil => {
                lemma_balanced_resume(w, pos, b0, marks);
            },
            Doc::Append(l, r) => {
                let bn = b0.push((i, m, *r)).push((i, m, *l));
                lemma_balanced_resume(w, pos, bn, marks);
            },
            Doc::Group(c) => {
                if m == Mode::Flat || fits(seq![(i, Mode::Flat, *c)], b0, w - pos) {
                    let bn = b0.push((i, Mode::Flat, *c));
                    lemma_balanced_resume(w, pos, bn, marks);
                } else {
                    let bn = b0.push((i, Mode::Break, *c));
                    lemma_balanced_resume(w, pos, bn, marks);
                }
            },
            Doc::Nest(off, c) => {
                let bn = b0.push((sat_add(i, off as nat), m, *c));
                lemma_balanced_resume(w, pos, bn, marks);
            },
            Doc::Space => {
                if m == Mode::Flat {
                    lemma_balanced_single(
                        Ev::<A>::Ch(' '),
                        resume(w, sat_add(pos, 1), b0, marks),
                        marks.len(),
                    );
                    lemma_balanced_resume(w, sat_add(pos, 1), b0, marks);
                } else {
                    lemma_balanced_skip_chars(
                        line_text(i as nat),
                        resume(w, i, b0, marks),
                        marks.len(),
                    );
                    lemma_balanced_resume(w, i, b0, marks);
                }
            },
            Doc::Newline => {
                lemma_balanced_skip_chars(
                    line_text(i as nat),
                    resume(w, i, refit(w, i, b0), marks),
                    marks.len(),
                );
                crate::model::lemma_flip_tail_index(b0, flat_suffix_start(b0));
                assert(refit(w, i, b0).len() == b0.len());
                crate::model::lemma_stack_size_refit(w, i, b0);
                lemma_balanced_resume(w, i, refit(w, i, b0), marks);
            },
            Doc::Text(s) => {
                lemma_balanced_skip_chars(
                    s@,
                    resume(w, sat_add(pos, s@.len()), b0, marks),
                    marks.len(),
                );
                lemma_balanced_resume(w, sat_add(pos, s@.len()), b0, marks);
            },
            Doc::Annotated(a, c) => {
                let bn = b0.push((i, m, *c));
                let mn = marks.push(b0.len());
                assert(forall|j: int| 0 <= j < marks.len() ==> #[trigger] marks[j] <= b0.len());
                assert(best_events(w, pos, b, marks) == seq![Ev::Push::<A>(a)] + resume(
                    w,
                    pos,
                    bn,
                    mn,
                ));
                lemma_balanced_single(Ev::<A>::Push(a), resume(w, pos, bn, mn), marks.len());
                lemma_balanced_resume(w, pos, bn, mn);
                assert(balanced(resume(w, pos, bn, mn), mn.len()));
            },
        }
    }
}

/// Balance is preserved through the marker drain that follows each step.
proof fn lemma_balanced_resume<A>(w: usize, pos: usize, bn: Seq<Cmd<A>>, mn: Seq<nat>)
    requires
        forall|j: int| 0 <= j < mn.len() ==> #[trigger] mn[j] <= bn.len(),
        forall|j1: int, j2: int|
            0 <= j1 <= j2 < mn.len() ==> #[trigger] mn[j1] <= #[trigger] mn[j2],
    ensures
        balanced(resume(w, pos, bn, mn), mn.len()),
    decreases stack_size(bn), 1nat,
{
    broadcast use vstd::seq::group_seq_axioms;

    let dc = drain_count(mn, bn.len());
    let md = drain(mn, bn.len());
    lemma_drain_props(mn, bn.len());
    lemma_balanced_stack(w, pos, bn, md);
    lemma_balanced_pops(dc, best_events(w, pos, bn, md), mn.len());
}

/// What draining does to sorted markers bounded by the stack depth: it
/// removes exactly those equal to the depth and leaves the rest, a sorted
/// prefix strictly below the depth.
proof fn lemma_drain_props(marks: Seq<nat>, len: nat)
    requires
        forall|j: int| 0 <= j < marks.len() ==> #[trigger] marks[j] <= len,
        forall|j1: int, j2: int|
            0 <= j1 <= j2 < marks.len() ==> #[trigger] marks[j1] <= #[trigger] marks[j2],
    ensures
        drain(marks, len).len() + drain_count(marks, len) == marks.len(),
        forall|j: int| 0 <= j < drain(marks, len).len() ==> #[trigger] drain(marks, len)[j] < len,
        forall|j1: int, j2: int|
            0 <= j1 <= j2 < drain(marks, len).len() ==> #[trigger] drain(marks, len)[j1]
                <= #[trigger] drain(marks, len)[j2],
        forall|j: int|
            0 <= j < drain(marks, len).len() ==> #[trigger] drain(marks, len)[j] == marks[j],
    decreases marks.len(),
{
    broadcast use vstd::seq::group_seq_axioms;

    if marks.len() > 0 && marks.last() == len {
        assert(forall|j: int| 0 <= j < marks.drop_last().len() ==> marks.drop_last()[j] == marks[j]);
        lemma_drain_props(marks.drop_last(), len);
    } else {
        if marks.len() > 0 {
            // the last marker is below the depth, and sortedness bounds the rest
            assert(marks.last() < len);
            let hi = marks.len() - 1;
            assert(forall|j: int| 0 <= j < marks.len() ==> #[trigger] marks[j] <= marks[hi]);
        }
    }
}

/// Closing events consume open regions one by one.
proof fn lemma_balanced_pops<A>(n: nat, rest: Seq<Ev<A>>, open: nat)
    requires
        n <= open,
        balanced(rest, (open - n) as nat),
    ensures
        balanced(pops::<A>(n) + rest, open),
    decreases n,
{
    broadcast use vstd::seq::group_seq_axioms;

    if n == 0 {
        assert(pops::<A>(0) + rest =~= rest);
    } else {
        lemma_balanced_pops((n - 1) as nat, rest, (open - 1) as nat);
        let evs = pops::<A>(n) + rest;
        assert(evs.first() == Ev::<A>::Pop);
        assert(evs.drop_first() =~= pops::<A>((n - 1) as nat) + rest);
    }
}

/// One event at the front of a sequence changes the balance as its kind
/// dictates.
proof fn lemma_balanced_single<A>(e: Ev<A>, rest: Seq<Ev<A>>, open: nat)
    ensures
        balanced(seq![e] + rest, open) == match e {
            Ev::Push(_) => balanced(rest, open + 1),
            Ev::Pop => open > 0 && balanced(rest, (open - 1) as nat),
            Ev::Ch(_) => balanced(rest, open),
        },
{
    broadcast use vstd::seq::group_seq_axioms;

    let evs = seq![e] + rest;
    assert(evs.len() > 0);
    assert(evs[0] == seq![e][0]);
    assert(evs.first() == e);
    assert(evs.drop_first() =~= rest);
}

/// Splitting one pushed element off the front of the tail of a concatenation.
proof fn lemma_concat_push_assoc<A>(s1: Seq<Ev<A>>, e: Ev<A>, rest: Seq<Ev<A>>)
    ensures
        s1.push(e) + rest == s1 + (seq![e] + rest),
{
    broadcast use vstd::seq::group_seq_axioms;

    let single = seq![e] + rest;
    assert(s1.push(e) + rest =~= s1 + single) by {
        assert forall|i: int| 0 <= i < s1.len() + 1 + rest.len() implies (s1.push(e) + rest)[i]
            == (s1 + single)[i] by {
            if i < s1.len() {
                assert((s1.push(e) + rest)[i] == s1.push(e)[i]);
                assert(s1.push(e)[i] == s1[i]);
                assert((s1 + single)[i] == s1[i]);
            } else if i == s1.len() {
                assert((s1.push(e) + rest)[i] == s1.push(e)[i]);
                assert(s1.push(e)[i] == e);
                assert((s1 + single)[i] == single[i - s1.len()]);
                assert(single[0] == seq![e][0]);
            } else {
                assert((s1.push(e) + rest)[i] == rest[i - (s1.len() + 1)]);
                assert((s1 + single)[i] == single[i - s1.len()]);
                assert(single[i - s1.len()] == rest[i - s1.len() - 1]);
            }
        }
    }
}

/// Plain characters have no effect on balance.
proof fn lemma_balanced_skip_chars<A>(sx: Seq<char>, rest: Seq<Ev<A>>, open: nat)
    ensures
        balanced(ch_evs::<A>(sx) + rest, open) == balanced(rest, open),
    decreases sx.len(),
{
    broadcast use vstd::seq::group_seq_axioms;

    if sx.len() == 0 {
        assert(ch_evs::<A>(sx) + rest =~= rest);
    } else {
        let e = Ev::<A>::Ch(sx.last());
        let single = seq![e] + rest;
        let cdl = ch_evs::<A>(sx.drop_last());
        assert(ch_evs::<A>(sx) == cdl.push(e));
        lemma_concat_push_assoc(cdl, e, rest);
        lemma_balanced_skip_chars(sx.drop_last(), single, open);
        lemma_balanced_single(e, rest, open);
    }
}

/// Draining at a depth leaves nothing more to drain at that depth.
proof fn lemma_drain_twice(marks: Seq<nat>, len: nat)
    ensures
        drain(drain(marks, len), len) == drain(marks, len),
        drain_count(drain(marks, len), len) == 0,
    decreases marks.len(),
{
    if marks.len() > 0 && marks.last() == len {
        lemma_drain_twice(marks.drop_last(), len);
    }
}

} // verus!
