//! The mathematical model of rendering.
//!
//! `best_events` is the layout state machine on mathematical sequences: it
//! walks a stack of `(indent, mode, node)` work items and yields the sequence
//! of output events (characters, annotation begins, annotation ends) that a
//! render of the stack produces.  `fits` is the lookahead that decides, for a
//! width budget, whether a tentative flat rendering followed by the already
//! committed work completes before the budget is exhausted or a break is
//! reached.  The contracts of the executable engine are stated against these
//! functions.

use vstd::prelude::*;

use crate::doc::{Doc, Mode};

verus! {

/// One work item: the indentation, the mode, and the node to render.
pub type Cmd<A> = (usize, Mode, Doc<A>);

/// One unit of sink output: a character, the beginning of an annotated
/// region, or the end of the most recently begun region.
pub enum Ev<A> {
    Ch(char),
    Push(A),
    Pop,
}

/// The number of nodes in a document tree.
pub open spec fn doc_size<A>(d: Doc<A>) -> nat
    decreases d,
{
    match d {
        Doc::Append(l, r) => 1 + doc_size(*l) + doc_size(*r),
        Doc::Group(c) => 1 + doc_size(*c),
        Doc::Nest(_, c) => 1 + doc_size(*c),
        Doc::Annotated(_, c) => 1 + doc_size(*c),
        _ => 1,
    }
}

/// The number of nodes on a work stack.
pub open spec fn stack_size<A>(s: Seq<Cmd<A>>) -> nat
    decreases s.len(),
{
    if s.len() == 0 {
        0
    } else {
        stack_size(s.drop_last()) + doc_size(s.last().2)
    }
}

/// Addition on column positions, saturating at the machine limit.
pub open spec fn sat_add(a: usize, b: nat) -> usize {
    if a as nat + b > usize::MAX as nat {
        usize::MAX
    } else {
        (a as nat + b) as usize
    }
}

/// The lookahead: does rendering the scratch stack `f` flat-first, followed by
/// the committed stack `b` pulled top-down, complete within `rem` width units
/// or reach a line break first?
pub open spec fn fits<A>(f: Seq<Cmd<A>>, b: Seq<Cmd<A>>, rem: int) -> bool
    decreases b.len(), stack_size(f),
    via fits_dec::<A>
{
    if rem < 0 {
        false
    } else if f.len() == 0 {
        if b.len() == 0 {
            true
        } else {
            fits(seq![b.last()], b.drop_last(), rem)
        }
    } else {
        let (i, m, d) = f.last();
        let f0 = f.drop_last();
        match d {
            Doc::Nil => fits(f0, b, rem),
            Doc::Append(l, r) => fits(f0.push((i, m, *r)).push((i, m, *l)), b, rem),
            Doc::Group(c) => fits(f0.push((i, m, *c)), b, rem),
            Doc::Nest(off, c) => fits(f0.push((sat_add(i, off as nat), m, *c)), b, rem),
            Doc::Space => if m == Mode::Flat {
                fits(f0, b, rem - 1)
            } else {
                true
            },
            Doc::Newline => true,
            Doc::Text(s) => fits(f0, b, rem - s@.len()),
            Doc::Annotated(_, c) => fits(f0.push((i, m, *c)), b, rem),
        }
    }
}

#[via_fn]
proof fn fits_dec<A>(f: Seq<Cmd<A>>, b: Seq<Cmd<A>>, rem: int) {
    broadcast use lemma_stack_size_push;

}

/// A run of `n` blanks.
pub open spec fn blanks(n: nat) -> Seq<char> {
    Seq::new(n, |j: int| ' ')
}

/// A line break followed by `n` blanks of indentation.
pub open spec fn line_text(n: nat) -> Seq<char> {
    seq!['\n'] + blanks(n)
}

/// The given characters as plain output events.
pub open spec fn ch_evs<A>(s: Seq<char>) -> Seq<Ev<A>>
    decreases s.len(),
{
    if s.len() == 0 {
        Seq::empty()
    } else {
        ch_evs(s.drop_last()).push(Ev::Ch(s.last()))
    }
}

/// `n` region-end events.
pub open spec fn pops<A>(n: nat) -> Seq<Ev<A>> {
    Seq::new(n, |j: int| Ev::Pop)
}

/// Removes every scope marker that has returned to the current stack depth.
pub open spec fn drain(marks: Seq<nat>, len: nat) -> Seq<nat>
    decreases marks.len(),
{
    if marks.len() > 0 && marks.last() == len {
        drain(marks.drop_last(), len)
    } else {
        marks
    }
}

/// How many scope markers `drain` removes.
pub open spec fn drain_count(marks: Seq<nat>, len: nat) -> nat
    decreases marks.len(),
{
    if marks.len() > 0 && marks.last() == len {
        1 + drain_count(marks.drop_last(), len)
    } else {
        0
    }
}

/// The start of the longest all-flat suffix of the committed stack: every item
/// at or above this index is in flat mode, and the item just below it (if any)
/// is in break mode.
pub open spec fn flat_suffix_start<A>(b: Seq<Cmd<A>>) -> int
    decreases b.len(),
{
    if b.len() == 0 {
        0
    } else if b.last().1 == Mode::Break {
        b.len() as int
    } else {
        flat_suffix_start(b.drop_last())
    }
}

/// Re-validation after a forced break: if the flat-mode suffix of the
/// committed stack no longer fits on the new line, every item of that suffix
/// is flipped to break mode.  The lookahead starts from the top item and, as
/// in the engine, pulls the committed stack behind it.
pub open spec fn refit<A>(w: usize, pos: usize, b: Seq<Cmd<A>>) -> Seq<Cmd<A>> {
    if b.len() > 0 && b.last().1 == Mode::Flat && !fits(seq![b.last()], b, w - pos) {
        flip_tail(b, flat_suffix_start(b))
    } else {
        b
    }
}

/// The same stack with every item at or above position `k` moved to break
/// mode.
pub open spec fn flip_tail<A>(b: Seq<Cmd<A>>, k: int) -> Seq<Cmd<A>>
    decreases b.len(),
{
    if b.len() <= k || b.len() == 0 {
        b
    } else {
        flip_tail(b.drop_last(), k).push((b.last().0, Mode::Break, b.last().2))
    }
}

/// What `flip_tail` does, item by item.
pub proof fn lemma_flip_tail_index<A>(b: Seq<Cmd<A>>, k: int)
    ensures
        flip_tail(b, k).len() == b.len(),
        forall|j: int|
            0 <= j < b.len() ==> #[trigger] flip_tail(b, k)[j] == if j >= k {
                (b[j].0, Mode::Break, b[j].2)
            } else {
                b[j]
            },
    decreases b.len(),
{
    if !(b.len() <= k || b.len() == 0) {
        lemma_flip_tail_index(b.drop_last(), k);
        let r = flip_tail(b, k);
        let r0 = flip_tail(b.drop_last(), k);
        assert forall|j: int| 0 <= j < b.len() implies #[trigger] r[j] == (if j >= k {
            (b[j].0, Mode::Break, b[j].2)
        } else {
            b[j]
        }) by {
            if j < b.len() - 1 {
                assert(r[j] == r0[j]);
                assert(b.drop_last()[j] == b[j]);
            } else {
                assert(j == b.len() - 1);
                assert(r[j] == (b.last().0, Mode::Break, b.last().2));
                assert(j >= k);
            }
        }
    }
}

/// The output events of rendering the work stack `b` at width `w`, starting
/// at column `pos` with the open-annotation markers `marks`.  Items are
/// processed last-in-first-out; `marks` records, for each open annotation,
/// the stack depth at which it was opened.
pub open spec fn best_events<A>(w: usize, pos: usize, b: Seq<Cmd<A>>, marks: Seq<nat>) -> Seq<
    Ev<A>,
>
    decreases stack_size(b), 0nat,
    via best_events_dec::<A>
{
    if b.len() == 0 {
        Seq::empty()
    } else {
        let (i, m, d) = b.last();
        let b0 = b.drop_last();
        match d {
            Doc::Nil => resume(w, pos, b0, marks),
            Doc::Append(l, r) => resume(
                w,
                pos,
                b0.push((i, m, *r)).push((i, m, *l)),
                marks,
            ),
            Doc::Group(c) => if m == Mode::Flat {
                resume(w, pos, b0.push((i, Mode::Flat, *c)), marks)
            } else if fits(seq![(i, Mode::Flat, *c)], b0, w - pos) {
                resume(w, pos, b0.push((i, Mode::Flat, *c)), marks)
            } else {
                resume(w, pos, b0.push((i, Mode::Break, *c)), marks)
            },
            Doc::Nest(off, c) => resume(w, pos, b0.push((sat_add(i, off as nat), m, *c)), marks),
            Doc::Space => if m == Mode::Flat {
                seq![Ev::Ch(' ')] + resume(w, sat_add(pos, 1), b0, marks)
            } else {
                ch_evs(line_text(i as nat)) + resume(w, i, b0, marks)
            },
            Doc::Newline => ch_evs(line_text(i as nat)) + resume(w, i, refit(w, i, b0), marks),
            Doc::Text(s) => ch_evs(s@) + resume(w, sat_add(pos, s@.len()), b0, marks),
            Doc::Annotated(a, c) => seq![Ev::Push(a)] + resume(
                w,
                pos,
                b0.push((i, m, *c)),
                marks.push(b0.len()),
            ),
        }
    }
}

/// After one item is processed: close every annotation whose scope marker has
/// returned to the current stack depth, then continue rendering.
pub open spec fn resume<A>(w: usize, pos: usize, b: Seq<Cmd<A>>, marks: Seq<nat>) -> Seq<Ev<A>>
    decreases stack_size(b), 1nat,
{
    pops(drain_count(marks, b.len())) + best_events(w, pos, b, drain(marks, b.len()))
}

#[via_fn]
proof fn best_events_dec<A>(w: usize, pos: usize, b: Seq<Cmd<A>>, marks: Seq<nat>) {
    broadcast use lemma_stack_size_push;

    if b.len() > 0 {
        let (i, m, d) = b.last();
        let b0 = b.drop_last();
        match d {
            Doc::Newline => {
                lemma_stack_size_refit(w, i, b0);
            },
            _ => {},
        }
    }
}

/// The text among a sequence of output events: what a plain-text sink shows.
pub open spec fn texts<A>(evs: Seq<Ev<A>>) -> Seq<char>
    decreases evs.len(),
{
    if evs.len() == 0 {
        Seq::empty()
    } else {
        texts(evs.drop_last()) + ev_text(evs.last())
    }
}

/// The text of one output event.
pub open spec fn ev_text<A>(e: Ev<A>) -> Seq<char> {
    match e {
        Ev::Ch(c) => seq![c],
        _ => Seq::empty(),
    }
}

/// The output events of a full render of `d` at width `w`: the engine starts
/// at column zero, in break mode, with no open annotations.
pub open spec fn doc_events<A>(d: Doc<A>, w: usize) -> Seq<Ev<A>> {
    best_events(w, 0, seq![(0usize, Mode::Break, d)], Seq::empty())
}

/// The text of a full render of `d` at width `w`.
pub open spec fn rendered<A>(d: Doc<A>, w: usize) -> Seq<char> {
    texts(doc_events(d, w))
}

/// A work stack grows by one item at its top.
pub broadcast proof fn lemma_stack_size_push<A>(s: Seq<Cmd<A>>, c: Cmd<A>)
    ensures
        #[trigger] stack_size(s.push(c)) == stack_size(s) + doc_size(c.2),
{
    assert(s.push(c).drop_last() =~= s);
}

/// Stacks holding the same documents have the same size, whatever the modes
/// and indents.
pub proof fn lemma_stack_size_docs<A>(b1: Seq<Cmd<A>>, b2: Seq<Cmd<A>>)
    requires
        b1.len() == b2.len(),
        forall|j: int| 0 <= j < b1.len() ==> b1[j].2 == #[trigger] b2[j].2,
    ensures
        stack_size(b1) == stack_size(b2),
    decreases b1.len(),
{
    if b1.len() > 0 {
        lemma_stack_size_docs(b1.drop_last(), b2.drop_last());
    }
}

/// Re-validation flips modes only, so it leaves the stack size unchanged.
pub proof fn lemma_stack_size_refit<A>(w: usize, pos: usize, b: Seq<Cmd<A>>)
    ensures
        stack_size(refit(w, pos, b)) == stack_size(b),
{
    if refit(w, pos, b) != b {
        lemma_flip_tail_index(b, flat_suffix_start(b));
        lemma_stack_size_docs(refit(w, pos, b), b);
    }
}

/// The text of concatenated events is the concatenation of their texts.
pub broadcast proof fn lemma_texts_concat<A>(a: Seq<Ev<A>>, b: Seq<Ev<A>>)
    ensures
        #[trigger] texts(a + b) == texts(a) + texts(b),
    decreases b.len(),
{
    if b.len() == 0 {
        assert(a + b =~= a);
        assert(texts(a) + texts(b) =~= texts(a));
    } else {
        lemma_texts_concat(a, b.drop_last());
        assert((a + b).drop_last() =~= a + b.drop_last());
        assert((a + b).last() == b.last());
        assert(texts(a) + (texts(b.drop_last()) + ev_text(b.last())) =~= (texts(a) + texts(
            b.drop_last(),
        )) + ev_text(b.last()));
    }
}

/// Appending one event appends its text.
pub broadcast proof fn lemma_texts_push<A>(s: Seq<Ev<A>>, e: Ev<A>)
    ensures
        #[trigger] texts(s.push(e)) == texts(s) + ev_text(e),
{
    assert(s.push(e).drop_last() =~= s);
}

/// Region-end events carry no text.
pub proof fn lemma_texts_pops<A>(n: nat)
    ensures
        texts(pops::<A>(n)) == Seq::<char>::empty(),
    decreases n,
{
    if n == 0 {
        assert(pops::<A>(0).len() == 0);
    } else {
        lemma_texts_pops::<A>((n - 1) as nat);
        assert(pops::<A>(n).drop_last() =~= pops::<A>((n - 1) as nat));
        assert(pops::<A>(n).last() == Ev::<A>::Pop);
        assert(texts(pops::<A>(n)) =~= Seq::<char>::empty());
    }
}

/// Closing annotations emits no text: continuing a render emits the text of
/// the rendering that remains after the drained markers.
pub proof fn lemma_texts_resume<A>(w: usize, pos: usize, b: Seq<Cmd<A>>, marks: Seq<nat>)
    ensures
        texts(resume(w, pos, b, marks)) == texts(
            best_events(w, pos, b, drain(marks, b.len())),
        ),
{
    lemma_texts_pops::<A>(drain_count(marks, b.len()));
    lemma_texts_concat(
        pops::<A>(drain_count(marks, b.len())),
        best_events(w, pos, b, drain(marks, b.len())),
    );
    assert(Seq::<char>::empty() + texts(best_events(w, pos, b, drain(marks, b.len()))) =~= texts(
        best_events(w, pos, b, drain(marks, b.len())),
    ));
}

/// The work item an executable `(indent, mode, node reference)` triple stands
/// for.
pub open spec fn cmd_view<A>(c: (usize, Mode, &Doc<A>)) -> Cmd<A> {
    (c.0, c.1, *c.2)
}

/// The work stack an executable stack of triples stands for.
pub open spec fn cmds_view<A>(s: Seq<(usize, Mode, &Doc<A>)>) -> Seq<Cmd<A>>
    decreases s.len(),
{
    if s.len() == 0 {
        Seq::empty()
    } else {
        cmds_view(s.drop_last()).push(cmd_view(s.last()))
    }
}

/// The scope markers an executable stack of depths stands for.
pub open spec fn marks_view(s: Seq<usize>) -> Seq<nat>
    decreases s.len(),
{
    if s.len() == 0 {
        Seq::empty()
    } else {
        marks_view(s.drop_last()).push(s.last() as nat)
    }
}

/// What `cmds_view` is, item by item.
pub proof fn lemma_cmds_view<A>(s: Seq<(usize, Mode, &Doc<A>)>)
    ensures
        cmds_view(s).len() == s.len(),
        forall|j: int| 0 <= j < s.len() ==> #[trigger] cmds_view(s)[j] == cmd_view(s[j]),
    decreases s.len(),
{
    if s.len() > 0 {
        lemma_cmds_view(s.drop_last());
        assert forall|j: int| 0 <= j < s.len() implies #[trigger] cmds_view(s)[j] == cmd_view(
            s[j],
        ) by {
            if j < s.len() - 1 {
                assert(cmds_view(s)[j] == cmds_view(s.drop_last())[j]);
                assert(s.drop_last()[j] == s[j]);
            }
        }
    }
}

/// What `marks_view` is, item by item.
pub proof fn lemma_marks_view(s: Seq<usize>)
    ensures
        marks_view(s).len() == s.len(),
        forall|j: int| 0 <= j < s.len() ==> #[trigger] marks_view(s)[j] == s[j] as nat,
    decreases s.len(),
{
    if s.len() > 0 {
        lemma_marks_view(s.drop_last());
        assert forall|j: int| 0 <= j < s.len() implies #[trigger] marks_view(s)[j] == s[j] as nat by {
            if j < s.len() - 1 {
                assert(marks_view(s)[j] == marks_view(s.drop_last())[j]);
                assert(s.drop_last()[j] == s[j]);
            }
        }
    }
}

/// Popping a triple pops its work item.
pub proof fn lemma_cmds_view_pop<A>(s: Seq<(usize, Mode, &Doc<A>)>)
    requires
        s.len() > 0,
    ensures
        cmds_view(s).len() == s.len(),
        cmds_view(s).last() == cmd_view(s.last()),
        cmds_view(s).drop_last() == cmds_view(s.drop_last()),
{
    lemma_cmds_view(s);
    assert(cmds_view(s.drop_last()).push(cmd_view(s.last())).drop_last() =~= cmds_view(
        s.drop_last(),
    ));
}

/// One depth appended appends its marker.
pub proof fn lemma_marks_view_snoc(s2: Seq<usize>, s1: Seq<usize>, u: usize)
    requires
        s2 == s1.push(u),
    ensures
        marks_view(s2) == marks_view(s1).push(u as nat),
{
    assert(s1.push(u).drop_last() =~= s1);
}

/// Popping a depth pops its marker.
pub proof fn lemma_marks_view_pop(s: Seq<usize>)
    requires
        s.len() > 0,
    ensures
        marks_view(s).len() == s.len(),
        marks_view(s).last() == s.last() as nat,
        marks_view(s).drop_last() == marks_view(s.drop_last()),
{
    lemma_marks_view(s);
    assert(marks_view(s.drop_last()).push(s.last() as nat).drop_last() =~= marks_view(
        s.drop_last(),
    ));
}

/// Plain character events carry exactly their characters.
pub proof fn lemma_texts_ch_evs<A>(s: Seq<char>)
    ensures
        texts(ch_evs::<A>(s)) == s,
    decreases s.len(),
{
    if s.len() == 0 {
        assert(texts(ch_evs::<A>(s)) =~= s);
    } else {
        lemma_texts_ch_evs::<A>(s.drop_last());
        lemma_texts_push(ch_evs::<A>(s.drop_last()), Ev::<A>::Ch(s.last()));
        assert(texts(ch_evs::<A>(s.drop_last())) + ev_text(Ev::<A>::Ch(s.last())) =~= s);
    }
}

} // verus!
