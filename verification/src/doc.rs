//! The document tree and the rendering engine.

use vstd::prelude::*;
use vstd::string::StrSliceExecFns;

use crate::model::{
    best_events, blanks, ch_evs, cmd_view, cmds_view, doc_events, doc_size, drain, drain_count,
    fits, flat_suffix_start, flip_tail, lemma_cmds_view, lemma_cmds_view_pop,
    lemma_flip_tail_index, lemma_marks_view_pop, lemma_marks_view_snoc, lemma_stack_size_refit,
    lemma_texts_ch_evs, lemma_texts_concat, lemma_texts_pops, lemma_texts_push, line_text,
    marks_view, pops, refit, rendered, resume, sat_add, stack_size, texts, Cmd, Ev,
};
use crate::sink::{BufWrite, Render, RenderAnnotated};

verus! {

/// Rendering mode carried on the work stack: `Flat` suppresses line breaks at
/// soft-break points, `Break` turns them into indented newlines.  The mode is
/// context, never stored on a node, so a shared subtree can render flat in one
/// place and broken in another.
#[derive(Clone, Copy, Debug, PartialEq, Eq, Structural)]
pub enum Mode {
    Break,
    Flat,
}

/// The document tree.  Every value is well formed; construction cannot fail.
/// `A` is the type of semantic annotations (for example a color).
#[derive(Debug)]
pub enum Doc<A> {
    /// Contributes nothing.
    Nil,
    /// Ordered juxtaposition, rendered left to right.
    Append(Box<Doc<A>>, Box<Doc<A>>),
    /// A unit rendered either fully flat or fully broken, decided atomically
    /// where it is encountered.
    Group(Box<Doc<A>>),
    /// The child inherits the current indentation plus the given amount.
    Nest(usize, Box<Doc<A>>),
    /// One blank in flat mode; a line break plus indentation in break mode.
    Space,
    /// Always a line break plus indentation, regardless of mode.
    Newline,
    /// Raw content, never split or wrapped; its width is its character count.
    Text(String),
    /// Wraps the child in a semantic region: begin/end markers are emitted
    /// around the child's output, with no layout effect.
    Annotated(A, Box<Doc<A>>),
}

impl<A> Doc<A> {
    /// Renders this document at the target width into any annotated sink.
    /// On success the sink has received exactly the text of the rendering;
    /// a reliable sink cannot make it fail.
    pub fn render_raw<'b, W: RenderAnnotated<A>>(&'b self, width: usize, out: &mut W) -> (r:
        Result<(), W::Error>)
        ensures
            final(out).reliable() == old(out).reliable(),
            old(out).reliable() ==> r is Ok,
            r is Ok ==> final(out).out() == old(out).out() + rendered(*self, width),
    {
        best(self, width, out)
    }

    /// Pairs this document with a width, for later rendering to text.
    pub fn pretty<'b>(&'b self, width: usize) -> (r: Pretty<'b, A>)
        ensures
            r.doc == self,
            r.width == width,
    {
        Pretty { doc: self, width }
    }
}

/// A document together with a target width.
pub struct Pretty<'a, A> {
    /// The document to render.
    pub doc: &'a Doc<A>,
    /// The target width.
    pub width: usize,
}

impl<'a, A: Clone> Pretty<'a, A> {
    /// The rendering, as one string.
    pub fn to_text(&self) -> (r: String)
        ensures
            r@ == rendered(*self.doc, self.width),
    {
        let mut buf: BufWrite<A> = BufWrite::new();
        let res = self.doc.render_raw(self.width, &mut buf);
        proof {
            assert(res is Ok);
            assert(Seq::<char>::empty() + rendered(*self.doc, self.width) =~= rendered(
                *self.doc,
                self.width,
            ));
        }
        buf.to_text()
    }
}

/// Addition on column positions, saturating at the machine limit.
fn sat_add_exec(a: usize, b: usize) -> (r: usize)
    ensures
        r == sat_add(a, b as nat),
{
    if b <= usize::MAX - a {
        a + b
    } else {
        usize::MAX
    }
}

/// Emits a line break followed by `ind` blanks of indentation.
fn write_newline<W: Render>(ind: usize, out: &mut W) -> (r: Result<(), W::Error>)
    ensures
        final(out).reliable() == old(out).reliable(),
        old(out).reliable() ==> r is Ok,
        r is Ok ==> final(out).out() == old(out).out() + line_text(ind as nat),
{
    match out.write_str_all("\n") {
        Ok(_) => {},
        Err(e) => {
            return Err(e);
        },
    }
    match write_spaces(ind, out) {
        Ok(_) => {},
        Err(e) => {
            return Err(e);
        },
    }
    proof {
        reveal_strlit("\n");
        assert("\n"@ =~= seq!['\n']);
        assert(old(out).out() + "\n"@ + blanks(ind as nat) =~= old(out).out() + line_text(
            ind as nat,
        ));
    }
    Ok(())
}

/// Emits `spaces` blanks.
fn write_spaces<W: Render>(spaces: usize, out: &mut W) -> (r: Result<(), W::Error>)
    ensures
        final(out).reliable() == old(out).reliable(),
        old(out).reliable() ==> r is Ok,
        r is Ok ==> final(out).out() == old(out).out() + blanks(spaces as nat),
{
    let mut i: usize = 0;
    proof {
        assert(out.out() + blanks(0) =~= out.out());
    }
    while i < spaces
        invariant
            i <= spaces,
            out.reliable() == old(out).reliable(),
            out.out() == old(out).out() + blanks(i as nat),
        decreases spaces - i,
    {
        match out.write_str_all(" ") {
            Ok(_) => {},
            Err(e) => {
                return Err(e);
            },
        }
        proof {
            reveal_strlit(" ");
            assert(" "@ =~= seq![' ']);
            assert(blanks((i + 1) as nat) =~= blanks(i as nat) + seq![' ']);
            assert(old(out).out() + blanks(i as nat) + " "@ =~= old(out).out() + blanks(
                (i + 1) as nat,
            ));
        }
        i = i + 1;
    }
    Ok(())
}
/// Pushes one work item, keeping the stack's mathematical view in step.
fn push_cmd<'a, A>(
    v: &mut Vec<(usize, Mode, &'a Doc<A>)>,
    c: (usize, Mode, &'a Doc<A>),
)
    ensures
        final(v)@ == old(v)@.push(c),
        cmds_view(final(v)@) == cmds_view(old(v)@).push(cmd_view(c)),
        stack_size(cmds_view(final(v)@)) == stack_size(cmds_view(old(v)@)) + doc_size(*c.2),
{
    v.push(c);
    proof {
        assert(old(v)@.push(c).drop_last() =~= old(v)@);
        assert(cmds_view(old(v)@).push(cmd_view(c)).drop_last() =~= cmds_view(old(v)@));
    }
}

/// Pops one work item, keeping the stack's mathematical view in step.
fn pop_cmd<'a, A>(v: &mut Vec<(usize, Mode, &'a Doc<A>)>) -> (r: Option<(usize, Mode, &'a Doc<A>)>)
    ensures
        old(v)@.len() == 0 ==> r is None && final(v)@ == old(v)@,
        old(v)@.len() > 0 ==> {
            &&& r == Some(old(v)@.last())
            &&& final(v)@ == old(v)@.drop_last()
            &&& cmds_view(final(v)@) == cmds_view(old(v)@).drop_last()
            &&& cmd_view(old(v)@.last()) == cmds_view(old(v)@).last()
            &&& cmds_view(old(v)@).len() == old(v)@.len()
            &&& stack_size(cmds_view(old(v)@)) == stack_size(cmds_view(final(v)@)) + doc_size(
                *old(v)@.last().2,
            )
        },
{
    let ghost pre = v@;
    let r = v.pop();
    proof {
        if pre.len() > 0 {
            assert(pre.subrange(0, pre.len() - 1) =~= pre.drop_last());
            lemma_cmds_view_pop(pre);
        }
    }
    r
}

/// The lookahead: decides whether `next`, followed by the committed stack
/// pulled top-down, renders within `rem` width units before a mandatory
/// break.  `fcmds` is a caller-owned scratch stack, cleared on entry.
fn fitting<'a, A>(
    next: (usize, Mode, &'a Doc<A>),
    bcmds: &Vec<(usize, Mode, &'a Doc<A>)>,
    fcmds: &mut Vec<(usize, Mode, &'a Doc<A>)>,
    rem: i128,
) -> (r: bool)
    ensures
        r == fits(seq![cmd_view(next)], cmds_view(bcmds@), rem as int),
{
    let ghost target = fits(seq![cmd_view(next)], cmds_view(bcmds@), rem as int);
    let mut bidx: usize = bcmds.len();
    fcmds.clear();
    push_cmd(fcmds, next);
    let mut budget: i128 = rem;
    proof {
        assert(cmds_view(Seq::<(usize, Mode, &Doc<A>)>::empty()) =~= Seq::<Cmd<A>>::empty());
        assert(cmds_view(fcmds@) =~= seq![cmd_view(next)]);
        assert(bcmds@.take(bidx as int) =~= bcmds@);
    }
    loop
        invariant
            bidx <= bcmds@.len(),
            target == fits(seq![cmd_view(next)], cmds_view(bcmds@), rem as int),
            target == fits(cmds_view(fcmds@), cmds_view(bcmds@.take(bidx as int)), budget as int),
        decreases bidx, stack_size(cmds_view(fcmds@)),
    {
        if budget < 0 {
            return false;
        }
        let ghost f_pre = cmds_view(fcmds@);
        let ghost b_pre = cmds_view(bcmds@.take(bidx as int));
        let popped = pop_cmd(fcmds);
        match popped {
            None => {
                if bidx == 0 {
                    proof {
                        assert(f_pre.len() == 0);
                        assert(b_pre.len() == 0);
                    }
                    return true;
                }
                let c = bcmds[bidx - 1];
                push_cmd(fcmds, c);
                bidx = bidx - 1;
                proof {
                    assert(f_pre.len() == 0);
                    lemma_cmds_view_pop(bcmds@.take(bidx + 1));
                    assert(bcmds@.take(bidx + 1).last() == bcmds@[bidx as int]);
                    assert(bcmds@.take(bidx + 1).drop_last() =~= bcmds@.take(bidx as int));
                    assert(cmds_view(fcmds@) =~= seq![b_pre.last()]);
                    assert(cmds_view(bcmds@.take(bidx as int)) == b_pre.drop_last());
                }
            },
            Some((ind, mode, d)) => {
                proof {
                    assert(f_pre.last() == (ind, mode, *d));
                }
                match d {
                    Doc::Nil => {
                        proof {
                            assert(target == fits(
                                cmds_view(fcmds@),
                                cmds_view(bcmds@.take(bidx as int)),
                                budget as int,
                            ));
                        }
                    },
                    Doc::Append(l, rr) => {
                        push_cmd(fcmds, (ind, mode, &**rr));
                        push_cmd(fcmds, (ind, mode, &**l));
                        proof {
                            assert(target == fits(
                                cmds_view(fcmds@),
                                cmds_view(bcmds@.take(bidx as int)),
                                budget as int,
                            ));
                        }
                    },
                    Doc::Group(c) => {
                        push_cmd(fcmds, (ind, mode, &**c));
                        proof {
                            assert(target == fits(
                                cmds_view(fcmds@),
                                cmds_view(bcmds@.take(bidx as int)),
                                budget as int,
                            ));
                        }
                    },
                    Doc::Nest(off, c) => {
                        let nind = sat_add_exec(ind, *off);
                        push_cmd(fcmds, (nind, mode, &**c));
                        proof {
                            assert(target == fits(
                                cmds_view(fcmds@),
                                cmds_view(bcmds@.take(bidx as int)),
                                budget as int,
                            ));
                        }
                    },
                    Doc::Space => {
                        match mode {
                            Mode::Flat => {
                                budget = budget - 1;
                                proof {
                                    assert(target == fits(
                                        cmds_view(fcmds@),
                                        cmds_view(bcmds@.take(bidx as int)),
                                        budget as int,
                                    ));
                                }
                            },
                            Mode::Break => {
                                proof {
                                    assert(target == true);
                                }
                                return true;
                            },
                        }
                    },
                    Doc::Newline => {
                        proof {
                            assert(target == true);
                        }
                        return true;
                    },
                    Doc::Text(s) => {
                        let n = s.as_str().unicode_len();
                        budget = budget - (n as i128);
                        proof {
                            assert(target == fits(
                                cmds_view(fcmds@),
                                cmds_view(bcmds@.take(bidx as int)),
                                budget as int,
                            ));
                        }
                    },
                    Doc::Annotated(_, c) => {
                        push_cmd(fcmds, (ind, mode, &**c));
                        proof {
                            assert(target == fits(
                                cmds_view(fcmds@),
                                cmds_view(bcmds@.take(bidx as int)),
                                budget as int,
                            ));
                        }
                    },
                }
            },
        }
    }
}

/// The main rendering loop: walks the work stack, consulting the lookahead at
/// each group met in break mode, streaming output to the sink, and closing
/// annotated regions as their subtrees complete.
#[verifier::rlimit(100)]
fn best<'a, A, W: RenderAnnotated<A>>(doc: &'a Doc<A>, width: usize, out: &mut W) -> (r: Result<
    (),
    W::Error,
>)
    ensures
        final(out).reliable() == old(out).reliable(),
        old(out).reliable() ==> r is Ok,
        r is Ok ==> final(out).out() == old(out).out() + rendered(*doc, width),
{
    let mut pos: usize = 0;
    let mut bcmds: Vec<(usize, Mode, &'a Doc<A>)> = Vec::new();
    push_cmd(&mut bcmds, (0, Mode::Break, doc));
    let mut fcmds: Vec<(usize, Mode, &'a Doc<A>)> = Vec::new();
    let mut anns: Vec<usize> = Vec::new();
    let ghost rel0 = out.reliable();
    let ghost full = out.out() + texts(doc_events(*doc, width));
    proof {
        assert(cmds_view(Seq::<(usize, Mode, &Doc<A>)>::empty()) =~= Seq::<Cmd<A>>::empty());
        assert(cmds_view(bcmds@) =~= seq![(0usize, Mode::Break, *doc)]);
        assert(marks_view(anns@) =~= Seq::<nat>::empty());
    }
    while bcmds.len() != 0
        invariant
            rel0 == old(out).reliable(),
            out.reliable() == rel0,
            full == old(out).out() + texts(doc_events(*doc, width)),
            out.out() + texts(best_events(width, pos, cmds_view(bcmds@), marks_view(anns@)))
                == full,
        decreases stack_size(cmds_view(bcmds@)),
    {
        let ghost bv_pre = cmds_view(bcmds@);
        let ghost mv_pre = marks_view(anns@);
        let ghost pos_pre = pos;
        let ghost out_pre = out.out();
        let (ind, mode, d) = pop_cmd(&mut bcmds).unwrap();
        let ghost b0v = cmds_view(bcmds@);
        let ghost mut emit: Seq<Ev<A>> = Seq::empty();
        let ghost mut mv_mid: Seq<nat> = mv_pre;
        proof {
            assert(bv_pre.last() == (ind, mode, *d));
            assert(b0v == bv_pre.drop_last());
        }
        match d {
            Doc::Nil => {
                proof {
                    assert(texts(emit) =~= Seq::<char>::empty());
                    assert(out.out() =~= out_pre + texts(emit));
                    assert(best_events(width, pos_pre, bv_pre, mv_pre) == resume(
                        width,
                        pos,
                        cmds_view(bcmds@),
                        mv_mid,
                    ));
                    assert(best_events(width, pos_pre, bv_pre, mv_pre) =~= emit + resume(
                        width,
                        pos,
                        cmds_view(bcmds@),
                        mv_mid,
                    ));
                    assert(stack_size(cmds_view(bcmds@)) < stack_size(bv_pre));
                }
            },
            Doc::Append(l, rr) => {
                push_cmd(&mut bcmds, (ind, mode, &**rr));
                push_cmd(&mut bcmds, (ind, mode, &**l));
                proof {
                    assert(texts(emit) =~= Seq::<char>::empty());
                    assert(out.out() =~= out_pre + texts(emit));
                    assert(best_events(width, pos_pre, bv_pre, mv_pre) == resume(
                        width,
                        pos,
                        cmds_view(bcmds@),
                        mv_mid,
                    ));
                    assert(best_events(width, pos_pre, bv_pre, mv_pre) =~= emit + resume(
                        width,
                        pos,
                        cmds_view(bcmds@),
                        mv_mid,
                    ));
                    assert(stack_size(cmds_view(bcmds@)) < stack_size(bv_pre));
                }
            },
            Doc::Group(c) => {
                match mode {
                    Mode::Flat => {
                        push_cmd(&mut bcmds, (ind, Mode::Flat, &**c));
                    },
                    Mode::Break => {
                        let next = (ind, Mode::Flat, &**c);
                        let rem = width as i128 - pos as i128;
                        if fitting(next, &bcmds, &mut fcmds, rem) {
                            proof {
                                assert(fits(seq![(ind, Mode::Flat, **c)], b0v, width - pos));
                            }
                            push_cmd(&mut bcmds, next);
                        } else {
                            proof {
                                assert(!fits(seq![(ind, Mode::Flat, **c)], b0v, width - pos));
                            }
                            push_cmd(&mut bcmds, (ind, Mode::Break, &**c));
                        }
                    },
                }
                proof {
                    assert(texts(emit) =~= Seq::<char>::empty());
                    assert(out.out() =~= out_pre + texts(emit));
                    assert(best_events(width, pos_pre, bv_pre, mv_pre) == resume(
                        width,
                        pos,
                        cmds_view(bcmds@),
                        mv_mid,
                    ));
                    assert(best_events(width, pos_pre, bv_pre, mv_pre) =~= emit + resume(
                        width,
                        pos,
                        cmds_view(bcmds@),
                        mv_mid,
                    ));
                    assert(stack_size(cmds_view(bcmds@)) < stack_size(bv_pre));
                }
            },
            Doc::Nest(off, c) => {
                let nind = sat_add_exec(ind, *off);
                push_cmd(&mut bcmds, (nind, mode, &**c));
                proof {
                    assert(texts(emit) =~= Seq::<char>::empty());
                    assert(out.out() =~= out_pre + texts(emit));
                    assert(best_events(width, pos_pre, bv_pre, mv_pre) == resume(
                        width,
                        pos,
                        cmds_view(bcmds@),
                        mv_mid,
                    ));
                    assert(best_events(width, pos_pre, bv_pre, mv_pre) =~= emit + resume(
                        width,
                        pos,
                        cmds_view(bcmds@),
                        mv_mid,
                    ));
                    assert(stack_size(cmds_view(bcmds@)) < stack_size(bv_pre));
                }
            },
            Doc::Space => {
                match mode {
                    Mode::Flat => {
                        match out.write_str_all(" ") {
                            Ok(_) => {},
                            Err(e) => {
                                return Err(e);
                            },
                        }
                        pos = sat_add_exec(pos, 1);
                        proof {
                            reveal_strlit(" ");
                            assert(" "@ =~= seq![' ']);
                            emit = seq![Ev::Ch(' ')];
                            assert(emit =~= Seq::<Ev<A>>::empty().push(Ev::Ch(' ')));
                            lemma_texts_push(Seq::<Ev<A>>::empty(), Ev::<A>::Ch(' '));
                            assert(texts(emit) =~= seq![' ']);
                            assert(out.out() == out_pre + texts(emit));
                        }
                    },
                    Mode::Break => {
                        match write_newline(ind, out) {
                            Ok(_) => {},
                            Err(e) => {
                                return Err(e);
                            },
                        }
                        pos = ind;
                        proof {
                            emit = ch_evs(line_text(ind as nat));
                            lemma_texts_ch_evs::<A>(line_text(ind as nat));
                            assert(out.out() == out_pre + texts(emit));
                        }
                    },
                }
                proof {
                    assert(best_events(width, pos_pre, bv_pre, mv_pre) == emit + resume(
                        width,
                        pos,
                        cmds_view(bcmds@),
                        mv_mid,
                    ));
                    assert(stack_size(cmds_view(bcmds@)) < stack_size(bv_pre));
                }
            },
            Doc::Newline => {
                match write_newline(ind, out) {
                    Ok(_) => {},
                    Err(e) => {
                        return Err(e);
                    },
                }
                pos = ind;
                proof {
                    emit = ch_evs(line_text(ind as nat));
                    lemma_texts_ch_evs::<A>(line_text(ind as nat));
                    assert(out.out() == out_pre + texts(emit));
                }
                if bcmds.len() > 0 {
                    let top = bcmds[bcmds.len() - 1];
                    proof {
                        lemma_cmds_view(bcmds@);
                        assert(b0v.last() == cmd_view(top));
                        assert(b0v.len() == bcmds@.len());
                    }
                    if matches!(top.1, Mode::Flat) {
                        let rem = width as i128 - pos as i128;
                        let fit = fitting(top, &bcmds, &mut fcmds, rem);
                        proof {
                            assert(seq![cmd_view(top)] =~= seq![b0v.last()]);
                            assert(fit == fits(seq![b0v.last()], b0v, width - pos));
                        }
                        if !fit {
                            // find the start of the all-flat suffix
                            let mut k: usize = bcmds.len();
                            proof {
                                assert(b0v.take(k as int) =~= b0v);
                            }
                            while k > 0 && matches!(bcmds[k - 1].1, Mode::Flat)
                                invariant
                                    k <= bcmds@.len(),
                                    b0v == cmds_view(bcmds@),
                                    b0v.len() == bcmds@.len(),
                                    flat_suffix_start(b0v) == flat_suffix_start(
                                        b0v.take(k as int),
                                    ),
                                decreases k,
                            {
                                proof {
                                    lemma_cmds_view(bcmds@);
                                    assert(b0v.take(k as int).last() == b0v[k - 1]);
                                    assert(b0v[k - 1] == cmd_view(bcmds@[k - 1]));
                                    assert(b0v.take(k as int).drop_last() =~= b0v.take(k - 1));
                                }
                                k = k - 1;
                            }
                            proof {
                                lemma_cmds_view(bcmds@);
                                if k > 0 {
                                    assert(b0v.take(k as int).last() == cmd_view(bcmds@[k - 1]));
                                    assert(b0v.take(k as int).last().1 == Mode::Break);
                                }
                                assert(flat_suffix_start(b0v) == k as int);
                            }
                            // flip the suffix to break mode
                            let ghost b_before = bcmds@;
                            let mut j: usize = k;
                            while j < bcmds.len()
                                invariant
                                    k <= j <= bcmds@.len(),
                                    bcmds@.len() == b_before.len(),
                                    forall|t: int|
                                        0 <= t < b_before.len() ==> #[trigger] bcmds@[t] == (
                                        if k <= t < j {
                                            (b_before[t].0, Mode::Break, b_before[t].2)
                                        } else {
                                            b_before[t]
                                        }),
                                decreases bcmds@.len() - j,
                            {
                                let (ii, _m, dd) = bcmds[j];
                                bcmds.set(j, (ii, Mode::Break, dd));
                                j = j + 1;
                            }
                            proof {
                                lemma_flip_tail_index(b0v, k as int);
                                lemma_cmds_view(b_before);
                                lemma_cmds_view(bcmds@);
                                assert(cmds_view(bcmds@) =~= flip_tail(b0v, k as int));
                            }
                        }
                    }
                }
                proof {
                    assert(cmds_view(bcmds@) == refit(width, pos, b0v));
                    lemma_stack_size_refit(width, pos, b0v);
                    assert(best_events(width, pos_pre, bv_pre, mv_pre) == emit + resume(
                        width,
                        pos,
                        cmds_view(bcmds@),
                        mv_mid,
                    ));
                    assert(stack_size(cmds_view(bcmds@)) < stack_size(bv_pre));
                }
            },
            Doc::Text(s) => {
                let n = s.as_str().unicode_len();
                match out.write_str_all(s.as_str()) {
                    Ok(_) => {},
                    Err(e) => {
                        return Err(e);
                    },
                }
                pos = sat_add_exec(pos, n);
                proof {
                    emit = ch_evs(s@);
                    lemma_texts_ch_evs::<A>(s@);
                    assert(out.out() == out_pre + texts(emit));
                    assert(best_events(width, pos_pre, bv_pre, mv_pre) == emit + resume(
                        width,
                        pos,
                        cmds_view(bcmds@),
                        mv_mid,
                    ));
                    assert(stack_size(cmds_view(bcmds@)) < stack_size(bv_pre));
                }
            },
            Doc::Annotated(a, c) => {
                match out.push_annotation(a) {
                    Ok(_) => {},
                    Err(e) => {
                        return Err(e);
                    },
                }
                let ghost m0 = anns@;
                let lvl = bcmds.len();
                anns.push(lvl);
                push_cmd(&mut bcmds, (ind, mode, &**c));
                proof {
                    lemma_marks_view_snoc(anns@, m0, lvl);
                    mv_mid = mv_pre.push(b0v.len());
                    assert(marks_view(anns@) == mv_mid);
                    emit = seq![Ev::Push::<A>(*a)];
                    assert(emit =~= Seq::<Ev<A>>::empty().push(Ev::Push(*a)));
                    lemma_texts_push(Seq::<Ev<A>>::empty(), Ev::<A>::Push(*a));
                    assert(texts(emit) =~= Seq::<char>::empty());
                    assert(out.out() =~= out_pre + texts(emit));
                    assert(best_events(width, pos_pre, bv_pre, mv_pre) == emit + resume(
                        width,
                        pos,
                        cmds_view(bcmds@),
                        mv_mid,
                    ));
                    assert(stack_size(cmds_view(bcmds@)) < stack_size(bv_pre));
                }
            },
        }
        // close every annotation whose scope has completed
        let ghost b_new = cmds_view(bcmds@);
        let ghost blen = b_new.len();
        proof {
            lemma_cmds_view(bcmds@);
            assert(marks_view(anns@) == mv_mid);
            assert(blen == bcmds@.len());
            assert(out.out() == out_pre + texts(emit));
            assert(best_events(width, pos_pre, bv_pre, mv_pre) == emit + resume(
                width,
                pos,
                b_new,
                mv_mid,
            ));
            assert(resume(width, pos, b_new, mv_mid) == pops(drain_count(mv_mid, blen))
                + best_events(width, pos, b_new, drain(mv_mid, blen)));
            lemma_texts_pops::<A>(drain_count(mv_mid, blen));
            lemma_texts_concat(
                pops::<A>(drain_count(mv_mid, blen)),
                best_events(width, pos, b_new, drain(mv_mid, blen)),
            );
            assert(texts(resume(width, pos, b_new, mv_mid)) == texts(
                pops::<A>(drain_count(mv_mid, blen)) + best_events(
                    width,
                    pos,
                    b_new,
                    drain(mv_mid, blen),
                ),
            ));
            assert(texts(resume(width, pos, b_new, mv_mid)) =~= texts(
                best_events(width, pos, b_new, drain(mv_mid, blen)),
            ));
            lemma_texts_concat(emit, resume(width, pos, b_new, mv_mid));
            assert(texts(best_events(width, pos_pre, bv_pre, mv_pre)) == texts(emit) + texts(
                resume(width, pos, b_new, mv_mid),
            ));
            assert(stack_size(b_new) < stack_size(bv_pre));
        }
        let ghost out_mid = out.out();
        while anns.len() != 0 && anns[anns.len() - 1] == bcmds.len()
            invariant
                rel0 == old(out).reliable(),
                out.reliable() == rel0,
                out.out() == out_mid,
                blen == bcmds@.len(),
                drain(marks_view(anns@), blen) == drain(mv_mid, blen),
            decreases anns@.len(),
        {
            proof {
                lemma_marks_view_pop(anns@);
                assert(marks_view(anns@).last() == blen);
            }
            let ghost m_pre = anns@;
            let _level = anns.pop();
            proof {
                assert(m_pre.subrange(0, m_pre.len() - 1) =~= m_pre.drop_last());
                lemma_marks_view_pop(m_pre);
                assert(marks_view(anns@) == marks_view(m_pre).drop_last());
            }
            match out.pop_annotation() {
                Ok(_) => {},
                Err(e) => {
                    return Err(e);
                },
            }
        }
        proof {
            if anns@.len() > 0 {
                lemma_marks_view_pop(anns@);
                assert(marks_view(anns@).last() != blen);
            } else {
                assert(marks_view(anns@).len() == 0);
            }
            assert(drain(marks_view(anns@), blen) == marks_view(anns@));
            assert(marks_view(anns@) == drain(mv_mid, blen));
        }
    }
    proof {
        assert(cmds_view(bcmds@).len() == 0);
        assert(texts(best_events(width, pos, cmds_view(bcmds@), marks_view(anns@))).len() == 0);
        assert(out.out() + texts(best_events(width, pos, cmds_view(bcmds@), marks_view(anns@)))
            =~= out.out());
        assert(out.out() == old(out).out() + rendered(*doc, width));
    }
    Ok(())
}

} // verus!
