//! Output sinks.
//!
//! [`Render`] is the capability the engine writes through: a character
//! sequence view (`out`), a `write_str` that may consume only part of its
//! input, and a derived `write_str_all`.  [`RenderAnnotated`] adds the
//! optional begin/end markers for annotated regions.  [`BufWrite`] is the
//! in-memory sink: it records every write and every annotation event, so a
//! caller can read back both the plain text and the exact event order.

use vstd::prelude::*;
use vstd::string::StrSliceExecFns;

verus! {

/// Relies on `String::push_str`: it appends the given characters to the
/// string, nothing more.
pub assume_specification[ String::push_str ](s: &mut String, other: &str)
    ensures
        final(s)@ == old(s)@ + other@,
;

/// The operations necessary to render a document.
///
/// `out` is the text written so far; `reliable` marks sinks whose operations
/// never fail (an in-memory buffer), so that rendering to them is total.
pub trait Render {
    type Error;

    /// The characters this sink has accepted so far.  A sink outside the
    /// reach of verification may leave this at its default.
    open spec fn out(&self) -> Seq<char> {
        Seq::empty()
    }

    /// True of sinks whose writes cannot fail.  False unless a verified sink
    /// says otherwise.
    open spec fn reliable(&self) -> bool {
        false
    }

    /// Attempts to emit `s`, returning how many of its characters were
    /// consumed.  A successful write consumes at least one character unless
    /// `s` is empty.
    fn write_str(&mut self, s: &str) -> (r: Result<usize, Self::Error>)
        ensures
            final(self).reliable() == old(self).reliable(),
            match r {
                Ok(n) => {
                    &&& n <= s@.len()
                    &&& s@.len() > 0 ==> n > 0
                    &&& final(self).out() == old(self).out() + s@.take(n as int)
                },
                Err(_) => !old(self).reliable(),
            },
    ;

    /// Emits all of `s`, looping over `write_str` until it is consumed or an
    /// error occurs.
    fn write_str_all(&mut self, s: &str) -> (r: Result<(), Self::Error>)
        ensures
            final(self).reliable() == old(self).reliable(),
            match r {
                Ok(_) => final(self).out() == old(self).out() + s@,
                Err(_) => !old(self).reliable(),
            },
    {
        let total = s.unicode_len();
        let mut done: usize = 0;
        while done < total
            invariant
                done <= total,
                total == s@.len(),
                self.reliable() == old(self).reliable(),
                self.out() == old(self).out() + s@.take(done as int),
            decreases total - done,
        {
            let rest = s.substring_char(done, total);
            match self.write_str(rest) {
                Ok(n) => {
                    proof {
                        assert(rest@ == s@.subrange(done as int, total as int));
                        assert(s@.take(done as int) + rest@.take(n as int) =~= s@.take(
                            done as int + n,
                        ));
                        assert(old(self).out() + s@.take(done as int) + rest@.take(n as int)
                            =~= old(self).out() + s@.take(done as int + n));
                    }
                    done = done + n;
                },
                Err(e) => {
                    return Err(e);
                },
            }
        }
        proof {
            assert(s@.take(total as int) =~= s@);
        }
        Ok(())
    }
}

/// The operations necessary to render an annotated document: `Render` plus
/// begin/end markers for annotated regions.  A sink that has no use for
/// annotations implements both as no-ops.
pub trait RenderAnnotated<A>: Render {
    /// Opens an annotated region.  Emits no text.
    fn push_annotation(&mut self, ann: &A) -> (r: Result<(), Self::Error>)
        ensures
            final(self).reliable() == old(self).reliable(),
            final(self).out() == old(self).out(),
            r is Err ==> !old(self).reliable(),
    ;

    /// Closes the most recently opened annotated region.  Emits no text.
    fn pop_annotation(&mut self) -> (r: Result<(), Self::Error>)
        ensures
            final(self).reliable() == old(self).reliable(),
            final(self).out() == old(self).out(),
            r is Err ==> !old(self).reliable(),
    ;
}

/// One record of what a [`BufWrite`] received.
#[derive(Debug, Clone, PartialEq, Eq)]
pub enum SinkEvent<A> {
    /// A chunk of written text.
    Text(String),
    /// The beginning of an annotated region.
    Push(A),
    /// The end of the most recently begun region.
    Pop,
}

/// The text a sink-event record carries.
pub open spec fn sink_event_text<A>(e: SinkEvent<A>) -> Seq<char> {
    match e {
        SinkEvent::Text(s) => s@,
        _ => Seq::empty(),
    }
}

/// The text a sequence of sink-event records carries, in order.
pub open spec fn sink_events_text<A>(evs: Seq<SinkEvent<A>>) -> Seq<char>
    decreases evs.len(),
{
    if evs.len() == 0 {
        Seq::empty()
    } else {
        sink_events_text(evs.drop_last()) + sink_event_text(evs.last())
    }
}

/// An in-memory sink: never fails, and keeps the full event record.
pub struct BufWrite<A> {
    /// Everything this sink received, in order.
    pub events: Vec<SinkEvent<A>>,
}

impl<A> BufWrite<A> {
    /// An empty buffer.
    pub fn new() -> (r: BufWrite<A>)
        ensures
            r.events@.len() == 0,
            r.out() == Seq::<char>::empty(),
            r.reliable(),
    {
        BufWrite { events: Vec::new() }
    }

    /// The text written so far, as one string.
    pub fn to_text(&self) -> (r: String)
        ensures
            r@ == self.out(),
    {
        let mut s = String::new();
        let mut i: usize = 0;
        while i < self.events.len()
            invariant
                i <= self.events@.len(),
                s@ == sink_events_text(self.events@.take(i as int)),
            decreases self.events@.len() - i,
        {
            match &self.events[i] {
                SinkEvent::Text(t) => {
                    s.push_str(t.as_str());
                },
                _ => {},
            }
            proof {
                assert(self.events@.take(i + 1).drop_last() =~= self.events@.take(i as int));
                assert(self.events@.take(i + 1).last() == self.events@[i as int]);
            }
            i = i + 1;
        }
        proof {
            assert(self.events@.take(self.events@.len() as int) =~= self.events@);
        }
        s
    }
}

impl<A> Render for BufWrite<A> {
    type Error = ();

    open spec fn out(&self) -> Seq<char> {
        sink_events_text(self.events@)
    }

    open spec fn reliable(&self) -> bool {
        true
    }

    fn write_str(&mut self, s: &str) -> (r: Result<usize, ()>) {
        let n = s.unicode_len();
        let owned = s.to_owned();
        self.events.push(SinkEvent::Text(owned));
        proof {
            assert(self.events@.drop_last() =~= old(self).events@);
            assert(s@.take(n as int) =~= s@);
        }
        Ok(n)
    }
}

impl<A: Clone> RenderAnnotated<A> for BufWrite<A> {
    fn push_annotation(&mut self, ann: &A) -> (r: Result<(), ()>) {
        self.events.push(SinkEvent::Push(ann.clone()));
        proof {
            assert(self.events@.drop_last() =~= old(self).events@);
        }
        Ok(())
    }

    fn pop_annotation(&mut self) -> (r: Result<(), ()>) {
        self.events.push(SinkEvent::Pop);
        proof {
            assert(self.events@.drop_last() =~= old(self).events@);
        }
        Ok(())
    }
}

} // verus!
