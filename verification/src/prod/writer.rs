//! When the log writer writes, flushes and ends, and what it writes.

use crate::log::{frame_line, framed, frameable, text_lines, written_lines_read_back};
use vstd::prelude::*;

verus! {

/// What the log writer finds in its channel.
#[derive(Debug)]
pub enum Found {
    /// An event, as one line of JSON.
    Event(String),
    /// Nothing, for the moment.
    Nothing,
    /// Nothing any more: the channel is closed.
    End,
}

/// What the log writer does next.
#[derive(Debug, PartialEq)]
pub enum Action {
    /// Write the text, then look again without waiting.
    Write(String),
    /// Flush, then wait for the next event.
    Flush,
    /// Flush a last time and report how many events were written.
    Finish(usize),
}

/// What was found.
pub enum Find {
    Event(Seq<char>),
    Nothing,
    End,
}

/// What is to be done.
pub enum Deed {
    Write(Seq<char>),
    Flush,
    Finish(nat),
}

impl View for Found {
    type V = Find;

    open spec fn view(&self) -> Find {
        match self {
            Found::Event(line) => Find::Event(line@),
            Found::Nothing => Find::Nothing,
            Found::End => Find::End,
        }
    }
}

impl View for Action {
    type V = Deed;

    open spec fn view(&self) -> Deed {
        match self {
            Action::Write(text) => Deed::Write(text@),
            Action::Flush => Deed::Flush,
            Action::Finish(n) => Deed::Finish(*n as nat),
        }
    }
}

/// The log writer: it writes out a burst of events, and flushes once when the burst is over
/// rather than after every event.
#[derive(Debug)]
pub struct LogWriter {
    written: usize,
    draining: bool,
}

/// The lines in what was found, in order.
pub open spec fn lines_in(found: Seq<Find>) -> Seq<Seq<char>>
    decreases found.len(),
{
    if found.len() == 0 {
        seq![]
    } else {
        match found.last() {
            Find::Event(line) => lines_in(found.drop_last()).push(line),
            _ => lines_in(found.drop_last()),
        }
    }
}

/// What is to be done on finding `now` while a burst is being written out or not, after
/// `written` events.
pub open spec fn answer(draining: bool, written: nat, now: Find) -> Deed {
    match now {
        Find::Event(line) => Deed::Write(line.push('\n')),
        Find::Nothing => Deed::Flush,
        Find::End => if draining {
            Deed::Flush
        } else {
            Deed::Finish(written)
        },
    }
}

impl LogWriter {
    /// How many events were written.
    pub closed spec fn written(&self) -> nat {
        self.written as nat
    }

    /// A burst is being written out: something was written and not yet flushed.
    pub closed spec fn draining(&self) -> bool {
        self.draining
    }

    /// A writer that has written nothing.
    pub fn new() -> (r: Self)
        ensures
            r.written() == 0,
            !r.draining(),
    {
        LogWriter { written: 0, draining: false }
    }

    /// How many events were written.
    pub fn count(&self) -> (r: usize)
        ensures
            r == self.written(),
    {
        self.written
    }

    /// Whether the writer must look at the channel without waiting.
    pub fn is_draining(&self) -> (r: bool)
        ensures
            r == self.draining(),
    {
        self.draining
    }

    /// What to do about what was found in the channel.
    pub fn next(&mut self, found: Found) -> (r: Action)
        requires
            old(self).written() < usize::MAX,
        ensures
            r@ == answer(old(self).draining(), old(self).written(), found@),
            final(self).written() == old(self).written() + if found is Event {
                1nat
            } else {
                0nat
            },
            final(self).draining() == (found is Event),
    {
        match found {
            Found::Event(line) => {
                self.written = self.written + 1;
                self.draining = true;
                Action::Write(frame_line(&line))
            },
            Found::Nothing => {
                self.draining = false;
                Action::Flush
            },
            Found::End => {
                if self.draining {
                    self.draining = false;
                    Action::Flush
                } else {
                    Action::Finish(self.written)
                }
            },
        }
    }
}

/// A burst is under way after what was found.
pub open spec fn draining_after(found: Seq<Find>) -> bool {
    found.len() > 0 && found.last() is Event
}

/// What the writer does on the last of what it found.
pub open spec fn deed_on(found: Seq<Find>) -> Deed
    recommends
        found.len() > 0,
{
    answer(draining_after(found.drop_last()), lines_in(found.drop_last()).len(), found.last())
}

/// All that the writer has written, in the order in which it wrote it.
pub open spec fn text_written(found: Seq<Find>) -> Seq<char>
    decreases found.len(),
{
    if found.len() == 0 {
        seq![]
    } else {
        text_written(found.drop_last()) + match deed_on(found) {
            Deed::Write(text) => text,
            _ => seq![],
        }
    }
}

proof fn lemma_framed_push(lines: Seq<Seq<char>>, line: Seq<char>)
    ensures
        framed(lines.push(line)) == framed(lines) + line.push('\n'),
    decreases lines.len(),
{
    let all = lines.push(line);
    if lines.len() == 0 {
        assert(all.drop_first() =~= lines);
        assert(all[0] == line);
        assert(framed(lines) =~= seq![]);
        assert(framed(all) =~= framed(lines) + line.push('\n'));
    } else {
        lemma_framed_push(lines.drop_first(), line);
        assert(all.drop_first() =~= lines.drop_first().push(line));
        assert(framed(all) =~= framed(lines) + line.push('\n'));
    }
}

/// What the writer writes, in whatever bursts the events arrive, is the log text of the events
/// in the order of their arrival.
pub proof fn the_text_is_the_log(found: Seq<Find>)
    ensures
        text_written(found) == framed(lines_in(found)),
    decreases found.len(),
{
    if found.len() > 0 {
        the_text_is_the_log(found.drop_last());
        if let Find::Event(line) = found.last() {
            lemma_framed_push(lines_in(found.drop_last()), line);
        } else {
            assert(text_written(found) =~= text_written(found.drop_last()));
        }
    } else {
        assert(framed(lines_in(found)) =~= seq![]);
    }
}

/// Reading the text of the writer gives back the lines of the events.
pub proof fn the_text_reads_back(found: Seq<Find>)
    requires
        forall|i: int| 0 <= i < lines_in(found).len() ==> frameable(#[trigger] lines_in(found)[i]),
    ensures
        text_lines(text_written(found)) == lines_in(found),
{
    the_text_is_the_log(found);
    written_lines_read_back(lines_in(found));
}

/// A writer that ends has flushed everything since it last wrote, and reports all the events
/// that it found.
pub proof fn the_end_counts_everything(found: Seq<Find>, n: nat)
    requires
        found.len() > 0,
        deed_on(found) == Deed::Finish(n),
    ensures
        n == lines_in(found).len(),
        found.len() > 1 ==> deed_on(found.drop_last()) == Deed::Flush || deed_on(
            found.drop_last(),
        ) is Finish,
{
}

/// A flush comes right after a write, so there is one for each burst: whether the channel is
/// empty for the moment or closed. The writer finds it empty only when it does not wait, that
/// is while a burst is under way.
pub proof fn one_flush_per_burst(found: Seq<Find>)
    requires
        found.len() > 0,
        found.last() is Nothing ==> draining_after(found.drop_last()),
        deed_on(found) == Deed::Flush,
    ensures
        found.len() > 1,
        deed_on(found.drop_last()) is Write,
{
}

// ---------------------------------------------------------------------------
// What the writer does
// ---------------------------------------------------------------------------

/// The lines in what was found are those of the events, in the order of their arrival.
pub proof fn the_lines_are_those_of_the_events(found: Seq<Find>)
    ensures
        lines_in(found) == found.filter(|f: Find| f is Event).map_values(|f: Find| f->Event_0),
    decreases found.len(),
{
    let pick = |f: Find| f is Event;
    let line = |f: Find| f->Event_0;
    reveal(Seq::filter);
    if found.len() == 0 {
        assert(found.filter(pick).map_values(line) =~= seq![]);
    } else {
        the_lines_are_those_of_the_events(found.drop_last());
        let less = found.drop_last().filter(pick);
        if found.last() is Event {
            assert(found.filter(pick) == less.push(found.last()));
            assert(less.push(found.last()).map_values(line) =~= less.map_values(line).push(
                line(found.last()),
            ));
        }
    }
}

/// An event is written, with a line feed, whatever went before. An empty channel is flushed. A
/// closed one is flushed if an event was the last thing found, and otherwise the writer ends, and
/// says how many events it found in all.
pub proof fn what_the_writer_does(found: Seq<Find>)
    requires
        found.len() > 0,
    ensures
        found.last() matches Find::Event(line) ==> deed_on(found) == Deed::Write(
            line + seq!['\n'],
        ),
        found.last() is Nothing ==> deed_on(found) is Flush,
        found.last() is End && found.len() > 1 && found[found.len() - 2] is Event ==> deed_on(found)
            is Flush,
        found.last() is End && !(found.len() > 1 && found[found.len() - 2] is Event) ==> deed_on(
            found,
        ) == Deed::Finish(found.filter(|f: Find| f is Event).len()),
{
    let less = found.drop_last();
    let pick = |f: Find| f is Event;
    the_lines_are_those_of_the_events(less);
    if let Find::Event(line) = found.last() {
        assert(line.push('\n') =~= line + seq!['\n']);
    }
    reveal(Seq::filter);
    if found.last() is End {
        assert(found.filter(pick) == less.filter(pick));
        assert(lines_in(less).len() == less.filter(pick).len());
    }
    if less.len() > 0 {
        assert(less.last() == found[found.len() - 2]);
    }
}

/// The answer of a writer: the same as that of one that has found what this one has.
pub proof fn what_the_writer_answers(draining: bool, written: nat, line: Seq<char>)
    ensures
        answer(draining, written, Find::Event(line)) == Deed::Write(line + seq!['\n']),
        answer(draining, written, Find::Nothing) is Flush,
        answer(true, written, Find::End) is Flush,
        answer(false, written, Find::End) == Deed::Finish(written),
{
    assert(line.push('\n') =~= line + seq!['\n']);
}

/// What is found and what is to be done are told as they are.
pub proof fn finds_and_deeds_are_as_they_are(found: Found, action: Action)
    ensures
        found is Event <==> found@ is Event,
        found is Nothing <==> found@ is Nothing,
        found matches Found::Event(line) ==> found@ == Find::Event(line@),
        action is Write <==> action@ is Write,
        action is Flush <==> action@ is Flush,
        action matches Action::Write(text) ==> action@ == Deed::Write(text@),
        action matches Action::Finish(n) ==> action@ == Deed::Finish(n as nat),
{
}

} // verus!
