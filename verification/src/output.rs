//! Destinations for the digits of a computation.
use vstd::prelude::*;
use vstd::string::*;

verus! {

/// Why a sink took no more.
#[derive(Debug)]
pub struct SinkError {
    pub message: String,
}

/// What a sink has been handed.
pub enum SinkEvent {
    /// The digits before the point.
    Integer(Seq<char>),
    /// A chunk of the digits after the point.
    Fraction(Seq<char>),
    /// The end.
    Finish,
}

/// Takes the decimal expansion: first the digits before the point, then chunks
/// of the digits after it, then the end.  The point and any other formatting
/// are up to the sink.
pub trait DigitSink {
    /// Whether the sink keeps a record of what it takes and refuses.
    open spec fn records(&self) -> bool {
        false
    }

    /// Everything that a sink with a record has taken, in order.
    open spec fn taken(&self) -> Seq<SinkEvent> {
        Seq::empty()
    }

    /// The reasons that a sink with a record has given for what it refused, in
    /// order.
    open spec fn refusals(&self) -> Seq<Seq<char>> {
        Seq::empty()
    }

    /// Whether the sink takes whatever it is handed.
    open spec fn reliable(&self) -> bool {
        false
    }

    /// The digits before the point.
    fn write_integer_part(&mut self, digits: &str) -> (r: Result<(), SinkError>)
        ensures
            final(self).records() == old(self).records(),
            old(self).reliable() ==> r is Ok && final(self).reliable(),
            old(self).records() && r is Ok ==> final(self).taken() == old(self).taken().push(
                SinkEvent::Integer(digits@),
            ),
            old(self).records() && r is Ok ==> final(self).refusals() == old(self).refusals(),
            old(self).records() && r is Err ==> final(self).taken() == old(self).taken(),
            old(self).records() ==> (r matches Err(e) ==> final(self).refusals() == old(
                self,
            ).refusals().push(e.message@)),
    ;

    /// A chunk of the digits after the point.
    fn write_fractional_digits(&mut self, digits: &str) -> (r: Result<(), SinkError>)
        ensures
            final(self).records() == old(self).records(),
            old(self).reliable() ==> r is Ok && final(self).reliable(),
            old(self).records() && r is Ok ==> final(self).taken() == old(self).taken().push(
                SinkEvent::Fraction(digits@),
            ),
            old(self).records() && r is Ok ==> final(self).refusals() == old(self).refusals(),
            old(self).records() && r is Err ==> final(self).taken() == old(self).taken(),
            old(self).records() ==> (r matches Err(e) ==> final(self).refusals() == old(
                self,
            ).refusals().push(e.message@)),
    ;

    /// The end.
    fn finish(&mut self) -> (r: Result<(), SinkError>)
        ensures
            final(self).records() == old(self).records(),
            old(self).reliable() ==> r is Ok && final(self).reliable(),
            old(self).records() && r is Ok ==> final(self).taken() == old(self).taken().push(
                SinkEvent::Finish,
            ),
            old(self).records() && r is Ok ==> final(self).refusals() == old(self).refusals(),
            old(self).records() && r is Err ==> final(self).taken() == old(self).taken(),
            old(self).records() ==> (r matches Err(e) ==> final(self).refusals() == old(
                self,
            ).refusals().push(e.message@)),
    ;
}

/// What becomes of a sink that is handed `events` in order, up to the first one
/// that it refuses: `r` is its answer.
pub open spec fn handed_over<S: DigitSink>(
    before: S,
    after: S,
    events: Seq<SinkEvent>,
    r: Result<(), SinkError>,
) -> bool {
    &&& after.records() == before.records()
    &&& before.reliable() ==> r is Ok && after.reliable()
    &&& before.records() ==> match r {
        Ok(()) => {
            &&& after.taken() == before.taken() + events
            &&& after.refusals() == before.refusals()
        },
        Err(e) => {
            &&& exists|k: int|
                0 <= k < events.len() && after.taken() == before.taken() + #[trigger] events.take(k)
            &&& after.refusals() == before.refusals().push(e.message@)
        },
    }
}

/// Handing over nothing.
pub proof fn lemma_handed_nothing<S: DigitSink>(sink: S)
    ensures
        handed_over(sink, sink, Seq::<SinkEvent>::empty(), Ok(())),
{
    assert(sink.taken() =~= sink.taken() + Seq::<SinkEvent>::empty());
}

/// One event more.
pub proof fn lemma_handed_next<S: DigitSink>(
    first: S,
    before: S,
    after: S,
    events: Seq<SinkEvent>,
    next: SinkEvent,
    r: Result<(), SinkError>,
)
    requires
        handed_over(first, before, events, Ok(())),
        after.records() == before.records(),
        before.reliable() ==> r is Ok && after.reliable(),
        before.records() && r is Ok ==> after.taken() == before.taken().push(next),
        before.records() && r is Ok ==> after.refusals() == before.refusals(),
        before.records() && r is Err ==> after.taken() == before.taken(),
        before.records() ==> (r matches Err(e) ==> after.refusals() == before.refusals().push(
            e.message@,
        )),
    ensures
        handed_over(first, after, events.push(next), r),
{
    assert(first.taken() + events.push(next) =~= (first.taken() + events).push(next));
    assert(events.push(next).take(events.len() as int) =~= events);
}

/// A refusal of one event ends a longer sequence too.
pub proof fn lemma_handed_part<S: DigitSink>(
    before: S,
    after: S,
    events: Seq<SinkEvent>,
    rest: Seq<SinkEvent>,
    r: Result<(), SinkError>,
)
    requires
        handed_over(before, after, events, r),
        r is Err,
    ensures
        handed_over(before, after, events + rest, r),
{
    if before.records() {
        let k = choose|k: int|
            0 <= k < events.len() && after.taken() == before.taken() + #[trigger] events.take(k);
        assert((events + rest).take(k) =~= events.take(k));
    }
}

/// One piece of text that a sink has taken.
#[derive(Debug)]
pub enum Piece {
    Integer(String),
    Fraction(String),
    Finish,
}

/// What a piece stands for.
pub open spec fn event_of(p: Piece) -> SinkEvent {
    match p {
        Piece::Integer(s) => SinkEvent::Integer(s@),
        Piece::Fraction(s) => SinkEvent::Fraction(s@),
        Piece::Finish => SinkEvent::Finish,
    }
}

/// Whether digits after the point have been taken.
pub open spec fn has_fraction(events: Seq<SinkEvent>) -> bool {
    exists|i: int| 0 <= i < events.len() && #[trigger] events[i] is Fraction
}

/// The text of what was taken: the digits, with a point before the first ones
/// after it, and a line end at the end where one is wanted.
pub open spec fn rendered(events: Seq<SinkEvent>, newline: bool) -> Seq<char>
    decreases events.len(),
{
    if events.len() == 0 {
        Seq::empty()
    } else {
        let before = events.drop_last();
        rendered(before, newline) + match events.last() {
            SinkEvent::Integer(d) => d,
            SinkEvent::Fraction(d) => if has_fraction(before) {
                d
            } else {
                seq!['.'] + d
            },
            SinkEvent::Finish => if newline {
                seq!['\n']
            } else {
                Seq::empty()
            },
        }
    }
}

/// Where the point and the line end go when digits are written as text.
#[derive(Debug)]
pub struct Layout {
    pub wrote_dot: bool,
    pub trailing_newline: bool,
}

impl Layout {
    /// The layout of a text that has not begun.
    pub fn new(trailing_newline: bool) -> (l: Layout)
        ensures
            !l.wrote_dot,
            l.trailing_newline == trailing_newline,
    {
        Layout { wrote_dot: false, trailing_newline }
    }

    /// What goes before digits after the point: the point, before the first
    /// ones.
    pub fn before_fraction(&mut self) -> (s: &'static str)
        ensures
            s@ == if old(self).wrote_dot {
                Seq::<char>::empty()
            } else {
                seq!['.']
            },
            final(self).wrote_dot,
            final(self).trailing_newline == old(self).trailing_newline,
    {
        proof {
            reveal_strlit("");
            reveal_strlit(".");
            assert(""@ =~= Seq::<char>::empty());
            assert("."@ =~= seq!['.']);
        }
        if self.wrote_dot {
            ""
        } else {
            self.wrote_dot = true;
            "."
        }
    }

    /// What goes at the end.
    pub fn ending(&self) -> (s: &'static str)
        ensures
            s@ == if self.trailing_newline {
                seq!['\n']
            } else {
                Seq::<char>::empty()
            },
    {
        proof {
            reveal_strlit("");
            reveal_strlit("\n");
            assert(""@ =~= Seq::<char>::empty());
            assert("\n"@ =~= seq!['\n']);
        }
        if self.trailing_newline {
            "\n"
        } else {
            ""
        }
    }
}

/// Collects the expansion as text, with the point put in and (unless switched
/// off) a line end at the end.
#[derive(Debug)]
pub struct WriterSink {
    pub pieces: Vec<Piece>,
    pub trailing_newline: bool,
}

impl WriterSink {
    /// A sink that has taken nothing and ends its text with a line end.
    pub fn new() -> (s: WriterSink)
        ensures
            s.taken() == Seq::<SinkEvent>::empty(),
            s.trailing_newline,
    {
        let s = WriterSink { pieces: Vec::new(), trailing_newline: true };
        proof {
            assert(s.taken() =~= Seq::<SinkEvent>::empty());
        }
        s
    }

    /// The same sink without the line end.
    pub fn without_trailing_newline(self) -> (s: WriterSink)
        ensures
            s.taken() == self.taken(),
            !s.trailing_newline,
    {
        WriterSink { pieces: self.pieces, trailing_newline: false }
    }

    /// The text so far.
    pub fn text(&self) -> (s: String)
        ensures
            s@ == rendered(self.taken(), self.trailing_newline),
    {
        let mut out: String = String::new();
        let mut layout: Layout = Layout::new(self.trailing_newline);
        let mut i: usize = 0;
        let ghost events = self.taken();
        proof {
            assert(events.take(0).len() == 0);
            assert(out@ =~= rendered(events.take(0), self.trailing_newline));
        }
        while i < self.pieces.len()
            invariant
                i <= self.pieces@.len(),
                events == self.taken(),
                events.len() == self.pieces@.len(),
                out@ == rendered(events.take(i as int), self.trailing_newline),
                layout.wrote_dot == has_fraction(events.take(i as int)),
                layout.trailing_newline == self.trailing_newline,
            decreases self.pieces@.len() - i,
        {
            let ghost before = events.take(i as int);
            let ghost next = events.take(i + 1);
            proof {
                assert(next.drop_last() =~= before);
                assert(next.last() == event_of(self.pieces@[i as int]));
                assert(has_fraction(next) == (has_fraction(before) || next.last() is Fraction)) by {
                    if has_fraction(before) {
                        let k = choose|k: int|
                            0 <= k < before.len() && #[trigger] before[k] is Fraction;
                        assert(next[k] is Fraction);
                    }
                    if next.last() is Fraction {
                        assert(next[i as int] is Fraction);
                    }
                    if has_fraction(next) {
                        let k = choose|k: int| 0 <= k < next.len() && #[trigger] next[k] is Fraction;
                        if k < i {
                            assert(before[k] is Fraction);
                        }
                    }
                }
            }
            match &self.pieces[i] {
                Piece::Integer(d) => {
                    out.append(d.as_str());
                },
                Piece::Fraction(d) => {
                    out.append(layout.before_fraction());
                    out.append(d.as_str());
                },
                Piece::Finish => {
                    out.append(layout.ending());
                },
            }
            proof {
                assert(out@ =~= rendered(next, self.trailing_newline));
            }
            i += 1;
        }
        proof {
            assert(events.take(i as int) =~= events);
        }
        out
    }
}

impl DigitSink for WriterSink {
    open spec fn records(&self) -> bool {
        true
    }

    open spec fn taken(&self) -> Seq<SinkEvent> {
        Seq::new(self.pieces@.len(), |i: int| event_of(self.pieces@[i]))
    }

    open spec fn reliable(&self) -> bool {
        true
    }

    fn write_integer_part(&mut self, digits: &str) -> (r: Result<(), SinkError>)
        ensures
            r is Ok,
            final(self).trailing_newline == old(self).trailing_newline,
    {
        let ghost before = self.taken();
        self.pieces.push(Piece::Integer(digits.to_owned()));
        proof {
            assert(self.taken() =~= before.push(SinkEvent::Integer(digits@)));
        }
        Ok(())
    }

    fn write_fractional_digits(&mut self, digits: &str) -> (r: Result<(), SinkError>)
        ensures
            r is Ok,
            final(self).trailing_newline == old(self).trailing_newline,
    {
        let ghost before = self.taken();
        self.pieces.push(Piece::Fraction(digits.to_owned()));
        proof {
            assert(self.taken() =~= before.push(SinkEvent::Fraction(digits@)));
        }
        Ok(())
    }

    fn finish(&mut self) -> (r: Result<(), SinkError>)
        ensures
            r is Ok,
            final(self).trailing_newline == old(self).trailing_newline,
    {
        let ghost before = self.taken();
        self.pieces.push(Piece::Finish);
        proof {
            assert(self.taken() =~= before.push(SinkEvent::Finish));
        }
        Ok(())
    }
}

/// The text of the digits before the point and of chunks after it, before the
/// end.
proof fn lemma_rendered_chunks(a: Seq<char>, chunks: Seq<Seq<char>>, newline: bool)
    ensures
        ({
            let events = seq![SinkEvent::Integer(a)] + Seq::new(
                chunks.len(),
                |i: int| SinkEvent::Fraction(chunks[i]),
            );
            &&& has_fraction(events) <==> chunks.len() > 0
            &&& rendered(events, newline) == if chunks.len() == 0 {
                a
            } else {
                a + seq!['.'] + chunks.flatten_alt()
            }
        }),
    decreases chunks.len(),
{
    let events = seq![SinkEvent::Integer(a)] + Seq::new(
        chunks.len(),
        |i: int| SinkEvent::Fraction(chunks[i]),
    );
    if chunks.len() == 0 {
        assert(events =~= seq![SinkEvent::Integer(a)]);
        assert(events.drop_last().len() == 0);
        assert(rendered(events.drop_last(), newline) =~= Seq::<char>::empty());
        assert(rendered(events, newline) =~= a);
        if has_fraction(events) {
            let k = choose|k: int| 0 <= k < events.len() && #[trigger] events[k] is Fraction;
            assert(events[k] is Integer);
        }
    } else {
        let c = chunks.drop_last();
        let before = seq![SinkEvent::Integer(a)] + Seq::new(
            c.len(),
            |i: int| SinkEvent::Fraction(c[i]),
        );
        lemma_rendered_chunks(a, c, newline);
        assert(events.drop_last() =~= before);
        assert(events.last() == SinkEvent::Fraction(chunks.last()));
        assert(events[events.len() - 1] is Fraction);
        if c.len() == 0 {
            assert(c.flatten_alt() =~= Seq::<char>::empty());
            assert(chunks.flatten_alt() =~= chunks.last());
            assert(a + (seq!['.'] + chunks.last()) =~= a + seq!['.'] + chunks.last());
        } else {
            assert(a + seq!['.'] + c.flatten_alt() + chunks.last() =~= a + seq!['.'] + (
            c.flatten_alt() + chunks.last()));
        }
    }
}

/// However the digits after the point are cut into chunks, the text is the digits
/// before the point, then, where there are any chunks, one point and the chunks
/// in order, and one line feed at the end where it is wanted.
pub proof fn law_rendered(a: Seq<char>, chunks: Seq<Seq<char>>, newline: bool)
    ensures
        ({
            let events = seq![SinkEvent::Integer(a)] + Seq::new(
                chunks.len(),
                |i: int| SinkEvent::Fraction(chunks[i]),
            );
            let digits = if chunks.len() == 0 {
                a
            } else {
                a + seq![46 as char] + chunks.flatten()
            };
            &&& rendered(events.push(SinkEvent::Finish), false) == digits
            &&& rendered(events.push(SinkEvent::Finish), true) == digits.push(10 as char)
        }),
{
    let events = seq![SinkEvent::Integer(a)] + Seq::new(
        chunks.len(),
        |i: int| SinkEvent::Fraction(chunks[i]),
    );
    lemma_rendered_chunks(a, chunks, false);
    lemma_rendered_chunks(a, chunks, true);
    chunks.lemma_flatten_and_flatten_alt_are_equivalent();
    let all = events.push(SinkEvent::Finish);
    assert(all.drop_last() =~= events);
    let digits = rendered(events, false);
    assert(digits + Seq::<char>::empty() =~= digits);
    assert(digits + seq!['\n'] =~= digits.push('\n'));
}

/// A sink with a record that takes everything has taken exactly the events, in
/// order, after those before them; one that refuses has taken fewer of them, from
/// the first on, and names the reason.
pub proof fn law_handed_over<S: DigitSink>(
    before: S,
    after: S,
    events: Seq<SinkEvent>,
    r: Result<(), SinkError>,
)
    requires
        before.records(),
        handed_over(before, after, events, r),
    ensures
        after.records(),
        before.taken().is_prefix_of(after.taken()),
        after.taken().is_prefix_of(before.taken() + events),
        r is Ok <==> after.taken().len() == before.taken().len() + events.len(),
        r is Ok ==> after.refusals() == before.refusals(),
        r matches Err(e) ==> after.refusals().drop_last() == before.refusals()
            && after.refusals().last() == e.message@,
{
    match r {
        Ok(()) => {},
        Err(e) => {
            let k = choose|k: int|
                0 <= k < events.len() && after.taken() == before.taken() + #[trigger] events.take(k);
            assert(after.refusals().drop_last() =~= before.refusals());
        },
    }
}

/// One event more adds its digits: a point goes before digits after the point
/// where none were taken before, and the end adds a line feed where it is wanted.
pub proof fn law_rendered_next(events: Seq<SinkEvent>, d: Seq<char>, newline: bool)
    ensures
        rendered(Seq::<SinkEvent>::empty(), newline).len() == 0,
        rendered(events.push(SinkEvent::Integer(d)), newline) == rendered(events, newline) + d,
        (exists|i: int| 0 <= i < events.len() && #[trigger] events[i] is Fraction) ==> rendered(
            events.push(SinkEvent::Fraction(d)),
            newline,
        ) == rendered(events, newline) + d,
        !(exists|i: int| 0 <= i < events.len() && #[trigger] events[i] is Fraction) ==> rendered(
            events.push(SinkEvent::Fraction(d)),
            newline,
        ) == rendered(events, newline).push(46 as char) + d,
        rendered(events.push(SinkEvent::Finish), false) == rendered(events, false),
        rendered(events.push(SinkEvent::Finish), true) == rendered(events, true).push(10 as char),
{
    assert(events.push(SinkEvent::Integer(d)).drop_last() =~= events);
    assert(events.push(SinkEvent::Fraction(d)).drop_last() =~= events);
    assert(events.push(SinkEvent::Finish).drop_last() =~= events);
    let t = rendered(events, newline);
    assert(t + (seq!['.'] + d) =~= t.push(46 as char) + d);
    let (a, b) = (rendered(events, false), rendered(events, true));
    assert(a + Seq::<char>::empty() =~= a);
    assert(b + seq!['\n'] =~= b.push(10 as char));
}

} // verus!
