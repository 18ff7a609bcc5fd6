//! The stimulus generator: one forward pass over the change events, turning
//! each selected scalar change inside the time window into a delay line and
//! an assignment line.

use vstd::prelude::*;

use crate::model::{logic_char, logic_to_char, Event, Logic};
use crate::signal_map::{entries_map, SignalMap};
use crate::text::{dec_str, push_char, sanitize, sanitize_name, u64_to_dec};

verus! {

/// The delay line emitted before an assignment, when time has advanced.
pub open spec fn delay_text(delay: u64) -> Seq<char> {
    if delay > 0 {
        "\t#"@ + dec_str(delay as nat) + ";\n"@
    } else {
        Seq::empty()
    }
}

/// One assignment line: the sanitized output name and the logic level.
pub open spec fn assign_text(name: Seq<char>, value: Logic) -> Seq<char> {
    "\t"@ + sanitize(name) + " = "@ + seq![logic_char(value)] + ";\n"@
}

/// Whether `time` lies before the start of the window.
pub open spec fn before_window(start: Option<u64>, time: u64) -> bool {
    match start {
        Some(s) => time < s,
        None => false,
    }
}

/// Whether `time` lies past the end of the window.
pub open spec fn past_window(end: Option<u64>, time: u64) -> bool {
    match end {
        Some(e) => time > e,
        None => false,
    }
}

/// Where delay accounting starts: at the window's start, else at zero.
pub open spec fn initial_last(start: Option<u64>) -> u64 {
    match start {
        Some(s) => s,
        None => 0,
    }
}

/// The statements the events produce, given the current time and the time of
/// the last emission. A timestamp only advances the clock; a change to an
/// unselected signal is ignored; a change to a selected signal before the
/// window is dropped without touching the delay accounting; one past the
/// window ends the whole pass; any other one is emitted with the delay since
/// the last emission.
pub open spec fn body_text(
    events: Seq<Event>,
    m: Map<u64, Seq<char>>,
    start: Option<u64>,
    end: Option<u64>,
    time: u64,
    last: u64,
) -> Seq<char>
    decreases events.len(),
{
    if events.len() == 0 {
        Seq::empty()
    } else {
        let rest = events.drop_first();
        match events[0] {
            Event::Timestamp(t) => body_text(rest, m, start, end, t, last),
            Event::Scalar(id, v) => if !m.contains_key(id) {
                body_text(rest, m, start, end, time, last)
            } else if before_window(start, time) {
                body_text(rest, m, start, end, time, last)
            } else if past_window(end, time) {
                Seq::empty()
            } else {
                delay_text((time - last) as u64) + assign_text(m[id], v) + body_text(
                    rest,
                    m,
                    start,
                    end,
                    time,
                    time,
                )
            },
            Event::Other => body_text(rest, m, start, end, time, last),
        }
    }
}

/// The timestamps of `events` never decrease, starting from `time`.
pub open spec fn timestamps_monotone_from(events: Seq<Event>, time: u64) -> bool
    decreases events.len(),
{
    if events.len() == 0 {
        true
    } else {
        match events[0] {
            Event::Timestamp(t) => t >= time && timestamps_monotone_from(events.drop_first(), t),
            _ => timestamps_monotone_from(events.drop_first(), time),
        }
    }
}

/// The `wire` declaration lines, one per map entry, in map order.
pub open spec fn wire_lines(entries: Seq<(u64, Seq<char>)>) -> Seq<char>
    decreases entries.len(),
{
    if entries.len() == 0 {
        Seq::empty()
    } else {
        "wire "@ + sanitize(entries[0].1) + ";\n"@ + wire_lines(entries.drop_first())
    }
}

/// Everything before the first statement: the declarations, a blank line and
/// the opening block marker.
pub open spec fn header_text(entries: Seq<(u64, Seq<char>)>) -> Seq<char> {
    wire_lines(entries) + "\ninitial begin\n"@
}

/// The whole stimulus block an event sequence produces.
pub open spec fn generate_text(
    events: Seq<Event>,
    entries: Seq<(u64, Seq<char>)>,
    start: Option<u64>,
    end: Option<u64>,
) -> Seq<char> {
    header_text(entries) + body_text(
        events,
        entries_map(entries),
        start,
        end,
        0,
        initial_last(start),
    ) + "end\n"@
}

/// Renders the delay line for `delay`, or nothing when no time has passed.
pub fn render_delay(delay: u64) -> (r: String)
    ensures
        r@ == delay_text(delay),
{
    let mut s = String::new();
    if delay > 0 {
        s.append("\t#");
        let d = u64_to_dec(delay);
        s.append(d.as_str());
        s.append(";\n");
        proof {
            assert(s@ =~= delay_text(delay));
        }
    } else {
        proof {
            assert(s@ =~= delay_text(delay));
        }
    }
    s
}

/// Renders one assignment line, sanitizing the output name.
pub fn render_assign(name: &str, value: Logic) -> (r: String)
    ensures
        r@ == assign_text(name@, value),
{
    let mut s = String::from_str("\t");
    let clean = sanitize_name(name);
    s.append(clean.as_str());
    s.append(" = ");
    push_char(&mut s, logic_to_char(value));
    s.append(";\n");
    proof {
        assert(s@ =~= assign_text(name@, value));
    }
    s
}

/// One emitted statement: the unscaled delay since the last emission, the
/// output name as the signal map holds it, and the assigned level.
pub struct Emission {
    pub delay: u64,
    pub name: String,
    pub value: Logic,
}

/// The text one optional emission renders to.
pub open spec fn emission_text(r: Option<Emission>) -> Seq<char> {
    match r {
        None => Seq::empty(),
        Some(em) => delay_text(em.delay) + assign_text(em.name@, em.value),
    }
}

/// The generator's state over one pass: the selected signals, the optional
/// inclusive window, the current time, the time of the last emission, and
/// whether an event past the window has ended the pass.
pub struct Generator<'a> {
    pub signals: &'a SignalMap,
    pub start_time: Option<u64>,
    pub end_time: Option<u64>,
    pub time: u64,
    pub last: u64,
    pub stopped: bool,
}

impl<'a> Generator<'a> {
    /// The signal map is well formed, and the last emission never lies ahead
    /// of the clock (except at the window's start, before anything was
    /// emitted).
    pub open spec fn wf(self) -> bool {
        self.signals.wf() && match self.start_time {
            Some(s) => self.last == s || self.last <= self.time,
            None => self.last <= self.time,
        }
    }

    /// The text the remaining events will add from this state.
    pub open spec fn pending_text(self, events: Seq<Event>) -> Seq<char> {
        if self.stopped {
            Seq::empty()
        } else {
            body_text(
                events,
                self.signals.as_map(),
                self.start_time,
                self.end_time,
                self.time,
                self.last,
            )
        }
    }

    /// A fresh generator: the clock at zero, the delay accounting starting
    /// at the window's start (or zero).
    pub fn new(signals: &'a SignalMap, start_time: Option<u64>, end_time: Option<u64>) -> (g:
        Generator<'a>)
        requires
            signals.wf(),
        ensures
            g.wf(),
            g.signals == signals,
            g.start_time == start_time,
            g.end_time == end_time,
            g.time == 0,
            g.last == initial_last(start_time),
            !g.stopped,
    {
        let last: u64 = match start_time {
            Some(s) => s,
            None => 0,
        };
        Generator { signals, start_time, end_time, time: 0, last, stopped: false }
    }

    /// Renders the declarations and the opening block marker.
    pub fn preamble(&self) -> (r: String)
        ensures
            r@ == header_text(self.signals@),
    {
        let mut s = String::new();
        let n = self.signals.len();
        let mut i: usize = 0;
        proof {
            assert(self.signals@.skip(0) =~= self.signals@);
            assert(s@ + wire_lines(self.signals@) =~= wire_lines(self.signals@));
        }
        while i < n
            invariant
                i <= n,
                n == self.signals@.len(),
                wire_lines(self.signals@) =~= s@ + wire_lines(self.signals@.skip(i as int)),
            decreases n - i,
        {
            proof {
                assert(self.signals@.skip(i as int)[0] == self.signals@[i as int]);
                assert(self.signals@.skip(i as int).drop_first() =~= self.signals@.skip(i + 1));
            }
            s.append("wire ");
            let clean = sanitize_name(self.signals.name_at(i).as_str());
            s.append(clean.as_str());
            s.append(";\n");
            i = i + 1;
        }
        proof {
            assert(self.signals@.skip(n as int) =~= Seq::<(u64, Seq<char>)>::empty());
            assert(wire_lines(Seq::<(u64, Seq<char>)>::empty()) == Seq::<char>::empty());
            assert(s@ =~= wire_lines(self.signals@));
        }
        s.append("\ninitial begin\n");
        s
    }

    /// Whether this state emits a statement on `ev`: a scalar change of a
    /// selected signal, inside the window, on a pass that has not stopped.
    pub open spec fn emits(self, ev: Event) -> bool {
        !self.stopped && match ev {
            Event::Scalar(id, _) => self.signals.as_map().contains_key(id) && !before_window(
                self.start_time,
                self.time,
            ) && !past_window(self.end_time, self.time),
            _ => false,
        }
    }

    /// Consumes one event: a timestamp advances the clock, a selected
    /// in-window scalar change is returned as an emission, a selected change
    /// past the window ends the pass for good, everything else is ignored.
    pub fn step(&mut self, ev: &Event) -> (r: Option<Emission>)
        requires
            old(self).wf(),
            match *ev {
                Event::Timestamp(t) => t >= old(self).time,
                _ => true,
            },
        ensures
            final(self).wf(),
            final(self).signals == old(self).signals,
            final(self).start_time == old(self).start_time,
            final(self).end_time == old(self).end_time,
            final(self).time == match *ev {
                Event::Timestamp(t) => t,
                _ => old(self).time,
            },
            final(self).last == if old(self).emits(*ev) {
                old(self).time
            } else {
                old(self).last
            },
            final(self).stopped == (old(self).stopped || match *ev {
                Event::Scalar(id, _) => old(self).signals.as_map().contains_key(id)
                    && !before_window(old(self).start_time, old(self).time) && past_window(
                    old(self).end_time,
                    old(self).time,
                ),
                _ => false,
            }),
            match r {
                Some(em) => old(self).emits(*ev) && match *ev {
                    Event::Scalar(id, v) => em.delay == old(self).time - old(self).last
                        && em.name@ == old(self).signals.as_map()[id] && em.value == v,
                    _ => false,
                },
                None => !old(self).emits(*ev),
            },
    {
        match ev {
            Event::Timestamp(t) => {
                self.time = *t;
                None
            }
            Event::Scalar(id, v) => {
                if self.stopped {
                    return None;
                }
                match self.signals.get(*id) {
                    None => None,
                    Some(name) => {
                        let skip_before = match self.start_time {
                            Some(s) => self.time < s,
                            None => false,
                        };
                        if skip_before {
                            return None;
                        }
                        let stop_after = match self.end_time {
                            Some(e) => self.time > e,
                            None => false,
                        };
                        if stop_after {
                            self.stopped = true;
                            return None;
                        }
                        let delay = self.time - self.last;
                        let em = Emission { delay, name: name.clone(), value: *v };
                        self.last = self.time;
                        Some(em)
                    }
                }
            }
            Event::Other => None,
        }
    }
}

/// Generates the whole stimulus block for an in-memory event sequence, with
/// delays in trace time units (no scaling): the declarations, the opening
/// marker, every statement the events produce, and the closing marker.
pub fn generate(
    events: &Vec<Event>,
    signals: &SignalMap,
    start_time: Option<u64>,
    end_time: Option<u64>,
) -> (out: String)
    requires
        signals.wf(),
        timestamps_monotone_from(events@, 0),
    ensures
        out@ == generate_text(events@, signals@, start_time, end_time),
{
    let mut g = Generator::new(signals, start_time, end_time);
    let mut out = g.preamble();
    let n = events.len();
    let mut i: usize = 0;
    proof {
        assert(events@.skip(0) =~= events@);
    }
    while i < n
        invariant
            i <= n,
            n == events@.len(),
            g.wf(),
            g.signals == signals,
            g.start_time == start_time,
            g.end_time == end_time,
            timestamps_monotone_from(events@.skip(i as int), g.time),
            out@ + g.pending_text(events@.skip(i as int)) == header_text(signals@) + body_text(
                events@,
                signals.as_map(),
                start_time,
                end_time,
                0,
                initial_last(start_time),
            ),
        decreases n - i,
    {
        let ghost sk = events@.skip(i as int);
        let ghost sk1 = events@.skip(i + 1);
        let ghost gpre = g;
        let ghost out0 = out@;
        proof {
            assert(sk[0] == events@[i as int]);
            assert(sk.drop_first() =~= sk1);
        }
        let r = g.step(&events[i]);
        match &r {
            Some(em) => {
                let d = render_delay(em.delay);
                out.append(d.as_str());
                let a = render_assign(em.name.as_str(), em.value);
                out.append(a.as_str());
            }
            None => {}
        }
        proof {
            let m = signals.as_map();
            assert(gpre.pending_text(sk) =~= emission_text(r) + g.pending_text(sk1)) by {
                if gpre.stopped {
                    assert(Seq::<char>::empty() + g.pending_text(sk1) =~= g.pending_text(sk1));
                } else {
                    match events@[i as int] {
                        Event::Timestamp(t) => {
                            assert(Seq::<char>::empty() + g.pending_text(sk1) =~= g.pending_text(
                                sk1,
                            ));
                        }
                        Event::Scalar(id, v) => {
                            if m.contains_key(id) && !before_window(start_time, gpre.time)
                                && !past_window(end_time, gpre.time) {
                                assert(gpre.time >= gpre.last);
                            } else {
                                assert(Seq::<char>::empty() + g.pending_text(sk1)
                                    =~= g.pending_text(sk1));
                            }
                        }
                        Event::Other => {
                            assert(Seq::<char>::empty() + g.pending_text(sk1) =~= g.pending_text(
                                sk1,
                            ));
                        }
                    }
                }
            }
            assert(out@ =~= out0 + emission_text(r));
            assert(out0 + (emission_text(r) + g.pending_text(sk1)) =~= (out0 + emission_text(r))
                + g.pending_text(sk1));
        }
        i = i + 1;
    }
    proof {
        assert(events@.skip(n as int) =~= Seq::<Event>::empty());
        assert(g.pending_text(events@.skip(n as int)) =~= Seq::<char>::empty());
        assert(out@ =~= header_text(signals@) + body_text(
            events@,
            signals.as_map(),
            start_time,
            end_time,
            0,
            initial_last(start_time),
        ));
    }
    out.append("end\n");
    proof {
        assert(out@ =~= generate_text(events@, signals@, start_time, end_time));
    }
    out
}

} // verus!
