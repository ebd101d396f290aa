//! Recording.
use super::text::{hex, hex_spec, integer, integer_spec};
use crate::float::F64;
use crate::search::dinvr::{InvrConfig, InvrState};
use crate::search::dzror::{ZrorConfig, ZrorState};
use vstd::prelude::*;
use vstd::string::StringExecFns;

verus! {

/// Where lines go while a trace is captured.
#[derive(Debug)]
pub struct Sink {
    pub capturing: bool,
    pub lines: Vec<String>,
}

/// The texts of some lines.
pub open spec fn texts(lines: Seq<String>) -> Seq<Seq<char>> {
    Seq::new(lines.len(), |i: int| lines[i]@)
}

/// What a sink is after a line came: it keeps the line where it captures.
pub open spec fn pushed(s: (bool, Seq<Seq<char>>), line: Seq<char>) -> (bool, Seq<Seq<char>>) {
    (
        s.0,
        if s.0 {
            s.1.push(line)
        } else {
            s.1
        },
    )
}

impl Sink {
    /// Whether it captures, and the lines as texts.
    pub open spec fn view(&self) -> (bool, Seq<Seq<char>>) {
        (self.capturing, texts(self.lines@))
    }

    /// A sink that captures nothing.
    pub fn idle() -> (r: Sink)
        ensures
            r@ == (false, Seq::<Seq<char>>::empty()),
    {
        let r = Sink { capturing: false, lines: Vec::new() };
        proof {
            assert(texts(r.lines@) =~= Seq::<Seq<char>>::empty());
        }
        r
    }
}

/// One for true, zero for false.
pub fn bit(x: bool) -> (r: u8)
    ensures
        r == if x {
            1u8
        } else {
            0u8
        },
{
    if x {
        1
    } else {
        0
    }
}

/// Adds a line while a trace is captured, else does nothing.
pub fn push(sink: &mut Sink, line: String)
    ensures
        final(sink)@ == pushed(old(sink)@, line@),
{
    if sink.capturing {
        sink.lines.push(line);
    }
    proof {
        if old(sink).capturing {
            assert(texts(sink.lines@) =~= texts(old(sink).lines@).push(line@));
        }
    }
}

/// A sink that has just begun to capture.
pub open spec fn fresh(s: Sink) -> bool {
    s@ == (true, Seq::<Seq<char>>::empty())
}

/// Runs a function with a sink that captures, and returns what it returned with the
/// lines it left there. A capture does not run inside another.
pub fn capture<T, F: FnOnce(Sink) -> (T, Sink)>(outer: &Sink, f: F) -> (r: (T, Vec<String>))
    requires
        !outer.capturing,
        forall|s: Sink| fresh(s) ==> #[trigger] call_requires(f, (s,)),
    ensures
        exists|s: Sink, t: Sink|
            fresh(s) && #[trigger] call_ensures(f, (s,), (r.0, t)) && r.1@ == t.lines@,
{
    let s = Sink { capturing: true, lines: Vec::new() };
    let ghost s0 = s;
    proof {
        assert(texts(s.lines@) =~= Seq::<Seq<char>>::empty());
    }
    let (value, t) = f(s);
    let ghost t0 = t;
    let r = (value, t.lines);
    proof {
        assert(fresh(s0) && call_ensures(f, (s0,), (r.0, t0)) && r.1@ == t0.lines@);
    }
    r
}

/// One field of a line.
pub open spec fn field(name: Seq<char>, value: Seq<char>) -> Seq<char> {
    seq!['|'] + name + seq!['='] + value
}

/// A line with one field more.
pub open spec fn with(line: Seq<char>, name: Seq<char>, value: Seq<char>) -> Seq<char> {
    line + field(name, value)
}

fn add_field(line: &mut String, name: &str, value: &str)
    ensures
        final(line)@ == with(old(line)@, name@, value@),
{
    proof {
        reveal_strlit("|");
        reveal_strlit("=");
        assert("|"@ =~= seq!['|']);
        assert("="@ =~= seq!['=']);
    }
    line.append("|");
    line.append(name);
    line.append("=");
    line.append(value);
    proof {
        assert(line@ =~= with(old(line)@, name@, value@));
    }
}

fn add_number(line: &mut String, name: &str, x: F64)
    ensures
        final(line)@ == with(old(line)@, name@, hex_spec(x)),
{
    let v = hex(x);
    add_field(line, name, v.as_str());
}

fn add_integer(line: &mut String, name: &str, n: i32)
    ensures
        final(line)@ == with(old(line)@, name@, integer_spec(n as int)),
{
    let v = integer(n);
    add_field(line, name, v.as_str());
}

/// A truth value as one digit.
pub open spec fn bit_text(x: bool) -> Seq<char> {
    integer_spec(
        if x {
            1
        } else {
            0
        },
    )
}

fn add_bit(line: &mut String, name: &str, x: bool)
    ensures
        final(line)@ == with(old(line)@, name@, bit_text(x)),
{
    add_integer(line, name, bit(x) as i32);
}

/// The line for the set-up of a bracketing search.
pub open spec fn dstinv_line(c: InvrConfig) -> Seq<char> {
    let l = "dstinv"@;
    let l = with(l, "small"@, hex_spec(c.small));
    let l = with(l, "big"@, hex_spec(c.big));
    let l = with(l, "abs_step"@, hex_spec(c.abs_step));
    let l = with(l, "rel_step"@, hex_spec(c.rel_step));
    let l = with(l, "stp_mul"@, hex_spec(c.stp_mul));
    let l = with(l, "abs_tol"@, hex_spec(c.abs_tol));
    with(l, "rel_tol"@, hex_spec(c.rel_tol))
}

/// Records the set-up of a bracketing search.
pub fn record_dstinv(sink: &mut Sink, c: &InvrConfig)
    ensures
        final(sink)@ == pushed(old(sink)@, dstinv_line(*c)),
{
    let mut line = String::from_str("dstinv");
    add_number(&mut line, "small", c.small);
    add_number(&mut line, "big", c.big);
    add_number(&mut line, "abs_step", c.abs_step);
    add_number(&mut line, "rel_step", c.rel_step);
    add_number(&mut line, "stp_mul", c.stp_mul);
    add_number(&mut line, "abs_tol", c.abs_tol);
    add_number(&mut line, "rel_tol", c.rel_tol);
    push(sink, line);
}

/// The line for the set-up of a refinement.
pub open spec fn dstzr_line(c: ZrorConfig) -> Seq<char> {
    let l = "dstzr"@;
    let l = with(l, "xlo"@, hex_spec(c.xlo));
    let l = with(l, "xhi"@, hex_spec(c.xhi));
    let l = with(l, "abs_tol"@, hex_spec(c.abstol));
    with(l, "rel_tol"@, hex_spec(c.reltol))
}

/// Records the set-up of a refinement.
pub fn record_dstzr(sink: &mut Sink, c: &ZrorConfig)
    ensures
        final(sink)@ == pushed(old(sink)@, dstzr_line(*c)),
{
    let mut line = String::from_str("dstzr");
    add_number(&mut line, "xlo", c.xlo);
    add_number(&mut line, "xhi", c.xhi);
    add_number(&mut line, "abs_tol", c.abstol);
    add_number(&mut line, "rel_tol", c.reltol);
    push(sink, line);
}

/// What a machine has just done: the kind of the event, the stage and the status by
/// number, the point and the value, and both flags.
#[derive(Clone, Copy, Debug, PartialEq, Eq, Structural)]
pub struct Event {
    pub event: i32,
    pub stage: i32,
    pub status: i32,
    pub x: F64,
    pub fx: F64,
    pub qleft: bool,
    pub qhi: bool,
}

/// The fields of an event.
pub open spec fn with_event(line: Seq<char>, e: Event) -> Seq<char> {
    let l = with(line, "event"@, integer_spec(e.event as int));
    let l = with(l, "stage"@, integer_spec(e.stage as int));
    let l = with(l, "status"@, integer_spec(e.status as int));
    let l = with(l, "x"@, hex_spec(e.x));
    let l = with(l, "fx"@, hex_spec(e.fx));
    let l = with(l, "qleft"@, bit_text(e.qleft));
    with(l, "qhi"@, bit_text(e.qhi))
}

fn add_event(line: &mut String, e: &Event)
    ensures
        final(line)@ == with_event(old(line)@, *e),
{
    add_integer(line, "event", e.event);
    add_integer(line, "stage", e.stage);
    add_integer(line, "status", e.status);
    add_number(line, "x", e.x);
    add_number(line, "fx", e.fx);
    add_bit(line, "qleft", e.qleft);
    add_bit(line, "qhi", e.qhi);
}

/// The line for an event of the bracketing machine.
pub open spec fn dinvr_line(e: Event, s: InvrState) -> Seq<char> {
    let l = with_event("dinvr"@, e);
    let l = with(l, "xsave"@, hex_spec(s.xsave));
    let l = with(l, "fsmall"@, hex_spec(s.fsmall));
    let l = with(l, "fbig"@, hex_spec(s.fbig));
    let l = with(l, "qincr"@, bit_text(s.qincr));
    let l = with(l, "step"@, hex_spec(s.step));
    let l = with(l, "xlb"@, hex_spec(s.xlb));
    with(l, "xub"@, hex_spec(s.xub))
}

/// Records an event of the bracketing machine.
pub fn record_dinvr(sink: &mut Sink, e: &Event, s: &InvrState)
    ensures
        final(sink)@ == pushed(old(sink)@, dinvr_line(*e, *s)),
{
    let mut line = String::from_str("dinvr");
    add_event(&mut line, e);
    add_number(&mut line, "xsave", s.xsave);
    add_number(&mut line, "fsmall", s.fsmall);
    add_number(&mut line, "fbig", s.fbig);
    add_bit(&mut line, "qincr", s.qincr);
    add_number(&mut line, "step", s.step);
    add_number(&mut line, "xlb", s.xlb);
    add_number(&mut line, "xub", s.xub);
    push(sink, line);
}

/// The line for an event of the refining machine.
pub open spec fn dzror_line(e: Event, z: ZrorState) -> Seq<char> {
    let l = with_event("dzror"@, e);
    let l = with(l, "xlo"@, hex_spec(z.xlo));
    let l = with(l, "xhi"@, hex_spec(z.xhi));
    let l = with(l, "a"@, hex_spec(z.a));
    let l = with(l, "b"@, hex_spec(z.b));
    let l = with(l, "c"@, hex_spec(z.c));
    let l = with(l, "d"@, hex_spec(z.d));
    let l = with(l, "fa"@, hex_spec(z.fa));
    let l = with(l, "fb"@, hex_spec(z.fb));
    let l = with(l, "fc"@, hex_spec(z.fc));
    let l = with(l, "fd"@, hex_spec(z.fd));
    let l = with(l, "w"@, hex_spec(z.w));
    let l = with(l, "mb"@, hex_spec(z.mb));
    let l = with(l, "ext"@, integer_spec(z.ext as int));
    with(l, "first"@, bit_text(z.first))
}

/// Records an event of the refining machine.
pub fn record_dzror(sink: &mut Sink, e: &Event, z: &ZrorState)
    ensures
        final(sink)@ == pushed(old(sink)@, dzror_line(*e, *z)),
{
    let mut line = String::from_str("dzror");
    add_event(&mut line, e);
    add_number(&mut line, "xlo", z.xlo);
    add_number(&mut line, "xhi", z.xhi);
    add_number(&mut line, "a", z.a);
    add_number(&mut line, "b", z.b);
    add_number(&mut line, "c", z.c);
    add_number(&mut line, "d", z.d);
    add_number(&mut line, "fa", z.fa);
    add_number(&mut line, "fb", z.fb);
    add_number(&mut line, "fc", z.fc);
    add_number(&mut line, "fd", z.fd);
    add_number(&mut line, "w", z.w);
    add_number(&mut line, "mb", z.mb);
    add_integer(&mut line, "ext", z.ext);
    add_bit(&mut line, "first", z.first);
    push(sink, line);
}

} // verus!
