//! Taking a trace apart: the recorded cases, and the evaluations that a case made.
use super::parse::{find, parse_fields, parse_fields_spec, place, same, TraceLine};
use super::text::{parse_number, parse_number_spec, trim, trim_spec};
use crate::float::F64;
use crate::functions::{reads_all, reads_as};
use vstd::prelude::*;
use vstd::string::{StrSliceExecFns, StringExecFns};

verus! {

/// A line as its tag and what its keys map to.
pub type LineView = (Seq<char>, Map<Seq<char>, Seq<char>>);

/// The lines as tags and maps.
pub open spec fn line_views(lines: Seq<TraceLine>) -> Seq<LineView> {
    Seq::new(lines.len(), |i: int| (lines[i].tag@, lines[i].fields@))
}

/// How a text that is no number by its bits is read.
pub type Decimal = spec_fn(Seq<char>) -> Option<F64>;

/// The number that a field holds, by its bits or as `g` reads it.
pub open spec fn number_at(g: Decimal, l: LineView, key: Seq<char>) -> Option<F64> {
    if l.1.contains_key(key) {
        parse_number_spec(g, l.1[key])
    } else {
        None
    }
}

/// The field holds this text.
pub open spec fn field_is(l: LineView, key: Seq<char>, text: Seq<char>) -> bool {
    l.1.contains_key(key) && l.1[key] == text
}

fn number<P: Fn(&str) -> Option<F64>>(read: &P, l: &TraceLine, key: &str) -> (r: Option<F64>)
    requires
        reads_all(read),
    ensures
        forall|g: Decimal| #[trigger] reads_as(read, g) ==> r == number_at(g, (l.tag@, l.fields@), key@),
{
    match l.fields.get(key) {
        None => None,
        Some(text) => parse_number(read, text.as_str()),
    }
}

fn holds(l: &TraceLine, key: &str, text: &str) -> (r: bool)
    ensures
        r == field_is((l.tag@, l.fields@), key@, text@),
{
    match l.fields.get(key) {
        None => false,
        Some(found) => same(found.as_str(), text),
    }
}

/// One evaluation: the point and the value.
#[derive(Clone, Copy, Debug, PartialEq, Eq, Structural)]
pub struct EvalStep {
    pub x: F64,
    pub fx: F64,
}

/// What one pair of fields says of the value at `x`: nothing readable, no match, or the
/// value.
pub open spec fn slot(g: Decimal, l: LineView, xk: Seq<char>, fk: Seq<char>, x: F64) -> Option<Option<F64>> {
    if l.1.contains_key(xk) && l.1.contains_key(fk) {
        match parse_number_spec(g, l.1[xk]) {
            None => None,
            Some(y) => if y == x {
                match parse_number_spec(g, l.1[fk]) {
                    None => None,
                    Some(v) => Some(Some(v)),
                }
            } else {
                Some(None)
            },
        }
    } else {
        Some(None)
    }
}

/// The values found so far, with one more: they must be the same.
pub open spec fn joined(acc: Option<Option<F64>>, found: Option<Option<F64>>) -> Option<Option<F64>> {
    match (acc, found) {
        (None, _) => None,
        (_, None) => None,
        (Some(a), Some(None)) => Some(a),
        (Some(None), Some(b)) => Some(b),
        (Some(Some(a)), Some(Some(b))) => if a == b {
            Some(Some(a))
        } else {
            None
        },
    }
}

/// The value at `x` that the state of the refining machine holds: the one value of all
/// slots whose point is `x`.
pub open spec fn extract_dzror_eval_spec(g: Decimal, x: F64, next: LineView) -> Option<F64> {
    let s = joined(
        joined(
            joined(slot(g, next, "a"@, "fa"@, x), slot(g, next, "b"@, "fb"@, x)),
            slot(g, next, "c"@, "fc"@, x),
        ),
        slot(g, next, "d"@, "fd"@, x),
    );
    match s {
        Some(Some(v)) => Some(v),
        _ => None,
    }
}

fn read_slot<P: Fn(&str) -> Option<F64>>(
    read: &P,
    l: &TraceLine,
    xk: &str,
    fk: &str,
    x: F64,
) -> (r: Option<Option<F64>>)
    requires
        reads_all(read),
    ensures
        forall|g: Decimal| #[trigger]
            reads_as(read, g) ==> r == slot(g, (l.tag@, l.fields@), xk@, fk@, x),
{
    match (l.fields.get(xk), l.fields.get(fk)) {
        (Some(xt), Some(ft)) => match parse_number(read, xt.as_str()) {
            None => None,
            Some(y) => if y == x {
                match parse_number(read, ft.as_str()) {
                    None => None,
                    Some(v) => Some(Some(v)),
                }
            } else {
                Some(None)
            },
        },
        _ => Some(None),
    }
}

fn join(acc: Option<Option<F64>>, found: Option<Option<F64>>) -> (r: Option<Option<F64>>)
    ensures
        r == joined(acc, found),
{
    match (acc, found) {
        (None, _) => None,
        (_, None) => None,
        (Some(a), Some(None)) => Some(a),
        (Some(None), Some(b)) => Some(b),
        (Some(Some(a)), Some(Some(b))) => if a == b {
            Some(Some(a))
        } else {
            None
        },
    }
}

/// The value at `x` in a state of the refining machine; nothing where no slot, or slots
/// with different values, hold it.
pub fn extract_dzror_eval<P: Fn(&str) -> Option<F64>>(
    read: &P,
    x: F64,
    next: &TraceLine,
) -> (r: Option<F64>)
    requires
        reads_all(read),
    ensures
        forall|g: Decimal| #[trigger]
            reads_as(read, g) ==> r == extract_dzror_eval_spec(g, x, (next.tag@, next.fields@)),
{
    let ab = join(read_slot(read, next, "a", "fa", x), read_slot(read, next, "b", "fb", x));
    let abc = join(ab, read_slot(read, next, "c", "fc", x));
    let all = join(abc, read_slot(read, next, "d", "fd", x));
    match all {
        Some(Some(v)) => Some(v),
        _ => None,
    }
}

/// The line records a question.
pub open spec fn is_request(l: LineView) -> bool {
    (l.0 == "dinvr"@ || l.0 == "dzror"@) && field_is(l, "event"@, "1"@)
}

/// The answer to a question of the bracketing machine that was handed over to the
/// refining machine: it is found with whichever end of the bracket was asked for.
pub open spec fn handed_over(g: Decimal, lines: Seq<LineView>, i: int) -> Option<F64> {
    if i + 4 >= lines.len() {
        None
    } else {
        let first = lines[i + 2];
        let second = lines[i + 3];
        if first.0 == "dzror"@ && field_is(first, "stage"@, "1"@) && second.0 == "dzror"@ && field_is(
            second,
            "stage"@,
            "2"@,
        ) {
            match (number_at(g, lines[i], "x"@), number_at(g, first, "x"@), number_at(g, second, "x"@)) {
                (Some(x), Some(x1), Some(x2)) => if x == x1 {
                    number_at(g, second, "fx"@)
                } else if x == x2 {
                    extract_dzror_eval_spec(g, x, lines[i + 4])
                } else {
                    None
                },
                _ => None,
            }
        } else {
            None
        }
    }
}

/// The answer to the question in line `i`.
pub open spec fn answer_to(g: Decimal, lines: Seq<LineView>, i: int) -> Option<F64> {
    if i + 1 >= lines.len() {
        None
    } else {
        let l = lines[i];
        let next = lines[i + 1];
        if l.0 == "dinvr"@ {
            if next.0 == "dstzr"@ {
                handed_over(g, lines, i)
            } else {
                number_at(g, next, "fx"@)
            }
        } else if field_is(l, "stage"@, "1"@) {
            number_at(g, next, "fx"@)
        } else if field_is(l, "stage"@, "2"@) || field_is(l, "stage"@, "3"@) {
            match number_at(g, l, "x"@) {
                Some(x) => extract_dzror_eval_spec(g, x, next),
                None => None,
            }
        } else {
            None
        }
    }
}

/// The evaluations that the first `n` lines record; nothing where one of them cannot be
/// read.
pub open spec fn eval_steps(g: Decimal, lines: Seq<LineView>, n: int) -> Option<Seq<EvalStep>>
    decreases n,
{
    if n <= 0 {
        Some(Seq::empty())
    } else {
        match eval_steps(g, lines, n - 1) {
            None => None,
            Some(before) => if is_request(lines[n - 1]) {
                match (number_at(g, lines[n - 1], "x"@), answer_to(g, lines, n - 1)) {
                    (Some(x), Some(fx)) => Some(before.push(EvalStep { x, fx })),
                    _ => None,
                }
            } else {
                Some(before)
            },
        }
    }
}

proof fn lemma_steps_stay_none(g: Decimal, lines: Seq<LineView>, i: int, n: int)
    requires
        i <= n,
        eval_steps(g, lines, i) is None,
    ensures
        eval_steps(g, lines, n) is None,
    decreases n - i,
{
    if i < n {
        lemma_steps_stay_none(g, lines, i, n - 1);
    }
}

fn read_handed_over<P: Fn(&str) -> Option<F64>>(
    read: &P,
    lines: &Vec<TraceLine>,
    i: usize,
) -> (r: Option<F64>)
    requires
        i < lines.len(),
        reads_all(read),
    ensures
        forall|g: Decimal| #[trigger]
            reads_as(read, g) ==> r == handed_over(g, line_views(lines@), i as int),
{
    if lines.len() - i <= 4 {
        return None;
    }
    let first = &lines[i + 2];
    let second = &lines[i + 3];
    if !(same(first.tag.as_str(), "dzror") && holds(first, "stage", "1") && same(second.tag.as_str(), "dzror")
        && holds(second, "stage", "2")) {
        return None;
    }
    match (number(read, &lines[i], "x"), number(read, first, "x"), number(read, second, "x")) {
        (Some(x), Some(x1), Some(x2)) => if x == x1 {
            number(read, second, "fx")
        } else if x == x2 {
            extract_dzror_eval(read, x, &lines[i + 4])
        } else {
            None
        },
        _ => None,
    }
}

fn read_answer<P: Fn(&str) -> Option<F64>>(
    read: &P,
    lines: &Vec<TraceLine>,
    i: usize,
) -> (r: Option<F64>)
    requires
        i < lines.len(),
        reads_all(read),
    ensures
        forall|g: Decimal| #[trigger]
            reads_as(read, g) ==> r == answer_to(g, line_views(lines@), i as int),
{
    if lines.len() - i <= 1 {
        return None;
    }
    let l = &lines[i];
    let next = &lines[i + 1];
    if same(l.tag.as_str(), "dinvr") {
        if same(next.tag.as_str(), "dstzr") {
            read_handed_over(read, lines, i)
        } else {
            number(read, next, "fx")
        }
    } else if holds(l, "stage", "1") {
        number(read, next, "fx")
    } else if holds(l, "stage", "2") || holds(l, "stage", "3") {
        match number(read, l, "x") {
            Some(x) => extract_dzror_eval(read, x, next),
            None => None,
        }
    } else {
        None
    }
}

/// The evaluations that a trace records, in order; nothing where an answer is missing
/// or cannot be read. A number is taken by its bits, or as `read` reads it.
pub fn collect_eval_steps<P: Fn(&str) -> Option<F64>>(
    read: &P,
    lines: &Vec<TraceLine>,
) -> (r: Option<Vec<EvalStep>>)
    requires
        reads_all(read),
    ensures
        forall|g: Decimal| #[trigger]
            reads_as(read, g) ==> {
                &&& r is Some <==> eval_steps(g, line_views(lines@), lines.len() as int) is Some
                &&& r matches Some(v) ==> eval_steps(g, line_views(lines@), lines.len() as int)
                    == Some(v@)
            },
{
    let ghost views = line_views(lines@);
    let mut out: Vec<EvalStep> = Vec::new();
    let mut i: usize = 0;
    proof {
        assert(out@ =~= Seq::<EvalStep>::empty());
    }
    while i < lines.len()
        invariant
            i <= lines.len(),
            views == line_views(lines@),
            reads_all(read),
            forall|g: Decimal| #[trigger]
                reads_as(read, g) ==> eval_steps(g, views, i as int) == Some(out@),
        decreases lines.len() - i,
    {
        let l = &lines[i];
        let asked = (same(l.tag.as_str(), "dinvr") || same(l.tag.as_str(), "dzror")) && holds(
            l,
            "event",
            "1",
        );
        let ghost before = out@;
        if asked {
            match (number(read, l, "x"), read_answer(read, lines, i)) {
                (Some(x), Some(fx)) => {
                    out.push(EvalStep { x, fx });
                },
                _ => {
                    proof {
                        assert forall|g: Decimal| #[trigger] reads_as(read, g) implies eval_steps(
                            g,
                            views,
                            lines.len() as int,
                        ) is None by {
                            assert(eval_steps(g, views, i as int) == Some(before));
                            assert(eval_steps(g, views, i + 1) is None);
                            lemma_steps_stay_none(g, views, i + 1, lines.len() as int);
                        }
                    }
                    return None;
                },
            }
        }
        proof {
            assert forall|g: Decimal| #[trigger] reads_as(read, g) implies eval_steps(
                g,
                views,
                i + 1,
            ) == Some(out@) by {
                assert(eval_steps(g, views, i as int) == Some(before));
            }
        }
        i = i + 1;
    }
    Some(out)
}

/// A recorded case: its name and its lines.
#[derive(Debug)]
pub struct TraceCase {
    pub id: String,
    pub lines: Vec<String>,
}

/// Why the cases of a file cannot be told apart.
#[derive(Clone, Copy, Debug, PartialEq, Eq, Structural)]
pub enum CaseError {
    /// A case begins inside another.
    Nested,
    /// A case ends where none is open.
    EndWithoutCase,
    /// A case ends under another name.
    MismatchedId,
    /// A line stands outside a case.
    LineOutsideCase,
    /// The last case has no end.
    Unterminated,
    /// A beginning or an end has fields that cannot be read, or no name among them.
    BadFields,
}

/// A case as its name and its lines.
pub type CaseView = (Seq<char>, Seq<Seq<char>>);

/// The cases as names and lines.
pub open spec fn case_views(cases: Seq<TraceCase>) -> Seq<CaseView> {
    Seq::new(cases.len(), |i: int| (cases[i].id@, super::record::texts(cases[i].lines@)))
}

/// Where reading has got to: the cases complete, the name of the open one, and its lines.
pub struct Progress {
    pub done: Seq<CaseView>,
    pub open: Option<Seq<char>>,
    pub lines: Seq<Seq<char>>,
}

/// What follows a prefix.
pub open spec fn after(s: Seq<char>, prefix: Seq<char>) -> Option<Seq<char>> {
    if s.len() >= prefix.len() && s.take(prefix.len() as int) == prefix {
        Some(s.skip(prefix.len() as int))
    } else {
        None
    }
}

/// The name among the fields.
pub open spec fn id_of(rest: Seq<char>) -> Option<Seq<char>> {
    match parse_fields_spec(rest) {
        Some(m) => if m.contains_key("id"@) {
            Some(m["id"@])
        } else {
            None
        },
        None => None,
    }
}

/// What one line does.
pub open spec fn advance(p: Progress, raw: Seq<char>) -> Result<Progress, CaseError> {
    let line = trim_spec(raw);
    if line.len() == 0 {
        Ok(p)
    } else if after(line, "case,"@) is Some {
        if p.open is Some {
            Err(CaseError::Nested)
        } else {
            match id_of(after(line, "case,"@)->0) {
                None => Err(CaseError::BadFields),
                Some(id) => Ok(Progress { done: p.done, open: Some(id), lines: p.lines }),
            }
        }
    } else if after(line, "end,"@) is Some {
        match (id_of(after(line, "end,"@)->0), p.open) {
            (None, _) => Err(CaseError::BadFields),
            (Some(id), None) => Err(CaseError::EndWithoutCase),
            (Some(id), Some(open)) => if id == open {
                Ok(Progress { done: p.done.push((open, p.lines)), open: None, lines: Seq::empty() })
            } else {
                Err(CaseError::MismatchedId)
            },
        }
    } else if p.open is None {
        Err(CaseError::LineOutsideCase)
    } else {
        Ok(Progress { done: p.done, open: p.open, lines: p.lines.push(line) })
    }
}

/// Where reading the first `n` lines has got to.
pub open spec fn read_lines(lines: Seq<Seq<char>>, n: int) -> Result<Progress, CaseError>
    decreases n,
{
    if n <= 0 {
        Ok(Progress { done: Seq::empty(), open: None, lines: Seq::empty() })
    } else {
        match read_lines(lines, n - 1) {
            Err(e) => Err(e),
            Ok(p) => advance(p, lines[n - 1]),
        }
    }
}

/// The cases of a file with the given lines.
pub open spec fn read_cases_spec(lines: Seq<Seq<char>>) -> Result<Seq<CaseView>, CaseError> {
    match read_lines(lines, lines.len() as int) {
        Err(e) => Err(e),
        Ok(p) => if p.open is Some {
            Err(CaseError::Unterminated)
        } else {
            Ok(p.done)
        },
    }
}

proof fn lemma_error_stays(lines: Seq<Seq<char>>, i: int, n: int)
    requires
        i <= n,
        read_lines(lines, i) is Err,
    ensures
        read_lines(lines, n) == read_lines(lines, i),
    decreases n - i,
{
    if i < n {
        lemma_error_stays(lines, i, n - 1);
    }
}

fn strip<'a>(s: &'a str, prefix: &str) -> (r: Option<&'a str>)
    ensures
        r is Some <==> after(s@, prefix@) is Some,
        r matches Some(t) ==> after(s@, prefix@) == Some(t@),
{
    let n: usize = s.unicode_len();
    let k: usize = prefix.unicode_len();
    if n < k {
        return None;
    }
    let head = s.substring_char(0, k);
    proof {
        assert(s@.subrange(0, k as int) =~= s@.take(k as int));
        assert(s@.subrange(k as int, n as int) =~= s@.skip(k as int));
    }
    if same(head, prefix) {
        Some(s.substring_char(k, n))
    } else {
        None
    }
}

fn read_id(rest: &str) -> (r: Option<String>)
    ensures
        r is Some <==> id_of(rest@) is Some,
        r matches Some(t) ==> id_of(rest@) == Some(t@),
{
    match parse_fields(rest) {
        None => None,
        Some(fields) => match fields.get("id") {
            None => None,
            Some(id) => Some(String::from_str(id.as_str())),
        },
    }
}

/// The cases that the lines of a file hold, with the space around each line taken off
/// and empty lines left out.
pub fn read_cases(lines: &Vec<String>) -> (r: Result<Vec<TraceCase>, CaseError>)
    ensures
        r matches Ok(cases) ==> read_cases_spec(super::record::texts(lines@)) == Ok::<
            Seq<CaseView>,
            CaseError,
        >(case_views(cases@)),
        r matches Err(e) ==> read_cases_spec(super::record::texts(lines@)) == Err::<
            Seq<CaseView>,
            CaseError,
        >(e),
{
    let ghost all = super::record::texts(lines@);
    let mut done: Vec<TraceCase> = Vec::new();
    let mut open: Option<String> = None;
    let mut current: Vec<String> = Vec::new();
    let mut i: usize = 0;
    proof {
        assert(case_views(done@) =~= Seq::<CaseView>::empty());
        assert(super::record::texts(current@) =~= Seq::<Seq<char>>::empty());
    }
    while i < lines.len()
        invariant
            i <= lines.len(),
            all == super::record::texts(lines@),
            read_lines(all, i as int) matches Ok(p) && p.done == case_views(done@) && p.lines
                == super::record::texts(current@) && (open is None <==> p.open is None) && (open matches Some(
                id,
            ) ==> p.open == Some(id@)),
        decreases lines.len() - i,
    {
        let ghost before = read_lines(all, i as int)->Ok_0;
        let ghost raw = lines[i as int]@;
        let ghost done0 = done@;
        let ghost current0 = current@;
        let line = trim(lines[i].as_str());
        proof {
            assert(all[i as int] == raw);
            assert(read_lines(all, i + 1) == advance(before, raw));
            if advance(before, raw) is Err {
                lemma_error_stays(all, i + 1, lines.len() as int);
            }
        }
        if line.unicode_len() > 0 {
            match strip(line, "case,") {
                Some(rest) => {
                    if open.is_some() {
                        return Err(CaseError::Nested);
                    }
                    match read_id(rest) {
                        None => {
                            return Err(CaseError::BadFields);
                        },
                        Some(id) => {
                            open = Some(id);
                        },
                    }
                },
                None => match strip(line, "end,") {
                    Some(rest) => {
                        match read_id(rest) {
                            None => {
                                return Err(CaseError::BadFields);
                            },
                            Some(id) => match open {
                                None => {
                                    return Err(CaseError::EndWithoutCase);
                                },
                                Some(name) => {
                                    if !same(id.as_str(), name.as_str()) {
                                        return Err(CaseError::MismatchedId);
                                    }
                                    let case = TraceCase { id: name, lines: current };
                                    let ghost view = (case.id@, super::record::texts(case.lines@));
                                    done.push(case);
                                    current = Vec::new();
                                    open = None;
                                    proof {
                                        assert(case_views(done@) =~= case_views(done0).push(view));
                                        assert(super::record::texts(current@) =~= Seq::<Seq<char>>::empty());
                                    }
                                },
                            },
                        }
                    },
                    None => {
                        if open.is_none() {
                            return Err(CaseError::LineOutsideCase);
                        }
                        current.push(String::from_str(line));
                        proof {
                            assert(super::record::texts(current@) =~= super::record::texts(current0).push(
                                line@,
                            ));
                        }
                    },
                },
            }
        }
        i = i + 1;
    }
    if open.is_some() {
        return Err(CaseError::Unterminated);
    }
    Ok(done)
}

/// The lines of a text from `from` on: each ends before a line feed, or before a carriage
/// return and a line feed, or with the text.
pub open spec fn text_lines(raw: Seq<char>, from: int) -> Seq<Seq<char>>
    decreases raw.len() - from,
{
    if from < 0 || from >= raw.len() {
        Seq::empty()
    } else {
        let end = place(raw, '\n', from);
        if end < from {
            Seq::empty()
        } else {
            let line = raw.subrange(
                from,
                if from < end < raw.len() && raw[end - 1] == '\r' {
                    end - 1
                } else {
                    end
                },
            );
            if end >= raw.len() {
                seq![line]
            } else {
                seq![line] + text_lines(raw, end + 1)
            }
        }
    }
}

/// The lines of a text.
fn split_lines(raw: &str) -> (r: Vec<String>)
    ensures
        super::record::texts(r@) == text_lines(raw@, 0),
{
    let n: usize = raw.unicode_len();
    let mut out: Vec<String> = Vec::new();
    let mut at: usize = 0;
    proof {
        assert(super::record::texts(out@) + text_lines(raw@, 0) =~= text_lines(raw@, 0));
    }
    while at < n
        invariant
            n == raw@.len(),
            at <= n,
            super::record::texts(out@) + text_lines(raw@, at as int) == text_lines(raw@, 0),
        decreases n - at,
    {
        let ghost before = out@;
        let end: usize = find(raw, '\n', at);
        let stop: usize = if at < end && end < n && raw.get_char(end - 1) == '\r' {
            end - 1
        } else {
            end
        };
        let line = raw.substring_char(at, stop);
        out.push(String::from_str(line));
        proof {
            let rest = if end < n {
                text_lines(raw@, end + 1)
            } else {
                Seq::empty()
            };
            assert(text_lines(raw@, at as int) =~= seq![line@] + rest);
            assert(super::record::texts(out@) =~= super::record::texts(before).push(line@));
            assert(super::record::texts(before) + (seq![line@] + rest) =~= super::record::texts(out@)
                + rest);
            if end >= n {
                assert(rest =~= text_lines(raw@, n as int));
            }
        }
        at = if end < n {
            end + 1
        } else {
            n
        };
    }
    proof {
        assert(super::record::texts(out@) + text_lines(raw@, at as int) =~= super::record::texts(
            out@,
        ));
    }
    out
}

/// The cases that a text holds, line by line.
pub fn read_text(raw: &str) -> (r: Result<Vec<TraceCase>, CaseError>)
    ensures
        r matches Ok(cases) ==> read_cases_spec(text_lines(raw@, 0)) == Ok::<
            Seq<CaseView>,
            CaseError,
        >(case_views(cases@)),
        r matches Err(e) ==> read_cases_spec(text_lines(raw@, 0)) == Err::<
            Seq<CaseView>,
            CaseError,
        >(e),
{
    let lines = split_lines(raw);
    read_cases(&lines)
}

} // verus!
