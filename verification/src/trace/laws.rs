//! What is recorded can be read back.
use super::parse::{key_value, parse_trace_line_spec, place, segments};
use super::record::{bit_text, dinvr_line, dstinv_line, dstzr_line, dzror_line, field, with, Event};
use super::text::{decimal, hex_spec, hex_tail, integer_spec};
use crate::float::F64;
use crate::search::dinvr::{InvrConfig, InvrState};
use crate::search::dzror::{ZrorConfig, ZrorState};
use vstd::prelude::*;

verus! {

/// The text holds no bar.
pub open spec fn no_bar(s: Seq<char>) -> bool {
    forall|i: int| 0 <= i < s.len() ==> #[trigger] s[i] != '|'
}

/// The text holds neither a bar nor an equals sign.
pub open spec fn plain(s: Seq<char>) -> bool {
    no_bar(s) && forall|i: int| 0 <= i < s.len() ==> #[trigger] s[i] != '='
}

proof fn lemma_place_none(s: Seq<char>, c: char, from: int)
    requires
        0 <= from <= s.len(),
        forall|i: int| from <= i < s.len() ==> #[trigger] s[i] != c,
    ensures
        place(s, c, from) == s.len(),
    decreases s.len() - from,
{
    if from < s.len() {
        lemma_place_none(s, c, from + 1);
    }
}

proof fn lemma_place_first(s: Seq<char>, c: char, from: int, at: int)
    requires
        0 <= from <= at < s.len(),
        s[at] == c,
        forall|i: int| from <= i < at ==> #[trigger] s[i] != c,
    ensures
        place(s, c, from) == at,
    decreases at - from,
{
    if from < at {
        lemma_place_first(s, c, from + 1, at);
    }
}

proof fn lemma_place_in_front(l: Seq<char>, t: Seq<char>, from: int)
    requires
        0 <= from <= l.len(),
        t.len() > 0,
        t[0] == '|',
    ensures
        place(l + t, '|', from) == place(l, '|', from),
        from <= place(l, '|', from) <= l.len(),
    decreases l.len() - from,
{
    let s = l + t;
    if from < l.len() {
        assert(s[from] == l[from]);
        if l[from] != '|' {
            lemma_place_in_front(l, t, from + 1);
        }
    } else {
        assert(s[from] == t[0]);
    }
}

proof fn lemma_last_segment(l: Seq<char>, name: Seq<char>, value: Seq<char>, m: Map<Seq<char>, Seq<char>>)
    requires
        plain(name),
        no_bar(value),
    ensures
        segments(with(l, name, value), '|', false, l.len() as int + 1, m) == Some(m.insert(name, value)),
{
    let s = with(l, name, value);
    let from = l.len() as int + 1;
    let seg = name + seq!['='] + value;
    assert(s.subrange(from, s.len() as int) =~= seg);
    assert forall|i: int| from <= i < s.len() implies #[trigger] s[i] != '|' by {
        let j = i - from;
        assert(s[i] == seg[j]);
        if j < name.len() {
            assert(seg[j] == name[j]);
        } else if j > name.len() {
            assert(seg[j] == value[j - name.len() - 1]);
        }
    }
    lemma_place_none(s, '|', from);
    assert forall|i: int| 0 <= i < name.len() implies #[trigger] seg[i] != '=' by {
        assert(seg[i] == name[i]);
    }
    lemma_place_first(seg, '=', 0, name.len() as int);
    assert(seg.take(name.len() as int) =~= name);
    assert(seg.skip(name.len() as int + 1) =~= value);
    assert(key_value(seg) == Some((name, value)));
}

proof fn lemma_segments_extend(
    l: Seq<char>,
    name: Seq<char>,
    value: Seq<char>,
    from: int,
    m: Map<Seq<char>, Seq<char>>,
)
    requires
        plain(name),
        no_bar(value),
        0 <= from <= l.len(),
    ensures
        segments(l, '|', false, from, m) matches Some(n) ==> segments(
            with(l, name, value),
            '|',
            false,
            from,
            m,
        ) == Some(n.insert(name, value)),
    decreases l.len() - from,
{
    let t = field(name, value);
    let s = with(l, name, value);
    assert(t[0] == '|');
    lemma_place_in_front(l, t, from);
    let end = place(l, '|', from);
    assert(s.subrange(from, end) =~= l.subrange(from, end));
    match key_value(l.subrange(from, end)) {
        None => {},
        Some((k, v)) => {
            let m2 = m.insert(k, v);
            if end >= l.len() {
                lemma_last_segment(l, name, value, m2);
            } else {
                lemma_segments_extend(l, name, value, end + 1, m2);
            }
        },
    }
}

/// A field that was added to a line is read back with the fields before it.
pub proof fn law_field_reads_back(
    l: Seq<char>,
    tag: Seq<char>,
    m: Map<Seq<char>, Seq<char>>,
    name: Seq<char>,
    value: Seq<char>,
)
    requires
        parse_trace_line_spec(l) == Some((tag, m)),
        plain(name),
        no_bar(value),
    ensures
        parse_trace_line_spec(with(l, name, value)) == Some((tag, m.insert(name, value))),
{
    let t = field(name, value);
    let s = with(l, name, value);
    assert(t[0] == '|');
    lemma_place_in_front(l, t, 0);
    let end = place(l, '|', 0);
    assert(s.take(end) =~= l.take(end));
    if end >= l.len() {
        assert(l.take(end) =~= l);
        lemma_last_segment(l, name, value, Map::empty());
    } else {
        lemma_segments_extend(l, name, value, end + 1, Map::empty());
    }
}

proof fn lemma_tag_alone(tag: Seq<char>)
    requires
        no_bar(tag),
    ensures
        parse_trace_line_spec(tag) == Some((tag, Map::<Seq<char>, Seq<char>>::empty())),
{
    lemma_place_none(tag, '|', 0);
}

proof fn lemma_hex_has_no_bar(bits: int, n: nat)
    ensures
        no_bar(hex_tail(bits, n)),
        hex_tail(bits, n).len() == n,
    decreases n,
{
    if n > 0 {
        lemma_hex_has_no_bar(bits / 16, (n - 1) as nat);
        let s = hex_tail(bits / 16, (n - 1) as nat);
        assert forall|i: int| 0 <= i < n implies #[trigger] hex_tail(bits, n)[i] != '|' by {
            if i < n - 1 {
                assert(hex_tail(bits, n)[i] == s[i]);
            }
        }
    }
}

proof fn lemma_decimal_has_no_bar(n: nat)
    ensures
        no_bar(decimal(n)),
    decreases n,
{
    if n >= 10 {
        lemma_decimal_has_no_bar(n / 10);
        let s = decimal(n / 10);
        assert forall|i: int| 0 <= i < decimal(n).len() implies #[trigger] decimal(n)[i] != '|' by {
            if i < s.len() {
                assert(decimal(n)[i] == s[i]);
            }
        }
    }
}

proof fn lemma_values(x: F64, n: int)
    ensures
        no_bar(hex_spec(x)),
        no_bar(integer_spec(n)),
{
    lemma_hex_has_no_bar(x.bits as int, 16);
    if n < 0 {
        lemma_decimal_has_no_bar((-n) as nat);
        let d = decimal((-n) as nat);
        assert forall|i: int| 0 <= i < integer_spec(n).len() implies #[trigger] integer_spec(n)[i] != '|' by {
            if i > 0 {
                assert(integer_spec(n)[i] == d[i - 1]);
            }
        }
    } else {
        lemma_decimal_has_no_bar(n as nat);
    }
}

/// The line is read as this tag and these fields.
#[verifier::opaque]
spec fn reads(l: Seq<char>, tag: Seq<char>, m: Map<Seq<char>, Seq<char>>) -> bool {
    parse_trace_line_spec(l) == Some((tag, m))
}

/// The line with a number added is read back with the number's digits.
proof fn lemma_number(l: Seq<char>, tag: Seq<char>, m: Map<Seq<char>, Seq<char>>, name: Seq<char>, x: F64)
    requires
        reads(l, tag, m),
        plain(name),
    ensures
        reads(with(l, name, hex_spec(x)), tag, m.insert(name, hex_spec(x))),
{
    reveal(reads);
    lemma_values(x, 0);
    law_field_reads_back(l, tag, m, name, hex_spec(x));
}

/// The line with an integer added is read back with the integer's digits.
proof fn lemma_integer(l: Seq<char>, tag: Seq<char>, m: Map<Seq<char>, Seq<char>>, name: Seq<char>, n: int)
    requires
        reads(l, tag, m),
        plain(name),
    ensures
        reads(with(l, name, integer_spec(n)), tag, m.insert(name, integer_spec(n))),
{
    reveal(reads);
    lemma_values(crate::float::lit(0), n);
    law_field_reads_back(l, tag, m, name, integer_spec(n));
}

/// The tags and the keys hold no separator.
proof fn lemma_names()
    ensures
        plain("a"@),
        plain("abs_step"@),
        plain("abs_tol"@),
        plain("b"@),
        plain("big"@),
        plain("c"@),
        plain("d"@),
        plain("dinvr"@),
        plain("dstinv"@),
        plain("dstzr"@),
        plain("dzror"@),
        plain("event"@),
        plain("ext"@),
        plain("fa"@),
        plain("fb"@),
        plain("fbig"@),
        plain("fc"@),
        plain("fd"@),
        plain("first"@),
        plain("fsmall"@),
        plain("fx"@),
        plain("mb"@),
        plain("qhi"@),
        plain("qincr"@),
        plain("qleft"@),
        plain("rel_step"@),
        plain("rel_tol"@),
        plain("small"@),
        plain("stage"@),
        plain("status"@),
        plain("step"@),
        plain("stp_mul"@),
        plain("w"@),
        plain("x"@),
        plain("xhi"@),
        plain("xlb"@),
        plain("xlo"@),
        plain("xsave"@),
        plain("xub"@),
{
    reveal_strlit("a");
    reveal_strlit("abs_step");
    reveal_strlit("abs_tol");
    reveal_strlit("b");
    reveal_strlit("big");
    reveal_strlit("c");
    reveal_strlit("d");
    reveal_strlit("dinvr");
    reveal_strlit("dstinv");
    reveal_strlit("dstzr");
    reveal_strlit("dzror");
    reveal_strlit("event");
    reveal_strlit("ext");
    reveal_strlit("fa");
    reveal_strlit("fb");
    reveal_strlit("fbig");
    reveal_strlit("fc");
    reveal_strlit("fd");
    reveal_strlit("first");
    reveal_strlit("fsmall");
    reveal_strlit("fx");
    reveal_strlit("mb");
    reveal_strlit("qhi");
    reveal_strlit("qincr");
    reveal_strlit("qleft");
    reveal_strlit("rel_step");
    reveal_strlit("rel_tol");
    reveal_strlit("small");
    reveal_strlit("stage");
    reveal_strlit("status");
    reveal_strlit("step");
    reveal_strlit("stp_mul");
    reveal_strlit("w");
    reveal_strlit("x");
    reveal_strlit("xhi");
    reveal_strlit("xlb");
    reveal_strlit("xlo");
    reveal_strlit("xsave");
    reveal_strlit("xub");
}

/// The line with a truth value added is read back with its digit.
proof fn lemma_bit(l: Seq<char>, tag: Seq<char>, m: Map<Seq<char>, Seq<char>>, name: Seq<char>, x: bool)
    requires
        reads(l, tag, m),
        plain(name),
    ensures
        reads(with(l, name, bit_text(x)), tag, m.insert(name, bit_text(x))),
{
    lemma_integer(
        l,
        tag,
        m,
        name,
        if x {
            1
        } else {
            0
        },
    );
}

/// The fields of the set-up of a refinement.
pub open spec fn dstzr_fields(c: ZrorConfig) -> Map<Seq<char>, Seq<char>> {
    let m = Map::<Seq<char>, Seq<char>>::empty();
    let m = m.insert("xlo"@, hex_spec(c.xlo));
    let m = m.insert("xhi"@, hex_spec(c.xhi));
    let m = m.insert("abs_tol"@, hex_spec(c.abstol));
    let m = m.insert("rel_tol"@, hex_spec(c.reltol));
    m
}

/// The recorded set-up of a refinement is read back.
pub proof fn law_dstzr_reads_back(c: ZrorConfig)
    ensures
        parse_trace_line_spec(dstzr_line(c)) == Some(("dstzr"@, dstzr_fields(c))),
{
    lemma_names();
    let t = "dstzr"@;
    assert(reads(t, t, Map::<Seq<char>, Seq<char>>::empty())) by {
        reveal(reads);
        lemma_tag_alone(t);
    }
    let l = t;
    let m = Map::<Seq<char>, Seq<char>>::empty();
    lemma_number(l, t, m, "xlo"@, c.xlo);
    let l = with(l, "xlo"@, hex_spec(c.xlo));
    let m = m.insert("xlo"@, hex_spec(c.xlo));
    lemma_number(l, t, m, "xhi"@, c.xhi);
    let l = with(l, "xhi"@, hex_spec(c.xhi));
    let m = m.insert("xhi"@, hex_spec(c.xhi));
    lemma_number(l, t, m, "abs_tol"@, c.abstol);
    let l = with(l, "abs_tol"@, hex_spec(c.abstol));
    let m = m.insert("abs_tol"@, hex_spec(c.abstol));
    lemma_number(l, t, m, "rel_tol"@, c.reltol);
    assert(reads(dstzr_line(c), t, dstzr_fields(c)));
    reveal(reads);
}

/// The fields of the set-up of a bracketing search.
pub open spec fn dstinv_fields(c: InvrConfig) -> Map<Seq<char>, Seq<char>> {
    let m = Map::<Seq<char>, Seq<char>>::empty();
    let m = m.insert("small"@, hex_spec(c.small));
    let m = m.insert("big"@, hex_spec(c.big));
    let m = m.insert("abs_step"@, hex_spec(c.abs_step));
    let m = m.insert("rel_step"@, hex_spec(c.rel_step));
    let m = m.insert("stp_mul"@, hex_spec(c.stp_mul));
    let m = m.insert("abs_tol"@, hex_spec(c.abs_tol));
    let m = m.insert("rel_tol"@, hex_spec(c.rel_tol));
    m
}

/// The recorded set-up of a bracketing search is read back.
pub proof fn law_dstinv_reads_back(c: InvrConfig)
    ensures
        parse_trace_line_spec(dstinv_line(c)) == Some(("dstinv"@, dstinv_fields(c))),
{
    lemma_names();
    let t = "dstinv"@;
    assert(reads(t, t, Map::<Seq<char>, Seq<char>>::empty())) by {
        reveal(reads);
        lemma_tag_alone(t);
    }
    let l = t;
    let m = Map::<Seq<char>, Seq<char>>::empty();
    lemma_number(l, t, m, "small"@, c.small);
    let l = with(l, "small"@, hex_spec(c.small));
    let m = m.insert("small"@, hex_spec(c.small));
    lemma_number(l, t, m, "big"@, c.big);
    let l = with(l, "big"@, hex_spec(c.big));
    let m = m.insert("big"@, hex_spec(c.big));
    lemma_number(l, t, m, "abs_step"@, c.abs_step);
    let l = with(l, "abs_step"@, hex_spec(c.abs_step));
    let m = m.insert("abs_step"@, hex_spec(c.abs_step));
    lemma_number(l, t, m, "rel_step"@, c.rel_step);
    let l = with(l, "rel_step"@, hex_spec(c.rel_step));
    let m = m.insert("rel_step"@, hex_spec(c.rel_step));
    lemma_number(l, t, m, "stp_mul"@, c.stp_mul);
    let l = with(l, "stp_mul"@, hex_spec(c.stp_mul));
    let m = m.insert("stp_mul"@, hex_spec(c.stp_mul));
    lemma_number(l, t, m, "abs_tol"@, c.abs_tol);
    let l = with(l, "abs_tol"@, hex_spec(c.abs_tol));
    let m = m.insert("abs_tol"@, hex_spec(c.abs_tol));
    lemma_number(l, t, m, "rel_tol"@, c.rel_tol);
    assert(reads(dstinv_line(c), t, dstinv_fields(c)));
    reveal(reads);
}

/// The fields of an event of the bracketing machine.
pub open spec fn dinvr_fields(e: Event, s: InvrState) -> Map<Seq<char>, Seq<char>> {
    let m = Map::<Seq<char>, Seq<char>>::empty();
    let m = m.insert("event"@, integer_spec(e.event as int));
    let m = m.insert("stage"@, integer_spec(e.stage as int));
    let m = m.insert("status"@, integer_spec(e.status as int));
    let m = m.insert("x"@, hex_spec(e.x));
    let m = m.insert("fx"@, hex_spec(e.fx));
    let m = m.insert("qleft"@, bit_text(e.qleft));
    let m = m.insert("qhi"@, bit_text(e.qhi));
    let m = m.insert("xsave"@, hex_spec(s.xsave));
    let m = m.insert("fsmall"@, hex_spec(s.fsmall));
    let m = m.insert("fbig"@, hex_spec(s.fbig));
    let m = m.insert("qincr"@, bit_text(s.qincr));
    let m = m.insert("step"@, hex_spec(s.step));
    let m = m.insert("xlb"@, hex_spec(s.xlb));
    let m = m.insert("xub"@, hex_spec(s.xub));
    m
}

/// A recorded event of the bracketing machine is read back.
pub proof fn law_dinvr_reads_back(e: Event, s: InvrState)
    ensures
        parse_trace_line_spec(dinvr_line(e, s)) == Some(("dinvr"@, dinvr_fields(e, s))),
{
    lemma_names();
    let t = "dinvr"@;
    assert(reads(t, t, Map::<Seq<char>, Seq<char>>::empty())) by {
        reveal(reads);
        lemma_tag_alone(t);
    }
    let l = t;
    let m = Map::<Seq<char>, Seq<char>>::empty();
    lemma_integer(l, t, m, "event"@, e.event as int);
    let l = with(l, "event"@, integer_spec(e.event as int));
    let m = m.insert("event"@, integer_spec(e.event as int));
    lemma_integer(l, t, m, "stage"@, e.stage as int);
    let l = with(l, "stage"@, integer_spec(e.stage as int));
    let m = m.insert("stage"@, integer_spec(e.stage as int));
    lemma_integer(l, t, m, "status"@, e.status as int);
    let l = with(l, "status"@, integer_spec(e.status as int));
    let m = m.insert("status"@, integer_spec(e.status as int));
    lemma_number(l, t, m, "x"@, e.x);
    let l = with(l, "x"@, hex_spec(e.x));
    let m = m.insert("x"@, hex_spec(e.x));
    lemma_number(l, t, m, "fx"@, e.fx);
    let l = with(l, "fx"@, hex_spec(e.fx));
    let m = m.insert("fx"@, hex_spec(e.fx));
    lemma_bit(l, t, m, "qleft"@, e.qleft);
    let l = with(l, "qleft"@, bit_text(e.qleft));
    let m = m.insert("qleft"@, bit_text(e.qleft));
    lemma_bit(l, t, m, "qhi"@, e.qhi);
    let l = with(l, "qhi"@, bit_text(e.qhi));
    let m = m.insert("qhi"@, bit_text(e.qhi));
    lemma_number(l, t, m, "xsave"@, s.xsave);
    let l = with(l, "xsave"@, hex_spec(s.xsave));
    let m = m.insert("xsave"@, hex_spec(s.xsave));
    lemma_number(l, t, m, "fsmall"@, s.fsmall);
    let l = with(l, "fsmall"@, hex_spec(s.fsmall));
    let m = m.insert("fsmall"@, hex_spec(s.fsmall));
    lemma_number(l, t, m, "fbig"@, s.fbig);
    let l = with(l, "fbig"@, hex_spec(s.fbig));
    let m = m.insert("fbig"@, hex_spec(s.fbig));
    lemma_bit(l, t, m, "qincr"@, s.qincr);
    let l = with(l, "qincr"@, bit_text(s.qincr));
    let m = m.insert("qincr"@, bit_text(s.qincr));
    lemma_number(l, t, m, "step"@, s.step);
    let l = with(l, "step"@, hex_spec(s.step));
    let m = m.insert("step"@, hex_spec(s.step));
    lemma_number(l, t, m, "xlb"@, s.xlb);
    let l = with(l, "xlb"@, hex_spec(s.xlb));
    let m = m.insert("xlb"@, hex_spec(s.xlb));
    lemma_number(l, t, m, "xub"@, s.xub);
    assert(reads(dinvr_line(e, s), t, dinvr_fields(e, s)));
    reveal(reads);
}

/// The fields of an event of the refining machine.
pub open spec fn dzror_fields(e: Event, z: ZrorState) -> Map<Seq<char>, Seq<char>> {
    let m = Map::<Seq<char>, Seq<char>>::empty();
    let m = m.insert("event"@, integer_spec(e.event as int));
    let m = m.insert("stage"@, integer_spec(e.stage as int));
    let m = m.insert("status"@, integer_spec(e.status as int));
    let m = m.insert("x"@, hex_spec(e.x));
    let m = m.insert("fx"@, hex_spec(e.fx));
    let m = m.insert("qleft"@, bit_text(e.qleft));
    let m = m.insert("qhi"@, bit_text(e.qhi));
    let m = m.insert("xlo"@, hex_spec(z.xlo));
    let m = m.insert("xhi"@, hex_spec(z.xhi));
    let m = m.insert("a"@, hex_spec(z.a));
    let m = m.insert("b"@, hex_spec(z.b));
    let m = m.insert("c"@, hex_spec(z.c));
    let m = m.insert("d"@, hex_spec(z.d));
    let m = m.insert("fa"@, hex_spec(z.fa));
    let m = m.insert("fb"@, hex_spec(z.fb));
    let m = m.insert("fc"@, hex_spec(z.fc));
    let m = m.insert("fd"@, hex_spec(z.fd));
    let m = m.insert("w"@, hex_spec(z.w));
    let m = m.insert("mb"@, hex_spec(z.mb));
    let m = m.insert("ext"@, integer_spec(z.ext as int));
    let m = m.insert("first"@, bit_text(z.first));
    m
}

/// A recorded event of the refining machine is read back.
pub proof fn law_dzror_reads_back(e: Event, z: ZrorState)
    ensures
        parse_trace_line_spec(dzror_line(e, z)) == Some(("dzror"@, dzror_fields(e, z))),
{
    lemma_names();
    let t = "dzror"@;
    assert(reads(t, t, Map::<Seq<char>, Seq<char>>::empty())) by {
        reveal(reads);
        lemma_tag_alone(t);
    }
    let l = t;
    let m = Map::<Seq<char>, Seq<char>>::empty();
    lemma_integer(l, t, m, "event"@, e.event as int);
    let l = with(l, "event"@, integer_spec(e.event as int));
    let m = m.insert("event"@, integer_spec(e.event as int));
    lemma_integer(l, t, m, "stage"@, e.stage as int);
    let l = with(l, "stage"@, integer_spec(e.stage as int));
    let m = m.insert("stage"@, integer_spec(e.stage as int));
    lemma_integer(l, t, m, "status"@, e.status as int);
    let l = with(l, "status"@, integer_spec(e.status as int));
    let m = m.insert("status"@, integer_spec(e.status as int));
    lemma_number(l, t, m, "x"@, e.x);
    let l = with(l, "x"@, hex_spec(e.x));
    let m = m.insert("x"@, hex_spec(e.x));
    lemma_number(l, t, m, "fx"@, e.fx);
    let l = with(l, "fx"@, hex_spec(e.fx));
    let m = m.insert("fx"@, hex_spec(e.fx));
    lemma_bit(l, t, m, "qleft"@, e.qleft);
    let l = with(l, "qleft"@, bit_text(e.qleft));
    let m = m.insert("qleft"@, bit_text(e.qleft));
    lemma_bit(l, t, m, "qhi"@, e.qhi);
    let l = with(l, "qhi"@, bit_text(e.qhi));
    let m = m.insert("qhi"@, bit_text(e.qhi));
    lemma_number(l, t, m, "xlo"@, z.xlo);
    let l = with(l, "xlo"@, hex_spec(z.xlo));
    let m = m.insert("xlo"@, hex_spec(z.xlo));
    lemma_number(l, t, m, "xhi"@, z.xhi);
    let l = with(l, "xhi"@, hex_spec(z.xhi));
    let m = m.insert("xhi"@, hex_spec(z.xhi));
    lemma_number(l, t, m, "a"@, z.a);
    let l = with(l, "a"@, hex_spec(z.a));
    let m = m.insert("a"@, hex_spec(z.a));
    lemma_number(l, t, m, "b"@, z.b);
    let l = with(l, "b"@, hex_spec(z.b));
    let m = m.insert("b"@, hex_spec(z.b));
    lemma_number(l, t, m, "c"@, z.c);
    let l = with(l, "c"@, hex_spec(z.c));
    let m = m.insert("c"@, hex_spec(z.c));
    lemma_number(l, t, m, "d"@, z.d);
    let l = with(l, "d"@, hex_spec(z.d));
    let m = m.insert("d"@, hex_spec(z.d));
    lemma_number(l, t, m, "fa"@, z.fa);
    let l = with(l, "fa"@, hex_spec(z.fa));
    let m = m.insert("fa"@, hex_spec(z.fa));
    lemma_number(l, t, m, "fb"@, z.fb);
    let l = with(l, "fb"@, hex_spec(z.fb));
    let m = m.insert("fb"@, hex_spec(z.fb));
    lemma_number(l, t, m, "fc"@, z.fc);
    let l = with(l, "fc"@, hex_spec(z.fc));
    let m = m.insert("fc"@, hex_spec(z.fc));
    lemma_number(l, t, m, "fd"@, z.fd);
    let l = with(l, "fd"@, hex_spec(z.fd));
    let m = m.insert("fd"@, hex_spec(z.fd));
    lemma_number(l, t, m, "w"@, z.w);
    let l = with(l, "w"@, hex_spec(z.w));
    let m = m.insert("w"@, hex_spec(z.w));
    lemma_number(l, t, m, "mb"@, z.mb);
    let l = with(l, "mb"@, hex_spec(z.mb));
    let m = m.insert("mb"@, hex_spec(z.mb));
    lemma_integer(l, t, m, "ext"@, z.ext as int);
    let l = with(l, "ext"@, integer_spec(z.ext as int));
    let m = m.insert("ext"@, integer_spec(z.ext as int));
    lemma_bit(l, t, m, "first"@, z.first);
    assert(reads(dzror_line(e, z), t, dzror_fields(e, z)));
    reveal(reads);
}

} // verus!
