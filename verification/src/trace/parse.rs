//! Reading lines back.
use super::text::{trim, trim_spec};
use vstd::prelude::*;
use vstd::string::{StrSliceExecFns, StringExecFns};

verus! {

/// The first place of a character from `from` on, or the length.
pub open spec fn place(s: Seq<char>, c: char, from: int) -> int
    decreases s.len() - from,
{
    if from >= s.len() || s[from] == c {
        from
    } else {
        place(s, c, from + 1)
    }
}

proof fn lemma_place(s: Seq<char>, c: char, from: int)
    requires
        0 <= from <= s.len(),
    ensures
        from <= place(s, c, from) <= s.len(),
    decreases s.len() - from,
{
    if from < s.len() && s[from] != c {
        lemma_place(s, c, from + 1);
    }
}

/// The first place of a character from `from` on, or the length.
pub fn find(s: &str, c: char, from: usize) -> (r: usize)
    requires
        from <= s@.len(),
    ensures
        r == place(s@, c, from as int),
        from <= r <= s@.len(),
{
    let n: usize = s.unicode_len();
    let mut i: usize = from;
    while i < n && s.get_char(i) != c
        invariant
            n == s@.len(),
            from <= i <= n,
            place(s@, c, from as int) == place(s@, c, i as int),
        decreases n - i,
    {
        i = i + 1;
    }
    i
}

/// The key and the value of a segment, on either side of its first equals sign.
pub open spec fn key_value(s: Seq<char>) -> Option<(Seq<char>, Seq<char>)> {
    let i = place(s, '=', 0);
    if i < s.len() {
        Some((s.take(i), s.skip(i + 1)))
    } else {
        None
    }
}

/// Keys with their values; of a key given twice the later value holds.
#[derive(Debug)]
pub struct Fields {
    pub entries: Vec<(String, String)>,
}

/// The map that a row of entries gives.
pub open spec fn entries_map(e: Seq<(String, String)>) -> Map<Seq<char>, Seq<char>>
    decreases e.len(),
{
    if e.len() == 0 {
        Map::empty()
    } else {
        entries_map(e.drop_last()).insert(e.last().0@, e.last().1@)
    }
}

impl Fields {
    /// What each key maps to.
    pub open spec fn view(&self) -> Map<Seq<char>, Seq<char>> {
        entries_map(self.entries@)
    }

    /// No fields.
    pub fn new() -> (r: Fields)
        ensures
            r@ == Map::<Seq<char>, Seq<char>>::empty(),
    {
        Fields { entries: Vec::new() }
    }

    /// Gives a key its value.
    pub fn insert(&mut self, key: String, value: String)
        ensures
            final(self)@ == old(self)@.insert(key@, value@),
    {
        self.entries.push((key, value));
        proof {
            assert(self.entries@.drop_last() =~= old(self).entries@);
        }
    }

    /// The value of a key.
    pub fn get(&self, key: &str) -> (r: Option<&String>)
        ensures
            r is Some <==> self@.contains_key(key@),
            r matches Some(v) ==> v@ == self@[key@],
    {
        let mut i: usize = self.entries.len();
        proof {
            assert(self.entries@.take(i as int) =~= self.entries@);
        }
        while i > 0
            invariant
                i <= self.entries@.len(),
                self@.contains_key(key@) <==> entries_map(self.entries@.take(i as int)).contains_key(key@),
                self@.contains_key(key@) ==> self@[key@] == entries_map(self.entries@.take(i as int))[key@],
            decreases i,
        {
            proof {
                assert(self.entries@.take(i as int).drop_last() =~= self.entries@.take(i - 1));
            }
            let found = same(self.entries[i - 1].0.as_str(), key);
            if found {
                return Some(&self.entries[i - 1].1);
            }
            i = i - 1;
        }
        None
    }
}

/// The two texts are the same.
pub fn same(a: &str, b: &str) -> (r: bool)
    ensures
        r == (a@ == b@),
{
    let n: usize = a.unicode_len();
    if n != b.unicode_len() {
        return false;
    }
    let mut i: usize = 0;
    while i < n
        invariant
            n == a@.len(),
            n == b@.len(),
            i <= n,
            forall|j: int| 0 <= j < i ==> a@[j] == b@[j],
        decreases n - i,
    {
        if a.get_char(i) != b.get_char(i) {
            return false;
        }
        i = i + 1;
    }
    proof {
        assert(a@ =~= b@);
    }
    true
}

/// The fields of the segments from `from` on, between separators, added to `m`;
/// nothing where a segment has no equals sign.
pub open spec fn segments(
    s: Seq<char>,
    sep: char,
    trimmed: bool,
    from: int,
    m: Map<Seq<char>, Seq<char>>,
) -> Option<Map<Seq<char>, Seq<char>>>
    decreases s.len() - from,
{
    if from > s.len() || from < 0 {
        Some(m)
    } else {
        let end = place(s, sep, from);
        if end < from || end > s.len() {
            None
        } else {
            match key_value(s.subrange(from, end)) {
                None => None,
                Some((k, v)) => {
                    let m2 = if trimmed {
                        m.insert(trim_spec(k), trim_spec(v))
                    } else {
                        m.insert(k, v)
                    };
                    if end >= s.len() {
                        Some(m2)
                    } else {
                        segments(s, sep, trimmed, end + 1, m2)
                    }
                },
            }
        }
    }
}

fn add_segment(fields: &mut Fields, part: &str, trimmed: bool) -> (r: bool)
    ensures
        r == (key_value(part@) is Some),
        key_value(part@) matches Some((k, v)) ==> final(fields)@ == if trimmed {
            old(fields)@.insert(trim_spec(k), trim_spec(v))
        } else {
            old(fields)@.insert(k, v)
        },
        !r ==> final(fields)@ == old(fields)@,
{
    let n: usize = part.unicode_len();
    let i: usize = find(part, '=', 0);
    if i >= n {
        return false;
    }
    let key = part.substring_char(0, i);
    let value = part.substring_char(i + 1, n);
    proof {
        assert(part@.subrange(0, i as int) =~= part@.take(i as int));
        assert(part@.subrange(i + 1, n as int) =~= part@.skip(i + 1));
    }
    if trimmed {
        fields.insert(String::from_str(trim(key)), String::from_str(trim(value)));
    } else {
        fields.insert(String::from_str(key), String::from_str(value));
    }
    true
}

fn read_segments(s: &str, sep: char, trimmed: bool, from: usize) -> (r: Option<Fields>)
    requires
        from <= s@.len(),
    ensures
        r is Some <==> segments(s@, sep, trimmed, from as int, Map::empty()) is Some,
        r matches Some(f) ==> segments(s@, sep, trimmed, from as int, Map::empty()) == Some(f@),
{
    let n: usize = s.unicode_len();
    let mut fields = Fields::new();
    let mut at: usize = from;
    loop
        invariant
            n == s@.len(),
            at <= n,
            segments(s@, sep, trimmed, from as int, Map::empty()) == segments(
                s@,
                sep,
                trimmed,
                at as int,
                fields@,
            ),
        decreases n - at,
    {
        let end: usize = find(s, sep, at);
        let part = s.substring_char(at, end);
        if !add_segment(&mut fields, part, trimmed) {
            return None;
        }
        if end >= n {
            return Some(fields);
        }
        at = end + 1;
    }
}

/// What `parse_fields` reads.
pub open spec fn parse_fields_spec(s: Seq<char>) -> Option<Map<Seq<char>, Seq<char>>> {
    segments(s, ',', true, 0, Map::empty())
}

/// Reads `key=value` segments between commas, without the space around keys and
/// values; nothing where a segment has no equals sign.
pub fn parse_fields(s: &str) -> (r: Option<Fields>)
    ensures
        r is Some <==> parse_fields_spec(s@) is Some,
        r matches Some(f) ==> parse_fields_spec(s@) == Some(f@),
{
    read_segments(s, ',', true, 0)
}

/// A line of a trace: its tag, and its fields.
#[derive(Debug)]
pub struct TraceLine {
    pub tag: String,
    pub fields: Fields,
}

/// The tag and the fields that `parse_trace_line` reads.
pub open spec fn parse_trace_line_spec(s: Seq<char>) -> Option<(Seq<char>, Map<Seq<char>, Seq<char>>)> {
    let end = place(s, '|', 0);
    if end >= s.len() {
        Some((s, Map::empty()))
    } else {
        match segments(s, '|', false, end + 1, Map::empty()) {
            Some(m) => Some((s.take(end), m)),
            None => None,
        }
    }
}

/// Reads a tag and `key=value` segments after it, between bars; nothing where a
/// segment has no equals sign.
pub fn parse_trace_line(line: &str) -> (r: Option<TraceLine>)
    ensures
        r is Some <==> parse_trace_line_spec(line@) is Some,
        r matches Some(t) ==> parse_trace_line_spec(line@) == Some((t.tag@, t.fields@)),
{
    let n: usize = line.unicode_len();
    let end: usize = find(line, '|', 0);
    if end >= n {
        return Some(TraceLine { tag: String::from_str(line), fields: Fields::new() });
    }
    let tag = String::from_str(line.substring_char(0, end));
    proof {
        assert(line@.subrange(0, end as int) =~= line@.take(end as int));
    }
    match read_segments(line, '|', false, end + 1) {
        None => None,
        Some(fields) => Some(TraceLine { tag, fields }),
    }
}

} // verus!
