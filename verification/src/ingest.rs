//! Reading edges from comma-separated records: the first two fields of a
//! record, with the white space around them removed, name the two ends.

use vstd::prelude::*;
use vstd::string::*;
use crate::graph::Graph;
use crate::model::{with_edge, Adjacency, NodeId};

verus! {

/// Whether `c` is white space, as `char::is_whitespace` decides it.
pub uninterp spec fn is_white_space(c: char) -> bool;

/// Calls `char::is_whitespace`, which tells whether a character has the
/// Unicode property White_Space. Trusted, not proved: the result is what
/// `is_white_space` names, which depends on the character alone.
#[verifier::external_body]
fn char_is_whitespace(c: char) -> (r: bool)
    ensures
        r == is_white_space(c),
{
    c.is_whitespace()
}

/// `s` without the white space at its two ends.
pub open spec fn trimmed(s: Seq<char>) -> Seq<char>
    decreases s.len(),
{
    if s.len() == 0 {
        s
    } else if is_white_space(s.first()) {
        trimmed(s.drop_first())
    } else if is_white_space(s.last()) {
        trimmed(s.drop_last())
    } else {
        s
    }
}

/// Where the field that starts at `from` ends: at the next comma, or at the
/// end of the record.
pub open spec fn field_end(s: Seq<char>, from: int) -> int
    decreases s.len() - from,
{
    if from >= s.len() || s[from] == ',' {
        from
    } else {
        field_end(s, from + 1)
    }
}

/// The edge that a record names: its first two fields, trimmed. A record
/// without a comma has fewer than two fields and names none.
pub open spec fn record_edge(s: Seq<char>) -> Option<(NodeId, NodeId)> {
    let first_end = field_end(s, 0);
    if first_end >= s.len() {
        None
    } else {
        let second_end = field_end(s, first_end + 1);
        Some((trimmed(s.subrange(0, first_end)), trimmed(s.subrange(first_end + 1, second_end))))
    }
}

/// The graph that a sequence of records builds, edge by edge.
pub open spec fn graph_of(records: Seq<Seq<char>>) -> Adjacency
    decreases records.len(),
{
    if records.len() == 0 {
        Map::empty()
    } else {
        let before = graph_of(records.drop_last());
        match record_edge(records.last()) {
            Some((a, b)) => with_edge(before, a, b),
            None => before,
        }
    }
}

/// The number of records that name no edge.
pub open spec fn skipped_of(records: Seq<Seq<char>>) -> nat
    decreases records.len(),
{
    if records.len() == 0 {
        0
    } else {
        skipped_of(records.drop_last()) + if record_edge(records.last()) is None {
            1nat
        } else {
            0nat
        }
    }
}

/// White space in front of a field does not change what it is trimmed to.
proof fn lemma_trim_front(s: Seq<char>, from: int, start: int, to: int)
    requires
        0 <= from <= start <= to <= s.len(),
        forall|i: int| from <= i < start ==> is_white_space(s[i]),
    ensures
        trimmed(s.subrange(from, to)) == trimmed(s.subrange(start, to)),
    decreases start - from,
{
    if from < start {
        assert(s.subrange(from, to).drop_first() =~= s.subrange(from + 1, to));
        lemma_trim_front(s, from + 1, start, to);
    }
}

/// White space behind a field that does not begin with white space does not
/// change what it is trimmed to.
proof fn lemma_trim_back(s: Seq<char>, start: int, stop: int, to: int)
    requires
        0 <= start <= stop <= to <= s.len(),
        start < stop ==> !is_white_space(s[start]),
        start == stop ==> start == to,
        forall|i: int| stop <= i < to ==> is_white_space(s[i]),
        start < stop ==> !is_white_space(s[stop - 1]),
    ensures
        trimmed(s.subrange(start, to)) == s.subrange(start, stop),
    decreases to - stop,
{
    if stop < to {
        assert(s.subrange(start, to).drop_last() =~= s.subrange(start, to - 1));
        lemma_trim_back(s, start, stop, to - 1);
    }
}

/// The position of the first comma at or after `from`, or the length of the
/// record where there is none.
fn find_field_end(record: &str, from: usize, len: usize) -> (end: usize)
    requires
        from <= len,
        len == record@.len(),
    ensures
        end == field_end(record@, from as int),
        from <= end <= len,
{
    let mut at: usize = from;
    while at < len && record.get_char(at) != ','
        invariant
            from <= at <= len,
            len == record@.len(),
            field_end(record@, from as int) == field_end(record@, at as int),
        decreases len - at,
    {
        at += 1;
    }
    at
}

/// The characters of `record` from `from` up to `to`, without the white
/// space at the two ends.
fn trimmed_field(record: &str, from: usize, to: usize) -> (field: String)
    requires
        from <= to <= record@.len(),
    ensures
        field@ == trimmed(record@.subrange(from as int, to as int)),
{
    let mut start: usize = from;
    while start < to && char_is_whitespace(record.get_char(start))
        invariant
            from <= start <= to <= record@.len(),
            forall|i: int| from <= i < start ==> is_white_space(record@[i]),
        decreases to - start,
    {
        start += 1;
    }
    let mut stop: usize = to;
    while stop > start && char_is_whitespace(record.get_char(stop - 1))
        invariant
            start <= stop <= to <= record@.len(),
            forall|i: int| stop <= i < to ==> is_white_space(record@[i]),
        decreases stop,
    {
        stop -= 1;
    }
    proof {
        lemma_trim_front(record@, from as int, start as int, to as int);
        lemma_trim_back(record@, start as int, stop as int, to as int);
    }
    record.substring_char(start, stop).to_owned()
}

/// Reads the edge that `record` names, if it names one.
pub fn parse_record(record: &str) -> (edge: Option<(String, String)>)
    ensures
        match edge {
            Some((a, b)) => record_edge(record@) == Some((a@, b@)),
            None => record_edge(record@) is None,
        },
{
    let len = record.unicode_len();
    let first_end = find_field_end(record, 0, len);
    if first_end >= len {
        return None;
    }
    let second_end = find_field_end(record, first_end + 1, len);
    let a = trimmed_field(record, 0, first_end);
    let b = trimmed_field(record, first_end + 1, second_end);
    Some((a, b))
}

/// What ingestion hands back: the graph, and how many records it skipped.
pub struct Ingested {
    pub graph: Graph,
    pub skipped: usize,
}

/// The views of the records.
pub open spec fn record_views(records: Seq<String>) -> Seq<Seq<char>> {
    records.map_values(|s: String| s@)
}

/// Builds the graph from the records in order. A record with fewer than two
/// fields adds nothing and is counted as skipped. No record is treated as a
/// header.
pub fn build_graph_from_csv(records: &Vec<String>) -> (out: Ingested)
    ensures
        out.graph.wf(),
        out.graph@ == graph_of(record_views(records@)),
        out.skipped == skipped_of(record_views(records@)),
{
    let mut graph = Graph::new();
    let mut skipped: usize = 0;
    let mut i: usize = 0;
    while i < records.len()
        invariant
            i <= records@.len(),
            graph.wf(),
            graph@ == graph_of(record_views(records@).take(i as int)),
            skipped == skipped_of(record_views(records@).take(i as int)),
            skipped <= i,
        decreases records@.len() - i,
    {
        proof {
            let views = record_views(records@);
            assert(views.take(i + 1).drop_last() =~= views.take(i as int));
            assert(views.take(i + 1).last() == records@[i as int]@);
        }
        match parse_record(records[i].as_str()) {
            Some((a, b)) => {
                graph.add_edge(a, b);
            },
            None => {
                skipped += 1;
            },
        }
        i += 1;
    }
    proof {
        assert(record_views(records@).take(i as int) =~= record_views(records@));
    }
    Ingested { graph, skipped }
}

} // verus!
