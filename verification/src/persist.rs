//! The result store as text: what a result file holds, and that a store
//! which was written is read back as it was.

use crate::cache::{committed_order, key_of, RttResult};
use crate::decimal::{decimal_value, lemma_decimal_round_trip, parse_decimal};
use crate::error::{DeserializedError, Error, ErrorKind};
use crate::inet::{inet_parse_of, inet_text_of, parse_inet, IpInet};
use crate::layout::{
    captures_of,
    find_captures,
    is_address_part,
    is_one_line,
    joined,
    lemma_captures_are_digits,
    lemma_line_captures,
    lemma_line_is_one_line,
    lemma_lines_of_joined,
    line_text,
    lines_of,
};
use crate::order::{lemma_stable_sort_of_sorted, sorted_by, without};
use crate::text::string_of;
use vstd::prelude::*;

verus! {

/// The layout of a line of the result file, as a pattern.
pub const RESULT_LINE_PATTERN: &'static str =
    r"^ip: (.{2,45}/[0-9]+), server_rtt: ([0-9]+), cdn_rtt: ([0-9]+)$";

/// Why a line of the result file is refused.
pub enum LineFault {
    /// The line is not of the layout.
    Layout,
    /// The address part names no address.
    Address,
    /// The first number does not fit.
    ServerRtt,
    /// The second number does not fit.
    CdnRtt,
}

/// The address and the record that a line holds.
pub open spec fn entry_of(line: Seq<char>) -> Result<(IpInet, RttResult), LineFault> {
    match captures_of(line) {
        None => Err(LineFault::Layout),
        Some((addr, server, cdn)) => match inet_parse_of(addr) {
            None => Err(LineFault::Address),
            Some(k) => if decimal_value(server) > u64::MAX {
                Err(LineFault::ServerRtt)
            } else if decimal_value(cdn) > u64::MAX {
                Err(LineFault::CdnRtt)
            } else {
                Ok(
                    (
                        k,
                        RttResult {
                            server_rtt: decimal_value(server) as u64,
                            cdn_rtt: decimal_value(cdn) as u64,
                        },
                    ),
                )
            },
        },
    }
}

/// The error that reports a fault of `line`.
pub open spec fn reports(e: Error, fault: LineFault, line: Seq<char>) -> bool {
    match fault {
        LineFault::Layout => e.kind() matches ErrorKind::Deserialized(
            DeserializedError::Regex { unmatched, regex },
        ) && unmatched@ == line && regex@ == RESULT_LINE_PATTERN@,
        LineFault::Address => e.kind() matches ErrorKind::Deserialized(
            DeserializedError::NetworkParse(_),
        ),
        LineFault::ServerRtt => e.kind() matches ErrorKind::Deserialized(
            DeserializedError::ParseInt { digits },
        ) && captures_of(line) matches Some(c) && digits@ == c.1,
        LineFault::CdnRtt => e.kind() matches ErrorKind::Deserialized(
            DeserializedError::ParseInt { digits },
        ) && captures_of(line) matches Some(c) && digits@ == c.2,
    }
}

/// Line `p` is the first that is refused, and `e` reports why.
pub open spec fn refused_at(lines: Seq<Seq<char>>, p: int, e: Error) -> bool {
    &&& 0 <= p < lines.len()
    &&& forall|i: int| 0 <= i < p ==> (#[trigger] entry_of(lines[i])) is Ok
    &&& entry_of(lines[p]) matches Err(fault) && reports(e, fault, lines[p])
}

/// Every line holds an address and a record.
pub open spec fn all_entries(lines: Seq<Seq<char>>) -> bool {
    forall|i: int| 0 <= i < lines.len() ==> (#[trigger] entry_of(lines[i])) is Ok
}

/// What the lines hold, line by line.
pub open spec fn entries_of(lines: Seq<Seq<char>>) -> Seq<(IpInet, RttResult)> {
    Seq::new(
        lines.len(),
        |i: int|
            match entry_of(lines[i]) {
                Ok(e) => e,
                Err(_) => arbitrary(),
            },
    )
}

/// The mapping after the entries were added one by one: the last record of
/// an address wins.
pub open spec fn loaded_mapping(es: Seq<(IpInet, RttResult)>) -> Map<IpInet, RttResult>
    decreases es.len(),
{
    if es.len() == 0 {
        Map::<IpInet, RttResult>::empty()
    } else {
        loaded_mapping(es.drop_last()).insert(es.last().0, es.last().1)
    }
}

/// The addresses of the entries, each once, as they first occur.
pub open spec fn loaded_staged(es: Seq<(IpInet, RttResult)>) -> Seq<IpInet>
    decreases es.len(),
{
    if es.len() == 0 {
        Seq::<IpInet>::empty()
    } else {
        let head = loaded_staged(es.drop_last());
        if head.contains(es.last().0) {
            head
        } else {
            head.push(es.last().0)
        }
    }
}

/// The order after the entries were added and committed: ascending by
/// record, addresses of equal record as they first occur.
pub open spec fn loaded_order(es: Seq<(IpInet, RttResult)>) -> Seq<IpInet> {
    committed_order(loaded_mapping(es), Seq::<IpInet>::empty(), loaded_staged(es))
}

/// The mapping and the order that a text holds, or `None` where one of its
/// lines is refused.
pub open spec fn loaded(text: Seq<char>) -> Option<(Map<IpInet, RttResult>, Seq<IpInet>)> {
    let lines = lines_of(text);
    if all_entries(lines) {
        Some((loaded_mapping(entries_of(lines)), loaded_order(entries_of(lines))))
    } else {
        None
    }
}

/// The text written for `k` can stand in a line and is read back as `k`.
pub open spec fn reads_back(k: IpInet) -> bool {
    let t = inet_text_of(k);
    is_address_part(t) && is_one_line(t) && inet_parse_of(t) == Some(k)
}

/// The lines of a store: one for each address of the order, with the record
/// that the mapping has for it.
pub open spec fn rendered_lines(m: Map<IpInet, RttResult>, ordered: Seq<IpInet>) -> Seq<
    Seq<char>,
> {
    Seq::new(ordered.len(), |i: int| line_text(inet_text_of(ordered[i]), m[ordered[i]]))
}

/// The text of a store.
pub open spec fn rendered(m: Map<IpInet, RttResult>, ordered: Seq<IpInet>) -> Seq<char> {
    joined(rendered_lines(m, ordered))
}

/// What the lines written for the first `j` addresses load as: the mapping
/// on those addresses, and those addresses as they stand.
proof fn lemma_loaded_prefix(m: Map<IpInet, RttResult>, ordered: Seq<IpInet>, j: int)
    requires
        ordered.no_duplicates(),
        forall|i: int| 0 <= i < ordered.len() ==> m.contains_key(#[trigger] ordered[i]),
        0 <= j <= ordered.len(),
    ensures
        loaded_mapping(Seq::new(ordered.len(), |i: int| (ordered[i], m[ordered[i]])).take(j))
            == m.restrict(ordered.take(j).to_set()),
        loaded_staged(Seq::new(ordered.len(), |i: int| (ordered[i], m[ordered[i]])).take(j))
            == ordered.take(j),
    decreases j,
{
    let es = Seq::new(ordered.len(), |i: int| (ordered[i], m[ordered[i]]));
    if j == 0 {
        assert(es.take(0) =~= Seq::<(IpInet, RttResult)>::empty());
        assert(m.restrict(ordered.take(0).to_set()) =~= Map::<IpInet, RttResult>::empty());
        assert(ordered.take(0) =~= Seq::<IpInet>::empty());
    } else {
        lemma_loaded_prefix(m, ordered, j - 1);
        let k = ordered[j - 1];
        assert(es.take(j).drop_last() =~= es.take(j - 1));
        assert(es.take(j).last() == (k, m[k]));
        let prev = ordered.take(j - 1);
        let now = ordered.take(j);
        assert(now =~= prev.push(k));
        assert(!prev.contains(k)) by {
            if prev.contains(k) {
                let p = choose|p: int| 0 <= p < prev.len() && prev[p] == k;
                assert(ordered[p] == ordered[j - 1]);
            }
        }
        assert forall|y: IpInet| now.to_set().contains(y) <==> prev.to_set().contains(y) || y
            == k by {
            if prev.contains(y) {
                let p = choose|p: int| 0 <= p < prev.len() && prev[p] == y;
                assert(now[p] == y);
            }
            if y == k {
                assert(now[j - 1] == y);
            }
            if now.contains(y) {
                let p = choose|p: int| 0 <= p < now.len() && now[p] == y;
                if p < j - 1 {
                    assert(prev[p] == y);
                }
            }
        }
        assert(m.restrict(prev.to_set()).insert(k, m[k]) =~= m.restrict(now.to_set()));
    }
}

/// A sorted, duplicate-free store whose addresses read back loads from its
/// own text as the same mapping in the same order.
pub proof fn lemma_saved_text_loads(m: Map<IpInet, RttResult>, ordered: Seq<IpInet>)
    requires
        ordered.no_duplicates(),
        forall|k: IpInet| #[trigger] m.contains_key(k) <==> ordered.contains(k),
        sorted_by(key_of(m), ordered),
        forall|i: int| 0 <= i < ordered.len() ==> reads_back(#[trigger] ordered[i]),
    ensures
        loaded(rendered(m, ordered)) == Some((m, ordered)),
{
    let lines = rendered_lines(m, ordered);
    let n = ordered.len() as int;
    assert forall|i: int| 0 <= i < lines.len() implies is_one_line(#[trigger] lines[i])
        && lines[i].len() > 0 by {
        assert(reads_back(ordered[i]));
        lemma_line_is_one_line(inet_text_of(ordered[i]), m[ordered[i]]);
    }
    lemma_lines_of_joined(lines);
    assert forall|i: int| 0 <= i < lines.len() implies (#[trigger] entry_of(lines[i])) == Ok::<
        (IpInet, RttResult),
        LineFault,
    >((ordered[i], m[ordered[i]])) by {
        let k = ordered[i];
        assert(reads_back(k));
        lemma_line_captures(inet_text_of(k), m[k]);
        lemma_decimal_round_trip(m[k].server_rtt as nat);
        lemma_decimal_round_trip(m[k].cdn_rtt as nat);
    }
    let es = Seq::new(ordered.len(), |i: int| (ordered[i], m[ordered[i]]));
    assert(entries_of(lines) =~= es);
    assert forall|i: int| 0 <= i < ordered.len() implies m.contains_key(
        #[trigger] ordered[i],
    ) by {
        assert(ordered.contains(ordered[i]));
    }
    lemma_loaded_prefix(m, ordered, n);
    assert(es.take(n) =~= es);
    assert(ordered.take(n) =~= ordered);
    assert(m.restrict(ordered.to_set()) =~= m);
    let none = Seq::<IpInet>::empty();
    lemma_stable_sort_of_sorted(key_of(m), ordered);
    assert(without(none, ordered.to_set()) =~= none);
}

/// Reads one line of the result file.
pub fn parse_line(line: &Vec<char>) -> (r: Result<(IpInet, RttResult), Error>)
    ensures
        match r {
            Ok(e) => entry_of(line@) == Ok::<(IpInet, RttResult), LineFault>(e) && e.0.wf(),
            Err(e) => entry_of(line@) matches Err(fault) && reports(e, fault, line@),
        },
{
    let sp = match find_captures(line) {
        Some(sp) => sp,
        None => {
            let unmatched = string_of(line, 0, line.len());
            assert(line@.subrange(0, line.len() as int) =~= line@);
            return Err(Error::from(DeserializedError::regex(unmatched, RESULT_LINE_PATTERN)));
        },
    };
    let addr = string_of(line, sp.addr_start, sp.addr_end);
    let ip_inet = match parse_inet(addr.as_str()) {
        Ok(ip_inet) => ip_inet,
        Err(e) => {
            return Err(Error::from(DeserializedError::NetworkParse(e)));
        },
    };
    let server_rtt = match parse_decimal(line, sp.server_start, sp.server_end) {
        Some(n) => n,
        None => {
            proof {
                lemma_captures_are_digits(line@);
            }
            let digits = string_of(line, sp.server_start, sp.server_end);
            return Err(Error::from(DeserializedError::ParseInt { digits }));
        },
    };
    let cdn_rtt = match parse_decimal(line, sp.cdn_start, line.len()) {
        Some(n) => n,
        None => {
            proof {
                lemma_captures_are_digits(line@);
            }
            let digits = string_of(line, sp.cdn_start, line.len());
            return Err(Error::from(DeserializedError::ParseInt { digits }));
        },
    };
    Ok((ip_inet, RttResult::new(server_rtt, cdn_rtt)))
}

} // verus!
