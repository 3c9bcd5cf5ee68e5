//! The layout of the result file: one line per address,
//!
//! ```text
//! ip: <address>/<prefix>, server_rtt: <milliseconds>, cdn_rtt: <milliseconds>
//! ```
//!
//! with the address part 2 to 45 characters long and the three numbers in
//! decimal digits. Lines end in a line feed; carriage returns and empty
//! lines are passed over when a file is read.

use crate::cache::RttResult;
use crate::decimal::{
    all_digits,
    decimal_chars,
    decimal_text,
    is_digit,
    is_digit_char,
    lemma_decimal_round_trip,
};
use crate::text::{contains_char, matches_at, push_chars};
use vstd::prelude::*;

verus! {

/// What a line starts with.
pub open spec fn ip_label() -> Seq<char> {
    seq!['i', 'p', ':', ' ']
}

/// What stands between the address and the first number.
pub open spec fn server_label() -> Seq<char> {
    seq![',', ' ', 's', 'e', 'r', 'v', 'e', 'r', '_', 'r', 't', 't', ':', ' ']
}

/// What stands between the two numbers.
pub open spec fn cdn_label() -> Seq<char> {
    seq![',', ' ', 'c', 'd', 'n', '_', 'r', 't', 't', ':', ' ']
}

/// The characters of [`ip_label`].
fn ip_label_chars() -> (v: Vec<char>)
    ensures
        v@ == ip_label(),
{
    let v = vec!['i', 'p', ':', ' '];
    assert(v@ =~= ip_label());
    v
}

/// The characters of [`server_label`].
fn server_label_chars() -> (v: Vec<char>)
    ensures
        v@ == server_label(),
{
    let v = vec![',', ' ', 's', 'e', 'r', 'v', 'e', 'r', '_', 'r', 't', 't', ':', ' '];
    assert(v@ =~= server_label());
    v
}

/// The characters of [`cdn_label`].
fn cdn_label_chars() -> (v: Vec<char>)
    ensures
        v@ == cdn_label(),
{
    let v = vec![',', ' ', 'c', 'd', 'n', '_', 'r', 't', 't', ':', ' '];
    assert(v@ =~= cdn_label());
    v
}

/// Length of the longest run of digits that `s` ends with.
pub open spec fn digits_at_end(s: Seq<char>) -> nat
    decreases s.len(),
{
    if s.len() == 0 || !is_digit(s.last()) {
        0
    } else {
        1 + digits_at_end(s.drop_last())
    }
}

/// The three parts that a line of the layout holds: the address with its
/// prefix, and the digits of the two numbers. `None` for a line that is not
/// of the layout.
pub open spec fn captures_of(line: Seq<char>) -> Option<(Seq<char>, Seq<char>, Seq<char>)> {
    let n = line.len() as int;
    let a_end = n - digits_at_end(line);
    let b_end = a_end - cdn_label().len();
    let c_end = b_end - digits_at_end(line.take(b_end));
    let d_end = c_end - server_label().len();
    let start = ip_label().len() as int;
    if a_end < n && c_end < b_end && start <= d_end && line.subrange(b_end, a_end) == cdn_label()
        && line.subrange(d_end, c_end) == server_label() && line.subrange(0, start) == ip_label()
        && is_address_part(line.subrange(start, d_end)) {
        Some((line.subrange(start, d_end), line.subrange(c_end, b_end), line.subrange(a_end, n)))
    } else {
        None
    }
}

/// `t` is 2 to 45 characters other than a line feed, then a slash, then one
/// digit or more.
pub open spec fn is_address_part(t: Seq<char>) -> bool {
    let prefix = digits_at_end(t);
    let host = t.len() - prefix - 1;
    prefix >= 1 && 2 <= host <= 45 && t[host] == '/' && !t.take(host).contains('\n')
}

/// The line of an address text and a record.
pub open spec fn line_text(addr: Seq<char>, record: RttResult) -> Seq<char> {
    ip_label() + addr + server_label() + decimal_text(record.server_rtt as nat) + cdn_label()
        + decimal_text(record.cdn_rtt as nat)
}

/// `s` holds neither a line feed nor a carriage return.
pub open spec fn is_one_line(s: Seq<char>) -> bool {
    forall|i: int| 0 <= i < s.len() ==> #[trigger] s[i] != '\n' && s[i] != '\r'
}

/// The lines of a text, read from its front with `cur` already read of the
/// current line: a line ends at a line feed or at the end of the text,
/// carriage returns are dropped, and so are lines left empty.
pub open spec fn scan_lines(t: Seq<char>, cur: Seq<char>) -> Seq<Seq<char>>
    decreases t.len(),
{
    if t.len() == 0 {
        if cur.len() == 0 {
            Seq::<Seq<char>>::empty()
        } else {
            seq![cur]
        }
    } else if t[0] == '\n' {
        if cur.len() == 0 {
            scan_lines(t.skip(1), Seq::<char>::empty())
        } else {
            seq![cur] + scan_lines(t.skip(1), Seq::<char>::empty())
        }
    } else if t[0] == '\r' {
        scan_lines(t.skip(1), cur)
    } else {
        scan_lines(t.skip(1), cur.push(t[0]))
    }
}

/// The lines of a text.
pub open spec fn lines_of(t: Seq<char>) -> Seq<Seq<char>> {
    scan_lines(t, Seq::<char>::empty())
}

/// The text of some lines, each ended by a line feed.
pub open spec fn joined(lines: Seq<Seq<char>>) -> Seq<char>
    decreases lines.len(),
{
    if lines.len() == 0 {
        Seq::<char>::empty()
    } else {
        joined(lines.drop_last()) + lines.last() + seq!['\n']
    }
}

/// Digits at the end of a text are counted up to the first other character.
pub proof fn lemma_digits_at_end(pre: Seq<char>, digits: Seq<char>)
    requires
        all_digits(digits),
        pre.len() == 0 || !is_digit(pre.last()),
    ensures
        digits_at_end(pre + digits) == digits.len(),
    decreases digits.len(),
{
    let s = pre + digits;
    if digits.len() == 0 {
        assert(s =~= pre);
    } else {
        assert(s.last() == digits.last());
        assert(s.drop_last() =~= pre + digits.drop_last());
        lemma_digits_at_end(pre, digits.drop_last());
    }
}

/// The two numbers of a line of the layout are written in digits.
pub proof fn lemma_captures_are_digits(line: Seq<char>)
    ensures
        captures_of(line) matches Some(c) ==> all_digits(c.1) && all_digits(c.2) && c.1.len() >= 1
            && c.2.len() >= 1,
{
    if captures_of(line) is Some {
        let n = line.len() as int;
        let a_end = n - digits_at_end(line);
        let b_end = a_end - cdn_label().len();
        let head = line.take(b_end);
        let c_end = b_end - digits_at_end(head);
        lemma_digit_run(line);
        lemma_digit_run(head);
        assert(line.subrange(a_end, n) =~= line.skip(a_end));
        assert(line.subrange(c_end, b_end) =~= head.skip(c_end));
    }
}

/// The run of digits at the end of a text is made of digits.
pub proof fn lemma_digit_run(s: Seq<char>)
    ensures
        digits_at_end(s) <= s.len(),
        all_digits(s.skip(s.len() - digits_at_end(s))),
    decreases s.len(),
{
    if s.len() == 0 || !is_digit(s.last()) {
    } else {
        let head = s.drop_last();
        lemma_digit_run(head);
        let run = s.skip(s.len() - digits_at_end(s));
        let inner = head.skip(head.len() - digits_at_end(head));
        assert forall|i: int| 0 <= i < run.len() implies is_digit(#[trigger] run[i]) by {
            if i < inner.len() {
                assert(run[i] == inner[i]);
            } else {
                assert(run[i] == s.last());
            }
        }
    }
}

/// A line written from an address part and a record is of the layout, and
/// holds that address part and the digits of the record.
pub proof fn lemma_line_captures(addr: Seq<char>, record: RttResult)
    requires
        is_address_part(addr),
    ensures
        captures_of(line_text(addr, record)) == Some(
            (addr, decimal_text(record.server_rtt as nat), decimal_text(record.cdn_rtt as nat)),
        ),
{
    let s = decimal_text(record.server_rtt as nat);
    let c = decimal_text(record.cdn_rtt as nat);
    lemma_decimal_round_trip(record.server_rtt as nat);
    lemma_decimal_round_trip(record.cdn_rtt as nat);
    let with_addr = ip_label() + addr;
    let with_server_label = with_addr + server_label();
    let with_server = with_server_label + s;
    let with_cdn_label = with_server + cdn_label();
    let line = with_cdn_label + c;
    assert(line == line_text(addr, record));
    assert(with_cdn_label.last() == ' ');
    lemma_digits_at_end(with_cdn_label, c);
    let n = line.len() as int;
    let a_end = with_cdn_label.len() as int;
    let b_end = with_server.len() as int;
    let c_end = with_server_label.len() as int;
    let d_end = with_addr.len() as int;
    assert(line.take(b_end) =~= with_server);
    assert(with_server_label.last() == ' ');
    lemma_digits_at_end(with_server_label, s);
    assert(line.subrange(b_end, a_end) =~= cdn_label());
    assert(line.subrange(d_end, c_end) =~= server_label());
    assert(line.subrange(0, ip_label().len() as int) =~= ip_label());
    assert(line.subrange(ip_label().len() as int, d_end) =~= addr);
    assert(line.subrange(c_end, b_end) =~= s);
    assert(line.subrange(a_end, n) =~= c);
}

/// A line written from a one-line address part is one line, and not empty.
pub proof fn lemma_line_is_one_line(addr: Seq<char>, record: RttResult)
    requires
        is_one_line(addr),
    ensures
        is_one_line(line_text(addr, record)),
        line_text(addr, record).len() > 0,
{
    let s = decimal_text(record.server_rtt as nat);
    let c = decimal_text(record.cdn_rtt as nat);
    lemma_decimal_round_trip(record.server_rtt as nat);
    lemma_decimal_round_trip(record.cdn_rtt as nat);
    let line = line_text(addr, record);
    let n0 = ip_label().len() as int;
    let n1 = n0 + addr.len();
    let n2 = n1 + server_label().len();
    let n3 = n2 + s.len();
    let n4 = n3 + cdn_label().len();
    assert forall|i: int| 0 <= i < line.len() implies #[trigger] line[i] != '\n' && line[i]
        != '\r' by {
        if i < n0 {
            assert(line[i] == ip_label()[i]);
        } else if i < n1 {
            assert(line[i] == addr[i - n0]);
        } else if i < n2 {
            assert(line[i] == server_label()[i - n1]);
        } else if i < n3 {
            assert(line[i] == s[i - n2]);
            assert(is_digit(s[i - n2]));
        } else if i < n4 {
            assert(line[i] == cdn_label()[i - n3]);
        } else {
            assert(line[i] == c[i - n4]);
            assert(is_digit(c[i - n4]));
        }
    }
}

/// Reading on from inside a line: what is left of the line is added to what
/// was read of it, and the line ends at its line feed.
pub proof fn lemma_scan_one_line(line: Seq<char>, rest: Seq<char>, cur: Seq<char>)
    requires
        is_one_line(line),
        cur.len() + line.len() > 0,
    ensures
        scan_lines(line + seq!['\n'] + rest, cur) == seq![cur + line] + scan_lines(
            rest,
            Seq::<char>::empty(),
        ),
    decreases line.len(),
{
    let t = line + seq!['\n'] + rest;
    if line.len() == 0 {
        assert(t[0] == '\n');
        assert(t.skip(1) =~= rest);
        assert(cur + line =~= cur);
    } else {
        assert(t[0] == line[0]);
        let tail = line.skip(1);
        assert(t.skip(1) =~= tail + seq!['\n'] + rest);
        assert forall|i: int| 0 <= i < tail.len() implies #[trigger] tail[i] != '\n' && tail[i]
            != '\r' by {
            assert(tail[i] == line[i + 1]);
        }
        lemma_scan_one_line(tail, rest, cur.push(line[0]));
        assert(cur.push(line[0]) + tail =~= cur + line);
    }
}

/// The lines of a text joined from non-empty single lines are those lines.
pub proof fn lemma_lines_of_joined(lines: Seq<Seq<char>>)
    requires
        forall|i: int| 0 <= i < lines.len() ==> is_one_line(#[trigger] lines[i]) && lines[i].len() > 0,
    ensures
        lines_of(joined(lines)) == lines,
{
    lemma_scan_joined(lines, Seq::<char>::empty());
    assert(joined(lines) + Seq::<char>::empty() =~= joined(lines));
    assert(lines + Seq::<Seq<char>>::empty() =~= lines);
}

/// The lines of a text joined from non-empty single lines and followed by
/// more text are those lines and then the lines of what follows.
proof fn lemma_scan_joined(lines: Seq<Seq<char>>, rest: Seq<char>)
    requires
        forall|i: int| 0 <= i < lines.len() ==> is_one_line(#[trigger] lines[i]) && lines[i].len() > 0,
    ensures
        lines_of(joined(lines) + rest) == lines + lines_of(rest),
    decreases lines.len(),
{
    let none = Seq::<char>::empty();
    if lines.len() == 0 {
        assert(joined(lines) + rest =~= rest);
        assert(lines + lines_of(rest) =~= lines_of(rest));
    } else {
        let head = lines.drop_last();
        let last = lines.last();
        assert forall|i: int| 0 <= i < head.len() implies is_one_line(#[trigger] head[i])
            && head[i].len() > 0 by {
            assert(head[i] == lines[i]);
        }
        let tail = last + seq!['\n'] + rest;
        lemma_scan_joined(head, tail);
        assert(joined(lines) + rest =~= joined(head) + tail);
        lemma_scan_one_line(last, rest, none);
        assert(none + last =~= last);
        assert(head + (seq![last] + lines_of(rest)) =~= lines + lines_of(rest));
    }
}

/// Where the parts of a line stand in it.
#[derive(Debug, Clone, Copy)]
pub struct Spans {
    /// The address part is `line[addr_start..addr_end]`.
    pub addr_start: usize,
    pub addr_end: usize,
    /// The digits of the first number are `line[server_start..server_end]`.
    pub server_start: usize,
    pub server_end: usize,
    /// The digits of the second number are `line[cdn_start..]`.
    pub cdn_start: usize,
}

/// Length of the run of digits that ends at `end`.
fn digit_run(s: &Vec<char>, end: usize) -> (n: usize)
    requires
        end <= s.len(),
    ensures
        n == digits_at_end(s@.take(end as int)),
        n <= end,
{
    let mut i: usize = end;
    while i > 0 && is_digit_char(s[i - 1])
        invariant
            i <= end <= s.len(),
            digits_at_end(s@.take(end as int)) == (end - i) + digits_at_end(s@.take(i as int)),
        decreases i,
    {
        proof {
            let head = s@.take(i as int);
            assert(head.last() == s[i - 1]);
            assert(head.drop_last() =~= s@.take(i - 1));
        }
        i = i - 1;
    }
    proof {
        let head = s@.take(i as int);
        if i > 0 {
            assert(head.last() == s[i - 1]);
        }
    }
    end - i
}

/// Whether `s[from..to]` is an address part.
pub fn is_address_span(s: &Vec<char>, from: usize, to: usize) -> (r: bool)
    requires
        from <= to <= s.len(),
    ensures
        r == is_address_part(s@.subrange(from as int, to as int)),
{
    let ghost t = s@.subrange(from as int, to as int);
    let mut i: usize = to;
    proof {
        assert(t.take(to - from) =~= t);
    }
    while i > from && is_digit_char(s[i - 1])
        invariant
            from <= i <= to <= s.len(),
            t == s@.subrange(from as int, to as int),
            digits_at_end(t) == (to - i) + digits_at_end(t.take(i - from)),
        decreases i,
    {
        proof {
            let head = t.take(i - from);
            assert(head.last() == s[i - 1]);
            assert(head.drop_last() =~= t.take(i - 1 - from));
        }
        i = i - 1;
    }
    proof {
        let head = t.take(i - from);
        if i > from {
            assert(head.last() == s[i - 1]);
        }
    }
    let prefix = to - i;
    if prefix < 1 || i - from < 3 || i - from > 46 {
        return false;
    }
    if s[i - 1] != '/' {
        assert(t[i - 1 - from] == s[i - 1]);
        return false;
    }
    assert(t[i - 1 - from] == s[i - 1]);
    assert(t.take(i - 1 - from) =~= s@.subrange(from as int, i - 1));
    !contains_char(s, from, i - 1, '\n')
}

/// Finds the parts of a line of the layout.
pub fn find_captures(line: &Vec<char>) -> (r: Option<Spans>)
    ensures
        match r {
            Some(sp) => sp.addr_start <= sp.addr_end <= sp.server_start <= sp.server_end
                <= sp.cdn_start <= line.len() && captures_of(line@) == Some(
                (
                    line@.subrange(sp.addr_start as int, sp.addr_end as int),
                    line@.subrange(sp.server_start as int, sp.server_end as int),
                    line@.subrange(sp.cdn_start as int, line.len() as int),
                ),
            ),
            None => captures_of(line@) is None,
        },
{
    let n = line.len();
    proof {
        assert(line@.take(n as int) =~= line@);
    }
    let a_end = n - digit_run(line, n);
    let cdn_label = cdn_label_chars();
    if a_end == n || a_end < cdn_label.len() {
        return None;
    }
    let b_end = a_end - cdn_label.len();
    let c_end = b_end - digit_run(line, b_end);
    let server_label = server_label_chars();
    let ip_label = ip_label_chars();
    if c_end == b_end || c_end < server_label.len() {
        return None;
    }
    let d_end = c_end - server_label.len();
    if d_end < ip_label.len() {
        return None;
    }
    if !matches_at(line, b_end, &cdn_label) || !matches_at(line, d_end, &server_label)
        || !matches_at(line, 0, &ip_label) {
        return None;
    }
    let addr_start = ip_label.len();
    if !is_address_span(line, addr_start, d_end) {
        return None;
    }
    Some(
        Spans {
            addr_start,
            addr_end: d_end,
            server_start: c_end,
            server_end: b_end,
            cdn_start: a_end,
        },
    )
}

/// Appends the line of an address text and a record, and a line feed.
pub fn push_line(out: &mut String, addr: &Vec<char>, record: RttResult)
    ensures
        final(out)@ == old(out)@ + line_text(addr@, record) + seq!['\n'],
{
    push_chars(out, &ip_label_chars());
    push_chars(out, addr);
    push_chars(out, &server_label_chars());
    push_chars(out, &decimal_chars(record.server_rtt));
    push_chars(out, &cdn_label_chars());
    push_chars(out, &decimal_chars(record.cdn_rtt));
    out.push('\n');
    assert(out@ =~= old(out)@ + line_text(addr@, record) + seq!['\n']);
}

/// Splits a text into its lines.
pub fn split_lines(text: &Vec<char>) -> (out: Vec<Vec<char>>)
    ensures
        out.len() == lines_of(text@).len(),
        forall|i: int| 0 <= i < out.len() ==> (#[trigger] out[i])@ == lines_of(text@)[i],
{
    let ghost t = text@;
    let mut out: Vec<Vec<char>> = Vec::new();
    let mut cur: Vec<char> = Vec::new();
    let ghost mut done: Seq<Seq<char>> = Seq::empty();
    let mut i: usize = 0;
    proof {
        assert(t.skip(0) =~= t);
        assert(done + scan_lines(t, cur@) =~= lines_of(t));
    }
    while i < text.len()
        invariant
            i <= text.len(),
            t == text@,
            out.len() == done.len(),
            forall|p: int| 0 <= p < out.len() ==> (#[trigger] out[p])@ == done[p],
            done + scan_lines(t.skip(i as int), cur@) == lines_of(t),
        decreases text.len() - i,
    {
        let c = text[i];
        let ghost here = t.skip(i as int);
        let ghost next = t.skip(i + 1);
        let ghost none = Seq::<char>::empty();
        let ghost line = cur@;
        proof {
            assert(here.len() > 0);
            assert(here[0] == c);
            assert(here.skip(1) =~= next);
        }
        if c == '\n' {
            if cur.len() > 0 {
                proof {
                    assert(scan_lines(here, line) == seq![line] + scan_lines(next, none));
                    assert(done.push(line) + scan_lines(next, none) =~= done + (seq![line]
                        + scan_lines(next, none)));
                    done = done.push(line);
                }
                out.push(cur);
                cur = Vec::new();
            } else {
                proof {
                    assert(line =~= none);
                    assert(scan_lines(here, line) == scan_lines(next, none));
                }
            }
        } else if c == '\r' {
            proof {
                assert(scan_lines(here, line) == scan_lines(next, line));
            }
        } else {
            proof {
                assert(scan_lines(here, line) == scan_lines(next, line.push(c)));
            }
            cur.push(c);
        }
        i = i + 1;
    }
    proof {
        assert(t.skip(i as int).len() == 0);
    }
    if cur.len() > 0 {
        proof {
            assert(done.push(cur@) =~= done + seq![cur@]);
            done = done.push(cur@);
        }
        out.push(cur);
    } else {
        proof {
            assert(done + Seq::<Seq<char>>::empty() =~= done);
        }
    }
    out
}

} // verus!
