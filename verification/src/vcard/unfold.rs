//! Splitting raw card bytes into unfolded logical lines.
//!
//! Works on bytes, not characters, because servers fold at 75 octets and may
//! split a multi-byte UTF-8 character across the fold. Accepts CRLF and bare
//! LF line ends and skips blank lines.

use vstd::prelude::*;

verus! {

/// One unfolded line: the byte range it covers in the card (every physical
/// line, folds included, and the trailing line break), the 1-based number of
/// the physical line where it starts, and its content with folds removed.
pub struct LineView {
    pub start: int,
    pub end: int,
    pub line: int,
    pub bytes: Seq<u8>,
}

pub struct LogicalLine {
    pub start: usize,
    pub end: usize,
    pub line: usize,
    pub bytes: Vec<u8>,
}

impl LogicalLine {
    pub open spec fn view(&self) -> LineView {
        LineView { start: self.start as int, end: self.end as int, line: self.line as int, bytes: self.bytes@ }
    }
}

pub open spec fn line_views(v: Seq<LogicalLine>) -> Seq<LineView> {
    v.map_values(|l: LogicalLine| l.view())
}

/// Number of bytes of the physical line starting at `start`, its `\n`
/// included.
pub open spec fn line_len(raw: Seq<u8>, start: int) -> nat
    decreases raw.len() - start,
{
    if start < 0 || start >= raw.len() {
        0
    } else if raw[start] == 10 {
        1
    } else {
        1 + line_len(raw, start + 1)
    }
}

/// A physical line is non-empty and ends within the card.
pub proof fn lemma_line_len(raw: Seq<u8>, start: int)
    requires
        0 <= start < raw.len(),
    ensures
        1 <= line_len(raw, start) <= raw.len() - start,
    decreases raw.len() - start,
{
    if raw[start] != 10 && start + 1 < raw.len() {
        lemma_line_len(raw, start + 1);
    } else if raw[start] != 10 {
        assert(line_len(raw, start + 1) == 0);
    }
}

/// The physical line `raw[start..end]` without its line break (`\n` or
/// `\r\n`).
pub open spec fn content(raw: Seq<u8>, start: int, end: int) -> Seq<u8> {
    let physical = raw.subrange(start, end);
    let c1 = if physical.len() > 0 && physical.last() == 10 {
        physical.drop_last()
    } else {
        physical
    };
    if c1.len() > 0 && c1.last() == 13 {
        c1.drop_last()
    } else {
        c1
    }
}

/// `b' '` or `b'\t'`: a physical line starting with one continues the
/// previous logical line.
pub open spec fn is_fold(b: u8) -> bool {
    b == 32 || b == 9
}

/// The logical lines after reading one more physical line `raw[start..end]`
/// with content `c`, numbered `n`.
pub open spec fn step_acc(acc: Seq<LineView>, c: Seq<u8>, start: int, end: int, n: int) -> Seq<
    LineView,
> {
    if c.len() > 0 && is_fold(c[0]) && acc.len() > 0 {
        acc.update(
            acc.len() - 1,
            LineView {
                start: acc.last().start,
                end: end,
                line: acc.last().line,
                bytes: acc.last().bytes + c.drop_first(),
            },
        )
    } else if c.len() == 0 {
        acc
    } else {
        acc.push(LineView { start: start, end: end, line: n, bytes: c })
    }
}

/// Unfolding from `start`, after `line` physical lines, with the logical
/// lines `acc` found so far.
pub open spec fn unfold_from(raw: Seq<u8>, start: int, line: int, acc: Seq<LineView>) -> Seq<
    LineView,
>
    decreases raw.len() - start,
{
    if start < 0 || start >= raw.len() {
        acc
    } else {
        let end = start + line_len(raw, start);
        let c = content(raw, start, end);
        let n = line + 1;
        let next = step_acc(acc, c, start, end, n);
        proof {
            lemma_line_len(raw, start);
        }
        unfold_from(raw, end, n, next)
    }
}

/// Where parsing starts: after a leading UTF-8 byte order mark, if any.
pub open spec fn body_start(raw: Seq<u8>) -> int {
    if raw.len() >= 3 && raw[0] == 0xEF && raw[1] == 0xBB && raw[2] == 0xBF {
        3
    } else {
        0
    }
}

/// The logical lines of a card.
pub open spec fn unfold_spec(raw: Seq<u8>) -> Seq<LineView> {
    unfold_from(raw, body_start(raw), 0, seq![])
}

/// Lines that cover disjoint byte ranges, in order, within `0..bound`.
pub open spec fn ordered_lines(l: Seq<LineView>, bound: int) -> bool {
    &&& forall|k: int| 0 <= k < l.len() ==> 0 <= #[trigger] l[k].start <= l[k].end <= bound
    &&& forall|j: int, k: int| 0 <= j < k < l.len() ==> #[trigger] l[j].end <= #[trigger] l[k].start
}

proof fn lemma_unfold_from_ordered(raw: Seq<u8>, start: int, line: int, acc: Seq<LineView>)
    requires
        0 <= start <= raw.len(),
        ordered_lines(acc, start),
    ensures
        ordered_lines(unfold_from(raw, start, line, acc), raw.len() as int),
    decreases raw.len() - start,
{
    if start < raw.len() {
        lemma_line_len(raw, start);
        let end = start + line_len(raw, start);
        let c = content(raw, start, end);
        let next = step_acc(acc, c, start, end, line + 1);
        assert(ordered_lines(next, end)) by {
            if c.len() > 0 && is_fold(c[0]) && acc.len() > 0 {
                let last = acc.len() - 1;
                assert forall|j: int, k: int| 0 <= j < k < next.len() implies #[trigger] next[j].end
                    <= #[trigger] next[k].start by {
                    assert(next[j] == acc[j]);
                    if k < last {
                        assert(next[k] == acc[k]);
                    }
                }
            } else if c.len() > 0 {
                assert forall|j: int, k: int| 0 <= j < k < next.len() implies #[trigger] next[j].end
                    <= #[trigger] next[k].start by {
                    assert(next[j] == acc[j]);
                    if k < acc.len() {
                        assert(next[k] == acc[k]);
                    }
                }
            }
        }
        lemma_unfold_from_ordered(raw, end, line + 1, next);
    }
}

/// The logical lines of a card cover disjoint byte ranges of it, in order.
pub proof fn lemma_unfold_ordered(raw: Seq<u8>)
    ensures
        ordered_lines(unfold_spec(raw), raw.len() as int),
{
    lemma_unfold_from_ordered(raw, body_start(raw), 0, seq![]);
}

/// The end of the physical line starting at `start < raw.len()`.
fn line_end(raw: &[u8], start: usize) -> (end: usize)
    requires
        start < raw.len(),
    ensures
        end == start + line_len(raw@, start as int),
        start < end <= raw.len(),
{
    let mut j: usize = start;
    while j < raw.len() && raw[j] != 10
        invariant
            start <= j <= raw.len(),
            line_len(raw@, start as int) == (j - start) + line_len(raw@, j as int),
        decreases raw.len() - j,
    {
        j += 1;
    }
    if j < raw.len() {
        j + 1
    } else {
        j
    }
}

/// The bytes `raw[from..to]`.
pub fn byte_range(raw: &[u8], from: usize, to: usize) -> (r: Vec<u8>)
    requires
        from <= to <= raw.len(),
    ensures
        r@ == raw@.subrange(from as int, to as int),
{
    let mut r: Vec<u8> = Vec::new();
    let mut i: usize = from;
    while i < to
        invariant
            from <= i <= to <= raw.len(),
            r@ == raw@.subrange(from as int, i as int),
        decreases to - i,
    {
        r.push(raw[i]);
        assert(raw@.subrange(from as int, i + 1) == raw@.subrange(from as int, i as int).push(
            raw@[i as int],
        ));
        i += 1;
    }
    r
}

pub open spec fn fits(l: LogicalLine, n: nat) -> bool {
    l.line <= n && l.start <= l.end <= n
}

/// `a` followed by `b`.
pub fn append_bytes(a: &mut Vec<u8>, b: &[u8])
    ensures
        final(a)@ == old(a)@ + b@,
{
    let mut i: usize = 0;
    while i < b.len()
        invariant
            i <= b.len(),
            a@ == old(a)@ + b@.take(i as int),
        decreases b.len() - i,
    {
        a.push(b[i]);
        assert(b@.take(i + 1) == b@.take(i as int).push(b@[i as int]));
        i += 1;
    }
    assert(b@.take(b.len() as int) == b@);
}

spec fn cur_view(cur: Option<LogicalLine>) -> Option<LineView> {
    match cur {
        Some(c) => Some(c.view()),
        None => None,
    }
}

spec fn with_current(lines: Seq<LineView>, cur: Option<LineView>) -> Seq<LineView> {
    match cur {
        Some(c) => lines.push(c),
        None => lines,
    }
}

/// Splits `raw` into logical lines.
pub fn unfold(raw: &[u8]) -> (lines: Vec<LogicalLine>)
    ensures
        line_views(lines@) == unfold_spec(raw@),
        forall|k: int| 0 <= k < lines@.len() ==> #[trigger] fits(lines@[k], raw@.len()),
{
    let mut lines: Vec<LogicalLine> = Vec::new();
    let mut cur: Option<LogicalLine> = None;
    let mut start: usize = if raw.len() >= 3 && raw[0] == 0xEF && raw[1] == 0xBB && raw[2] == 0xBF {
        3
    } else {
        0
    };
    let mut line: usize = 0;
    assert(line_views(lines@) =~= Seq::<LineView>::empty());
    while start < raw.len()
        invariant
            start <= raw.len(),
            line <= start,
            unfold_from(
                raw@,
                start as int,
                line as int,
                with_current(line_views(lines@), cur_view(cur)),
            ) == unfold_spec(raw@),
            forall|k: int| 0 <= k < lines@.len() ==> #[trigger] fits(lines@[k], raw@.len()),
            cur is Some ==> fits(cur->0, raw@.len()) && cur->0.end <= start,
            cur is None ==> lines@.len() == 0,
        decreases raw.len() - start,
    {
        let ghost acc = with_current(line_views(lines@), cur_view(cur));
        let ghost line0 = line as int;
        let end = line_end(raw, start);
        let mut cend = end;
        if cend > start && raw[cend - 1] == 10 {
            cend -= 1;
        }
        if cend > start && raw[cend - 1] == 13 {
            cend -= 1;
        }
        let ghost c = content(raw@, start as int, end as int);
        assert(raw@.subrange(start as int, cend as int) == c);
        line += 1;
        if cend > start && (raw[start] == 32 || raw[start] == 9) && cur.is_some() {
            let mut lc = cur.unwrap();
            let ghost lc0 = lc.view();
            assert(acc == line_views(lines@).push(lc0));
            let rest = byte_range(raw, start + 1, cend);
            assert(rest@ == c.drop_first());
            append_bytes(&mut lc.bytes, &rest);
            lc.end = end;
            assert(lc.view() == LineView { start: lc0.start, end: end as int, line: lc0.line, bytes: lc0.bytes + c.drop_first() });
            cur = Some(lc);
            assert(with_current(line_views(lines@), Some(cur.unwrap().view())) =~= acc.update(
                acc.len() - 1,
                LineView {
                    start: acc.last().start,
                    end: end as int,
                    line: acc.last().line,
                    bytes: acc.last().bytes + c.drop_first(),
                },
            ));
        } else if cend == start {
        } else {
            let bytes = byte_range(raw, start, cend);
            let fresh = LogicalLine { start, end, line, bytes };
            match cur {
                Some(prev) => {
                    let ghost before = line_views(lines@);
                    lines.push(prev);
                    assert(line_views(lines@) =~= before.push(prev.view()));
                }
                None => {}
            }
            cur = Some(fresh);
            assert(with_current(line_views(lines@), Some(cur.unwrap().view())) =~= acc.push(
                LineView { start: start as int, end: end as int, line: line as int, bytes: c },
            ));
        }
        assert(with_current(line_views(lines@), cur_view(cur)) == step_acc(acc, c, start as int, end as int, line as int));
        assert(unfold_from(raw@, start as int, line0, acc) == unfold_from(
            raw@,
            end as int,
            line as int,
            with_current(line_views(lines@), cur_view(cur)),
        ));
        start = end;
    }
    match cur {
        Some(last) => {
            let ghost before = line_views(lines@);
            lines.push(last);
            assert(line_views(lines@) =~= before.push(last.view()));
        }
        None => {}
    }
    lines
}

} // verus!
