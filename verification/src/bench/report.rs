//! The report on benchmark runs.
use vstd::prelude::*;

use crate::text::{dec, join2, put_num};
use vstd::string::*;

verus! {

/// One run. The throughput is given twice: as the text that is printed, and as
/// a number by which runs are ordered.
#[derive(Debug, Clone)]
pub struct Row {
    pub records: usize,
    pub ops: usize,
    pub concurrency: usize,
    pub read_ratio: u32,
    pub throughput_text: String,
    pub throughput_rank: u64,
    pub p50_us: u64,
    pub p95_us: u64,
    pub p99_us: u64,
    pub read_ops: usize,
    pub write_ops: usize,
}

/// What a row says.
#[verifier::ext_equal]
pub struct RowFields {
    pub records: usize,
    pub ops: usize,
    pub concurrency: usize,
    pub read_ratio: u32,
    pub throughput_text: Seq<char>,
    pub throughput_rank: u64,
    pub p50_us: u64,
    pub p95_us: u64,
    pub p99_us: u64,
    pub read_ops: usize,
    pub write_ops: usize,
}

impl View for Row {
    type V = RowFields;

    open spec fn view(&self) -> RowFields {
        RowFields {
            records: self.records,
            ops: self.ops,
            concurrency: self.concurrency,
            read_ratio: self.read_ratio,
            throughput_text: self.throughput_text@,
            throughput_rank: self.throughput_rank,
            p50_us: self.p50_us,
            p95_us: self.p95_us,
            p99_us: self.p99_us,
            read_ops: self.read_ops,
            write_ops: self.write_ops,
        }
    }
}

pub open spec fn rows_view(rows: Seq<Row>) -> Seq<RowFields> {
    Seq::new(rows.len(), |i: int| rows[i]@)
}

/// Fewer reads come first, of those fewer workers, of those the faster run.
pub open spec fn before(a: RowFields, b: RowFields) -> bool {
    a.read_ratio < b.read_ratio || (a.read_ratio == b.read_ratio && (a.concurrency < b.concurrency
        || (a.concurrency == b.concurrency && a.throughput_rank > b.throughput_rank)))
}

/// Where a row goes: behind the rows that do not come after it.
pub open spec fn place_for(rows: Seq<RowFields>, r: RowFields) -> int
    decreases rows.len(),
{
    if rows.len() > 0 && before(r, rows.last()) {
        place_for(rows.drop_last(), r)
    } else {
        rows.len() as int
    }
}

/// The first `n` rows in order; rows that are alike keep their order.
pub open spec fn in_order(rows: Seq<RowFields>, n: int) -> Seq<RowFields>
    decreases n,
{
    if n <= 0 {
        seq![]
    } else {
        let s = in_order(rows, n - 1);
        s.insert(place_for(s, rows[n - 1]), rows[n - 1])
    }
}

pub open spec fn is_sorted(rows: Seq<RowFields>) -> bool {
    forall|i: int, j: int| 0 <= i < j < rows.len() ==> !before(#[trigger] rows[j], #[trigger] rows[i])
}

proof fn lemma_place(rows: Seq<RowFields>, r: RowFields)
    requires
        is_sorted(rows),
    ensures
        0 <= place_for(rows, r) <= rows.len(),
        forall|i: int| place_for(rows, r) <= i < rows.len() ==> before(r, #[trigger] rows[i]),
        forall|i: int| 0 <= i < place_for(rows, r) ==> !before(r, #[trigger] rows[i]),
    decreases rows.len(),
{
    if rows.len() > 0 {
        let t = rows.drop_last();
        let n = rows.len() - 1;
        if before(r, rows.last()) {
            lemma_place(t, r);
            assert forall|i: int| place_for(rows, r) <= i < rows.len() implies before(
                r,
                #[trigger] rows[i],
            ) by {
                if i < n {
                    assert(t[i] == rows[i]);
                }
            }
            assert forall|i: int| 0 <= i < place_for(rows, r) implies !before(
                r,
                #[trigger] rows[i],
            ) by {
                assert(t[i] == rows[i]);
            }
        } else {
            assert forall|i: int| 0 <= i < rows.len() implies !before(r, #[trigger] rows[i]) by {
                if i < n {
                    assert(!before(rows[n], rows[i]));
                }
            }
        }
    }
}

/// The rows of the report are those that were given, in order.
pub proof fn law_rows_in_order(rows: Seq<RowFields>, n: int)
    requires
        0 <= n <= rows.len(),
    ensures
        in_order(rows, n).len() == n,
        is_sorted(in_order(rows, n)),
        in_order(rows, n).to_multiset() == rows.take(n).to_multiset(),
    decreases n,
{
    broadcast use vstd::multiset::group_multiset_axioms;

    if n > 0 {
        law_rows_in_order(rows, n - 1);
        let s = in_order(rows, n - 1);
        let r = rows[n - 1];
        lemma_place(s, r);
        let p = place_for(s, r);
        let t = in_order(rows, n);
        assert forall|i: int, j: int| 0 <= i < j < t.len() implies !before(
            #[trigger] t[j],
            #[trigger] t[i],
        ) by {
            let i2 = if i < p { i } else { i - 1 };
            let j2 = if j < p { j } else { j - 1 };
            if i != p {
                assert(t[i] == s[i2]);
            }
            if j != p {
                assert(t[j] == s[j2]);
            }
        }
        assert(rows.take(n) =~= rows.take(n - 1).push(r));
        t.to_multiset_ensures();
        assert(t.remove(p) =~= s);
        assert(t[p] == r);
        assert(t.contains(r));
        assert(t.to_multiset() =~= s.to_multiset().insert(r));
        rows.take(n - 1).to_multiset_ensures();
    } else {
        assert(rows.take(0) =~= seq![]);
        assert(in_order(rows, 0) =~= rows.take(0));
    }
}

/// Where the rows of one read ratio end.
pub open spec fn ratio_end(rows: Seq<RowFields>, a: int, b: int) -> int
    decreases rows.len() - b,
{
    if b < rows.len() && rows[b].read_ratio == rows[a].read_ratio {
        ratio_end(rows, a, b + 1)
    } else {
        b
    }
}

/// The last of the fastest rows among `a..b`.
pub open spec fn fastest(rows: Seq<RowFields>, a: int, b: int) -> int
    decreases b - a,
{
    if b - a <= 1 {
        a
    } else {
        let p = fastest(rows, a, b - 1);
        if rows[b - 1].throughput_rank >= rows[p].throughput_rank {
            b - 1
        } else {
            p
        }
    }
}

pub open spec fn matrix_line(r: RowFields) -> Seq<char> {
    "| "@ + dec(r.read_ratio as int) + " | "@ + dec(r.concurrency as int) + " | "@
        + r.throughput_text + " | "@ + dec(r.p50_us as int) + " | "@ + dec(r.p95_us as int)
        + " | "@ + dec(r.p99_us as int) + " | "@ + dec(r.read_ops as int) + " | "@ + dec(
        r.write_ops as int,
    ) + " |\n"@
}

pub open spec fn matrix_lines(rows: Seq<RowFields>, n: int) -> Seq<char>
    decreases n,
{
    if n <= 0 {
        seq![]
    } else {
        matrix_lines(rows, n - 1) + matrix_line(rows[n - 1])
    }
}

pub open spec fn best_line(r: RowFields) -> Seq<char> {
    "| "@ + dec(r.read_ratio as int) + " | "@ + dec(r.concurrency as int) + " | "@
        + r.throughput_text + " | "@ + dec(r.p95_us as int) + " | "@ + dec(r.p99_us as int)
        + " |\n"@
}

/// The best run of each read ratio from row `a` on.
pub open spec fn best_lines(rows: Seq<RowFields>, a: int) -> Seq<char>
    decreases rows.len() - a,
{
    if a < 0 || a >= rows.len() {
        seq![]
    } else {
        let b = ratio_end(rows, a, a + 1);
        if a < b <= rows.len() {
            best_line(rows[fastest(rows, a, b)]) + best_lines(rows, b)
        } else {
            seq![]
        }
    }
}

pub open spec fn report_head(rows: Seq<RowFields>, input: Seq<char>) -> Seq<char> {
    "# Performance Baseline Report\n\n- source: `"@ + input + "`\n- rows: `"@ + dec(
        rows.len() as int,
    ) + "`\n- workload: `records="@ + dec(rows[0].records as int) + "`, `ops="@ + dec(
        rows[0].ops as int,
    )
        + "`\n\n## Matrix\n\n| read_ratio | concurrency | throughput_ops_per_sec | p50_us | p95_us | p99_us | read_ops | write_ops |\n|---:|---:|---:|---:|---:|---:|---:|---:|\n"@
}

/// The report on runs that are in order.
pub open spec fn report_text(rows: Seq<RowFields>, input: Seq<char>) -> Seq<char> {
    report_head(rows, input) + matrix_lines(rows, rows.len() as int)
        + "\n## Best Throughput per Read Ratio\n\n| read_ratio | best_concurrency | throughput_ops_per_sec | p95_us | p99_us |\n|---:|---:|---:|---:|---:|\n"@
        + best_lines(rows, 0) + "\n"@
}

fn comes_before(a: &Row, b: &Row) -> (r: bool)
    ensures
        r == before(a@, b@),
{
    a.read_ratio < b.read_ratio || (a.read_ratio == b.read_ratio && (a.concurrency < b.concurrency
        || (a.concurrency == b.concurrency && a.throughput_rank > b.throughput_rank)))
}

fn copy_row(r: &Row) -> (c: Row)
    ensures
        c@ == r@,
{
    Row {
        records: r.records,
        ops: r.ops,
        concurrency: r.concurrency,
        read_ratio: r.read_ratio,
        throughput_text: String::from_str(r.throughput_text.as_str()),
        throughput_rank: r.throughput_rank,
        p50_us: r.p50_us,
        p95_us: r.p95_us,
        p99_us: r.p99_us,
        read_ops: r.read_ops,
        write_ops: r.write_ops,
    }
}

fn sort_rows(rows: &Vec<Row>) -> (r: Vec<Row>)
    ensures
        rows_view(r@) == in_order(rows_view(rows@), rows@.len() as int),
{
    let ghost all = rows_view(rows@);
    let n: usize = rows.len();
    let mut out: Vec<Row> = Vec::new();
    let mut i: usize = 0;
    assert(rows_view(out@) =~= seq![]);
    while i < n
        invariant
            n == rows@.len(),
            all == rows_view(rows@),
            i <= n,
            rows_view(out@) == in_order(all, i as int),
        decreases n - i,
    {
        let ghost s = rows_view(out@);
        let row = copy_row(&rows[i]);
        let ghost fields = row@;
        assert(all[i as int] == fields);
        let mut p: usize = out.len();
        assert(s.take(p as int) =~= s);
        while p > 0 && comes_before(&row, &out[p - 1])
            invariant
                p <= out@.len(),
                s == rows_view(out@),
                fields == row@,
                place_for(s, fields) == place_for(s.take(p as int), fields),
            decreases p,
        {
            assert(s.take(p as int).last() == out@[p - 1]@);
            assert(s.take(p as int).drop_last() =~= s.take(p - 1));
            p -= 1;
        }
        assert(p > 0 ==> s.take(p as int).last() == out@[p - 1]@);
        assert(place_for(s, fields) == p);
        out.insert(p, row);
        assert(rows_view(out@) =~= s.insert(p as int, fields));
        i += 1;
    }
    out
}

fn push_matrix_line(out: &mut String, r: &Row)
    ensures
        final(out)@ == old(out)@ + matrix_line(r@),
{
    put_num(out, "| ", r.read_ratio as u64);
    put_num(out, " | ", r.concurrency as u64);
    out.append(" | ");
    out.append(r.throughput_text.as_str());
    put_num(out, " | ", r.p50_us);
    put_num(out, " | ", r.p95_us);
    put_num(out, " | ", r.p99_us);
    put_num(out, " | ", r.read_ops as u64);
    put_num(out, " | ", r.write_ops as u64);
    out.append(" |\n");
    assert(out@ =~= old(out)@ + matrix_line(r@));
}

fn push_best_line(out: &mut String, r: &Row)
    ensures
        final(out)@ == old(out)@ + best_line(r@),
{
    put_num(out, "| ", r.read_ratio as u64);
    put_num(out, " | ", r.concurrency as u64);
    out.append(" | ");
    out.append(r.throughput_text.as_str());
    put_num(out, " | ", r.p95_us);
    put_num(out, " | ", r.p99_us);
    out.append(" |\n");
    assert(out@ =~= old(out)@ + best_line(r@));
}

fn push_best_lines(out: &mut String, rows: &Vec<Row>)
    ensures
        final(out)@ == old(out)@ + best_lines(rows_view(rows@), 0),
{
    let ghost rs = rows_view(rows@);
    let ghost start = out@;
    let n: usize = rows.len();
    let mut a: usize = 0;
    while a < n
        invariant
            n == rows@.len(),
            rs == rows_view(rows@),
            a <= n,
            start + best_lines(rs, 0) == out@ + best_lines(rs, a as int),
        decreases n - a,
    {
        let mut best: usize = a;
        let mut b: usize = a + 1;
        while b < n && rows[b].read_ratio == rows[a].read_ratio
            invariant
                n == rows@.len(),
                rs == rows_view(rows@),
                a < b <= n,
                a <= best < b,
                best == fastest(rs, a as int, b as int),
                ratio_end(rs, a as int, a + 1) == ratio_end(rs, a as int, b as int),
            decreases n - b,
        {
            assert(rs[b as int] == rows@[b as int]@);
            assert(rs[best as int] == rows@[best as int]@);
            if rows[b].throughput_rank >= rows[best].throughput_rank {
                best = b;
            }
            b += 1;
        }
        assert(b < n ==> rs[b as int] == rows@[b as int]@);
        assert(ratio_end(rs, a as int, a + 1) == b);
        assert(rs[best as int] == rows@[best as int]@);
        let ghost before_line = out@;
        push_best_line(out, &rows[best]);
        assert(before_line + (best_line(rs[best as int]) + best_lines(rs, b as int)) =~= out@
            + best_lines(rs, b as int));
        a = b;
    }
    assert(out@ + Seq::<char>::empty() =~= out@);
}

/// Writes the report, or says that there is nothing to report on.
pub fn render_report(rows: &Vec<Row>, input: &str) -> (r: std::result::Result<String, String>)
    ensures
        if rows@.len() == 0 {
            r matches Err(m) && m@ == "no benchmark rows found in "@ + input@
        } else {
            r matches Ok(t) && t@ == report_text(
                in_order(rows_view(rows@), rows@.len() as int),
                input@,
            )
        },
{
    if rows.len() == 0 {
        return Err(join2("no benchmark rows found in ", input));
    }
    let sorted = sort_rows(rows);
    let ghost rs = rows_view(sorted@);
    proof {
        law_rows_in_order(rows_view(rows@), rows@.len() as int);
    }
    let n: usize = sorted.len();
    assert(rs.len() == rows@.len());
    assert(rs[0] == sorted@[0]@);
    let mut out = join2("# Performance Baseline Report\n\n- source: `", input);
    put_num(&mut out, "`\n- rows: `", n as u64);
    put_num(&mut out, "`\n- workload: `records=", sorted[0].records as u64);
    put_num(&mut out, "`, `ops=", sorted[0].ops as u64);
    out.append(
        "`\n\n## Matrix\n\n| read_ratio | concurrency | throughput_ops_per_sec | p50_us | p95_us | p99_us | read_ops | write_ops |\n|---:|---:|---:|---:|---:|---:|---:|---:|\n",
    );
    assert(out@ =~= report_head(rs, input@));
    assert(out@ =~= report_head(rs, input@) + matrix_lines(rs, 0));
    let mut i: usize = 0;
    while i < n
        invariant
            n == sorted@.len(),
            rs == rows_view(sorted@),
            i <= n,
            out@ == report_head(rs, input@) + matrix_lines(rs, i as int),
        decreases n - i,
    {
        assert(rs[i as int] == sorted@[i as int]@);
        push_matrix_line(&mut out, &sorted[i]);
        assert(out@ =~= report_head(rs, input@) + matrix_lines(rs, i + 1));
        i += 1;
    }
    out.append(
        "\n## Best Throughput per Read Ratio\n\n| read_ratio | best_concurrency | throughput_ops_per_sec | p95_us | p99_us |\n|---:|---:|---:|---:|---:|\n",
    );
    push_best_lines(&mut out, &sorted);
    out.append("\n");
    Ok(out)
}

/// The characters with the Unicode property `White_Space`.
pub open spec fn is_white(c: char) -> bool {
    let u = c as u32;
    ||| 0x9 <= u <= 0xd
    ||| u == 0x20
    ||| u == 0x85
    ||| u == 0xa0
    ||| u == 0x1680
    ||| 0x2000 <= u <= 0x200a
    ||| u == 0x2028
    ||| u == 0x2029
    ||| u == 0x202f
    ||| u == 0x205f
    ||| u == 0x3000
}

/// The text without white space in front.
pub open spec fn trim_front(s: Seq<char>) -> Seq<char>
    decreases s.len(),
{
    if s.len() > 0 && is_white(s[0]) {
        trim_front(s.skip(1))
    } else {
        s
    }
}

/// The text without white space at its end.
pub open spec fn trim_back(s: Seq<char>) -> Seq<char>
    decreases s.len(),
{
    if s.len() > 0 && is_white(s.last()) {
        trim_back(s.drop_last())
    } else {
        s
    }
}

/// The text without white space at its ends.
pub open spec fn trim_text(s: Seq<char>) -> Seq<char> {
    trim_back(trim_front(s))
}

/// `str::trim`: the text without the characters of the property `White_Space` at its
/// ends.
#[verifier::external_body]
fn trimmed(s: &str) -> (r: &str)
    ensures
        r@ == trim_text(s@),
{
    s.trim()
}

/// A line without white space at its ends is a run unless it is empty or a
/// comment.
pub fn is_run(line: &str) -> (r: bool)
    ensures
        r == (line@.len() > 0 && line@[0] != '#'),
{
    line.unicode_len() > 0 && line.get_char(0) != '#'
}

/// The run that a line of the input holds, if any.
pub fn run_in_line(line: &str) -> (r: Option<&str>)
    ensures
        ({
            let t = trim_text(line@);
            if t.len() > 0 && t[0] != '#' {
                r matches Some(s) && s@ == t
            } else {
                r is None
            }
        }),
{
    let t = trimmed(line);
    if is_run(t) {
        Some(t)
    } else {
        None
    }
}

/// The report has the runs by read ratio, those of one ratio by concurrency, and those of
/// one concurrency with the faster one first.
pub proof fn law_report_order(rows: Seq<RowFields>, i: int, j: int)
    requires
        0 <= i < j < rows.len(),
    ensures
        ({
            let s = in_order(rows, rows.len() as int);
            &&& s.len() == rows.len()
            &&& s[i].read_ratio <= s[j].read_ratio
            &&& s[i].read_ratio == s[j].read_ratio ==> s[i].concurrency <= s[j].concurrency
            &&& s[i].read_ratio == s[j].read_ratio && s[i].concurrency == s[j].concurrency
                ==> s[i].throughput_rank >= s[j].throughput_rank
        }),
{
    law_rows_in_order(rows, rows.len() as int);
    let s = in_order(rows, rows.len() as int);
    assert(!before(s[j], s[i]));
}

/// The run that is named the best of several is one of them, and none of them is faster.
pub proof fn law_best_run(rows: Seq<RowFields>, a: int, b: int)
    requires
        0 <= a < b <= rows.len(),
    ensures
        a <= fastest(rows, a, b) < b,
        forall|i: int|
            a <= i < b ==> (#[trigger] rows[i]).throughput_rank <= rows[fastest(
                rows,
                a,
                b,
            )].throughput_rank,
        forall|i: int|
            fastest(rows, a, b) < i < b ==> (#[trigger] rows[i]).throughput_rank < rows[fastest(
                rows,
                a,
                b,
            )].throughput_rank,
    decreases b - a,
{
    if b - a > 1 {
        law_best_run(rows, a, b - 1);
    }
}

/// The runs of one read ratio end where the next one begins.
pub proof fn law_ratio_end(rows: Seq<RowFields>, a: int, b: int)
    requires
        0 <= a < b <= rows.len(),
    ensures
        b <= ratio_end(rows, a, b) <= rows.len(),
        forall|i: int|
            b <= i < ratio_end(rows, a, b) ==> (#[trigger] rows[i]).read_ratio
                == rows[a].read_ratio,
        ratio_end(rows, a, b) < rows.len() ==> rows[ratio_end(rows, a, b)].read_ratio
            != rows[a].read_ratio,
    decreases rows.len() - b,
{
    if b < rows.len() && rows[b].read_ratio == rows[a].read_ratio {
        law_ratio_end(rows, a, b + 1);
    }
}

/// Trimming takes white space from both ends of a text and nothing else: what is left
/// stands in the text, and neither begins nor ends with a space.
pub proof fn law_trimmed_text(s: Seq<char>) -> (p: (int, int))
    ensures
        0 <= p.0 <= p.1 <= s.len(),
        trim_text(s) == s.subrange(p.0, p.1),
        forall|i: int| 0 <= i < p.0 ==> is_white(#[trigger] s[i]),
        forall|i: int| p.1 <= i < s.len() ==> is_white(#[trigger] s[i]),
        p.0 < p.1 ==> s[p.0] != ' ' && s[p.1 - 1] != ' ' && s[p.0] != '\t' && s[p.1 - 1] != '\n',
{
    let a = lemma_trim_front(s);
    let t = trim_front(s);
    let b = lemma_trim_back(t);
    assert(t.take(b) =~= s.subrange(a, a + b));
    assert forall|i: int| a + b <= i < s.len() implies is_white(#[trigger] s[i]) by {
        assert(t[i - a] == s[i]);
    }
    if b > 0 {
        assert(t[0] == s[a] && t[b - 1] == s[a + b - 1]);
        assert(is_white(' ') && is_white('\t') && is_white('\n'));
    }
    (a, a + b)
}

proof fn lemma_trim_front(s: Seq<char>) -> (a: int)
    ensures
        0 <= a <= s.len(),
        trim_front(s) == s.skip(a),
        forall|i: int| 0 <= i < a ==> is_white(#[trigger] s[i]),
        a < s.len() ==> !is_white(s[a]),
    decreases s.len(),
{
    if s.len() > 0 && is_white(s[0]) {
        let a = lemma_trim_front(s.skip(1));
        assert(s.skip(1).skip(a) =~= s.skip(a + 1));
        assert forall|i: int| 0 <= i < a + 1 implies is_white(#[trigger] s[i]) by {
            if i > 0 {
                assert(s.skip(1)[i - 1] == s[i]);
            }
        }
        if a + 1 < s.len() {
            assert(s.skip(1)[a] == s[a + 1]);
        }
        a + 1
    } else {
        assert(s.skip(0) =~= s);
        0
    }
}

proof fn lemma_trim_back(s: Seq<char>) -> (b: int)
    ensures
        0 <= b <= s.len(),
        trim_back(s) == s.take(b),
        forall|i: int| b <= i < s.len() ==> is_white(#[trigger] s[i]),
        b > 0 ==> !is_white(s[b - 1]),
    decreases s.len(),
{
    if s.len() > 0 && is_white(s.last()) {
        let b = lemma_trim_back(s.drop_last());
        assert(s.drop_last().take(b) =~= s.take(b));
        assert forall|i: int| b <= i < s.len() implies is_white(#[trigger] s[i]) by {
            if i < s.len() - 1 {
                assert(s.drop_last()[i] == s[i]);
            }
        }
        b
    } else {
        assert(s.take(s.len() as int) =~= s);
        s.len() as int
    }
}

} // verus!
