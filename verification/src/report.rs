//! Verified summarising of capacity listings: per-installation counters
//! gathered from a whitespace-separated utilisation dump, and the aligned
//! table built from them.

use crate::text::has_prefix;
use crate::text::has_suffix;
use crate::text::lines_of;
use crate::text::split_lines;
use crate::text::split_whitespace_vec;
use crate::text::split_ws;
use crate::text::starts_with_str;
use crate::text::ends_with_str;
use crate::text::str_eq;
use crate::text::strip_prefix_all;
use crate::text::strip_prefix_all_spec;
use crate::text::strip_suffix_all;
use crate::text::strip_suffix_all_spec;
use crate::text::trim;
use crate::text::trim_spec;
use vstd::prelude::*;

verus! {

/// A decimal digit.
pub open spec fn is_digit_char(c: char) -> bool {
    48 <= c as u32 <= 57
}

/// Every character of `s` is a decimal digit.
pub open spec fn all_digits(s: Seq<char>) -> bool {
    forall|i: int| 0 <= i < s.len() ==> is_digit_char(#[trigger] s[i])
}

/// The value of a string of decimal digits.
pub open spec fn dec_val(s: Seq<char>) -> int
    decreases s.len(),
{
    if s.len() == 0 {
        0
    } else {
        dec_val(s.drop_last()) * 10 + (s.last() as u32 - 48)
    }
}

/// The digits of a decimal literal: one leading plus sign is allowed.
pub open spec fn dec_digits_of(s: Seq<char>) -> Seq<char> {
    if s.len() > 0 && s[0] == '+' {
        s.drop_first()
    } else {
        s
    }
}

/// `s` parses as a `u64`: digits after an optional plus sign, at least one,
/// with a value the type can hold.
pub open spec fn is_dec_u64(s: Seq<char>) -> bool {
    let d = dec_digits_of(s);
    d.len() > 0 && all_digits(d) && dec_val(d) <= u64::MAX
}

/// What `s` parses to as a `u64`, with zero for anything that does not
/// parse.
pub open spec fn parsed_u64(s: Seq<char>) -> u64 {
    if is_dec_u64(s) {
        dec_val(dec_digits_of(s)) as u64
    } else {
        0
    }
}

/// The memory size a listing field names, in MiB: the field with every
/// trailing `Mi` marker removed, read as a `u64`, and zero for anything
/// that does not parse.
pub open spec fn mem_value(s: Seq<char>) -> u64 {
    parsed_u64(strip_suffix_all_spec(s, seq!['M', 'i']))
}

/// A digit string's value never goes negative.
proof fn lemma_dec_val_nonneg(s: Seq<char>)
    requires
        all_digits(s),
    ensures
        dec_val(s) >= 0,
    decreases s.len(),
{
    if s.len() > 0 {
        assert(is_digit_char(s.last()));
        assert(all_digits(s.drop_last()));
        lemma_dec_val_nonneg(s.drop_last());
    }
}

/// Extending a digit string never shrinks its value.
proof fn lemma_dec_val_prefix(s: Seq<char>, k: int)
    requires
        all_digits(s),
        0 <= k <= s.len(),
    ensures
        dec_val(s.take(k)) <= dec_val(s),
    decreases s.len(),
{
    if k == s.len() {
        assert(s.take(k) =~= s);
    } else {
        assert(all_digits(s.drop_last()));
        assert(s.take(k) =~= s.drop_last().take(k));
        lemma_dec_val_prefix(s.drop_last(), k);
        lemma_dec_val_nonneg(s.drop_last());
        assert(is_digit_char(s.last()));
        assert(dec_val(s.drop_last()) * 10 >= dec_val(s.drop_last()));
    }
}

/// Reads a kubectl-style memory size in MiB: the number before the `Mi`
/// marker, with zero for anything that does not parse as a `u64`.
pub fn parse_mem(s: &str) -> (r: u64)
    ensures
        r == mem_value(s@),
{
    proof {
        reveal_strlit("Mi");
        assert("Mi"@ =~= seq!['M', 'i']);
    }
    let t = strip_suffix_all(s, "Mi");
    proof {
        assert(t@ == strip_suffix_all_spec(s@, seq!['M', 'i']));
        assert(mem_value(s@) == parsed_u64(t@));
    }
    let n = t.unicode_len();
    let mut start: usize = 0;
    if n > 0 && t.get_char(0) == '+' {
        start = 1;
    }
    let ghost digits = dec_digits_of(t@);
    proof {
        assert(digits =~= t@.skip(start as int));
    }
    if start >= n {
        proof {
            assert(!is_dec_u64(t@));
        }
        return 0;
    }
    let mut val: u64 = 0;
    let mut i: usize = start;
    proof {
        assert(digits.take(0) =~= Seq::<char>::empty());
    }
    while i < n
        invariant
            start <= i <= n,
            start <= 1,
            n == t@.len(),
            digits == dec_digits_of(t@),
            digits =~= t@.skip(start as int),
            mem_value(s@) == parsed_u64(t@),
            forall|j: int| 0 <= j < i - start ==> is_digit_char(#[trigger] digits[j]),
            val == dec_val(digits.take(i - start)),
        decreases n - i,
    {
        let c = t.get_char(i);
        let u = c as u32;
        if u < 48 || u > 57 {
            proof {
                assert(digits[i - start] == t@[i as int]);
                assert(!is_digit_char(digits[i - start]));
                assert(!all_digits(digits));
                assert(!is_dec_u64(t@));
            }
            return 0;
        }
        let d = (u - 48) as u64;
        let wide: u128 = val as u128 * 10 + d as u128;
        proof {
            assert(digits.take(i - start + 1).drop_last() =~= digits.take(i - start));
            assert(digits.take(i - start + 1).last() == digits[i - start]);
            assert(dec_val(digits.take(i - start + 1)) == val * 10 + d);
        }
        if wide > u64::MAX as u128 {
            proof {
                assert(forall|j: int| 0 <= j < i - start + 1 ==> is_digit_char(#[trigger] digits[j]));
                if all_digits(digits) {
                    lemma_dec_val_prefix(digits, i - start + 1);
                    assert(dec_val(digits) >= dec_val(digits.take(i - start + 1)));
                    assert(dec_val(digits) > u64::MAX);
                }
                assert(!is_dec_u64(t@));
            }
            return 0;
        }
        val = wide as u64;
        i = i + 1;
    }
    proof {
        assert(digits.take(n - start) =~= digits);
        assert(all_digits(digits));
        assert(is_dec_u64(t@));
    }
    val
}

/// The decimal rendering of a non-negative number.
pub open spec fn dec_str(n: int) -> Seq<char>
    decreases n,
{
    if n < 10 {
        seq![dec_digit_char(n)]
    } else {
        dec_str(n / 10).push(dec_digit_char(n % 10))
    }
}

/// The character for one decimal digit.
pub open spec fn dec_digit_char(d: int) -> char {
    ((d + 48) as u8) as char
}

/// Relies on String::push: appends one character at the end.
#[verifier::external_body]
fn push_char(s: &mut String, c: char)
    ensures
        final(s)@ == old(s)@.push(c),
{
    s.push(c);
}

/// The character for the digit `d`.
fn digit_char_of(d: u64) -> (c: char)
    requires
        d < 10,
    ensures
        c == dec_digit_char(d as int),
{
    (d as u8 + 48) as char
}

/// Writes `n` in decimal.
pub fn u64_to_dec(n: u64) -> (r: String)
    ensures
        r@ == dec_str(n as int),
    decreases n,
{
    if n < 10 {
        let mut s = String::new();
        push_char(&mut s, digit_char_of(n));
        proof {
            assert(s@ =~= seq![dec_digit_char(n as int)]);
        }
        s
    } else {
        let mut s = u64_to_dec(n / 10);
        push_char(&mut s, digit_char_of(n % 10));
        s
    }
}

/// Per-installation counters and resource usage totals.
pub struct InstallationCounters {
    /// name of this installation
    pub name: String,
    /// tag for this set of counters, naming which instance the data is from
    pub tag: String,
    /// number of shards in this installation
    pub shard_count: u32,
    /// sum of memory requests from all shards
    pub mem_requests_total: u64,
    /// sum of memory limits from all shards
    pub mem_limits_total: u64,
    /// sum of memory utilisation from all shards
    pub mem_util_total: u64,
}

/// The mathematical content of one row of counters.
pub ghost struct CountersModel {
    pub name: Seq<char>,
    pub tag: Seq<char>,
    pub shard_count: u32,
    pub mem_requests_total: u64,
    pub mem_limits_total: u64,
    pub mem_util_total: u64,
}

impl View for InstallationCounters {
    type V = CountersModel;

    open spec fn view(&self) -> CountersModel {
        CountersModel {
            name: self.name@,
            tag: self.tag@,
            shard_count: self.shard_count,
            mem_requests_total: self.mem_requests_total,
            mem_limits_total: self.mem_limits_total,
            mem_util_total: self.mem_util_total,
        }
    }
}

/// A fresh set of counters: no name yet, tagged as current data, all totals
/// zero.
pub open spec fn fresh_counters() -> CountersModel {
    CountersModel {
        name: Seq::empty(),
        tag: "new"@,
        shard_count: 0,
        mem_requests_total: 0,
        mem_limits_total: 0,
        mem_util_total: 0,
    }
}

impl InstallationCounters {
    /// Fresh counters, to be filled while scanning one section.
    pub fn new() -> (r: InstallationCounters)
        ensures
            r@ == fresh_counters(),
    {
        InstallationCounters {
            name: String::new(),
            tag: String::from_str("new"),
            shard_count: 0,
            mem_requests_total: 0,
            mem_limits_total: 0,
            mem_util_total: 0,
        }
    }

    /// A copy with the same content.
    fn snapshot(&self) -> (r: InstallationCounters)
        ensures
            r@ == self@,
    {
        InstallationCounters {
            name: self.name.clone(),
            tag: self.tag.clone(),
            shard_count: self.shard_count,
            mem_requests_total: self.mem_requests_total,
            mem_limits_total: self.mem_limits_total,
            mem_util_total: self.mem_util_total,
        }
    }
}

/// Addition capped at the largest `u64`: the totals never wrap and never
/// panic, however large the listed sizes are.
pub open spec fn sat_add64_spec(a: u64, b: u64) -> u64 {
    if a + b > u64::MAX {
        u64::MAX
    } else {
        (a + b) as u64
    }
}

fn sat_add64(a: u64, b: u64) -> (r: u64)
    ensures
        r == sat_add64_spec(a, b),
{
    if a > u64::MAX - b {
        u64::MAX
    } else {
        a + b
    }
}

/// A count bumped by one, capped at the largest `u32`.
pub open spec fn sat_inc32_spec(a: u32) -> u32 {
    if a == u32::MAX {
        a
    } else {
        (a + 1) as u32
    }
}

fn sat_inc32(a: u32) -> (r: u32)
    ensures
        r == sat_inc32_spec(a),
{
    if a == u32::MAX {
        a
    } else {
        a + 1
    }
}

/// The marker that opens a section: a hash and a space before the
/// installation's name.
pub open spec fn header_marker() -> Seq<char> {
    "# "@
}

/// The namespace column value that flags a row of older, unsharded data.
pub open spec fn monitoring_ns() -> Seq<char> {
    "monitoring"@
}

/// The namespace suffix of a shard whose figures are summed into the
/// section's totals.
pub open spec fn prom_suffix() -> Seq<char> {
    "-prometheus"@
}

/// `cur` with its name replaced.
pub open spec fn named_counters(cur: CountersModel, name: Seq<char>) -> CountersModel {
    CountersModel {
        name: name,
        tag: cur.tag,
        shard_count: cur.shard_count,
        mem_requests_total: cur.mem_requests_total,
        mem_limits_total: cur.mem_limits_total,
        mem_util_total: cur.mem_util_total,
    }
}

/// The row an older-data line yields at once: the section's name so far,
/// tagged as old, one shard, with the line's three memory figures.
pub open spec fn monitoring_row(name: Seq<char>, toks: Seq<Seq<char>>) -> CountersModel {
    CountersModel {
        name: name,
        tag: "old"@,
        shard_count: 1,
        mem_requests_total: mem_value(toks[9]),
        mem_limits_total: mem_value(toks[11]),
        mem_util_total: mem_value(toks[13]),
    }
}

/// `cur` with one more shard and the line's three memory figures added to
/// the totals.
pub open spec fn accumulated(cur: CountersModel, toks: Seq<Seq<char>>) -> CountersModel {
    CountersModel {
        name: cur.name,
        tag: cur.tag,
        shard_count: sat_inc32_spec(cur.shard_count),
        mem_requests_total: sat_add64_spec(cur.mem_requests_total, mem_value(toks[9])),
        mem_limits_total: sat_add64_spec(cur.mem_limits_total, mem_value(toks[11])),
        mem_util_total: sat_add64_spec(cur.mem_util_total, mem_value(toks[13])),
    }
}

/// The rows still to come when the scan stands just before line `pos` with
/// counters `cur`, about to look for a section header. The scan ends at the
/// end of input; a header flushes counters that already carry a name, and
/// otherwise names the counters and turns to the section's data lines.
pub open spec fn rows_outer(lines: Seq<Seq<char>>, pos: int, cur: CountersModel) -> Seq<
    CountersModel,
>
    decreases lines.len() - pos, 1int, (if cur.name.len() > 0 { 1int } else { 0int }),
{
    if pos < 0 || pos >= lines.len() {
        Seq::empty()
    } else if has_prefix(lines[pos], header_marker()) {
        if cur.name.len() > 0 {
            seq![cur] + rows_outer(lines, pos, fresh_counters())
        } else {
            rows_inner(
                lines,
                pos + 1,
                named_counters(cur, strip_prefix_all_spec(lines[pos], header_marker())),
            )
        }
    } else {
        rows_inner(lines, pos, cur)
    }
}

/// The rows still to come while the scan walks a section's data lines from
/// line `pos` with counters `cur`. Blank lines and lines of fewer than
/// fifteen columns are passed over (a header so preceded is passed over
/// with them); an older-data line yields its row at once; a shard line adds
/// to the totals; a header seen one line ahead ends the section, whose
/// totals are yielded; the end of input yields them too.
pub open spec fn rows_inner(lines: Seq<Seq<char>>, pos: int, cur: CountersModel) -> Seq<
    CountersModel,
>
    decreases lines.len() - pos, 0int, 0int,
{
    if pos < 0 || pos >= lines.len() {
        seq![cur]
    } else {
        let l = lines[pos];
        if trim_spec(l).len() == 0 {
            rows_inner(lines, pos + 1, cur)
        } else {
            let toks = split_ws(l);
            if toks.len() < 15 {
                rows_inner(lines, pos + 1, cur)
            } else if toks[1] == monitoring_ns() {
                seq![monitoring_row(cur.name, toks)] + rows_outer(lines, pos + 1, cur)
            } else {
                let cur2 = if has_suffix(toks[1], prom_suffix()) {
                    accumulated(cur, toks)
                } else {
                    cur
                };
                if pos + 1 < lines.len() && has_prefix(lines[pos + 1], header_marker()) {
                    seq![cur2] + rows_outer(lines, pos + 1, fresh_counters())
                } else {
                    rows_inner(lines, pos + 1, cur2)
                }
            }
        }
    }
}

/// Walks the lines of a utilisation listing and hands out one row of
/// counters at a time.
pub struct UtilisationData<'a> {
    lines: Vec<&'a str>,
    pos: usize,
    current: InstallationCounters,
}

impl<'a> UtilisationData<'a> {
    /// The lines being scanned.
    pub closed spec fn lines_model(&self) -> Seq<Seq<char>> {
        self.lines.deep_view()
    }

    /// Which line the scan stands before.
    pub closed spec fn pos_model(&self) -> int {
        self.pos as int
    }

    /// The counters gathered for the current section so far.
    pub closed spec fn cur_model(&self) -> CountersModel {
        self.current@
    }

    /// The scan never stands past the end of its lines.
    pub open spec fn wf(&self) -> bool {
        0 <= self.pos_model() <= self.lines_model().len()
    }

    /// Every row the scan will still hand out, in order.
    pub open spec fn remaining_rows(&self) -> Seq<CountersModel> {
        rows_outer(self.lines_model(), self.pos_model(), self.cur_model())
    }

    /// Prepares to scan `s` from its first line.
    pub fn from(s: &'a str) -> (r: UtilisationData<'a>)
        ensures
            r.wf(),
            r.lines_model() == lines_of(s@),
            r.pos_model() == 0,
            r.cur_model() == fresh_counters(),
    {
        UtilisationData { lines: split_lines(s), pos: 0, current: InstallationCounters::new() }
    }

    /// Hands out the next row of counters, or nothing once the input is
    /// exhausted: the rows it yields over a whole scan are exactly
    /// `remaining_rows` at the start of the scan.
    pub fn next(&mut self) -> (r: Option<InstallationCounters>)
        requires
            old(self).wf(),
        ensures
            final(self).wf(),
            final(self).lines_model() == old(self).lines_model(),
            r is None ==> old(self).remaining_rows().len() == 0
                && final(self).remaining_rows().len() == 0,
            r matches Some(row) ==> old(self).remaining_rows()
                == seq![row@] + final(self).remaining_rows(),
    {
        let ghost lines = self.lines.deep_view();
        let ghost pos0 = self.pos as int;
        let ghost cur0 = self.current@;
        if self.pos >= self.lines.len() {
            return None;
        }
        let line0 = self.lines[self.pos];
        proof {
            assert(line0@ == lines[pos0]);
        }
        if starts_with_str(line0, "# ") {
            if !self.current.name.as_str().is_empty() {
                let row = self.current.snapshot();
                self.current = InstallationCounters::new();
                proof {
                    assert(rows_outer(lines, pos0, cur0) == seq![row@] + rows_outer(
                        lines,
                        pos0,
                        fresh_counters(),
                    ));
                }
                return Some(row);
            }
            proof {
                reveal_strlit("# ");
            }
            let stripped = strip_prefix_all(line0, "# ");
            self.current.name = String::from_str(stripped);
            self.pos = self.pos + 1;
            proof {
                assert(self.current@ == named_counters(
                    cur0,
                    strip_prefix_all_spec(lines[pos0], header_marker()),
                ));
                assert(rows_outer(lines, pos0, cur0) == rows_inner(
                    lines,
                    self.pos as int,
                    self.current@,
                ));
            }
        } else {
            proof {
                assert(rows_outer(lines, pos0, cur0) == rows_inner(
                    lines,
                    self.pos as int,
                    self.current@,
                ));
            }
        }
        while self.pos < self.lines.len()
            invariant
                self.lines.deep_view() == lines,
                0 <= self.pos as int <= lines.len(),
                lines == old(self).lines_model(),
                pos0 == old(self).pos_model(),
                cur0 == old(self).cur_model(),
                rows_outer(lines, pos0, cur0) == rows_inner(
                    lines,
                    self.pos as int,
                    self.current@,
                ),
            decreases lines.len() - self.pos,
        {
            let ghost p = self.pos as int;
            let ghost c = self.current@;
            let line = self.lines[self.pos];
            self.pos = self.pos + 1;
            proof {
                assert(line@ == lines[p]);
            }
            let trimmed = trim(line);
            if trimmed.unicode_len() > 0 {
                let toks = split_whitespace_vec(line);
                let ghost tokens = split_ws(lines[p]);
                proof {
                    assert(toks.deep_view() == tokens);
                }
                if toks.len() >= 15 {
                    let ns = toks[1];
                    proof {
                        assert(ns@ == tokens[1]);
                    }
                    if str_eq(ns, "monitoring") {
                        let row = InstallationCounters {
                            name: self.current.name.clone(),
                            tag: String::from_str("old"),
                            shard_count: 1,
                            mem_requests_total: parse_mem(toks[9]),
                            mem_limits_total: parse_mem(toks[11]),
                            mem_util_total: parse_mem(toks[13]),
                        };
                        proof {
                            assert(toks[9]@ == tokens[9]);
                            assert(toks[11]@ == tokens[11]);
                            assert(toks[13]@ == tokens[13]);
                            assert(row@ == monitoring_row(c.name, tokens));
                            assert(rows_inner(lines, p, c) == seq![row@] + rows_outer(
                                lines,
                                p + 1,
                                c,
                            ));
                        }
                        return Some(row);
                    }
                    if ends_with_str(ns, "-prometheus") {
                        self.current.shard_count = sat_inc32(self.current.shard_count);
                        self.current.mem_requests_total = sat_add64(
                            self.current.mem_requests_total,
                            parse_mem(toks[9]),
                        );
                        self.current.mem_limits_total = sat_add64(
                            self.current.mem_limits_total,
                            parse_mem(toks[11]),
                        );
                        self.current.mem_util_total = sat_add64(
                            self.current.mem_util_total,
                            parse_mem(toks[13]),
                        );
                        proof {
                            assert(toks[9]@ == tokens[9]);
                            assert(toks[11]@ == tokens[11]);
                            assert(toks[13]@ == tokens[13]);
                            assert(self.current@ == accumulated(c, tokens));
                        }
                    }
                    if self.pos < self.lines.len() {
                        let nxt = self.lines[self.pos];
                        proof {
                            assert(nxt@ == lines[p + 1]);
                        }
                        if starts_with_str(nxt, "# ") {
                            let row = self.current.snapshot();
                            self.current = InstallationCounters::new();
                            proof {
                                assert(rows_inner(lines, p, c) == seq![row@] + rows_outer(
                                    lines,
                                    p + 1,
                                    fresh_counters(),
                                ));
                            }
                            return Some(row);
                        }
                    }
                    proof {
                        assert(rows_inner(lines, p, c) == rows_inner(
                            lines,
                            p + 1,
                            self.current@,
                        ));
                    }
                } else {
                    proof {
                        assert(rows_inner(lines, p, c) == rows_inner(lines, p + 1, c));
                    }
                }
            } else {
                proof {
                    assert(trim_spec(lines[p]).len() == 0);
                    assert(rows_inner(lines, p, c) == rows_inner(lines, p + 1, c));
                }
            }
        }
        let row = self.current.snapshot();
        self.current = InstallationCounters::new();
        proof {
            assert(rows_inner(lines, self.pos as int, row@) == seq![row@]);
            assert(rows_outer(lines, self.pos as int, fresh_counters()) =~= Seq::<
                CountersModel,
            >::empty());
            assert(seq![row@] + Seq::<CountersModel>::empty() =~= seq![row@]);
        }
        Some(row)
    }
}

/// One row rendered: its fields separated by tabs, the three sizes given
/// in MiB.
pub open spec fn row_text(row: CountersModel) -> Seq<char> {
    row.name + seq!['\t'] + row.tag + seq!['\t'] + dec_str(row.shard_count as int) + seq!['\t']
        + dec_str(row.mem_requests_total as int) + "Mi"@ + seq!['\t'] + dec_str(
        row.mem_limits_total as int,
    ) + "Mi"@ + seq!['\t'] + dec_str(row.mem_util_total as int) + "Mi"@
}

/// The rendered rows, each on its own line.
pub open spec fn rows_text(rows: Seq<CountersModel>) -> Seq<char>
    decreases rows.len(),
{
    if rows.len() == 0 {
        Seq::empty()
    } else {
        rows_text(rows.drop_last()) + row_text(rows.last()).push('\n')
    }
}

/// The table's column headings.
pub open spec fn header_text() -> Seq<char> {
    "INSTALLATION\tPROM\tSHARDS\tREQUESTS\tLIMITS\tUTIL"@
}

/// The whole report before alignment: the headings and one line for each
/// row that scanning `s` yields.
pub open spec fn report_text(s: Seq<char>) -> Seq<char> {
    header_text().push('\n') + rows_text(rows_outer(lines_of(s), 0, fresh_counters()))
}

/// What elastic-tab alignment turns a text into.
pub uninterp spec fn tab_aligned(s: Seq<char>) -> Seq<char>;

/// Relies on tabwriter::TabWriter: fed one whole text and flushed, it pads
/// the tab-separated cells so the columns line up — a function of the bytes
/// written alone. Writing into the in-memory buffer cannot fail, so the
/// error arms are never taken.
#[verifier::external_body]
fn align_columns(s: &str) -> (r: String)
    ensures
        r@ == tab_aligned(s@),
        s@.len() == 0 ==> r@.len() == 0,
{
    let mut tw = tabwriter::TabWriter::new(Vec::new());
    let _ = std::io::Write::write_all(&mut tw, s.as_bytes());
    let _ = std::io::Write::flush(&mut tw);
    match tw.into_inner() {
        Ok(bytes) => String::from_utf8(bytes).unwrap_or_default(),
        Err(_) => String::new(),
    }
}

/// Builds the aligned capacity table for `contents`: the column headings
/// and one line per row of counters, columns lined up on the tab stops.
#[verifier::rlimit(80)]
pub fn summarize(contents: &str) -> (r: String)
    ensures
        r@ == tab_aligned(report_text(contents@)),
{
    let mut text = String::from_str("INSTALLATION\tPROM\tSHARDS\tREQUESTS\tLIMITS\tUTIL");
    push_char(&mut text, '\n');
    let mut data = UtilisationData::from(contents);
    let ghost all = rows_outer(lines_of(contents@), 0, fresh_counters());
    let ghost mut emitted: Seq<CountersModel> = Seq::empty();
    proof {
        assert(text@ == header_text().push('\n'));
        assert(rows_text(emitted) =~= Seq::<char>::empty());
        assert(text@ =~= header_text().push('\n') + rows_text(emitted));
        assert(emitted + data.remaining_rows() =~= data.remaining_rows());
    }
    let mut more = true;
    while more
        invariant
            data.wf(),
            data.lines_model() == lines_of(contents@),
            all == rows_outer(lines_of(contents@), 0, fresh_counters()),
            all == emitted + data.remaining_rows(),
            text@ == header_text().push('\n') + rows_text(emitted),
            !more ==> data.remaining_rows().len() == 0,
        decreases data.remaining_rows().len() + (if more {
            1int
        } else {
            0int
        }),
    {
        match data.next() {
            Some(row) => {
                let ghost before = emitted;
                let ghost remaining = data.remaining_rows();
                text.append(row.name.as_str());
                push_char(&mut text, '\t');
                text.append(row.tag.as_str());
                push_char(&mut text, '\t');
                let shards = u64_to_dec(row.shard_count as u64);
                text.append(shards.as_str());
                push_char(&mut text, '\t');
                let req = u64_to_dec(row.mem_requests_total);
                text.append(req.as_str());
                text.append("Mi");
                push_char(&mut text, '\t');
                let lim = u64_to_dec(row.mem_limits_total);
                text.append(lim.as_str());
                text.append("Mi");
                push_char(&mut text, '\t');
                let util = u64_to_dec(row.mem_util_total);
                text.append(util.as_str());
                text.append("Mi");
                push_char(&mut text, '\n');
                proof {
                    emitted = emitted.push(row@);
                    assert(emitted.drop_last() =~= before);
                    assert(emitted.last() == row@);
                    assert(rows_text(emitted) == rows_text(before) + row_text(row@).push('\n'));
                    assert(text@ =~= header_text().push('\n') + rows_text(emitted));
                    assert(before + (seq![row@] + remaining) =~= emitted + remaining);
                }
            },
            None => {
                proof {
                    assert(emitted + data.remaining_rows() =~= emitted);
                }
                more = false;
            },
        }
    }
    proof {
        assert(data.remaining_rows() =~= Seq::<CountersModel>::empty());
        assert(emitted + data.remaining_rows() =~= emitted);
        assert(text@ == header_text().push('\n') + rows_text(all));
    }
    align_columns(text.as_str())
}

} // verus!
