//! Verified character-level text utilities: whitespace trimming, prefix and
//! suffix handling, substring search, and line splitting.

use vstd::prelude::*;

verus! {

/// A whitespace character, as Unicode defines `White_Space` (the set that
/// `char::is_whitespace` accepts).
pub open spec fn is_space_char(c: char) -> bool {
    ||| c == ' '
    ||| c == '\t'
    ||| c == '\n'
    ||| c == '\r'
    ||| c == '\u{b}'
    ||| c == '\u{c}'
    ||| c == '\u{85}'
    ||| c == '\u{a0}'
    ||| c == '\u{1680}'
    ||| ('\u{2000}' as u32 <= c as u32 && c as u32 <= '\u{200a}' as u32)
    ||| c == '\u{2028}'
    ||| c == '\u{2029}'
    ||| c == '\u{202f}'
    ||| c == '\u{205f}'
    ||| c == '\u{3000}'
}

/// Decides whether `c` is whitespace.
pub fn is_space(c: char) -> (r: bool)
    ensures
        r == is_space_char(c),
{
    c == ' ' || c == '\t' || c == '\n' || c == '\r' || c == '\u{b}' || c == '\u{c}'
        || c == '\u{85}' || c == '\u{a0}' || c == '\u{1680}'
        || (c as u32 >= 0x2000 && c as u32 <= 0x200a) || c == '\u{2028}' || c == '\u{2029}'
        || c == '\u{202f}' || c == '\u{205f}' || c == '\u{3000}'
}

/// `s` with its leading whitespace removed.
pub open spec fn trim_start_spec(s: Seq<char>) -> Seq<char>
    decreases s.len(),
{
    if s.len() > 0 && is_space_char(s[0]) {
        trim_start_spec(s.drop_first())
    } else {
        s
    }
}

/// `s` with its trailing whitespace removed.
pub open spec fn trim_end_spec(s: Seq<char>) -> Seq<char>
    decreases s.len(),
{
    if s.len() > 0 && is_space_char(s.last()) {
        trim_end_spec(s.drop_last())
    } else {
        s
    }
}

/// `s` with whitespace removed from both ends.
pub open spec fn trim_spec(s: Seq<char>) -> Seq<char> {
    trim_end_spec(trim_start_spec(s))
}

/// If the first `k` characters of `s` are whitespace and the one at `k` (if
/// any) is not, trimming the front of `s` drops exactly those `k`.
proof fn lemma_trim_start_skip(s: Seq<char>, k: int)
    requires
        0 <= k <= s.len(),
        forall|i: int| 0 <= i < k ==> is_space_char(#[trigger] s[i]),
        k == s.len() || !is_space_char(s[k]),
    ensures
        trim_start_spec(s) == s.skip(k),
    decreases k,
{
    if k == 0 {
        assert(s.skip(0) =~= s);
    } else {
        assert(is_space_char(s[0]));
        lemma_trim_start_skip(s.drop_first(), k - 1);
        assert(s.drop_first().skip(k - 1) =~= s.skip(k));
    }
}

/// If the characters of `s` from `k` on are whitespace and the one at `k - 1`
/// (if any) is not, trimming the back of `s` keeps exactly the first `k`.
proof fn lemma_trim_end_take(s: Seq<char>, k: int)
    requires
        0 <= k <= s.len(),
        forall|i: int| k <= i < s.len() ==> is_space_char(#[trigger] s[i]),
        k == 0 || !is_space_char(s[k - 1]),
    ensures
        trim_end_spec(s) == s.take(k),
    decreases s.len(),
{
    if k == s.len() {
        if s.len() > 0 && is_space_char(s.last()) {
            assert(false);
        }
        assert(s.take(k) =~= s);
    } else {
        assert(is_space_char(s.last()));
        lemma_trim_end_take(s.drop_last(), k);
        assert(s.drop_last().take(k) =~= s.take(k));
    }
}

/// `str::trim`: both ends of the string stripped of whitespace.
pub fn trim<'a>(s: &'a str) -> (r: &'a str)
    ensures
        r@ == trim_spec(s@),
{
    let n = s.unicode_len();
    let mut lo: usize = 0;
    while lo < n && is_space(s.get_char(lo))
        invariant
            0 <= lo <= n,
            n == s@.len(),
            forall|i: int| 0 <= i < lo ==> is_space_char(#[trigger] s@[i]),
        decreases n - lo,
    {
        lo = lo + 1;
    }
    let mut hi: usize = n;
    while hi > lo && is_space(s.get_char(hi - 1))
        invariant
            lo <= hi <= n,
            n == s@.len(),
            forall|i: int| hi <= i < n ==> is_space_char(#[trigger] s@[i]),
        decreases hi,
    {
        hi = hi - 1;
    }
    proof {
        lemma_trim_start_skip(s@, lo as int);
        if hi == lo {
            lemma_trim_end_take(s@.skip(lo as int), 0);
        } else {
            assert(!is_space_char(s@[hi - 1]));
            lemma_trim_end_take(s@.skip(lo as int), hi - lo);
        }
        assert(s@.skip(lo as int).take(hi - lo) =~= s@.subrange(lo as int, hi as int));
    }
    s.substring_char(lo, hi)
}

/// `p` starts `s`.
pub open spec fn has_prefix(s: Seq<char>, p: Seq<char>) -> bool {
    p.len() <= s.len() && s.take(p.len() as int) == p
}

/// `p` ends `s`.
pub open spec fn has_suffix(s: Seq<char>, p: Seq<char>) -> bool {
    p.len() <= s.len() && s.skip(s.len() - p.len()) == p
}

/// Decides whether `p` starts the part of `s` from position `lo` on.
fn has_prefix_at(s: &str, lo: usize, p: &str) -> (r: bool)
    requires
        lo <= s@.len(),
    ensures
        r == has_prefix(s@.skip(lo as int), p@),
{
    let n = s.unicode_len();
    let m = p.unicode_len();
    if m > n - lo {
        return false;
    }
    let mut j: usize = 0;
    while j < m
        invariant
            0 <= j <= m,
            lo + m <= n,
            n == s@.len(),
            m == p@.len(),
            forall|k: int| 0 <= k < j ==> s@[lo + k] == p@[k],
        decreases m - j,
    {
        if s.get_char(lo + j) != p.get_char(j) {
            proof {
                assert(s@.skip(lo as int)[j as int] != p@[j as int]);
                assert(!has_prefix(s@.skip(lo as int), p@));
            }
            return false;
        }
        j = j + 1;
    }
    proof {
        assert(s@.skip(lo as int).take(m as int) =~= p@);
    }
    true
}

/// `str::starts_with` for a string pattern.
pub fn starts_with_str(s: &str, p: &str) -> (r: bool)
    ensures
        r == has_prefix(s@, p@),
{
    let r = has_prefix_at(s, 0, p);
    proof {
        assert(s@.skip(0) =~= s@);
    }
    r
}

/// `str::ends_with` for a string pattern.
pub fn ends_with_str(s: &str, p: &str) -> (r: bool)
    ensures
        r == has_suffix(s@, p@),
{
    let n = s.unicode_len();
    let m = p.unicode_len();
    if m > n {
        return false;
    }
    let r = has_prefix_at(s, n - m, p);
    proof {
        assert(s@.skip(n - m).take(m as int) =~= s@.skip(n - m));
    }
    r
}

/// `s` with every copy of the non-empty pattern `p` removed from its front,
/// one after the other.
pub open spec fn strip_prefix_all_spec(s: Seq<char>, p: Seq<char>) -> Seq<char>
    decreases s.len(),
{
    if p.len() > 0 && has_prefix(s, p) {
        strip_prefix_all_spec(s.skip(p.len() as int), p)
    } else {
        s
    }
}

/// `s` with every copy of the non-empty pattern `p` removed from its back,
/// one after the other.
pub open spec fn strip_suffix_all_spec(s: Seq<char>, p: Seq<char>) -> Seq<char>
    decreases s.len(),
{
    if p.len() > 0 && has_suffix(s, p) {
        strip_suffix_all_spec(s.take(s.len() - p.len()), p)
    } else {
        s
    }
}

/// `str::trim_start_matches` for a non-empty string pattern.
pub fn strip_prefix_all<'a>(s: &'a str, p: &str) -> (r: &'a str)
    requires
        p@.len() > 0,
    ensures
        r@ == strip_prefix_all_spec(s@, p@),
{
    let n = s.unicode_len();
    let m = p.unicode_len();
    let mut lo: usize = 0;
    proof {
        assert(s@.skip(0) =~= s@);
    }
    if m <= n {
        while lo <= n - m && has_prefix_at(s, lo, p)
            invariant
                0 <= lo <= n,
                m <= n,
                n == s@.len(),
                m == p@.len(),
                m > 0,
                strip_prefix_all_spec(s@, p@) == strip_prefix_all_spec(s@.skip(lo as int), p@),
            decreases n - lo,
        {
            proof {
                assert(s@.skip(lo as int).skip(m as int) =~= s@.skip(lo + m));
            }
            lo = lo + m;
        }
    }
    let r = s.substring_char(lo, n);
    proof {
        assert(s@.subrange(lo as int, n as int) =~= s@.skip(lo as int));
        assert(!has_prefix(s@.skip(lo as int), p@));
    }
    r
}

/// Decides whether `p` ends the first `hi` characters of `s`.
fn has_suffix_at(s: &str, hi: usize, p: &str) -> (r: bool)
    requires
        hi <= s@.len(),
    ensures
        r == has_suffix(s@.take(hi as int), p@),
{
    let m = p.unicode_len();
    if hi < m {
        return false;
    }
    let r = has_prefix_at(s, hi - m, p);
    proof {
        let t = s@.take(hi as int);
        assert(t.skip(hi - m) =~= s@.skip(hi - m).take(m as int));
        if has_prefix(s@.skip(hi - m), p@) {
            assert(has_suffix(t, p@));
        }
        if has_suffix(t, p@) {
            assert(has_prefix(s@.skip(hi - m), p@));
        }
    }
    r
}

/// `str::trim_end_matches` for a non-empty string pattern.
pub fn strip_suffix_all<'a>(s: &'a str, p: &str) -> (r: &'a str)
    requires
        p@.len() > 0,
    ensures
        r@ == strip_suffix_all_spec(s@, p@),
{
    let n = s.unicode_len();
    let m = p.unicode_len();
    let mut hi: usize = n;
    proof {
        assert(s@.take(n as int) =~= s@);
    }
    while has_suffix_at(s, hi, p)
        invariant
            0 <= hi <= n,
            n == s@.len(),
            m == p@.len(),
            m > 0,
            strip_suffix_all_spec(s@, p@) == strip_suffix_all_spec(s@.take(hi as int), p@),
        decreases hi,
    {
        proof {
            let t = s@.take(hi as int);
            assert(t.take(t.len() - m) =~= s@.take((hi - m) as int));
        }
        hi = hi - m;
    }
    let r = s.substring_char(0, hi);
    proof {
        assert(s@.subrange(0, hi as int) =~= s@.take(hi as int));
    }
    r
}

/// `p` occurs in `s` starting at position `i`.
pub open spec fn match_at(s: Seq<char>, p: Seq<char>, i: int) -> bool {
    0 <= i && i + p.len() <= s.len() && s.subrange(i, i + p.len()) == p
}

/// `p` occurs somewhere in `s`.
pub open spec fn contains_seq(s: Seq<char>, p: Seq<char>) -> bool {
    exists|i: int| match_at(s, p, i)
}

/// `str::contains` for a string pattern.
pub fn contains_str(s: &str, p: &str) -> (r: bool)
    ensures
        r == contains_seq(s@, p@),
{
    let n = s.unicode_len();
    let m = p.unicode_len();
    if m > n {
        return false;
    }
    if m == 0 {
        proof {
            assert(s@.subrange(0, 0) =~= p@);
            assert(match_at(s@, p@, 0));
        }
        return true;
    }
    let mut i: usize = 0;
    while i <= n - m
        invariant
            0 <= i <= n - m + 1,
            1 <= m <= n,
            n == s@.len(),
            m == p@.len(),
            forall|j: int| 0 <= j < i ==> !match_at(s@, p@, j),
        decreases n - i,
    {
        if has_prefix_at(s, i, p) {
            proof {
                assert(s@.skip(i as int).take(m as int) =~= s@.subrange(i as int, i + m));
                assert(match_at(s@, p@, i as int));
            }
            return true;
        }
        proof {
            assert(s@.skip(i as int).take(m as int) =~= s@.subrange(i as int, i + m));
        }
        i = i + 1;
    }
    proof {
        assert(forall|j: int| match_at(s@, p@, j) ==> 0 <= j <= n - m);
    }
    false
}

/// Decides whether two string slices hold the same characters.
pub fn str_eq(a: &str, b: &str) -> (r: bool)
    ensures
        r == (a@ == b@),
{
    let n = a.unicode_len();
    if n != b.unicode_len() {
        proof {
            assert(a@ != b@);
        }
        return false;
    }
    let mut i: usize = 0;
    while i < n
        invariant
            0 <= i <= n,
            n == a@.len(),
            n == b@.len(),
            forall|j: int| 0 <= j < i ==> a@[j] == b@[j],
        decreases n - i,
    {
        if a.get_char(i) != b.get_char(i) {
            proof {
                assert(a@[i as int] != b@[i as int]);
            }
            return false;
        }
        i = i + 1;
    }
    proof {
        assert(a@ =~= b@);
    }
    true
}

/// A line with one trailing carriage return removed, as `str::lines` hands
/// lines out.
pub open spec fn strip_cr(l: Seq<char>) -> Seq<char> {
    if l.len() > 0 && l.last() == '\r' {
        l.drop_last()
    } else {
        l
    }
}

/// How many characters come before the first line feed of `s` (all of them,
/// when `s` holds none).
pub open spec fn line_break_len(s: Seq<char>) -> nat
    decreases s.len(),
{
    if s.len() == 0 {
        0
    } else if s[0] == '\n' {
        0
    } else {
        1 + line_break_len(s.drop_first())
    }
}

/// `line_break_len` is the position of the first line feed: no line feed
/// comes before position `k`, and one stands at `k` unless `k` is the end.
proof fn lemma_line_break_len_at(s: Seq<char>, k: int)
    requires
        0 <= k <= s.len(),
        forall|i: int| 0 <= i < k ==> s[i] != '\n',
        k == s.len() || s[k] == '\n',
    ensures
        line_break_len(s) == k,
    decreases k,
{
    if k == 0 {
    } else {
        lemma_line_break_len_at(s.drop_first(), k - 1);
    }
}

/// The lines of `s`, as `str::lines` yields them: split at each line feed,
/// a carriage return just before the split removed, and nothing yielded for
/// a final line feed.
pub open spec fn lines_of(s: Seq<char>) -> Seq<Seq<char>>
    decreases s.len(),
{
    if s.len() == 0 {
        Seq::empty()
    } else {
        let k = line_break_len(s);
        if k >= s.len() {
            seq![strip_cr(s)]
        } else {
            seq![strip_cr(s.take(k as int))] + lines_of(s.skip(k as int + 1))
        }
    }
}

/// `str::lines`, collected: the lines of `s` in order, borrowing from `s`.
pub fn split_lines<'a>(s: &'a str) -> (r: Vec<&'a str>)
    ensures
        r.deep_view() == lines_of(s@),
{
    let n = s.unicode_len();
    let mut r: Vec<&'a str> = Vec::new();
    let mut start: usize = 0;
    let mut i: usize = 0;
    proof {
        assert(s@.skip(0) =~= s@);
        assert(r.deep_view() + lines_of(s@) =~= lines_of(s@));
    }
    while i < n
        invariant
            0 <= start <= i <= n,
            n == s@.len(),
            forall|j: int| start <= j < i ==> s@[j] != '\n',
            r.deep_view() + lines_of(s@.skip(start as int)) == lines_of(s@),
        decreases n - i,
    {
        if s.get_char(i) == '\n' {
            let line = if i > start && s.get_char(i - 1) == '\r' {
                s.substring_char(start, i - 1)
            } else {
                s.substring_char(start, i)
            };
            proof {
                let t = s@.skip(start as int);
                assert forall|j: int| 0 <= j < i - start implies t[j] != '\n' by {
                    assert(t[j] == s@[start + j]);
                }
                lemma_line_break_len_at(t, i - start);
                assert(t.take(i - start) =~= s@.subrange(start as int, i as int));
                if i > start && s@[i - 1] == '\r' {
                    assert(strip_cr(t.take(i - start)) =~= s@.subrange(start as int, i - 1));
                } else {
                    assert(strip_cr(t.take(i - start)) =~= s@.subrange(start as int, i as int));
                }
                assert(t.skip(i - start + 1) =~= s@.skip(i + 1));
                assert(lines_of(t) == seq![line@] + lines_of(s@.skip(i + 1)));
                assert(r.deep_view().push(line@) =~= r.deep_view() + seq![line@]);
                assert((r.deep_view() + seq![line@]) + lines_of(s@.skip(i + 1)) =~= r.deep_view()
                    + (seq![line@] + lines_of(s@.skip(i + 1))));
            }
            r.push(line);
            start = i + 1;
        }
        i = i + 1;
    }
    if start < n {
        let line = if s.get_char(n - 1) == '\r' {
            s.substring_char(start, n - 1)
        } else {
            s.substring_char(start, n)
        };
        proof {
            let t = s@.skip(start as int);
            assert forall|j: int| 0 <= j < n - start implies t[j] != '\n' by {
                assert(t[j] == s@[start + j]);
            }
            lemma_line_break_len_at(t, n - start);
            if s@[n - 1] == '\r' {
                assert(strip_cr(t) =~= s@.subrange(start as int, n - 1));
            } else {
                assert(strip_cr(t) =~= s@.subrange(start as int, n as int));
            }
            assert(lines_of(t) == seq![line@]);
            assert(r.deep_view().push(line@) =~= r.deep_view() + seq![line@]);
        }
        r.push(line);
    } else {
        proof {
            assert(s@.skip(start as int).len() == 0);
            assert(r.deep_view() + lines_of(s@.skip(start as int)) =~= r.deep_view());
        }
    }
    r
}

/// How many characters come before the first whitespace of `s` (all of
/// them, when `s` holds none).
pub open spec fn ws_token_len(s: Seq<char>) -> nat
    decreases s.len(),
{
    if s.len() == 0 {
        0
    } else if is_space_char(s[0]) {
        0
    } else {
        1 + ws_token_len(s.drop_first())
    }
}

/// `ws_token_len` is the position of the first whitespace character.
proof fn lemma_ws_token_len_at(s: Seq<char>, k: int)
    requires
        0 <= k <= s.len(),
        forall|i: int| 0 <= i < k ==> !is_space_char(#[trigger] s[i]),
        k == s.len() || is_space_char(s[k]),
    ensures
        ws_token_len(s) == k,
    decreases k,
{
    if k == 0 {
    } else {
        lemma_ws_token_len_at(s.drop_first(), k - 1);
    }
}

/// The maximal runs of non-whitespace characters of `s`, in order: what
/// `str::split_whitespace` yields.
pub open spec fn split_ws(s: Seq<char>) -> Seq<Seq<char>>
    decreases s.len(),
{
    if s.len() == 0 {
        Seq::empty()
    } else if is_space_char(s[0]) {
        split_ws(s.drop_first())
    } else {
        let k = ws_token_len(s);
        if k >= s.len() {
            seq![s]
        } else {
            seq![s.take(k as int)] + split_ws(s.skip(k as int))
        }
    }
}

/// `str::split_whitespace`, collected: the whitespace-separated tokens of
/// `s` in order, borrowing from `s`.
pub fn split_whitespace_vec<'a>(s: &'a str) -> (r: Vec<&'a str>)
    ensures
        r.deep_view() == split_ws(s@),
{
    let n = s.unicode_len();
    let mut r: Vec<&'a str> = Vec::new();
    let mut i: usize = 0;
    proof {
        assert(s@.skip(0) =~= s@);
        assert(r.deep_view() + split_ws(s@) =~= split_ws(s@));
    }
    while i < n
        invariant
            0 <= i <= n,
            n == s@.len(),
            r.deep_view() + split_ws(s@.skip(i as int)) == split_ws(s@),
        decreases n - i,
    {
        if is_space(s.get_char(i)) {
            proof {
                let t = s@.skip(i as int);
                assert(t[0] == s@[i as int]);
                assert(t.drop_first() =~= s@.skip(i + 1));
            }
            i = i + 1;
        } else {
            let mut j: usize = i + 1;
            while j < n && !is_space(s.get_char(j))
                invariant
                    i < j <= n,
                    n == s@.len(),
                    forall|k: int| i <= k < j ==> !is_space_char(#[trigger] s@[k]),
                decreases n - j,
            {
                j = j + 1;
            }
            let tok = s.substring_char(i, j);
            proof {
                let t = s@.skip(i as int);
                assert forall|k: int| 0 <= k < j - i implies !is_space_char(#[trigger] t[k]) by {
                    assert(t[k] == s@[i + k]);
                }
                if j < n {
                    assert(t[j - i] == s@[j as int]);
                }
                lemma_ws_token_len_at(t, j - i);
                assert(t.take(j - i) =~= s@.subrange(i as int, j as int));
                assert(t.skip(j - i) =~= s@.skip(j as int));
                assert(!is_space_char(t[0]));
                if j == n {
                    assert(t =~= tok@);
                    assert(split_ws(s@.skip(j as int)) =~= Seq::<Seq<char>>::empty());
                    assert(seq![tok@] + split_ws(s@.skip(j as int)) =~= seq![tok@]);
                }
                assert(split_ws(t) == seq![tok@] + split_ws(s@.skip(j as int)));
                assert(r.deep_view().push(tok@) =~= r.deep_view() + seq![tok@]);
                assert((r.deep_view() + seq![tok@]) + split_ws(s@.skip(j as int)) =~= r.deep_view()
                    + (seq![tok@] + split_ws(s@.skip(j as int))));
            }
            r.push(tok);
            i = j;
        }
    }
    proof {
        assert(s@.skip(i as int).len() == 0);
        assert(r.deep_view() + split_ws(s@.skip(i as int)) =~= r.deep_view());
    }
    r
}

} // verus!
