use crate::text::push_char;
use vstd::prelude::*;
use vstd::string::StrSliceExecFns;
use vstd::string::StringExecFns;

verus! {

/// The parts of a text split at newline characters, the newlines themselves
/// removed: always at least one part, and one more part per newline.
pub open spec fn split_newline(s: Seq<char>) -> Seq<Seq<char>>
    decreases s.len(),
{
    if s.len() == 0 {
        seq![Seq::empty()]
    } else if s.last() == '\n' {
        split_newline(s.drop_last()).push(Seq::empty())
    } else {
        let p = split_newline(s.drop_last());
        p.update(p.len() - 1, p.last().push(s.last()))
    }
}

/// A split part with a trailing carriage return dropped, so that a text with
/// carriage-return line endings yields the same lines.
pub open spec fn strip_cr(l: Seq<char>) -> Seq<char> {
    if l.len() > 0 && l.last() == '\r' {
        l.drop_last()
    } else {
        l
    }
}

/// The lines of a text: the parts between newlines, without a final empty
/// part after a trailing newline. A carriage return is dropped from the end
/// of a part only where a newline ended it, so the line ending `\r\n` counts
/// as one; a trailing carriage return of the unterminated final part stays.
pub open spec fn lines_of(s: Seq<char>) -> Seq<Seq<char>> {
    let p = split_newline(s);
    let stripped = p.drop_last().map_values(|l: Seq<char>| strip_cr(l));
    if p.last().len() == 0 {
        stripped
    } else {
        stripped.push(p.last())
    }
}

/// Splitting never yields zero parts.
pub proof fn lemma_split_newline_len(s: Seq<char>)
    ensures
        split_newline(s).len() >= 1,
    decreases s.len(),
{
    if s.len() > 0 {
        lemma_split_newline_len(s.drop_last());
    }
}

/// A part with its trailing carriage return dropped, as an owned line.
fn finish_line(cur: String) -> (r: String)
    ensures
        r@ == strip_cr(cur@),
{
    let n = cur.as_str().unicode_len();
    if n > 0 && cur.as_str().get_char(n - 1) == '\r' {
        let s = cur.as_str().substring_char(0, n - 1);
        proof {
            assert(s@ =~= cur@.drop_last());
        }
        String::from_str(s)
    } else {
        cur
    }
}

/// The lines of the text, in order, as `lines_of` describes them.
pub fn split_lines(text: &str) -> (r: Vec<String>)
    ensures
        r.deep_view() == lines_of(text@),
{
    let n = text.unicode_len();
    let mut done: Vec<String> = Vec::new();
    let mut cur = String::new();
    let mut i: usize = 0;
    proof {
        assert(text@.take(0) =~= Seq::<char>::empty());
        assert(done.deep_view() =~= Seq::<Seq<char>>::empty());
    }
    while i < n
        invariant
            i <= n,
            n == text@.len(),
            split_newline(text@.take(i as int)).len() >= 1,
            cur@ == split_newline(text@.take(i as int)).last(),
            done.deep_view() == split_newline(text@.take(i as int)).drop_last().map_values(
                |l: Seq<char>| strip_cr(l),
            ),
        decreases n - i,
    {
        let ghost parts = split_newline(text@.take(i as int));
        let c = text.get_char(i);
        proof {
            assert(text@.take(i + 1).drop_last() =~= text@.take(i as int));
            assert(text@.take(i + 1).last() == text@[i as int]);
            lemma_split_newline_len(text@.take(i + 1));
        }
        if c == '\n' {
            let ghost done0 = done.deep_view();
            let line = finish_line(cur);
            done.push(line);
            cur = String::new();
            proof {
                let parts2 = split_newline(text@.take(i + 1));
                assert(parts2 == parts.push(Seq::<char>::empty()));
                assert(parts2.drop_last() =~= parts);
                assert(done.deep_view() =~= done0.push(line@));
                assert(done0.push(line@) =~= parts.map_values(|l: Seq<char>| strip_cr(l)));
            }
        } else {
            push_char(&mut cur, c);
            proof {
                let parts2 = split_newline(text@.take(i + 1));
                assert(parts2 == parts.update(parts.len() - 1, parts.last().push(text@[i as int])));
                assert(parts2.last() == parts.last().push(text@[i as int]));
                assert(parts2.drop_last() =~= parts.drop_last());
                assert(done.deep_view() =~= parts2.drop_last().map_values(
                    |l: Seq<char>| strip_cr(l),
                ));
            }
        }
        i = i + 1;
    }
    proof {
        assert(text@.take(n as int) =~= text@);
    }
    let ghost parts = split_newline(text@);
    let last_empty = cur.as_str().is_empty();
    if last_empty {
        proof {
            assert(done.deep_view() =~= lines_of(text@));
        }
        done
    } else {
        let ghost done0 = done.deep_view();
        let ghost cur0 = cur@;
        done.push(cur);
        proof {
            assert(done.deep_view() =~= done0.push(cur0));
            assert(done.deep_view() =~= lines_of(text@));
        }
        done
    }
}

/// Whether the pattern stands in the text starting at position `i`.
pub open spec fn contains_at(text: Seq<char>, pat: Seq<char>, i: int) -> bool {
    0 <= i && i + pat.len() <= text.len() && text.subrange(i, i + pat.len()) == pat
}

/// Whether the pattern occurs anywhere in the text as a contiguous run of
/// characters; the empty pattern occurs in every text.
pub open spec fn contains_seq(text: Seq<char>, pat: Seq<char>) -> bool {
    exists|i: int| contains_at(text, pat, i)
}

/// Whether `pat` occurs in `text`, by direct search.
pub fn str_contains(text: &str, pat: &str) -> (r: bool)
    ensures
        r == contains_seq(text@, pat@),
{
    let n = text.unicode_len();
    let m = pat.unicode_len();
    if m > n {
        proof {
            assert(forall|i: int| !contains_at(text@, pat@, i));
        }
        return false;
    }
    let mut i: usize = 0;
    while i <= n - m
        invariant
            m <= n,
            n == text@.len(),
            m == pat@.len(),
            i <= n - m + 1,
            forall|k: int| 0 <= k < i ==> !contains_at(text@, pat@, k),
        decreases n - m - i + 1,
    {
        let mut j: usize = 0;
        let mut ok = true;
        while j < m && ok
            invariant
                m <= n,
                n == text@.len(),
                m == pat@.len(),
                i <= n - m,
                j <= m,
                ok ==> forall|k: int| 0 <= k < j ==> text@[i + k] == pat@[k],
                !ok ==> !contains_at(text@, pat@, i as int),
            decreases m - j,
        {
            if text.get_char(i + j) != pat.get_char(j) {
                proof {
                    assert(text@.subrange(i as int, i + m)[j as int] == text@[i + j]);
                }
                ok = false;
            }
            j = j + 1;
        }
        if ok {
            proof {
                assert(text@.subrange(i as int, i + m) =~= pat@);
                assert(contains_at(text@, pat@, i as int));
            }
            return true;
        }
        proof {
            if m == 0 {
                assert(text@.subrange(i as int, i as int) =~= pat@);
                assert(contains_at(text@, pat@, i as int));
            }
            assert(m >= 1);
        }
        i = i + 1;
    }
    proof {
        assert(forall|k: int| !contains_at(text@, pat@, k));
    }
    false
}

/// The matching lines of a text, each with a newline appended, concatenated
/// in order.
pub open spec fn grep_lines(pat: Seq<char>, lines: Seq<Seq<char>>) -> Seq<char>
    decreases lines.len(),
{
    if lines.len() == 0 {
        Seq::empty()
    } else {
        let rest = grep_lines(pat, lines.drop_first());
        if contains_seq(lines[0], pat) {
            lines[0] + seq!['\n'] + rest
        } else {
            rest
        }
    }
}

/// Collecting one more line at the end appends its contribution at the end.
proof fn lemma_grep_lines_snoc(pat: Seq<char>, lines: Seq<Seq<char>>, l: Seq<char>)
    ensures
        grep_lines(pat, lines.push(l)) == grep_lines(pat, lines) + (if contains_seq(l, pat) {
            l + seq!['\n']
        } else {
            Seq::<char>::empty()
        }),
    decreases lines.len(),
{
    let tail = if contains_seq(l, pat) {
        l + seq!['\n']
    } else {
        Seq::<char>::empty()
    };
    if lines.len() == 0 {
        assert(lines.push(l)[0] == l);
        assert(lines.push(l).drop_first() =~= Seq::<Seq<char>>::empty());
        assert(grep_lines(pat, Seq::<Seq<char>>::empty()) == Seq::<char>::empty());
        assert(grep_lines(pat, lines.push(l)) =~= grep_lines(pat, lines) + tail);
    } else {
        assert(lines.push(l)[0] == lines[0]);
        assert(lines.push(l).drop_first() =~= lines.drop_first().push(l));
        lemma_grep_lines_snoc(pat, lines.drop_first(), l);
        if contains_seq(lines[0], pat) {
            assert(grep_lines(pat, lines.push(l)) =~= grep_lines(pat, lines) + tail);
        } else {
            assert(grep_lines(pat, lines.push(l)) =~= grep_lines(pat, lines) + tail);
        }
    }
}

/// Searches for a pattern in a text and returns the lines that contain it,
/// each followed by a newline.
pub fn grep_internal(pattern: &str, text: &str) -> (r: String)
    ensures
        r@ == grep_lines(pattern@, lines_of(text@)),
{
    let lines = split_lines(text);
    let ghost lv = lines.deep_view();
    let n = lines.len();
    let mut result = String::new();
    let mut i: usize = 0;
    proof {
        assert(lv.take(0) =~= Seq::<Seq<char>>::empty());
    }
    while i < n
        invariant
            i <= n,
            n == lv.len(),
            lv == lines.deep_view(),
            result@ == grep_lines(pattern@, lv.take(i as int)),
        decreases n - i,
    {
        proof {
            assert(lv.take(i as int).push(lv[i as int]) =~= lv.take(i + 1));
            lemma_grep_lines_snoc(pattern@, lv.take(i as int), lv[i as int]);
        }
        if str_contains(lines[i].as_str(), pattern) {
            result.append(lines[i].as_str());
            push_char(&mut result, '\n');
            proof {
                assert(result@ =~= grep_lines(pattern@, lv.take(i + 1)));
            }
        } else {
            proof {
                assert(result@ =~= grep_lines(pattern@, lv.take(i + 1)));
            }
        }
        i = i + 1;
    }
    proof {
        assert(lv.take(n as int) =~= lv);
        assert(lv =~= lines_of(text@));
    }
    result
}

/// The first line index still within the context window of two lines above
/// the tagged line.
pub open spec fn ctx_lo(tag: int) -> int {
    if tag >= 2 {
        tag - 2
    } else {
        0
    }
}

/// The last line index still within the context window of two lines below
/// the tagged line, among `n` lines.
pub open spec fn ctx_hi(tag: int, n: int) -> int {
    if tag + 2 <= n - 1 {
        tag + 2
    } else {
        n - 1
    }
}

/// The indices of the lines that contain the pattern, in ascending order.
pub open spec fn match_tags(pat: Seq<char>, lines: Seq<Seq<char>>) -> Seq<int>
    decreases lines.len(),
{
    if lines.len() == 0 {
        Seq::empty()
    } else {
        let front = match_tags(pat, lines.drop_last());
        if contains_seq(lines.last(), pat) {
            front.push(lines.len() - 1)
        } else {
            front
        }
    }
}

/// Searches for a pattern and returns, for each line that contains it, the
/// window of up to two lines of context on either side, each line paired
/// with its index.
pub fn grep_internal_2(pattern: &str, text: &str) -> (r: Vec<Vec<(usize, String)>>)
    ensures
        ({
            let lines = lines_of(text@);
            let tags = match_tags(pattern@, lines);
            &&& r@.len() == tags.len()
            &&& forall|j: int|
                0 <= j < tags.len() ==> (#[trigger] r@[j])@.len() == ctx_hi(
                    tags[j],
                    lines.len() as int,
                ) + 1 - ctx_lo(tags[j])
            &&& forall|j: int, k: int|
                0 <= j < tags.len() && 0 <= k < r@[j]@.len() ==> (#[trigger] r@[j]@[k]).0 as int
                    == ctx_lo(tags[j]) + k && r@[j]@[k].1@ == lines[ctx_lo(tags[j]) + k]
        }),
{
    let lines = split_lines(text);
    let ghost lv = lines.deep_view();
    let n = lines.len();
    let mut tags: Vec<usize> = Vec::new();
    let mut i: usize = 0;
    proof {
        assert(lv.take(0) =~= Seq::<Seq<char>>::empty());
    }
    while i < n
        invariant
            i <= n,
            n == lv.len(),
            lv == lines.deep_view(),
            n == lines@.len(),
            tags@.len() == match_tags(pattern@, lv.take(i as int)).len(),
            forall|k: int|
                0 <= k < tags@.len() ==> #[trigger] tags@[k] as int == match_tags(
                    pattern@,
                    lv.take(i as int),
                )[k],
            forall|k: int| 0 <= k < tags@.len() ==> #[trigger] tags@[k] < i,
        decreases n - i,
    {
        let ghost front = match_tags(pattern@, lv.take(i as int));
        proof {
            assert(lv.take(i + 1).drop_last() =~= lv.take(i as int));
            assert(lv.take(i + 1).last() == lv[i as int]);
        }
        if str_contains(lines[i].as_str(), pattern) {
            tags.push(i);
            proof {
                assert(match_tags(pattern@, lv.take(i + 1)) == front.push(i as int));
            }
        } else {
            proof {
                assert(match_tags(pattern@, lv.take(i + 1)) == front);
            }
        }
        i = i + 1;
    }
    proof {
        assert(lv.take(n as int) =~= lv);
    }
    let ghost tg = match_tags(pattern@, lv);
    let mut ctx: Vec<Vec<(usize, String)>> = Vec::new();
    let mut j: usize = 0;
    let n_tags = tags.len();
    while j < n_tags
        invariant
            j <= n_tags,
            n_tags == tags@.len(),
            tags@.len() == tg.len(),
            n == lv.len(),
            lv == lines.deep_view(),
            n == lines@.len(),
            forall|k: int| 0 <= k < tags@.len() ==> #[trigger] tags@[k] as int == tg[k],
            forall|k: int| 0 <= k < tags@.len() ==> #[trigger] tags@[k] < n,
            ctx@.len() == j,
            forall|q: int|
                0 <= q < j ==> (#[trigger] ctx@[q])@.len() == ctx_hi(tg[q], n as int) + 1 - ctx_lo(
                    tg[q],
                ),
            forall|q: int, k: int|
                0 <= q < j && 0 <= k < ctx@[q]@.len() ==> (#[trigger] ctx@[q]@[k]).0 as int
                    == ctx_lo(tg[q]) + k && ctx@[q]@[k].1@ == lv[ctx_lo(tg[q]) + k],
        decreases n_tags - j,
    {
        let tag = tags[j];
        let lo = if tag >= 2 {
            tag - 2
        } else {
            0
        };
        let hi = if n - 1 - tag <= 2 {
            n - 1
        } else {
            tag + 2
        };
        proof {
            assert(lo as int == ctx_lo(tg[j as int]));
            assert(hi as int == ctx_hi(tg[j as int], n as int));
        }
        let mut row: Vec<(usize, String)> = Vec::new();
        let mut idx = lo;
        while idx <= hi
            invariant
                lo <= idx <= hi + 1,
                hi < n,
                n == lv.len(),
                lv == lines.deep_view(),
                n == lines@.len(),
                row@.len() == idx - lo,
                forall|k: int|
                    0 <= k < row@.len() ==> (#[trigger] row@[k]).0 as int == lo + k
                        && row@[k].1@ == lv[lo + k],
            decreases hi - idx + 1,
        {
            let line = lines[idx].clone();
            proof {
                assert(lv[idx as int] == lines@[idx as int]@);
            }
            row.push((idx, line));
            idx = idx + 1;
        }
        ctx.push(row);
        j = j + 1;
    }
    proof {
        assert(lv =~= lines_of(text@));
    }
    ctx
}

} // verus!
