use vstd::prelude::*;
use vstd::string::*;
use crate::error::JuliaupError;

verus! {

/// The pattern `pat` occurs in `hay` starting at position `i`.
pub open spec fn occurs_at(hay: Seq<char>, pat: Seq<char>, i: int) -> bool {
    0 <= i && i + pat.len() <= hay.len() && hay.subrange(i, i + pat.len()) == pat
}

/// Number of occurrence positions of `pat` in `hay` that are below `m`.
pub open spec fn count_upto(hay: Seq<char>, pat: Seq<char>, m: int) -> nat
    decreases m,
{
    if m <= 0 {
        0
    } else {
        count_upto(hay, pat, m - 1) + (if occurs_at(hay, pat, m - 1) {
            1nat
        } else {
            0
        })
    }
}

/// Total number of occurrences of `pat` in `hay`.
pub open spec fn num_occ(hay: Seq<char>, pat: Seq<char>) -> nat {
    count_upto(hay, pat, hay.len() - pat.len() + 1)
}

/// First occurrence position of `pat` in `hay` at or after `i`; -1 when
/// there is none.
pub open spec fn first_occ_from(hay: Seq<char>, pat: Seq<char>, i: int) -> int
    decreases hay.len() + 1 - i,
{
    if i < 0 || i + pat.len() > hay.len() {
        -1
    } else if occurs_at(hay, pat, i) {
        i
    } else {
        first_occ_from(hay, pat, i + 1)
    }
}

/// First occurrence position of `pat` in `hay`; -1 when there is none.
pub open spec fn first_occ(hay: Seq<char>, pat: Seq<char>) -> int {
    first_occ_from(hay, pat, 0)
}

/// `s` contains no newline character.
pub open spec fn no_newline(s: Seq<char>) -> bool {
    forall|j: int| 0 <= j < s.len() ==> s[j] != '\n'
}

/// Start marker of the managed block in a shell startup file.
pub open spec fn spec_start_marker() -> Seq<char> {
    "# >>> juliaup initialize >>>"@
}

/// End marker of the managed block in a shell startup file.
pub open spec fn spec_end_marker() -> Seq<char> {
    "# <<< juliaup initialize <<<"@
}

/// Start marker preceded by a newline, preferred by removal so that no
/// stray blank line is left behind.
pub open spec fn spec_nl_start_marker() -> Seq<char> {
    "\n"@ + spec_start_marker()
}

/// End marker followed by a newline.
pub open spec fn spec_end_marker_nl() -> Seq<char> {
    spec_end_marker() + "\n"@
}

pub fn start_marker() -> (r: &'static str)
    ensures
        r@ == spec_start_marker(),
{
    "# >>> juliaup initialize >>>"
}

pub fn end_marker() -> (r: &'static str)
    ensures
        r@ == spec_end_marker(),
{
    "# <<< juliaup initialize <<<"
}

/// Shape facts about the two marker strings that the reasoning below needs:
/// both are non-empty, neither contains a newline, and they differ.
pub proof fn lemma_marker_shape()
    ensures
        spec_start_marker().len() == 28,
        spec_end_marker().len() == 28,
        spec_nl_start_marker().len() == 29,
        spec_end_marker_nl().len() == 29,
        spec_nl_start_marker()[0] == '\n',
        spec_end_marker_nl()[28] == '\n',
        no_newline(spec_start_marker()),
        no_newline(spec_end_marker()),
        spec_start_marker() != spec_end_marker(),
{
    reveal_strlit("# >>> juliaup initialize >>>");
    reveal_strlit("# <<< juliaup initialize <<<");
    reveal_strlit("\n");
    assert(spec_start_marker().len() == 28);
    assert(spec_end_marker().len() == 28);
    assert(spec_start_marker()[2] == '>');
    assert(spec_end_marker()[2] == '<');
    assert forall|j: int| 0 <= j < spec_start_marker().len() implies spec_start_marker()[j]
        != '\n' by {
        let s = spec_start_marker();
        assert(s[j] != '\n');
    }
    assert forall|j: int| 0 <= j < spec_end_marker().len() implies spec_end_marker()[j]
        != '\n' by {
        let s = spec_end_marker();
        assert(s[j] != '\n');
    }
}

fn char_at(s: &str, i: usize) -> (c: char)
    requires
        i < s@.len(),
    ensures
        c == s@[i as int],
{
    s.get_char(i)
}

/// Decides whether `pat` occurs in `buffer` at position `i`.
fn occurs_here(buffer: &str, pat: &str, i: usize) -> (r: bool)
    requires
        i + pat@.len() <= buffer@.len(),
        buffer@.len() <= usize::MAX,
    ensures
        r == occurs_at(buffer@, pat@, i as int),
{
    let plen = pat.unicode_len();
    for j in 0..plen
        invariant
            plen == pat@.len(),
            i + plen <= buffer@.len(),
            buffer@.len() <= usize::MAX,
            forall|j2: int| 0 <= j2 < j ==> buffer@[i + j2] == pat@[j2],
    {
        let cb = char_at(buffer, i + j);
        let cp = char_at(pat, j);
        if cb != cp {
            proof {
                let sub = buffer@.subrange(i as int, i + pat@.len());
                assert(sub[j as int] == buffer@[i + j]);
            }
            return false;
        }
    }
    proof {
        assert(buffer@.subrange(i as int, i + pat@.len()) =~= pat@);
    }
    true
}

/// Counts the occurrences of `pat` in `buffer` and reports the first
/// occurrence position (0 when there is none).
fn scan(buffer: &str, pat: &str) -> (r: (usize, usize))
    requires
        pat@.len() >= 1,
    ensures
        r.0 == num_occ(buffer@, pat@),
        r.0 > 0 ==> r.1 == first_occ(buffer@, pat@) && occurs_at(buffer@, pat@, r.1 as int),
{
    let blen = buffer.unicode_len();
    let plen = pat.unicode_len();
    let mut count: usize = 0;
    let mut first: usize = 0;
    if plen > blen {
        return (0, 0);
    }
    let mut i: usize = 0;
    while i <= blen - plen
        invariant
            blen == buffer@.len(),
            plen == pat@.len(),
            plen >= 1,
            plen <= blen,
            i <= blen - plen + 1,
            count <= i,
            count == count_upto(buffer@, pat@, i as int),
            count > 0 ==> {
                &&& first < i
                &&& occurs_at(buffer@, pat@, first as int)
                &&& first_occ(buffer@, pat@) == first
            },
            count == 0 ==> first_occ_from(buffer@, pat@, 0) == first_occ_from(
                buffer@,
                pat@,
                i as int,
            ),
        decreases blen - i,
    {
        proof {
            assert(buffer@.len() <= usize::MAX);
        }
        let here = occurs_here(buffer, pat, i);
        if here {
            if count == 0 {
                first = i;
                proof {
                    assert(first_occ_from(buffer@, pat@, i as int) == i as int);
                }
            }
            count = count + 1;
        }
        i = i + 1;
    }
    proof {
        assert(i == blen - plen + 1);
        assert(num_occ(buffer@, pat@) == count_upto(buffer@, pat@, i as int));
    }
    (count, first)
}

/// Start of the block found in `buf`: the start-marker occurrence, or the
/// newline-preceded one when removal may take the surrounding newline.
pub open spec fn spec_block_start(buf: Seq<char>, include_newlines: bool) -> int {
    if include_newlines && num_occ(buf, spec_nl_start_marker()) == 1 {
        first_occ(buf, spec_nl_start_marker())
    } else {
        first_occ(buf, spec_start_marker())
    }
}

/// End of the block found in `buf`: one past the end marker, or past its
/// trailing newline when removal may take it.
pub open spec fn spec_block_end(buf: Seq<char>, include_newlines: bool) -> int {
    if include_newlines && num_occ(buf, spec_end_marker_nl()) == 1 {
        first_occ(buf, spec_end_marker_nl()) + spec_end_marker().len() + 1
    } else {
        first_occ(buf, spec_end_marker()) + spec_end_marker().len()
    }
}

/// Locates the marker-delimited block in `buffer`. Mismatched marker counts
/// and more than one start marker are corruption, surfaced as errors rather
/// than guessed at; a single block yields its character range, and a clean
/// buffer yields nothing. With `include_newlines`, the range prefers to take
/// one newline before the start marker and one after the end marker.
pub fn match_markers(buffer: &str, include_newlines: bool) -> (r: Result<
    Option<(usize, usize)>,
    JuliaupError,
>)
    ensures
        match r {
            Err(JuliaupError::MarkerCountMismatch) => num_occ(buffer@, spec_start_marker())
                != num_occ(buffer@, spec_end_marker()),
            Err(JuliaupError::MultipleStartMarkers) => {
                &&& num_occ(buffer@, spec_start_marker()) == num_occ(buffer@, spec_end_marker())
                &&& num_occ(buffer@, spec_start_marker()) > 1
            },
            Err(_) => false,
            Ok(None) => {
                &&& num_occ(buffer@, spec_start_marker()) == 0
                &&& num_occ(buffer@, spec_end_marker()) == 0
            },
            Ok(Some((a, b))) => {
                &&& num_occ(buffer@, spec_start_marker()) == 1
                &&& num_occ(buffer@, spec_end_marker()) == 1
                &&& a == spec_block_start(buffer@, include_newlines)
                &&& b == spec_block_end(buffer@, include_newlines)
            },
        },
{
    proof {
        lemma_marker_shape();
    }
    let blen = buffer.unicode_len();
    let s_marker = start_marker();
    let e_marker = end_marker();
    let (ns, s_first) = scan(buffer, s_marker);
    let (ne, e_first) = scan(buffer, e_marker);
    if ns != ne {
        return Err(JuliaupError::MarkerCountMismatch);
    }
    if ns > 1 {
        return Err(JuliaupError::MultipleStartMarkers);
    }
    if ns == 1 {
        let mut start_pos = s_first;
        proof {
            assert(e_first + spec_end_marker().len() <= blen);
        }
        let mut end_pos = e_first + 28;
        if include_newlines {
            let mut nl_start = String::from_str("\n");
            nl_start.append(s_marker);
            let (ns_nl, s_nl_first) = scan(buffer, nl_start.as_str());
            if ns_nl == 1 {
                start_pos = s_nl_first;
            }
            let mut e_nl = String::from_str(e_marker);
            e_nl.append("\n");
            let (ne_nl, e_nl_first) = scan(buffer, e_nl.as_str());
            if ne_nl == 1 {
                proof {
                    assert(e_nl_first + spec_end_marker_nl().len() <= blen);
                }
                end_pos = e_nl_first + 29;
            }
        }
        Ok(Some((start_pos, end_pos)))
    } else {
        Ok(None)
    }
}

/// A positive occurrence count means there is an occurrence.
proof fn lemma_count_pos_has_occurrence(hay: Seq<char>, pat: Seq<char>, m: int)
    requires
        count_upto(hay, pat, m) >= 1,
    ensures
        exists|i: int| 0 <= i < m && occurs_at(hay, pat, i),
    decreases m,
{
    if m > 0 {
        if occurs_at(hay, pat, m - 1) {
        } else {
            lemma_count_pos_has_occurrence(hay, pat, m - 1);
        }
    }
}

/// When an occurrence exists at or beyond `i`, `first_occ_from` yields the
/// least such occurrence position.
proof fn lemma_first_from_finds(hay: Seq<char>, pat: Seq<char>, i: int, w: int)
    requires
        0 <= i <= w,
        occurs_at(hay, pat, w),
    ensures
        i <= first_occ_from(hay, pat, i) <= w,
        occurs_at(hay, pat, first_occ_from(hay, pat, i)),
        forall|j: int| i <= j < first_occ_from(hay, pat, i) ==> !occurs_at(hay, pat, j),
    decreases w - i,
{
    if !occurs_at(hay, pat, i) {
        lemma_first_from_finds(hay, pat, i + 1, w);
    }
}

/// The first occurrence of a pattern that occurs at all is a valid
/// occurrence position, and the least one.
pub proof fn lemma_first_occ_valid(hay: Seq<char>, pat: Seq<char>)
    requires
        num_occ(hay, pat) >= 1,
    ensures
        0 <= first_occ(hay, pat),
        first_occ(hay, pat) + pat.len() <= hay.len(),
        occurs_at(hay, pat, first_occ(hay, pat)),
        forall|j: int| 0 <= j < first_occ(hay, pat) ==> !occurs_at(hay, pat, j),
{
    lemma_count_pos_has_occurrence(hay, pat, hay.len() - pat.len() + 1);
    let w = choose|i: int| 0 <= i < hay.len() - pat.len() + 1 && occurs_at(hay, pat, i);
    lemma_first_from_finds(hay, pat, 0, w);
}

/// Replaces the marker block of `buffer` with `new_content`, or appends a
/// fresh block framed by blank lines when the buffer has none. The whole
/// new buffer content is returned; nothing is written here.
pub fn apply_block(buffer: &str, new_content: &str) -> (r: Result<String, JuliaupError>)
    ensures
        match r {
            Ok(out) => {
                &&& num_occ(buffer@, spec_start_marker()) == num_occ(buffer@, spec_end_marker())
                &&& num_occ(buffer@, spec_start_marker()) <= 1
                &&& (num_occ(buffer@, spec_start_marker()) == 0 ==> out@ == buffer@ + "\n"@
                    + new_content@ + "\n"@)
                &&& (num_occ(buffer@, spec_start_marker()) == 1 ==> {
                    let a = spec_block_start(buffer@, false);
                    let b = spec_block_end(buffer@, false);
                    &&& 0 <= a <= b <= buffer@.len()
                    &&& out@ == buffer@.subrange(0, a) + new_content@ + buffer@.subrange(
                        b,
                        buffer@.len() as int,
                    )
                })
            },
            Err(JuliaupError::MarkerCountMismatch) => num_occ(buffer@, spec_start_marker())
                != num_occ(buffer@, spec_end_marker()),
            Err(JuliaupError::MultipleStartMarkers) => {
                &&& num_occ(buffer@, spec_start_marker()) == num_occ(buffer@, spec_end_marker())
                &&& num_occ(buffer@, spec_start_marker()) > 1
            },
            Err(JuliaupError::MarkersOutOfOrder) => {
                &&& num_occ(buffer@, spec_start_marker()) == 1
                &&& num_occ(buffer@, spec_end_marker()) == 1
                &&& spec_block_end(buffer@, false) < spec_block_start(buffer@, false)
            },
            Err(_) => false,
        },
{
    let blen = buffer.unicode_len();
    match match_markers(buffer, false) {
        Err(e) => Err(e),
        Ok(None) => {
            let mut out = buffer.to_owned();
            out.append("\n");
            out.append(new_content);
            out.append("\n");
            Ok(out)
        },
        Ok(Some((a, b))) => {
            proof {
                lemma_marker_shape();
                lemma_first_occ_valid(buffer@, spec_end_marker());
                lemma_first_occ_valid(buffer@, spec_start_marker());
            }
            if b < a {
                return Err(JuliaupError::MarkersOutOfOrder);
            }
            let head = buffer.substring_char(0, a);
            let tail = buffer.substring_char(b, blen);
            let mut out = head.to_owned();
            out.append(new_content);
            out.append(tail);
            Ok(out)
        },
    }
}

/// Removes the marker block of `buffer`, preferring a match that takes the
/// adjacent newlines so no stray blank lines are left. Yields the new
/// buffer content, or nothing when the buffer has no block (a silent no-op
/// for the caller).
pub fn remove_block(buffer: &str) -> (r: Result<Option<String>, JuliaupError>)
    ensures
        match r {
            Ok(None) => {
                &&& num_occ(buffer@, spec_start_marker()) == 0
                &&& num_occ(buffer@, spec_end_marker()) == 0
            },
            Ok(Some(out)) => {
                &&& num_occ(buffer@, spec_start_marker()) == 1
                &&& num_occ(buffer@, spec_end_marker()) == 1
                &&& {
                    let a = spec_block_start(buffer@, true);
                    let b = spec_block_end(buffer@, true);
                    &&& 0 <= a <= b <= buffer@.len()
                    &&& out@ == buffer@.subrange(0, a) + buffer@.subrange(
                        b,
                        buffer@.len() as int,
                    )
                }
            },
            Err(JuliaupError::MarkerCountMismatch) => num_occ(buffer@, spec_start_marker())
                != num_occ(buffer@, spec_end_marker()),
            Err(JuliaupError::MultipleStartMarkers) => {
                &&& num_occ(buffer@, spec_start_marker()) == num_occ(buffer@, spec_end_marker())
                &&& num_occ(buffer@, spec_start_marker()) > 1
            },
            Err(JuliaupError::MarkersOutOfOrder) => {
                &&& num_occ(buffer@, spec_start_marker()) == 1
                &&& num_occ(buffer@, spec_end_marker()) == 1
                &&& spec_block_end(buffer@, true) < spec_block_start(buffer@, true)
            },
            Err(_) => false,
        },
{
    let blen = buffer.unicode_len();
    match match_markers(buffer, true) {
        Err(e) => Err(e),
        Ok(None) => Ok(None),
        Ok(Some((a, b))) => {
            proof {
                lemma_marker_shape();
                lemma_first_occ_valid(buffer@, spec_end_marker());
                lemma_first_occ_valid(buffer@, spec_start_marker());
                if num_occ(buffer@, spec_nl_start_marker()) == 1 {
                    lemma_first_occ_valid(buffer@, spec_nl_start_marker());
                }
                if num_occ(buffer@, spec_end_marker_nl()) == 1 {
                    lemma_first_occ_valid(buffer@, spec_end_marker_nl());
                }
            }
            if b < a {
                return Err(JuliaupError::MarkersOutOfOrder);
            }
            let head = buffer.substring_char(0, a);
            let tail = buffer.substring_char(b, blen);
            let mut out = head.to_owned();
            out.append(tail);
            Ok(Some(out))
        },
    }
}


/// An occurrence wholly inside the left part of a concatenation is an
/// occurrence of the left part, and conversely.
proof fn lemma_occ_left(a: Seq<char>, b: Seq<char>, pat: Seq<char>, i: int)
    requires
        0 <= i,
        i + pat.len() <= a.len(),
    ensures
        occurs_at(a + b, pat, i) == occurs_at(a, pat, i),
{
    assert((a + b).subrange(i, i + pat.len()) =~= a.subrange(i, i + pat.len()));
}

/// An occurrence wholly inside the right part of a concatenation is an
/// occurrence of the right part, shifted.
proof fn lemma_occ_right(a: Seq<char>, b: Seq<char>, pat: Seq<char>, i: int)
    requires
        i >= a.len(),
        i + pat.len() <= a.len() + b.len(),
    ensures
        occurs_at(a + b, pat, i) == occurs_at(b, pat, i - a.len()),
{
    assert((a + b).subrange(i, i + pat.len()) =~= b.subrange(i - a.len(), i - a.len() + pat.len()));
}

/// A newline-free pattern cannot straddle a boundary that starts with a
/// newline.
proof fn lemma_no_span(a: Seq<char>, b: Seq<char>, pat: Seq<char>, i: int)
    requires
        no_newline(pat),
        b.len() > 0,
        b[0] == '\n',
        0 <= i < a.len(),
        i + pat.len() > a.len(),
        i + pat.len() <= a.len() + b.len(),
    ensures
        !occurs_at(a + b, pat, i),
{
    if occurs_at(a + b, pat, i) {
        let sub = (a + b).subrange(i, i + pat.len());
        assert(sub[a.len() - i] == (a + b)[a.len() as int]);
        assert(pat[a.len() - i] == '\n');
    }
}

/// Counts agree whenever the occurrence predicates agree below the bound.
proof fn lemma_count_agree(h1: Seq<char>, h2: Seq<char>, pat: Seq<char>, m: int)
    requires
        forall|i: int| 0 <= i < m ==> occurs_at(h1, pat, i) == occurs_at(h2, pat, i),
    ensures
        count_upto(h1, pat, m) == count_upto(h2, pat, m),
    decreases m,
{
    if m > 0 {
        lemma_count_agree(h1, h2, pat, m - 1);
    }
}

/// Counting beyond a region without occurrences does not change the count.
proof fn lemma_count_stable(h: Seq<char>, pat: Seq<char>, m1: int, m2: int)
    requires
        0 <= m1 <= m2,
        forall|i: int| m1 <= i < m2 ==> !occurs_at(h, pat, i),
    ensures
        count_upto(h, pat, m2) == count_upto(h, pat, m1),
    decreases m2 - m1,
{
    if m2 > m1 {
        lemma_count_stable(h, pat, m1, m2 - 1);
    }
}

/// Counting a shifted window equals counting the window's own sequence.
proof fn lemma_count_offset(h: Seq<char>, h2: Seq<char>, pat: Seq<char>, off: int, m: int)
    requires
        0 <= off,
        0 <= m,
        forall|i: int| 0 <= i < m ==> occurs_at(h, pat, off + i) == occurs_at(h2, pat, i),
    ensures
        count_upto(h, pat, off + m) == count_upto(h, pat, off) + count_upto(h2, pat, m),
    decreases m,
{
    if m > 0 {
        lemma_count_offset(h, h2, pat, off, m - 1);
    }
}

/// Occurrences of a newline-free pattern split cleanly over a boundary
/// that starts with a newline.
pub proof fn lemma_count_split(a: Seq<char>, b: Seq<char>, pat: Seq<char>)
    requires
        pat.len() >= 1,
        no_newline(pat),
        b.len() > 0,
        b[0] == '\n',
    ensures
        num_occ(a + b, pat) == num_occ(a, pat) + num_occ(b, pat),
{
    let la = a.len() as int;
    let lb = b.len() as int;
    let lp = pat.len() as int;
    let lall = la + lb;
    let m_end = lall - lp + 1;
    assert forall|i: int| 0 <= i < la implies occurs_at(a + b, pat, i) == occurs_at(
        a,
        pat,
        i,
    ) by {
        if i + lp <= la {
            lemma_occ_left(a, b, pat, i);
        } else {
            if i + lp <= lall {
                lemma_no_span(a, b, pat, i);
            }
        }
    }
    lemma_count_agree(a + b, a, pat, la);
    assert forall|i: int| la - lp + 1 <= i < la && 0 <= i implies !occurs_at(a, pat, i) by {}
    if la - lp + 1 >= 0 {
        lemma_count_stable(a, pat, la - lp + 1, la);
    } else {
        lemma_count_stable(a, pat, 0, la);
    }
    if m_end < 0 {
        assert(num_occ(a + b, pat) == 0);
        assert(num_occ(a, pat) == 0);
        assert(num_occ(b, pat) == 0);
    } else if m_end <= la {
        // the right part is shorter than the pattern
        assert(num_occ(b, pat) == 0);
        assert forall|i: int| m_end <= i < la implies !occurs_at(a + b, pat, i) by {}
        lemma_count_stable(a + b, pat, m_end, la);
    } else {
        assert forall|i: int| 0 <= i < m_end - la implies occurs_at(a + b, pat, la + i)
            == occurs_at(b, pat, i) by {
            lemma_occ_right(a, b, pat, la + i);
        }
        lemma_count_offset(a + b, b, pat, la, m_end - la);
    }
}

/// Occurrences of a newline-free pattern split cleanly over a boundary
/// whose left side ends with a newline.
pub proof fn lemma_count_split_left(a: Seq<char>, b: Seq<char>, pat: Seq<char>)
    requires
        pat.len() >= 1,
        no_newline(pat),
        a.len() > 0,
        a.last() == '\n',
    ensures
        num_occ(a + b, pat) == num_occ(a, pat) + num_occ(b, pat),
{
    let la = a.len() as int;
    let lb = b.len() as int;
    let lp = pat.len() as int;
    let m_end = la + lb - lp + 1;
    assert forall|i: int| 0 <= i < la implies occurs_at(a + b, pat, i) == occurs_at(
        a,
        pat,
        i,
    ) by {
        if i + lp <= la {
            lemma_occ_left(a, b, pat, i);
        } else {
            if occurs_at(a + b, pat, i) {
                let sub = (a + b).subrange(i, i + lp);
                assert(sub[la - 1 - i] == (a + b)[la - 1]);
                assert(pat[la - 1 - i] == '\n');
            }
        }
    }
    lemma_count_agree(a + b, a, pat, la);
    if la - lp + 1 >= 0 {
        lemma_count_stable(a, pat, la - lp + 1, la);
    } else {
        lemma_count_stable(a, pat, 0, la);
    }
    if m_end < 0 {
        assert(num_occ(a + b, pat) == 0);
        assert(num_occ(a, pat) == 0);
        assert(num_occ(b, pat) == 0);
    } else if m_end <= la {
        assert(num_occ(b, pat) == 0);
        assert forall|i: int| m_end <= i < la implies !occurs_at(a + b, pat, i) by {}
        lemma_count_stable(a + b, pat, m_end, la);
    } else {
        assert forall|i: int| 0 <= i < m_end - la implies occurs_at(a + b, pat, la + i)
            == occurs_at(b, pat, i) by {
            lemma_occ_right(a, b, pat, la + i);
        }
        lemma_count_offset(a + b, b, pat, la, m_end - la);
    }
}

/// An occurrence below the bound makes the count positive.
proof fn lemma_occ_counts(h: Seq<char>, pat: Seq<char>, w: int, m: int)
    requires
        occurs_at(h, pat, w),
        w < m,
    ensures
        count_upto(h, pat, m) >= 1,
    decreases m,
{
    if w < m - 1 {
        lemma_occ_counts(h, pat, w, m - 1);
    }
}

/// With two distinct occurrences the count is at least two.
proof fn lemma_two_occ_count(h: Seq<char>, pat: Seq<char>, w1: int, w2: int, m: int)
    requires
        occurs_at(h, pat, w1),
        occurs_at(h, pat, w2),
        w1 < w2 < m,
    ensures
        count_upto(h, pat, m) >= 2,
    decreases m,
{
    if w2 < m - 1 {
        lemma_two_occ_count(h, pat, w1, w2, m - 1);
    } else {
        lemma_occ_counts(h, pat, w1, m - 1);
    }
}

/// A pattern that occurs exactly once occurs only at its first position.
pub proof fn lemma_occ_unique(h: Seq<char>, pat: Seq<char>, w: int)
    requires
        num_occ(h, pat) == 1,
        occurs_at(h, pat, w),
    ensures
        forall|j: int| j != w ==> !occurs_at(h, pat, j),
        first_occ(h, pat) == w,
{
    assert forall|j: int| j != w implies !occurs_at(h, pat, j) by {
        if occurs_at(h, pat, j) {
            if j < w {
                lemma_two_occ_count(h, pat, j, w, h.len() - pat.len() + 1);
            } else {
                lemma_two_occ_count(h, pat, w, j, h.len() - pat.len() + 1);
            }
        }
    }
    lemma_first_occ_valid(h, pat);
    if first_occ(h, pat) != w {
        assert(!occurs_at(h, pat, first_occ(h, pat)));
    }
}

/// A pattern that occurs at exactly one position occurs exactly once.
pub proof fn lemma_count_single(h: Seq<char>, pat: Seq<char>, w: int)
    requires
        occurs_at(h, pat, w),
        forall|j: int| j != w ==> !occurs_at(h, pat, j),
    ensures
        num_occ(h, pat) == 1,
        first_occ(h, pat) == w,
{
    lemma_count_stable(h, pat, 0, w);
    assert(count_upto(h, pat, w + 1) == count_upto(h, pat, w) + 1);
    assert(w + pat.len() <= h.len());
    lemma_count_stable(h, pat, w + 1, h.len() - pat.len() + 1);
    lemma_first_occ_valid(h, pat);
    if first_occ(h, pat) != w {
        assert(!occurs_at(h, pat, first_occ(h, pat)));
    }
}

/// An occurrence of a concatenated pattern is an occurrence of its prefix,
/// and of its suffix, at the matching positions.
proof fn lemma_occ_parts(h: Seq<char>, x: Seq<char>, y: Seq<char>, i: int)
    requires
        occurs_at(h, x + y, i),
    ensures
        occurs_at(h, x, i),
        occurs_at(h, y, i + x.len()),
{
    let sub = h.subrange(i, i + x.len() + y.len());
    assert(h.subrange(i, i + x.len()) =~= x) by {
        assert forall|j: int| 0 <= j < x.len() implies h.subrange(i, i + x.len())[j] == x[j] by {
            assert(sub[j] == (x + y)[j]);
        }
    }
    assert(h.subrange(i + x.len(), i + x.len() + y.len()) =~= y) by {
        assert forall|j: int| 0 <= j < y.len() implies h.subrange(
            i + x.len(),
            i + x.len() + y.len(),
        )[j] == y[j] by {
            assert(sub[x.len() + j] == (x + y)[x.len() + j]);
        }
    }
}

/// Applying the startup block to a buffer that holds no markers appends
/// one block; applying it again replaces exactly that block with the same
/// content, so the buffer after the second application equals the buffer
/// after the first: the application is idempotent. The preconditions say
/// that the block content itself frames exactly one start and one end
/// marker, as the generated content does.
pub proof fn lemma_apply_idempotent(buffer: Seq<char>, content: Seq<char>)
    requires
        num_occ(buffer, spec_start_marker()) == 0,
        num_occ(buffer, spec_end_marker()) == 0,
        num_occ(content, spec_start_marker()) == 1,
        num_occ(content, spec_end_marker()) == 1,
        occurs_at(content, spec_start_marker(), 0),
        occurs_at(content, spec_end_marker(), content.len() - spec_end_marker().len()),
    ensures
        ({
            let once = buffer + "\n"@ + content + "\n"@;
            &&& num_occ(once, spec_start_marker()) == 1
            &&& num_occ(once, spec_end_marker()) == 1
            &&& spec_block_start(once, false) == buffer.len() + 1
            &&& spec_block_end(once, false) == buffer.len() + 1 + content.len()
            &&& once.subrange(0, spec_block_start(once, false)) + content + once.subrange(
                spec_block_end(once, false),
                once.len() as int,
            ) == once
        }),
{
    lemma_marker_shape();
    reveal_strlit("\n");
    let s_m = spec_start_marker();
    let e_m = spec_end_marker();
    let tail = "\n"@ + content + "\n"@;
    let once = buffer + "\n"@ + content + "\n"@;
    let lb = buffer.len() as int;
    let lc = content.len() as int;
    assert(once =~= buffer + tail);
    // exactly one start and one end marker in the whole buffer
    assert(num_occ(tail, s_m) == 1 && first_occ(tail, s_m) == 1) by {
        lemma_count_split_left("\n"@, content + "\n"@, s_m);
        assert("\n"@ + (content + "\n"@) =~= tail);
        assert(num_occ("\n"@, s_m) == 0);
        assert(num_occ(content + "\n"@, s_m) == num_occ(content, s_m)) by {
            assert forall|i: int| 0 <= i < content.len() - s_m.len() + 1 implies occurs_at(
                content + "\n"@,
                s_m,
                i,
            ) == occurs_at(content, s_m, i) by {
                lemma_occ_left(content, "\n"@, s_m, i);
            }
            assert forall|i: int|
                content.len() - s_m.len() + 1 <= i < (content + "\n"@).len() - s_m.len() + 1 && 0
                    <= i implies !occurs_at(content + "\n"@, s_m, i) by {
                if i < content.len() {
                    lemma_no_span(content, "\n"@, s_m, i);
                }
            }
            lemma_count_agree(content + "\n"@, content, s_m, content.len() - s_m.len() + 1);
            if content.len() - s_m.len() + 1 >= 0 {
                lemma_count_stable(
                    content + "\n"@,
                    s_m,
                    content.len() - s_m.len() + 1,
                    (content + "\n"@).len() - s_m.len() + 1,
                );
            }
        }
        lemma_occ_unique(content, s_m, 0);
        assert(occurs_at(tail, s_m, 1)) by {
            assert(tail.subrange(1, 1 + s_m.len() as int) =~= content.subrange(0, s_m.len() as int));
        }
        assert forall|j: int| j != 1 implies !occurs_at(tail, s_m, j) by {
            if occurs_at(tail, s_m, j) {
                if j == 0 {
                    assert(tail.subrange(0, s_m.len() as int)[0] == '\n');
                    assert(s_m[0] == '\n');
                } else if j <= lc + 1 - s_m.len() {
                    assert(occurs_at(content, s_m, j - 1)) by {
                        assert(tail.subrange(j, j + s_m.len()) =~= content.subrange(
                            j - 1,
                            j - 1 + s_m.len(),
                        ));
                    }
                } else {
                    // straddles or lies on the final newline
                    assert(tail.subrange(j, j + s_m.len())[lc + 1 - j] == tail[lc + 1]);
                    assert(tail[lc + 1] == '\n');
                    assert(s_m[lc + 1 - j] == '\n');
                }
            }
        }
        lemma_count_single(tail, s_m, 1);
    }
    assert(num_occ(tail, e_m) == 1 && first_occ(tail, e_m) == 1 + lc - e_m.len()) by {
        assert(occurs_at(tail, e_m, 1 + lc - e_m.len())) by {
            assert(tail.subrange(1 + lc - e_m.len(), 1 + lc) =~= content.subrange(
                lc - e_m.len(),
                lc,
            ));
        }
        lemma_occ_unique(content, e_m, lc - e_m.len());
        assert forall|j: int| j != 1 + lc - e_m.len() implies !occurs_at(tail, e_m, j) by {
            if occurs_at(tail, e_m, j) {
                if j == 0 {
                    assert(tail.subrange(0, e_m.len() as int)[0] == '\n');
                    assert(e_m[0] == '\n');
                } else if j <= lc + 1 - e_m.len() {
                    assert(occurs_at(content, e_m, j - 1)) by {
                        assert(tail.subrange(j, j + e_m.len()) =~= content.subrange(
                            j - 1,
                            j - 1 + e_m.len(),
                        ));
                    }
                } else {
                    assert(tail.subrange(j, j + e_m.len())[lc + 1 - j] == tail[lc + 1]);
                    assert(tail[lc + 1] == '\n');
                    assert(e_m[lc + 1 - j] == '\n');
                }
            }
        }
        lemma_count_single(tail, e_m, 1 + lc - e_m.len());
    }
    assert(tail.len() > 0 && tail[0] == '\n');
    lemma_count_split(buffer, tail, s_m);
    lemma_count_split(buffer, tail, e_m);
    assert(num_occ(once, s_m) == 1);
    assert(num_occ(once, e_m) == 1);
    // position of the one start marker: buffer.len() + 1
    assert(occurs_at(once, s_m, lb + 1)) by {
        lemma_occ_right(buffer, tail, s_m, lb + 1);
        lemma_first_occ_valid(tail, s_m);
    }
    lemma_occ_unique(once, s_m, lb + 1);
    assert(occurs_at(once, e_m, lb + 1 + lc - e_m.len())) by {
        lemma_occ_right(buffer, tail, e_m, lb + 1 + lc - e_m.len());
        lemma_first_occ_valid(tail, e_m);
    }
    lemma_occ_unique(once, e_m, lb + 1 + lc - e_m.len());
    assert(spec_block_start(once, false) == lb + 1);
    assert(spec_block_end(once, false) == lb + 1 + lc);
    assert(once.subrange(0, lb + 1) + content + once.subrange(lb + 1 + lc, once.len() as int)
        =~= once) by {
        assert forall|j: int| 0 <= j < once.len() implies (once.subrange(0, lb + 1) + content
            + once.subrange(lb + 1 + lc, once.len() as int))[j] == once[j] by {
            if j < lb + 1 {
            } else if j < lb + 1 + lc {
                assert(once[j] == content[j - lb - 1]);
            } else {
            }
        }
    }
}

/// Removing the startup block right after applying it to a buffer that had
/// no markers restores the original buffer: removal prefers the match that
/// takes the newlines the application added, so nothing is left behind.
pub proof fn lemma_remove_after_apply(buffer: Seq<char>, content: Seq<char>)
    requires
        num_occ(buffer, spec_start_marker()) == 0,
        num_occ(buffer, spec_end_marker()) == 0,
        num_occ(content, spec_start_marker()) == 1,
        num_occ(content, spec_end_marker()) == 1,
        occurs_at(content, spec_start_marker(), 0),
        occurs_at(content, spec_end_marker(), content.len() - spec_end_marker().len()),
    ensures
        ({
            let once = buffer + "\n"@ + content + "\n"@;
            &&& num_occ(once, spec_start_marker()) == 1
            &&& num_occ(once, spec_end_marker()) == 1
            &&& spec_block_start(once, true) == buffer.len()
            &&& spec_block_end(once, true) == once.len()
            &&& once.subrange(0, spec_block_start(once, true)) + once.subrange(
                spec_block_end(once, true),
                once.len() as int,
            ) == buffer
        }),
{
    lemma_apply_idempotent(buffer, content);
    lemma_marker_shape();
    reveal_strlit("\n");
    let s_m = spec_start_marker();
    let e_m = spec_end_marker();
    let nls = spec_nl_start_marker();
    let enl = spec_end_marker_nl();
    let once = buffer + "\n"@ + content + "\n"@;
    let lb = buffer.len() as int;
    let lc = content.len() as int;
    // the newline-preceded start marker occurs exactly at the boundary
    assert(occurs_at(once, nls, lb)) by {
        assert(once.subrange(lb, lb + nls.len()) =~= nls) by {
            assert forall|j: int| 0 <= j < nls.len() implies once.subrange(lb, lb + nls.len())[j]
                == nls[j] by {
                if j == 0 {
                    assert(once[lb] == '\n');
                } else {
                    assert(once[lb + j] == content[j - 1]);
                    assert(content.subrange(0, s_m.len() as int) == s_m);
                    assert(content[j - 1] == s_m[j - 1]);
                }
            }
        }
    }
    assert(occurs_at(once, s_m, lb + 1)) by {
        assert(once.subrange(lb + 1, lb + 1 + s_m.len() as int) =~= content.subrange(
            0,
            s_m.len() as int,
        ));
    }
    lemma_occ_unique(once, s_m, lb + 1);
    assert forall|j: int| j != lb implies !occurs_at(once, nls, j) by {
        if occurs_at(once, nls, j) {
            lemma_occ_parts(once, "\n"@, s_m, j);
            assert(occurs_at(once, s_m, j + 1));
            assert(j + 1 == lb + 1);
        }
    }
    lemma_count_single(once, nls, lb);
    // the newline-followed end marker occurs exactly before the final newline
    let e_pos = lb + 1 + lc - e_m.len();
    assert(occurs_at(once, enl, e_pos)) by {
        assert(once.subrange(e_pos, e_pos + enl.len()) =~= enl) by {
            assert forall|j: int| 0 <= j < enl.len() implies once.subrange(
                e_pos,
                e_pos + enl.len(),
            )[j] == enl[j] by {
                if j < e_m.len() {
                    assert(once[e_pos + j] == content[lc - e_m.len() + j]);
                    assert(content.subrange(lc - e_m.len(), lc) == e_m);
                    assert(content[lc - e_m.len() + j] == e_m[j]);
                } else {
                    assert(once[e_pos + j] == '\n');
                }
            }
        }
    }
    assert(occurs_at(once, e_m, e_pos)) by {
        assert(once.subrange(e_pos, e_pos + e_m.len() as int) =~= content.subrange(
            lc - e_m.len(),
            lc,
        ));
    }
    lemma_occ_unique(once, e_m, e_pos);
    assert forall|j: int| j != e_pos implies !occurs_at(once, enl, j) by {
        if occurs_at(once, enl, j) {
            lemma_occ_parts(once, e_m, "\n"@, j);
            assert(occurs_at(once, e_m, j));
            assert(j == e_pos);
        }
    }
    lemma_count_single(once, enl, e_pos);
    assert(spec_block_start(once, true) == lb);
    assert(spec_block_end(once, true) == e_pos + e_m.len() + 1);
    assert(e_pos + e_m.len() + 1 == once.len());
    assert(once.subrange(0, lb) + once.subrange(once.len() as int, once.len() as int) =~= buffer);
}

} // verus!
