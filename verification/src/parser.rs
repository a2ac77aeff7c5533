//! The line layer of the grammar: splitting raw text into physical lines,
//! unfolding continuation lines into logical lines, folding logical lines
//! back for serialization, and parsing one logical line into a control token
//! or a property.

use vstd::prelude::*;

use crate::property::AbsProp;
use crate::property::Param;
use crate::property::abs_params;
use crate::property::Property;
use crate::property::unescape_seq;
use crate::property::unescape_vec;
use crate::strutil::chars_to_string;
use crate::strutil::eq_char_ci;
use crate::strutil::eq_char_ci_exec;
use crate::strutil::eq_seq_ci;

verus! {

/// Index of the first occurrence of `c` in `s`, or `s.len()` if absent.
pub open spec fn find_char(s: Seq<char>, c: char) -> int
    decreases s.len(),
{
    if s.len() == 0 {
        0
    } else if s[0] == c {
        0
    } else {
        1 + find_char(s.skip(1), c)
    }
}

/// `find_char` returns the position of the first occurrence, or the length.
pub proof fn lemma_find_char(s: Seq<char>, c: char)
    ensures
        0 <= find_char(s, c) <= s.len(),
        find_char(s, c) < s.len() ==> s[find_char(s, c)] == c,
        forall|j: int| 0 <= j < find_char(s, c) ==> s[j] != c,
    decreases s.len(),
{
    if s.len() == 0 {
    } else if s[0] == c {
    } else {
        lemma_find_char(s.skip(1), c);
        assert forall|j: int| 0 <= j < find_char(s, c) implies s[j] != c by {
            if j > 0 {
                assert(s.skip(1)[j - 1] == s[j]);
            }
        }
    }
}

/// A position that holds `c` with no earlier occurrence is what `find_char`
/// returns.
pub proof fn lemma_find_char_at(s: Seq<char>, c: char, i: int)
    requires
        0 <= i < s.len(),
        s[i] == c,
        forall|j: int| 0 <= j < i ==> s[j] != c,
    ensures
        find_char(s, c) == i,
{
    lemma_find_char(s, c);
    if find_char(s, c) < i {
    } else if find_char(s, c) > i {
    }
}

/// When `c` does not occur in `s`, `find_char` returns the length.
pub proof fn lemma_find_char_absent(s: Seq<char>, c: char)
    requires
        forall|j: int| 0 <= j < s.len() ==> s[j] != c,
    ensures
        find_char(s, c) == s.len(),
{
    lemma_find_char(s, c);
}

/// Raw text split at newlines into physical lines. A line ends at `\n`; a
/// `\r` immediately before the `\n` belongs to the terminator and is
/// dropped. Text after the last terminator forms a final line of its own.
pub open spec fn split_lines(s: Seq<char>) -> Seq<Seq<char>>
    decreases s.len(),
    via split_lines_decreases
{
    if s.len() == 0 {
        Seq::<Seq<char>>::empty()
    } else {
        let i = find_char(s, '\n');
        if i == s.len() {
            seq![s]
        } else {
            let line = if i > 0 && s[i - 1] == '\r' {
                s.subrange(0, i - 1)
            } else {
                s.subrange(0, i)
            };
            seq![line] + split_lines(s.skip(i + 1))
        }
    }
}

#[via_fn]
proof fn split_lines_decreases(s: Seq<char>) {
    lemma_find_char(s, '\n');
}

/// Physical lines with trailing blank lines removed.
pub open spec fn drop_trailing_empty(ls: Seq<Seq<char>>) -> Seq<Seq<char>>
    decreases ls.len(),
{
    if ls.len() == 0 {
        Seq::<Seq<char>>::empty()
    } else if ls.last().len() == 0 {
        drop_trailing_empty(ls.drop_last())
    } else {
        ls
    }
}

/// A physical line that continues the preceding logical line: it begins with
/// one space or horizontal tab.
pub open spec fn is_cont(l: Seq<char>) -> bool {
    l.len() >= 1 && (l[0] == ' ' || l[0] == '\t')
}

/// Joins continuation lines onto their predecessors, stripping the one
/// leading whitespace character of each continuation. A continuation with no
/// preceding line stands, stripped, as a logical line of its own.
pub open spec fn unfold_lines(ls: Seq<Seq<char>>) -> Seq<Seq<char>>
    decreases ls.len(),
{
    if ls.len() == 0 {
        Seq::<Seq<char>>::empty()
    } else {
        let rest = unfold_lines(ls.drop_last());
        let l = ls.last();
        if is_cont(l) {
            if rest.len() > 0 {
                rest.update(rest.len() - 1, rest.last() + l.skip(1))
            } else {
                seq![l.skip(1)]
            }
        } else {
            rest.push(l)
        }
    }
}

/// The logical lines of raw text: physical lines, trailing blanks dropped,
/// continuations joined.
pub open spec fn logical_lines(s: Seq<char>) -> Seq<Seq<char>> {
    unfold_lines(drop_trailing_empty(split_lines(s)))
}

/// Copies `v[from..to]` into a fresh vector.
pub fn vec_slice(v: &Vec<char>, from: usize, to: usize) -> (r: Vec<char>)
    requires
        from <= to <= v@.len(),
    ensures
        r@ == v@.subrange(from as int, to as int),
{
    let mut r: Vec<char> = Vec::new();
    let mut i: usize = from;
    while i < to
        invariant
            from <= i <= to <= v@.len(),
            r@ == v@.subrange(from as int, i as int),
        decreases to - i,
    {
        r.push(v[i]);
        proof {
            assert(r@ =~= v@.subrange(from as int, i + 1 as int));
        }
        i = i + 1;
    }
    r
}

/// The views of a sequence of character vectors.
pub open spec fn views(ls: Seq<Vec<char>>) -> Seq<Seq<char>> {
    ls.map_values(|l: Vec<char>| l@)
}

/// Splits raw text into its physical lines.
fn split_physical(v: &Vec<char>) -> (r: Vec<Vec<char>>)
    ensures
        views(r@) == split_lines(v@),
{
    let mut r: Vec<Vec<char>> = Vec::new();
    let mut p: usize = 0;
    proof {
        assert(v@.skip(0) =~= v@);
        assert(views(r@) + split_lines(v@) =~= split_lines(v@));
    }
    while p < v.len()
        invariant
            p <= v@.len(),
            views(r@) + split_lines(v@.skip(p as int)) == split_lines(v@),
        decreases v@.len() - p,
    {
        let ghost rem = v@.skip(p as int);
        // find the next newline at or after p
        let mut j: usize = p;
        while j < v.len() && v[j] != '\n'
            invariant
                p <= j <= v@.len(),
                forall|t: int| p <= t < j ==> v@[t] != '\n',
            decreases v@.len() - j,
        {
            j = j + 1;
        }
        proof {
            assert forall|t: int| 0 <= t < j - p implies rem[t] != '\n' by {
                assert(rem[t] == v@[p + t]);
            }
            if j < v@.len() {
                assert(rem[j - p] == v@[j as int]);
                lemma_find_char_at(rem, '\n', j - p);
            } else {
                lemma_find_char_absent(rem, '\n');
            }
        }
        if j == v.len() {
            // no terminator: the tail is the final line
            let line = vec_slice(v, p, j);
            proof {
                assert(line@ =~= rem);
                assert(views(r@.push(line)) =~= views(r@).push(rem));
                assert(split_lines(rem) == seq![rem]);
                assert(views(r@).push(rem) + Seq::<Seq<char>>::empty() =~= views(r@) + seq![rem]);
                assert(v@.skip(v@.len() as int) =~= Seq::<char>::empty());
                assert(views(r@.push(line)) + split_lines(v@.skip(v@.len() as int)) =~= split_lines(
                    v@,
                ));
            }
            r.push(line);
            p = j;
        } else {
            let end = if j > p && v[j - 1] == '\r' {
                j - 1
            } else {
                j
            };
            let line = vec_slice(v, p, end);
            proof {
                let i = find_char(rem, '\n');
                assert(i == j - p);
                assert(i < rem.len());
                if i > 0 && rem[i - 1] == '\r' {
                    assert(v@[j - 1] == rem[i - 1]);
                    assert(end == j - 1);
                    assert(line@ =~= rem.subrange(0, i - 1));
                } else {
                    assert(end == j);
                    assert(line@ =~= rem.subrange(0, i));
                }
                assert(rem.skip(i + 1) =~= v@.skip(j + 1 as int));
                assert(views(r@.push(line)) =~= views(r@).push(line@));
                assert(views(r@).push(line@) + split_lines(v@.skip(j + 1 as int)) =~= views(r@) + (
                seq![line@] + split_lines(v@.skip(j + 1 as int))));
                assert(views(r@.push(line)) + split_lines(v@.skip(j + 1 as int)) =~= split_lines(
                    v@,
                ));
            }
            r.push(line);
            p = j + 1;
        }
    }
    proof {
        if p == v@.len() {
            assert(v@.skip(p as int) =~= Seq::<char>::empty());
        }
        assert(views(r@) =~= views(r@) + split_lines(v@.skip(p as int)));
    }
    r
}

/// Removes trailing blank physical lines.
fn drop_trailing(r: &mut Vec<Vec<char>>)
    ensures
        views(final(r)@) == drop_trailing_empty(views(old(r)@)),
{
    loop
        invariant
            drop_trailing_empty(views(r@)) == drop_trailing_empty(views(old(r)@)),
        decreases r@.len(),
    {
        let n = r.len();
        if n == 0 {
            proof {
                assert(views(r@) =~= Seq::<Seq<char>>::empty());
                assert(drop_trailing_empty(views(r@)) == views(r@));
            }
            return ;
        }
        if r[n - 1].len() != 0 {
            proof {
                assert(views(r@).last() == r@[n - 1]@);
                assert(views(r@).len() > 0 && views(r@).last().len() != 0);
                assert(drop_trailing_empty(views(r@)) == views(r@));
            }
            return ;
        }
        proof {
            assert(views(r@).last() == r@[n - 1]@);
            assert(views(r@).last().len() == 0);
            assert(views(r@.drop_last()) =~= views(r@).drop_last());
        }
        let _ = r.pop();
    }
}

/// Joins continuation lines, producing the logical lines of the input.
fn unfold_physical(ls: Vec<Vec<char>>) -> (r: Vec<Vec<char>>)
    ensures
        views(r@) == unfold_lines(views(ls@)),
{
    let mut out: Vec<Vec<char>> = Vec::new();
    let mut i: usize = 0;
    proof {
        assert(views(ls@).take(0) =~= Seq::<Seq<char>>::empty());
        assert(views(out@) =~= unfold_lines(views(ls@).take(0)));
    }
    while i < ls.len()
        invariant
            i <= ls@.len(),
            views(out@) == unfold_lines(views(ls@).take(i as int)),
        decreases ls@.len() - i,
    {
        let ghost pre = views(ls@).take(i as int);
        let ghost cur = views(ls@).take(i + 1 as int);
        proof {
            assert(cur.drop_last() =~= pre);
            assert(cur.last() == ls@[i as int]@);
        }
        let l = &ls[i];
        let cont = l.len() >= 1 && (l[0] == ' ' || l[0] == '\t');
        proof {
            assert(cont == is_cont(ls@[i as int]@));
        }
        if cont {
            let tail = vec_slice(l, 1, l.len());
            proof {
                assert(tail@ =~= ls@[i as int]@.skip(1));
            }
            if out.len() > 0 {
                let mut last = out.pop().unwrap();
                let ghost old_last = last@;
                let mut t = tail;
                last.append(&mut t);
                proof {
                    assert(last@ == old_last + ls@[i as int]@.skip(1));
                }
                out.push(last);
                proof {
                    let prev = unfold_lines(pre);
                    assert(prev.len() > 0);
                    assert(views(out@) =~= prev.update(
                        prev.len() - 1,
                        prev.last() + ls@[i as int]@.skip(1),
                    ));
                    assert(views(out@) == unfold_lines(cur));
                }
            } else {
                out.push(tail);
                proof {
                    assert(unfold_lines(pre).len() == 0);
                    assert(views(out@) =~= seq![ls@[i as int]@.skip(1)]);
                    assert(views(out@) == unfold_lines(cur));
                }
            }
        } else {
            let line = vec_slice(l, 0, l.len());
            proof {
                assert(line@ =~= ls@[i as int]@);
            }
            out.push(line);
            proof {
                assert(views(out@) =~= unfold_lines(pre).push(ls@[i as int]@));
                assert(views(out@) == unfold_lines(cur));
            }
        }
        i = i + 1;
    }
    proof {
        assert(views(ls@).take(ls@.len() as int) =~= views(ls@));
    }
    out
}

/// Turns raw text into its sequence of logical (unfolded) lines.
pub fn unfold_text(v: &Vec<char>) -> (r: Vec<Vec<char>>)
    ensures
        views(r@) == logical_lines(v@),
{
    let mut phys = split_physical(v);
    drop_trailing(&mut phys);
    unfold_physical(phys)
}

/// Maximum width of an emitted physical line, counted in characters.
pub const FOLD_WIDTH: usize = 75;

/// After scanning `s`, is the scanner inside an escape sequence, so that the
/// next character would be its second half? True exactly when `s` ends in an
/// odd run of backslashes.
pub open spec fn esc_parity(s: Seq<char>) -> bool
    decreases s.len(),
{
    if s.len() == 0 {
        false
    } else {
        s.last() == '\\' && !esc_parity(s.drop_last())
    }
}

/// The continuation lines of a folded logical-line tail: each holds one
/// leading space and at most `FOLD_WIDTH - 1` characters of the tail, and no
/// break falls between the two characters of an escape sequence.
pub open spec fn fold_cont(l: Seq<char>) -> Seq<Seq<char>>
    decreases l.len(),
{
    if l.len() <= FOLD_WIDTH - 1 {
        seq![seq![' '] + l]
    } else {
        let w = FOLD_WIDTH - 1 as int;
        let k: int = if esc_parity(l.take(w)) {
            w - 1
        } else {
            w
        };
        seq![seq![' '] + l.take(k)] + fold_cont(l.skip(k))
    }
}

/// The physical lines of one folded logical line: a first line of at most
/// `FOLD_WIDTH` characters, then continuation lines, with no break inside an
/// escape sequence.
pub open spec fn fold_physical(l: Seq<char>) -> Seq<Seq<char>> {
    if l.len() <= FOLD_WIDTH {
        seq![l]
    } else {
        let w = FOLD_WIDTH as int;
        let k: int = if esc_parity(l.take(w)) {
            w - 1
        } else {
            w
        };
        seq![l.take(k)] + fold_cont(l.skip(k))
    }
}

/// The CRLF line terminator.
pub open spec fn crlf() -> Seq<char> {
    seq!['\r', '\n']
}

/// Physical lines rendered as text, each terminated by CRLF.
pub open spec fn render_physical(ls: Seq<Seq<char>>) -> Seq<char>
    decreases ls.len(),
{
    if ls.len() == 0 {
        Seq::<char>::empty()
    } else {
        ls[0] + crlf() + render_physical(ls.drop_first())
    }
}

/// Rendering distributes over concatenation of line sequences.
pub proof fn lemma_render_concat(a: Seq<Seq<char>>, b: Seq<Seq<char>>)
    ensures
        render_physical(a + b) == render_physical(a) + render_physical(b),
    decreases a.len(),
{
    if a.len() == 0 {
        assert(a + b =~= b);
        assert(render_physical(a) + render_physical(b) =~= render_physical(b));
    } else {
        lemma_render_concat(a.drop_first(), b);
        assert((a + b).drop_first() =~= a.drop_first() + b);
        assert((a + b)[0] == a[0]);
        assert(a[0] + crlf() + (render_physical(a.drop_first()) + render_physical(b)) =~= (a[0]
            + crlf() + render_physical(a.drop_first())) + render_physical(b));
    }
}

/// Decides `esc_parity` of `v[start..end]`.
fn parity_range(v: &Vec<char>, start: usize, end: usize) -> (r: bool)
    requires
        start <= end <= v@.len(),
    ensures
        r == esc_parity(v@.subrange(start as int, end as int)),
{
    let mut r = false;
    let mut j: usize = start;
    proof {
        assert(v@.subrange(start as int, start as int) =~= Seq::<char>::empty());
    }
    while j < end
        invariant
            start <= j <= end <= v@.len(),
            r == esc_parity(v@.subrange(start as int, j as int)),
        decreases end - j,
    {
        proof {
            assert(v@.subrange(start as int, j + 1 as int).drop_last() =~= v@.subrange(
                start as int,
                j as int,
            ));
            assert(v@.subrange(start as int, j + 1 as int).last() == v@[j as int]);
        }
        r = v[j] == '\\' && !r;
        j = j + 1;
    }
    r
}

/// Appends `v[from..to]` to `out`.
fn push_range(out: &mut Vec<char>, v: &Vec<char>, from: usize, to: usize)
    requires
        from <= to <= v@.len(),
    ensures
        final(out)@ == old(out)@ + v@.subrange(from as int, to as int),
{
    let mut i: usize = from;
    proof {
        assert(out@ =~= out@ + v@.subrange(from as int, from as int));
    }
    while i < to
        invariant
            from <= i <= to <= v@.len(),
            out@ == old(out)@ + v@.subrange(from as int, i as int),
        decreases to - i,
    {
        out.push(v[i]);
        proof {
            assert(out@ =~= old(out)@ + v@.subrange(from as int, i + 1 as int));
        }
        i = i + 1;
    }
}

/// Appends one logical line to `out` as folded physical lines, each
/// CRLF-terminated and at most `FOLD_WIDTH` characters wide before the
/// terminator.
pub fn emit_folded(line: &Vec<char>, out: &mut Vec<char>)
    ensures
        final(out)@ == old(out)@ + render_physical(fold_physical(line@)),
{
    if line.len() <= FOLD_WIDTH {
        push_range(out, line, 0, line.len());
        out.push('\r');
        out.push('\n');
        proof {
            assert(line@.subrange(0, line@.len() as int) =~= line@);
            assert(fold_physical(line@) == seq![line@]);
            assert(render_physical(Seq::<Seq<char>>::empty()) == Seq::<char>::empty());
            assert(seq![line@].drop_first() =~= Seq::<Seq<char>>::empty());
            assert(render_physical(seq![line@]) =~= line@ + crlf());
            assert(out@ =~= old(out)@ + render_physical(fold_physical(line@)));
        }
        return ;
    }
    let k: usize = if parity_range(line, 0, FOLD_WIDTH) {
        FOLD_WIDTH - 1
    } else {
        FOLD_WIDTH
    };
    proof {
        assert(line@.subrange(0, FOLD_WIDTH as int) =~= line@.take(FOLD_WIDTH as int));
    }
    push_range(out, line, 0, k);
    out.push('\r');
    out.push('\n');
    let mut pos: usize = k;
    proof {
        assert(line@.subrange(0, k as int) =~= line@.take(k as int));
        lemma_render_concat(seq![line@.take(k as int)], fold_cont(line@.skip(k as int)));
        assert(seq![line@.take(k as int)] + fold_cont(line@.skip(k as int)) == fold_physical(
            line@,
        ));
        assert(render_physical(Seq::<Seq<char>>::empty()) == Seq::<char>::empty());
        assert(seq![line@.take(k as int)].drop_first() =~= Seq::<Seq<char>>::empty());
        assert(render_physical(seq![line@.take(k as int)]) =~= line@.take(k as int) + crlf());
        assert(out@ =~= old(out)@ + render_physical(seq![line@.take(k as int)]));
        assert(out@ + render_physical(fold_cont(line@.skip(pos as int))) =~= old(out)@
            + render_physical(fold_physical(line@)));
    }
    loop
        invariant
            1 <= pos <= line@.len(),
            out@ + render_physical(fold_cont(line@.skip(pos as int))) == old(out)@
                + render_physical(fold_physical(line@)),
        decreases line@.len() - pos,
    {
        let ghost rem = line@.skip(pos as int);
        let ghost out0 = out@;
        if line.len() - pos <= FOLD_WIDTH - 1 {
            out.push(' ');
            push_range(out, line, pos, line.len());
            out.push('\r');
            out.push('\n');
            proof {
                assert(line@.subrange(pos as int, line@.len() as int) =~= rem);
                assert(fold_cont(rem) == seq![seq![' '] + rem]);
                assert(render_physical(Seq::<Seq<char>>::empty()) == Seq::<char>::empty());
                assert(seq![seq![' '] + rem].drop_first() =~= Seq::<Seq<char>>::empty());
                assert(render_physical(fold_cont(rem)) =~= (seq![' '] + rem) + crlf());
                assert(out@ =~= out0 + render_physical(fold_cont(rem)));
                assert(out@ =~= old(out)@ + render_physical(fold_physical(line@)));
            }
            return ;
        }
        let k2: usize = if parity_range(line, pos, pos + (FOLD_WIDTH - 1)) {
            FOLD_WIDTH - 2
        } else {
            FOLD_WIDTH - 1
        };
        proof {
            assert(line@.subrange(pos as int, pos + (FOLD_WIDTH - 1) as int) =~= rem.take(
                FOLD_WIDTH - 1 as int,
            ));
        }
        out.push(' ');
        push_range(out, line, pos, pos + k2);
        out.push('\r');
        out.push('\n');
        proof {
            assert(line@.subrange(pos as int, pos + k2 as int) =~= rem.take(k2 as int));
            lemma_render_concat(seq![seq![' '] + rem.take(k2 as int)], fold_cont(rem.skip(k2 as int)));
            assert(seq![seq![' '] + rem.take(k2 as int)] + fold_cont(rem.skip(k2 as int))
                == fold_cont(rem));
            assert(render_physical(Seq::<Seq<char>>::empty()) == Seq::<char>::empty());
            assert(seq![seq![' '] + rem.take(k2 as int)].drop_first() =~= Seq::<Seq<char>>::empty());
            assert(render_physical(seq![seq![' '] + rem.take(k2 as int)]) =~= (seq![' '] + rem.take(
                k2 as int,
            )) + crlf());
            assert(out@ =~= out0 + render_physical(seq![seq![' '] + rem.take(k2 as int)]));
            assert(rem.skip(k2 as int) =~= line@.skip(pos + k2 as int));
            assert(out@ + render_physical(fold_cont(line@.skip(pos + k2 as int))) =~= out0
                + render_physical(fold_cont(rem)));
            assert(out@ + render_physical(fold_cont(line@.skip(pos + k2 as int))) == old(out)@
                + render_physical(fold_physical(line@)));
        }
        pos = pos + k2;
    }
}

/// No newline character occurs in `s`.
pub open spec fn no_newline(s: Seq<char>) -> bool {
    forall|j: int| 0 <= j < s.len() ==> s[j] != '\n'
}

/// A well-formed logical line: non-empty, not starting with the continuation
/// whitespace, and free of newlines, so that folding and unfolding invert.
pub open spec fn wf_logical_line(l: Seq<char>) -> bool {
    l.len() > 0 && l[0] != ' ' && l[0] != '\t' && no_newline(l)
}

/// Splitting takes one CRLF-terminated newline-free line off the front.
pub proof fn lemma_split_prefix(l: Seq<char>, t: Seq<char>)
    requires
        no_newline(l),
    ensures
        split_lines(l + crlf() + t) == seq![l] + split_lines(t),
{
    let s = l + crlf() + t;
    assert(s.len() > 0);
    assert(s[l.len() + 1 as int] == '\n');
    assert forall|j: int| 0 <= j < l.len() + 1 implies s[j] != '\n' by {
        if j < l.len() {
            assert(s[j] == l[j]);
        } else {
            assert(s[j] == '\r');
        }
    }
    lemma_find_char_at(s, '\n', l.len() + 1 as int);
    let i = l.len() + 1 as int;
    assert(s[i - 1] == '\r');
    assert(s.subrange(0, i - 1) =~= l);
    assert(s.skip(i + 1) =~= t);
}

/// Splitting the rendering of newline-free physical lines gives them back.
pub proof fn lemma_split_render(phys: Seq<Seq<char>>)
    requires
        forall|i: int| 0 <= i < phys.len() ==> no_newline(#[trigger] phys[i]),
    ensures
        split_lines(render_physical(phys)) == phys,
    decreases phys.len(),
{
    if phys.len() == 0 {
        assert(split_lines(render_physical(phys)) =~= phys);
    } else {
        lemma_split_render(phys.drop_first());
        lemma_split_prefix(phys[0], render_physical(phys.drop_first()));
        assert(phys[0] + crlf() + render_physical(phys.drop_first()) =~= render_physical(phys));
        assert(seq![phys[0]] + phys.drop_first() =~= phys);
    }
}

/// Dropping trailing blanks leaves a sequence whose last line is non-empty
/// untouched.
pub proof fn lemma_drop_trailing_id(ls: Seq<Seq<char>>)
    requires
        ls.len() > 0,
        ls.last().len() > 0,
    ensures
        drop_trailing_empty(ls) == ls,
{
}

/// Appending the folded continuation lines of a tail extends the last
/// logical line by that tail.
pub proof fn lemma_unfold_cont(p: Seq<Seq<char>>, t: Seq<char>)
    requires
        unfold_lines(p).len() > 0,
    ensures
        unfold_lines(p + fold_cont(t)) == unfold_lines(p).update(
            unfold_lines(p).len() - 1,
            unfold_lines(p).last() + t,
        ),
    decreases t.len(),
{
    let u = unfold_lines(p);
    if t.len() <= FOLD_WIDTH - 1 {
        let x = seq![' '] + t;
        let q = p + seq![x];
        assert(q.drop_last() =~= p);
        assert(q.last() == x);
        assert(is_cont(x));
        assert(x.skip(1) =~= t);
        assert(unfold_lines(q) == u.update(u.len() - 1, u.last() + t));
        assert(p + fold_cont(t) =~= q);
    } else {
        let w = FOLD_WIDTH - 1 as int;
        let k: int = if esc_parity(t.take(w)) {
            w - 1
        } else {
            w
        };
        let x = seq![' '] + t.take(k);
        let p2 = p + seq![x];
        assert(p2.drop_last() =~= p);
        assert(p2.last() == x);
        assert(is_cont(x));
        assert(x.skip(1) =~= t.take(k));
        let u2 = unfold_lines(p2);
        assert(u2 == u.update(u.len() - 1, u.last() + t.take(k)));
        assert(u2.len() == u.len());
        lemma_unfold_cont(p2, t.skip(k));
        assert(p2 + fold_cont(t.skip(k)) =~= p + fold_cont(t));
        assert(u2.last() == u.last() + t.take(k));
        assert(u.last() + t.take(k) + t.skip(k) =~= u.last() + t);
        assert(u2.update(u2.len() - 1, u2.last() + t.skip(k)) =~= u.update(
            u.len() - 1,
            u.last() + t,
        ));
    }
}

/// Appending the folded physical lines of one well-formed logical line to
/// unfolded input appends exactly that line.
pub proof fn lemma_unfold_fold(p: Seq<Seq<char>>, l: Seq<char>)
    requires
        wf_logical_line(l),
    ensures
        unfold_lines(p + fold_physical(l)) == unfold_lines(p).push(l),
{
    let u = unfold_lines(p);
    if l.len() <= FOLD_WIDTH {
        let q = p + seq![l];
        assert(q.drop_last() =~= p);
        assert(q.last() == l);
        assert(!is_cont(l));
        assert(p + fold_physical(l) =~= q);
    } else {
        let w = FOLD_WIDTH as int;
        let k: int = if esc_parity(l.take(w)) {
            w - 1
        } else {
            w
        };
        let x = l.take(k);
        let p2 = p + seq![x];
        assert(p2.drop_last() =~= p);
        assert(p2.last() == x);
        assert(x[0] == l[0]);
        assert(!is_cont(x));
        let u2 = unfold_lines(p2);
        assert(u2 == u.push(x));
        assert(u2.len() > 0);
        lemma_unfold_cont(p2, l.skip(k));
        assert(p2 + fold_cont(l.skip(k)) =~= p + fold_physical(l));
        assert(u2.last() == x);
        assert(x + l.skip(k) =~= l);
        assert(u2.update(u2.len() - 1, u2.last() + l.skip(k)) =~= u.push(l));
    }
}

/// Every folded physical line of a newline-free tail is non-empty and
/// newline-free.
pub proof fn lemma_fold_cont_lines(t: Seq<char>)
    requires
        no_newline(t),
    ensures
        forall|i: int|
            0 <= i < fold_cont(t).len() ==> (#[trigger] fold_cont(t)[i]).len() > 0 && no_newline(
                fold_cont(t)[i],
            ),
    decreases t.len(),
{
    if t.len() <= FOLD_WIDTH - 1 {
        assert(no_newline(seq![' '] + t));
    } else {
        let w = FOLD_WIDTH - 1 as int;
        let k: int = if esc_parity(t.take(w)) {
            w - 1
        } else {
            w
        };
        lemma_fold_cont_lines(t.skip(k));
        assert(no_newline(seq![' '] + t.take(k)));
        assert forall|i: int| 0 <= i < fold_cont(t).len() implies (#[trigger] fold_cont(t)[i]).len()
            > 0 && no_newline(fold_cont(t)[i]) by {
            if i > 0 {
                assert(fold_cont(t)[i] == fold_cont(t.skip(k))[i - 1]);
            }
        }
    }
}

/// Every folded physical line of a well-formed logical line is non-empty and
/// newline-free.
pub proof fn lemma_fold_physical_lines(l: Seq<char>)
    requires
        wf_logical_line(l),
    ensures
        forall|i: int|
            0 <= i < fold_physical(l).len() ==> (#[trigger] fold_physical(l)[i]).len() > 0
                && no_newline(fold_physical(l)[i]),
{
    if l.len() <= FOLD_WIDTH {
    } else {
        let w = FOLD_WIDTH as int;
        let k: int = if esc_parity(l.take(w)) {
            w - 1
        } else {
            w
        };
        lemma_fold_cont_lines(l.skip(k));
        assert(no_newline(l.take(k)));
        assert forall|i: int|
            0 <= i < fold_physical(l).len() implies (#[trigger] fold_physical(l)[i]).len() > 0
            && no_newline(fold_physical(l)[i]) by {
            if i > 0 {
                assert(fold_physical(l)[i] == fold_cont(l.skip(k))[i - 1]);
            }
        }
    }
}

/// The physical lines of a sequence of logical lines, each folded in turn.
pub open spec fn fold_all(lines: Seq<Seq<char>>) -> Seq<Seq<char>>
    decreases lines.len(),
{
    if lines.len() == 0 {
        Seq::<Seq<char>>::empty()
    } else {
        fold_physical(lines[0]) + fold_all(lines.drop_first())
    }
}

/// Unfolding the folded physical lines of well-formed logical lines gives
/// the logical lines back.
pub proof fn lemma_unfold_fold_all(p: Seq<Seq<char>>, lines: Seq<Seq<char>>)
    requires
        forall|i: int| 0 <= i < lines.len() ==> wf_logical_line(#[trigger] lines[i]),
    ensures
        unfold_lines(p + fold_all(lines)) == unfold_lines(p) + lines,
    decreases lines.len(),
{
    if lines.len() == 0 {
        assert(p + fold_all(lines) =~= p);
        assert(unfold_lines(p) + lines =~= unfold_lines(p));
    } else {
        lemma_unfold_fold(p, lines[0]);
        lemma_unfold_fold_all(p + fold_physical(lines[0]), lines.drop_first());
        assert((p + fold_physical(lines[0])) + fold_all(lines.drop_first()) =~= p + fold_all(
            lines,
        ));
        assert(unfold_lines(p).push(lines[0]) + lines.drop_first() =~= unfold_lines(p) + lines);
    }
}

/// Every line of `fold_all` over well-formed logical lines is non-empty and
/// newline-free.
pub proof fn lemma_fold_all_lines(lines: Seq<Seq<char>>)
    requires
        forall|i: int| 0 <= i < lines.len() ==> wf_logical_line(#[trigger] lines[i]),
    ensures
        forall|i: int|
            0 <= i < fold_all(lines).len() ==> (#[trigger] fold_all(lines)[i]).len() > 0
                && no_newline(fold_all(lines)[i]),
    decreases lines.len(),
{
    if lines.len() == 0 {
    } else {
        lemma_fold_physical_lines(lines[0]);
        lemma_fold_all_lines(lines.drop_first());
        let a = fold_physical(lines[0]);
        let b = fold_all(lines.drop_first());
        assert forall|i: int| 0 <= i < fold_all(lines).len() implies (#[trigger] fold_all(
            lines,
        )[i]).len() > 0 && no_newline(fold_all(lines)[i]) by {
            if i < a.len() {
                assert(fold_all(lines)[i] == a[i]);
            } else {
                assert(fold_all(lines)[i] == b[i - a.len()]);
            }
        }
    }
}

/// The round trip of the line layer: rendering well-formed logical lines as
/// folded, CRLF-terminated text and unfolding that text gives the same
/// logical lines back.
pub proof fn lemma_logical_lines_render(lines: Seq<Seq<char>>)
    requires
        forall|i: int| 0 <= i < lines.len() ==> wf_logical_line(#[trigger] lines[i]),
    ensures
        logical_lines(render_physical(fold_all(lines))) == lines,
{
    let phys = fold_all(lines);
    lemma_fold_all_lines(lines);
    lemma_split_render(phys);
    if phys.len() > 0 {
        lemma_drop_trailing_id(phys);
    }
    lemma_unfold_fold_all(Seq::<Seq<char>>::empty(), lines);
    assert(Seq::<Seq<char>>::empty() + phys =~= phys);
    assert(unfold_lines(Seq::<Seq<char>>::empty()) + lines =~= lines);
}

/// Folding one well-formed logical line and unfolding the rendered text
/// reproduces exactly that line.
pub proof fn lemma_fold_unfold_inverse(l: Seq<char>)
    requires
        wf_logical_line(l),
    ensures
        logical_lines(render_physical(fold_physical(l))) == seq![l],
{
    assert(seq![l][0] == l);
    lemma_logical_lines_render(seq![l]);
    assert(seq![l].drop_first() =~= Seq::<Seq<char>>::empty());
    assert(fold_all(seq![l]) == fold_physical(l) + fold_all(Seq::<Seq<char>>::empty()));
    assert(fold_all(Seq::<Seq<char>>::empty()) == Seq::<Seq<char>>::empty());
    assert(fold_physical(l) + Seq::<Seq<char>>::empty() =~= fold_physical(l));
}

/// The escape-scanner state after `s`, started from state `e`: the same
/// quantity as `esc_parity`, computed from the left.
pub open spec fn esc_scan(s: Seq<char>, e: bool) -> bool
    decreases s.len(),
{
    if s.len() == 0 {
        e
    } else {
        esc_scan(s.skip(1), !e && s[0] == '\\')
    }
}

/// The escape scanner runs through a concatenation piecewise.
pub proof fn lemma_esc_scan_concat(a: Seq<char>, b: Seq<char>, e: bool)
    ensures
        esc_scan(a + b, e) == esc_scan(b, esc_scan(a, e)),
    decreases a.len(),
{
    if a.len() == 0 {
        assert(a + b =~= b);
    } else {
        assert((a + b)[0] == a[0]);
        assert((a + b).skip(1) =~= a.skip(1) + b);
        lemma_esc_scan_concat(a.skip(1), b, !e && a[0] == '\\');
    }
}

/// The scanner state after one character.
pub proof fn lemma_esc_scan_single(c: char, e: bool)
    ensures
        esc_scan(seq![c], e) == (!e && c == '\\'),
{
    assert(seq![c].skip(1) =~= Seq::<char>::empty());
    assert(esc_scan(Seq::<char>::empty(), !e && c == '\\') == (!e && c == '\\'));
}

/// The left-to-right scanner computes `esc_parity`.
pub proof fn lemma_esc_scan_parity(s: Seq<char>)
    ensures
        esc_scan(s, false) == esc_parity(s),
    decreases s.len(),
{
    if s.len() == 0 {
    } else {
        lemma_esc_scan_parity(s.drop_last());
        assert(s =~= s.drop_last() + seq![s.last()]);
        lemma_esc_scan_concat(s.drop_last(), seq![s.last()], false);
        lemma_esc_scan_single(s.last(), esc_parity(s.drop_last()));
    }
}

/// No physical line of a folded logical line ends inside an escape
/// sequence, as long as the logical line itself does not.
pub proof fn lemma_fold_no_split_escape(l: Seq<char>)
    requires
        !esc_parity(l),
    ensures
        forall|i: int|
            0 <= i < fold_physical(l).len() ==> !esc_parity(#[trigger] fold_physical(l)[i]),
{
    if l.len() <= FOLD_WIDTH {
    } else {
        let w = FOLD_WIDTH as int;
        let k: int = if esc_parity(l.take(w)) {
            w - 1
        } else {
            w
        };
        assert(l.take(w).drop_last() =~= l.take(w - 1));
        assert(!esc_parity(l.take(k)));
        lemma_esc_scan_parity(l);
        lemma_esc_scan_parity(l.take(k));
        assert(l =~= l.take(k) + l.skip(k));
        lemma_esc_scan_concat(l.take(k), l.skip(k), false);
        lemma_esc_scan_parity(l.skip(k));
        assert(!esc_parity(l.skip(k)));
        lemma_fold_cont_no_split_escape(l.skip(k));
        assert forall|i: int| 0 <= i < fold_physical(l).len() implies !esc_parity(
            #[trigger] fold_physical(l)[i],
        ) by {
            if i > 0 {
                assert(fold_physical(l)[i] == fold_cont(l.skip(k))[i - 1]);
            }
        }
    }
}

/// No continuation line of a folded tail ends inside an escape sequence, as
/// long as the tail itself does not.
proof fn lemma_fold_cont_no_split_escape(t: Seq<char>)
    requires
        !esc_parity(t),
    ensures
        forall|i: int| 0 <= i < fold_cont(t).len() ==> !esc_parity(#[trigger] fold_cont(t)[i]),
    decreases t.len(),
{
    if t.len() <= FOLD_WIDTH - 1 {
        lemma_esc_scan_parity(seq![' '] + t);
        lemma_esc_scan_concat(seq![' '], t, false);
        lemma_esc_scan_single(' ', false);
        lemma_esc_scan_parity(t);
        assert(!esc_parity(seq![' '] + t));
    } else {
        let w = FOLD_WIDTH - 1 as int;
        let k: int = if esc_parity(t.take(w)) {
            w - 1
        } else {
            w
        };
        assert(t.take(w).drop_last() =~= t.take(w - 1));
        assert(!esc_parity(t.take(k)));
        lemma_esc_scan_parity(seq![' '] + t.take(k));
        lemma_esc_scan_concat(seq![' '], t.take(k), false);
        lemma_esc_scan_single(' ', false);
        lemma_esc_scan_parity(t.take(k));
        assert(!esc_parity(seq![' '] + t.take(k)));
        lemma_esc_scan_parity(t);
        lemma_esc_scan_parity(t.take(k));
        assert(t =~= t.take(k) + t.skip(k));
        lemma_esc_scan_concat(t.take(k), t.skip(k), false);
        lemma_esc_scan_parity(t.skip(k));
        assert(!esc_parity(t.skip(k)));
        lemma_fold_cont_no_split_escape(t.skip(k));
        assert forall|i: int| 0 <= i < fold_cont(t).len() implies !esc_parity(
            #[trigger] fold_cont(t)[i],
        ) by {
            if i > 0 {
                assert(fold_cont(t)[i] == fold_cont(t.skip(k))[i - 1]);
            }
        }
    }
}

/// No folded physical line exceeds the fixed maximum width.
pub proof fn lemma_fold_within_width(l: Seq<char>)
    ensures
        forall|i: int|
            0 <= i < fold_physical(l).len() ==> (#[trigger] fold_physical(l)[i]).len()
                <= FOLD_WIDTH,
{
    if l.len() <= FOLD_WIDTH {
    } else {
        let w = FOLD_WIDTH as int;
        let k: int = if esc_parity(l.take(w)) {
            w - 1
        } else {
            w
        };
        lemma_fold_cont_within_width(l.skip(k));
        assert forall|i: int| 0 <= i < fold_physical(l).len() implies (#[trigger] fold_physical(
            l,
        )[i]).len() <= FOLD_WIDTH by {
            if i > 0 {
                assert(fold_physical(l)[i] == fold_cont(l.skip(k))[i - 1]);
            }
        }
    }
}

/// No folded continuation line exceeds the fixed maximum width, its leading
/// space included.
proof fn lemma_fold_cont_within_width(t: Seq<char>)
    ensures
        forall|i: int|
            0 <= i < fold_cont(t).len() ==> (#[trigger] fold_cont(t)[i]).len() <= FOLD_WIDTH,
    decreases t.len(),
{
    if t.len() <= FOLD_WIDTH - 1 {
    } else {
        let w = FOLD_WIDTH - 1 as int;
        let k: int = if esc_parity(t.take(w)) {
            w - 1
        } else {
            w
        };
        lemma_fold_cont_within_width(t.skip(k));
        assert forall|i: int| 0 <= i < fold_cont(t).len() implies (#[trigger] fold_cont(
            t,
        )[i]).len() <= FOLD_WIDTH by {
            if i > 0 {
                assert(fold_cont(t)[i] == fold_cont(t.skip(k))[i - 1]);
            }
        }
    }
}

/// Index of the first colon in `s` that is not the second half of an escape
/// sequence, scanning with escape state `esc`; `s.len()` if there is none.
pub open spec fn find_colon_rec(s: Seq<char>, esc: bool) -> int
    decreases s.len(),
{
    if s.len() == 0 {
        0
    } else if !esc && s[0] == ':' {
        0
    } else {
        1 + find_colon_rec(s.skip(1), !esc && s[0] == '\\')
    }
}

/// Index of the first colon of `s` that is not preceded by an unresolved
/// escape marker, or `s.len()`.
pub open spec fn find_colon(s: Seq<char>) -> int {
    find_colon_rec(s, false)
}

/// `find_colon_rec` stays within the bounds of the sequence.
pub proof fn lemma_find_colon_rec_bounds(s: Seq<char>, esc: bool)
    ensures
        0 <= find_colon_rec(s, esc) <= s.len(),
    decreases s.len(),
{
    if s.len() == 0 {
    } else if !esc && s[0] == ':' {
    } else {
        lemma_find_colon_rec_bounds(s.skip(1), !esc && s[0] == '\\');
    }
}

/// `s` split at every occurrence of `c`: one segment more than there are
/// occurrences, in order, separators dropped.
pub open spec fn split_on(s: Seq<char>, c: char) -> Seq<Seq<char>>
    decreases s.len(),
    via split_on_decreases
{
    let i = find_char(s, c);
    if i == s.len() {
        seq![s]
    } else {
        seq![s.take(i)] + split_on(s.skip(i + 1), c)
    }
}

#[via_fn]
proof fn split_on_decreases(s: Seq<char>, c: char) {
    lemma_find_char(s, c);
}

/// A parameter token split at its first `=`: the key before it, the value
/// after it; a token without `=` is a key with an empty value.
pub open spec fn param_of_token(t: Seq<char>) -> (Seq<char>, Seq<char>) {
    let j = find_char(t, '=');
    if j == t.len() {
        (t, Seq::<char>::empty())
    } else {
        (t.take(j), t.skip(j + 1))
    }
}

/// Inserts a key/value pair into a parameter list as a map would: an entry
/// with the same key keeps its position and takes the new value; a new key
/// goes to the end.
pub open spec fn params_insert(
    ps: Seq<(Seq<char>, Seq<char>)>,
    k: Seq<char>,
    v: Seq<char>,
) -> Seq<(Seq<char>, Seq<char>)>
    decreases ps.len(),
{
    if ps.len() == 0 {
        seq![(k, v)]
    } else if ps[0].0 == k {
        seq![(k, v)] + ps.skip(1)
    } else {
        seq![ps[0]] + params_insert(ps.skip(1), k, v)
    }
}

/// The parameter list built from the tokens after the property name, folded
/// left to right onto `acc`.
pub open spec fn params_of_tokens(
    toks: Seq<Seq<char>>,
    acc: Seq<(Seq<char>, Seq<char>)>,
) -> Seq<(Seq<char>, Seq<char>)>
    decreases toks.len(),
{
    if toks.len() == 0 {
        acc
    } else {
        params_of_tokens(
            toks.drop_first(),
            params_insert(acc, param_of_token(toks[0]).0, param_of_token(toks[0]).1),
        )
    }
}

/// What one logical line means.
pub ghost enum SpecLine {
    /// `BEGIN:<TAG>`, keyword matched case-insensitively, tag verbatim.
    Begin(Seq<char>),
    /// `END:<TAG>`.
    End(Seq<char>),
    /// A property line: name, parameters, decoded value.
    Prop(AbsProp),
    /// A line without a colon.
    Malformed,
}

pub open spec fn begin_kw() -> Seq<char> {
    seq!['B', 'E', 'G', 'I', 'N', ':']
}

pub open spec fn end_kw() -> Seq<char> {
    seq!['E', 'N', 'D', ':']
}

/// `l` starts with prefix `p`, compared up to ASCII case.
pub open spec fn starts_ci(l: Seq<char>, p: Seq<char>) -> bool {
    l.len() >= p.len() && eq_seq_ci(l.take(p.len() as int), p)
}

/// The meaning of one logical line: a control token when the line starts
/// with `BEGIN:` or `END:` (case-insensitive), otherwise a property split at
/// its first unescaped colon, or a malformed line if it has no such colon.
pub open spec fn parse_line_spec(l: Seq<char>) -> SpecLine {
    if starts_ci(l, begin_kw()) {
        SpecLine::Begin(l.skip(begin_kw().len() as int))
    } else if starts_ci(l, end_kw()) {
        SpecLine::End(l.skip(end_kw().len() as int))
    } else {
        let i = find_colon(l);
        if i == l.len() {
            SpecLine::Malformed
        } else {
            let toks = split_on(l.take(i), ';');
            SpecLine::Prop(
                AbsProp {
                    name: toks[0],
                    params: params_of_tokens(toks.drop_first(), Seq::<(Seq<char>, Seq<char>)>::empty()),
                    value: unescape_seq(l.skip(i + 1)),
                },
            )
        }
    }
}

/// One parsed logical line.
pub enum ParsedLine {
    Begin(String),
    End(String),
    Prop(Property),
    Malformed,
}

impl ParsedLine {
    pub open spec fn abs(&self) -> SpecLine {
        match self {
            ParsedLine::Begin(t) => SpecLine::Begin(t@),
            ParsedLine::End(t) => SpecLine::End(t@),
            ParsedLine::Prop(p) => SpecLine::Prop(p.abs()),
            ParsedLine::Malformed => SpecLine::Malformed,
        }
    }
}

/// Decides `starts_ci`.
fn starts_ci_exec(l: &Vec<char>, p: &Vec<char>) -> (r: bool)
    ensures
        r == starts_ci(l@, p@),
{
    if l.len() < p.len() {
        return false;
    }
    let mut i: usize = 0;
    while i < p.len()
        invariant
            i <= p@.len() <= l@.len(),
            forall|j: int| 0 <= j < i ==> eq_char_ci(l@.take(p@.len() as int)[j], p@[j]),
        decreases p@.len() - i,
    {
        proof {
            assert(l@.take(p@.len() as int)[i as int] == l@[i as int]);
        }
        if !eq_char_ci_exec(l[i], p[i]) {
            proof {
                assert(!eq_seq_ci(l@.take(p@.len() as int), p@));
            }
            return false;
        }
        i = i + 1;
    }
    proof {
        assert(eq_seq_ci(l@.take(p@.len() as int), p@));
    }
    true
}

/// The characters of the `BEGIN:` keyword.
pub(crate) fn begin_kw_vec() -> (r: Vec<char>)
    ensures
        r@ == begin_kw(),
{
    let mut r: Vec<char> = Vec::new();
    r.push('B');
    r.push('E');
    r.push('G');
    r.push('I');
    r.push('N');
    r.push(':');
    proof {
        assert(r@ =~= begin_kw());
    }
    r
}

/// The characters of the `END:` keyword.
pub(crate) fn end_kw_vec() -> (r: Vec<char>)
    ensures
        r@ == end_kw(),
{
    let mut r: Vec<char> = Vec::new();
    r.push('E');
    r.push('N');
    r.push('D');
    r.push(':');
    proof {
        assert(r@ =~= end_kw());
    }
    r
}

/// Splits `v` at every occurrence of `c`.
pub(crate) fn split_on_exec(v: &Vec<char>, c: char) -> (r: Vec<Vec<char>>)
    ensures
        views(r@) == split_on(v@, c),
        r@.len() >= 1,
{
    let mut r: Vec<Vec<char>> = Vec::new();
    let mut p: usize = 0;
    proof {
        assert(v@.skip(0) =~= v@);
        assert(views(r@) + split_on(v@, c) =~= split_on(v@, c));
    }
    loop
        invariant
            p <= v@.len(),
            views(r@) + split_on(v@.skip(p as int), c) == split_on(v@, c),
        decreases v@.len() + 1 - p,
    {
        let ghost rem = v@.skip(p as int);
        let mut j: usize = p;
        while j < v.len() && v[j] != c
            invariant
                p <= j <= v@.len(),
                forall|t: int| p <= t < j ==> v@[t] != c,
            decreases v@.len() - j,
        {
            j = j + 1;
        }
        proof {
            assert forall|t: int| 0 <= t < j - p implies rem[t] != c by {
                assert(rem[t] == v@[p + t]);
            }
            if j < v@.len() {
                assert(rem[j - p] == v@[j as int]);
                lemma_find_char_at(rem, c, j - p);
            } else {
                lemma_find_char_absent(rem, c);
            }
        }
        let tok = vec_slice(v, p, j);
        if j == v.len() {
            proof {
                assert(tok@ =~= rem);
                assert(split_on(rem, c) == seq![rem]);
                assert(views(r@.push(tok)) =~= views(r@).push(rem));
                assert(views(r@).push(rem) =~= views(r@) + seq![rem]);
                assert(views(r@.push(tok)) =~= split_on(v@, c));
            }
            r.push(tok);
            return r;
        }
        proof {
            let i = find_char(rem, c);
            assert(i == j - p);
            assert(tok@ =~= rem.take(i));
            assert(rem.skip(i + 1) =~= v@.skip(j + 1 as int));
            assert(views(r@.push(tok)) =~= views(r@).push(tok@));
            assert(views(r@).push(tok@) + split_on(v@.skip(j + 1 as int), c) =~= views(r@) + (
            seq![rem.take(i)] + split_on(rem.skip(i + 1), c)));
            assert(views(r@.push(tok)) + split_on(v@.skip(j + 1 as int), c) =~= split_on(v@, c));
        }
        r.push(tok);
        p = j + 1;
    }
}

/// `params_insert` on a list without the key appends the pair.
pub proof fn lemma_params_insert_absent(ps: Seq<(Seq<char>, Seq<char>)>, k: Seq<char>, v: Seq<char>)
    requires
        forall|j: int| 0 <= j < ps.len() ==> (#[trigger] ps[j]).0 != k,
    ensures
        params_insert(ps, k, v) == ps.push((k, v)),
    decreases ps.len(),
{
    if ps.len() == 0 {
        assert(params_insert(ps, k, v) =~= ps.push((k, v)));
    } else {
        assert(ps[0].0 != k);
        lemma_params_insert_absent(ps.skip(1), k, v);
        assert(seq![ps[0]] + ps.skip(1).push((k, v)) =~= ps.push((k, v)));
    }
}

/// `params_insert` on a list holding the key at position `m` (and not
/// earlier) replaces that entry.
proof fn lemma_params_insert_at(
    ps: Seq<(Seq<char>, Seq<char>)>,
    k: Seq<char>,
    v: Seq<char>,
    m: int,
)
    requires
        0 <= m < ps.len(),
        ps[m].0 == k,
        forall|j: int| 0 <= j < m ==> (#[trigger] ps[j]).0 != k,
    ensures
        params_insert(ps, k, v) == ps.update(m, (k, v)),
    decreases ps.len(),
{
    if m == 0 {
        assert(seq![(k, v)] + ps.skip(1) =~= ps.update(0, (k, v)));
    } else {
        assert(ps.skip(1)[m - 1].0 == k);
        assert forall|j: int| 0 <= j < m - 1 implies (#[trigger] ps.skip(1)[j]).0 != k by {
            assert(ps.skip(1)[j] == ps[j + 1]);
        }
        lemma_params_insert_at(ps.skip(1), k, v, m - 1);
        assert(seq![ps[0]] + ps.skip(1).update(m - 1, (k, v)) =~= ps.update(m, (k, v)));
    }
}

/// Inserts a parameter into the vector with map semantics: an existing key
/// keeps its position and takes the new value, a new key goes to the end.
fn params_insert_exec(ps: &mut Vec<Param>, key: String, value: String)
    ensures
        abs_params(final(ps)@) == params_insert(abs_params(old(ps)@), key@, value@),
{
    let ghost orig = abs_params(ps@);
    let mut m: usize = 0;
    while m < ps.len()
        invariant
            m <= ps@.len(),
            abs_params(ps@) == orig,
            orig == abs_params(old(ps)@),
            forall|j: int| 0 <= j < m ==> (#[trigger] orig[j]).0 != key@,
        decreases ps@.len() - m,
    {
        proof {
            assert(orig[m as int] == ps@[m as int].abs());
        }
        if ps[m].key == key {
            let p = Param { key, value };
            let ghost pabs = p.abs();
            ps.remove(m);
            ps.insert(m, p);
            proof {
                lemma_params_insert_at(orig, pabs.0, pabs.1, m as int);
                assert(abs_params(ps@) =~= orig.update(m as int, pabs));
            }
            return ;
        }
        m = m + 1;
    }
    let p = Param { key, value };
    let ghost pabs = p.abs();
    ps.push(p);
    proof {
        lemma_params_insert_absent(orig, pabs.0, pabs.1);
        assert(abs_params(ps@) =~= orig.push(pabs));
    }
}

/// Finds the first occurrence of `c` in `v`, or `v.len()`.
fn find_char_exec(v: &Vec<char>, c: char) -> (r: usize)
    ensures
        r == find_char(v@, c),
        r <= v@.len(),
{
    let mut j: usize = 0;
    while j < v.len() && v[j] != c
        invariant
            j <= v@.len(),
            forall|t: int| 0 <= t < j ==> v@[t] != c,
        decreases v@.len() - j,
    {
        j = j + 1;
    }
    proof {
        if j < v@.len() {
            lemma_find_char_at(v@, c, j as int);
        } else {
            lemma_find_char_absent(v@, c);
        }
    }
    j
}

/// Parses one logical line into a control token, a property, or a malformed
/// marker.
pub fn parse_line(l: &Vec<char>) -> (r: ParsedLine)
    ensures
        r.abs() == parse_line_spec(l@),
{
    let bkw = begin_kw_vec();
    if starts_ci_exec(l, &bkw) {
        let tag = vec_slice(l, 6, l.len());
        proof {
            assert(tag@ =~= l@.skip(6));
        }
        return ParsedLine::Begin(chars_to_string(&tag));
    }
    let ekw = end_kw_vec();
    if starts_ci_exec(l, &ekw) {
        let tag = vec_slice(l, 4, l.len());
        proof {
            assert(tag@ =~= l@.skip(4));
        }
        return ParsedLine::End(chars_to_string(&tag));
    }
    // scan for the first colon that is outside an escape sequence
    let mut i: usize = 0;
    let mut esc = false;
    proof {
        assert(l@.skip(0) =~= l@);
        lemma_find_colon_rec_bounds(l@, false);
    }
    while i < l.len() && !(!esc && l[i] == ':')
        invariant
            i <= l@.len(),
            find_colon(l@) == i + find_colon_rec(l@.skip(i as int), esc),
        decreases l@.len() - i,
    {
        proof {
            let rem = l@.skip(i as int);
            assert(rem[0] == l@[i as int]);
            assert(rem.skip(1) =~= l@.skip(i + 1 as int));
        }
        esc = !esc && l[i] == '\\';
        i = i + 1;
    }
    proof {
        let rem = l@.skip(i as int);
        if i < l@.len() {
            assert(rem[0] == l@[i as int]);
            assert(find_colon_rec(rem, esc) == 0);
        } else {
            assert(rem =~= Seq::<char>::empty());
        }
    }
    if i == l.len() {
        return ParsedLine::Malformed;
    }
    // property line: left of the colon, name and parameters; right, the value
    let left = vec_slice(l, 0, i);
    proof {
        assert(left@ =~= l@.take(i as int));
    }
    let toks = split_on_exec(&left, ';');
    let ghost stoks = split_on(l@.take(i as int), ';');
    let name = chars_to_string(&toks[0]);
    proof {
        assert(toks@[0]@ == views(toks@)[0]);
    }
    let mut params: Vec<Param> = Vec::new();
    let mut t: usize = 1;
    proof {
        assert(abs_params(params@) =~= Seq::<(Seq<char>, Seq<char>)>::empty());
        assert(stoks.skip(1) =~= stoks.drop_first());
    }
    while t < toks.len()
        invariant
            1 <= t <= toks@.len(),
            views(toks@) == stoks,
            params_of_tokens(stoks.skip(t as int), abs_params(params@)) == params_of_tokens(
                stoks.drop_first(),
                Seq::<(Seq<char>, Seq<char>)>::empty(),
            ),
        decreases toks@.len() - t,
    {
        let tok = &toks[t];
        proof {
            assert(tok@ == stoks[t as int]);
            assert(stoks.skip(t as int)[0] == stoks[t as int]);
            assert(stoks.skip(t as int).drop_first() =~= stoks.skip(t + 1 as int));
        }
        let j = find_char_exec(tok, '=');
        let key_v = vec_slice(tok, 0, j);
        let key = chars_to_string(&key_v);
        let value = if j == tok.len() {
            let empty_v: Vec<char> = Vec::new();
            proof {
                assert(empty_v@ =~= Seq::<char>::empty());
            }
            chars_to_string(&empty_v)
        } else {
            let value_v = vec_slice(tok, j + 1, tok.len());
            proof {
                assert(value_v@ =~= tok@.skip(j + 1));
            }
            chars_to_string(&value_v)
        };
        proof {
            assert(key_v@ =~= tok@.take(j as int));
            assert((key@, value@) == param_of_token(stoks[t as int]));
        }
        params_insert_exec(&mut params, key, value);
        t = t + 1;
    }
    proof {
        assert(stoks.skip(toks@.len() as int) =~= Seq::<Seq<char>>::empty());
        assert(params_of_tokens(Seq::<Seq<char>>::empty(), abs_params(params@)) == abs_params(
            params@,
        ));
    }
    let right = vec_slice(l, i + 1, l.len());
    proof {
        assert(right@ =~= l@.skip(i + 1 as int));
    }
    let value_chars = unescape_vec(&right);
    let raw_value = chars_to_string(&value_chars);
    let prop = Property { name, params, raw_value };
    proof {
        assert(prop.abs().name == stoks[0]);
        assert(prop.abs().params == params_of_tokens(
            stoks.drop_first(),
            Seq::<(Seq<char>, Seq<char>)>::empty(),
        ));
        assert(prop.abs().value == unescape_seq(l@.skip(i + 1 as int)));
    }
    ParsedLine::Prop(prop)
}

} // verus!
