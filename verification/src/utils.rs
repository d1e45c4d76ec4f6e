use vstd::prelude::*;
use vstd::string::{StrSliceExecFns, StringExecFns};

verus! {

/// Relies on `<str as PartialEq>::eq` from std: string slices compare
/// equal exactly when their character sequences are equal.
#[verifier::external_body]
pub(crate) fn str_eq(a: &str, b: &str) -> (r: bool)
    ensures
        r == (a@ == b@),
{
    a == b
}

pub open spec fn is_ws_char(c: char) -> bool {
    c == ' ' || c == '\t' || c == '\n' || c == '\x0C' || c == '\r'
}

/// A line is blank when every character is ASCII whitespace.
pub open spec fn is_blank_spec(s: Seq<char>) -> bool {
    forall|i: int| 0 <= i < s.len() ==> is_ws_char(#[trigger] s[i])
}

/// The position of the first character that is not ASCII whitespace,
/// or the length when there is none.
pub open spec fn indent_width_from(s: Seq<char>, i: int) -> int
    decreases s.len() - i
    when 0 <= i <= s.len()
{
    if i >= s.len() {
        i
    } else if !is_ws_char(s[i]) {
        i
    } else {
        indent_width_from(s, i + 1)
    }
}

pub open spec fn indent_width_spec(s: Seq<char>) -> int {
    indent_width_from(s, 0)
}

pub fn is_blank(s: &str) -> (b: bool)
    ensures
        b == is_blank_spec(s@),
{
    let len = s.unicode_len();
    let mut i: usize = 0;
    while i < len
        invariant
            i <= len,
            len == s@.len(),
            forall|q: int| 0 <= q < i ==> is_ws_char(#[trigger] s@[q]),
        decreases len - i,
    {
        let c = s.get_char(i);
        if !(c == ' ' || c == '\t' || c == '\n' || c == '\x0C' || c == '\r') {
            return false;
        }
        i += 1;
    }
    true
}

pub fn indent_width(s: &str) -> (w: usize)
    ensures
        w as int == indent_width_spec(s@),
{
    let len = s.unicode_len();
    let mut i: usize = 0;
    while i < len
        invariant
            i <= len,
            len == s@.len(),
            indent_width_spec(s@) == indent_width_from(s@, i as int),
        decreases len - i,
    {
        let c = s.get_char(i);
        if !(c == ' ' || c == '\t' || c == '\n' || c == '\x0C' || c == '\r') {
            return i;
        }
        i += 1;
    }
    len
}

/// Prefix a line with an indent.  (A closure-returning factory has no
/// contract a caller could rely on, so this takes the line directly.)
pub fn get_add_function(indent: &str, line: &str) -> (r: String)
    ensures
        r@ == indent@ + line@,
{
    let mut s = String::new();
    s.append(indent);
    s.append(line);
    proof {
        assert(s@ =~= indent@ + line@);
    }
    s
}

/// Where a cut of `indent` characters starts: never past the last
/// character, so a line is never emptied entirely.
pub open spec fn cut_start(indent: int, len: int) -> int {
    let n = if len >= 1 {
        len - 1
    } else {
        0
    };
    if indent <= n {
        indent
    } else {
        n
    }
}

pub open spec fn cut_line(l: Seq<char>, cut: int) -> Seq<char> {
    l.subrange(cut_start(cut, l.len() as int), l.len() as int)
}

/// Drop up to `indent` leading characters from a line, keeping at
/// least one.  (Takes the line directly, for the same reason as above.)
pub fn get_cut_function(indent: usize, line: &str) -> (r: String)
    ensures
        r@ == cut_line(line@, indent as int),
{
    let len = line.unicode_len();
    let n = if len >= 1 {
        len - 1
    } else {
        0
    };
    let idx = if indent <= n {
        indent
    } else {
        n
    };
    let sub = line.substring_char(idx, len);
    String::from_str(sub)
}

pub open spec fn strs_view(v: Seq<String>) -> Seq<Seq<char>> {
    v.map_values(|x: String| x@)
}

/// Which lines a reindent keeps: all but blank first and last lines.
pub open spec fn keep_line(lines: Seq<Seq<char>>, i: int) -> bool {
    (i != 0 && i + 1 != lines.len()) || !is_blank_spec(lines[i])
}

/// The kept lines among the first `i`, each cut and re-indented.
pub open spec fn sel_lines(lines: Seq<Seq<char>>, ind: Seq<char>, cut: int, i: int) -> Seq<
    Seq<char>,
>
    decreases i,
{
    if i <= 0 {
        Seq::empty()
    } else {
        sel_lines(lines, ind, cut, i - 1) + (if keep_line(lines, i - 1) {
            seq![ind + cut_line(lines[i - 1], cut)]
        } else {
            Seq::empty()
        })
    }
}

pub open spec fn join_lines(ys: Seq<Seq<char>>) -> Seq<char>
    decreases ys.len(),
{
    if ys.len() == 0 {
        Seq::empty()
    } else if ys.len() == 1 {
        ys[0]
    } else {
        join_lines(ys.drop_last()) + seq!['\n'] + ys.last()
    }
}

pub open spec fn reindent_spec(lines: Seq<Seq<char>>, ind: Seq<char>, cut: int) -> Seq<char> {
    join_lines(sel_lines(lines, ind, cut, lines.len() as int))
}

/// Rebuild a text from its lines: cut `cut` leading characters from
/// each kept line, prefix `new_indent`, skip blank first and last
/// lines, and join with newlines.  (Takes the cut width and the indent
/// directly, in place of a pair of line-transforming closures.)
pub fn reindent(xs: &Vec<String>, new_indent: &str, cut: usize) -> (r: String)
    ensures
        r@ == reindent_spec(strs_view(xs@), new_indent@, cut as int),
{
    let ghost lines = strs_view(xs@);
    let n = xs.len();
    let mut ys: Vec<String> = Vec::new();
    let mut i: usize = 0;
    while i < n
        invariant
            i <= n,
            n == xs@.len(),
            lines == strs_view(xs@),
            strs_view(ys@) == sel_lines(lines, new_indent@, cut as int, i as int),
        decreases n - i,
    {
        let keep = (i != 0 && i + 1 != n) || !is_blank(xs[i].as_str());
        if keep {
            let x1 = get_cut_function(cut, xs[i].as_str());
            let x2 = get_add_function(new_indent, x1.as_str());
            ys.push(x2);
            proof {
                assert(strs_view(ys@) =~= sel_lines(lines, new_indent@, cut as int, i as int + 1));
            }
        } else {
            proof {
                assert(strs_view(ys@) =~= sel_lines(lines, new_indent@, cut as int, i as int + 1));
            }
        }
        i += 1;
    }
    let m = ys.len();
    let mut r = String::new();
    let ghost sel = strs_view(ys@);
    let mut k: usize = 0;
    while k < m
        invariant
            k <= m,
            m == ys@.len(),
            sel == strs_view(ys@),
            r@ == join_lines(sel.take(k as int)),
        decreases m - k,
    {
        if k > 0 {
            r.append("\n");
            proof {
                reveal_strlit("\n");
                assert("\n"@ =~= seq!['\n']);
            }
        }
        r.append(ys[k].as_str());
        proof {
            assert(sel.take(k as int + 1).drop_last() =~= sel.take(k as int));
            assert(sel.take(k as int + 1).last() == sel[k as int]);
            assert(r@ =~= join_lines(sel.take(k as int + 1)));
        }
        k += 1;
    }
    proof {
        assert(sel.take(m as int) =~= sel);
    }
    r
}

/// A plain split of a text on newlines, built character by character:
/// one piece more than there are newlines.
pub open spec fn split_all(s: Seq<char>) -> Seq<Seq<char>>
    decreases s.len(),
{
    if s.len() == 0 {
        seq![Seq::<char>::empty()]
    } else if s.last() == '\n' {
        split_all(s.drop_last()).push(Seq::empty())
    } else {
        let prev = split_all(s.drop_last());
        prev.update(prev.len() - 1, prev.last().push(s.last()))
    }
}

pub open spec fn strip_cr(l: Seq<char>) -> Seq<char> {
    if l.len() > 0 && l.last() == '\r' {
        l.drop_last()
    } else {
        l
    }
}

pub open spec fn strip_all(ls: Seq<Seq<char>>) -> Seq<Seq<char>> {
    ls.map_values(|l: Seq<char>| strip_cr(l))
}

/// The lines of a text as std's `str::lines` yields them: split on
/// newlines, a carriage return before each newline stripped, and no
/// empty piece after a final newline.
pub open spec fn lines_spec(s: Seq<char>) -> Seq<Seq<char>> {
    let raw = split_all(s);
    if raw.last().len() == 0 {
        strip_all(raw.drop_last())
    } else {
        strip_all(raw.drop_last()).push(raw.last())
    }
}

/// The smallest indent width over the first `i` non-blank lines.
pub open spec fn min_indent(lines: Seq<Seq<char>>, i: int) -> Option<int>
    decreases i,
{
    if i <= 0 {
        None
    } else {
        let rest = min_indent(lines, i - 1);
        if is_blank_spec(lines[i - 1]) {
            rest
        } else {
            let w = indent_width_spec(lines[i - 1]);
            match rest {
                None => Some(w),
                Some(m) => Some(
                    if w < m {
                        w
                    } else {
                        m
                    },
                ),
            }
        }
    }
}

pub open spec fn replace_indent_spec(s: Seq<char>, ind: Seq<char>) -> Seq<char> {
    let lines = lines_spec(s);
    let cut = match min_indent(lines, lines.len() as int) {
        None => 0int,
        Some(m) => m,
    };
    reindent_spec(lines, ind, cut)
}

/// Strip the common indent of all non-blank lines and replace it with
/// `new_indent`, dropping a blank first and last line.
pub fn replace_indent(src: &str, new_indent: &str) -> (r: String)
    ensures
        r@ == replace_indent_spec(src@, new_indent@),
{
    let len = src.unicode_len();
    let mut pieces: Vec<String> = Vec::new();
    let mut start: usize = 0;
    let mut i: usize = 0;
    proof {
        assert(split_all(src@.take(0)) =~~= strs_view(pieces@).push(src@.subrange(0, 0)));
    }
    while i < len
        invariant
            start <= i <= len,
            len == src@.len(),
            split_all(src@.take(i as int)) == strs_view(pieces@).push(
                src@.subrange(start as int, i as int),
            ),
        decreases len - i,
    {
        let c = src.get_char(i);
        proof {
            assert(src@.take(i as int + 1).drop_last() =~= src@.take(i as int));
            assert(src@.take(i as int + 1).last() == src@[i as int]);
        }
        if c == '\n' {
            let ghost old_pieces = strs_view(pieces@);
            let ghost old_start = start as int;
            let piece = String::from_str(src.substring_char(start, i));
            pieces.push(piece);
            start = i + 1;
            proof {
                assert(strs_view(pieces@) =~~= old_pieces.push(src@.subrange(
                    old_start,
                    i as int,
                )));
                assert(split_all(src@.take(i as int + 1)) =~~= strs_view(pieces@).push(
                    src@.subrange(start as int, i as int + 1),
                ));
            }
        } else {
            proof {
                let prev = strs_view(pieces@).push(src@.subrange(start as int, i as int));
                assert(prev.last().push(src@[i as int]) =~= src@.subrange(
                    start as int,
                    i as int + 1,
                ));
                assert(split_all(src@.take(i as int + 1)) =~~= strs_view(pieces@).push(
                    src@.subrange(start as int, i as int + 1),
                ));
            }
        }
        i += 1;
    }
    let last_piece = String::from_str(src.substring_char(start, len));
    proof {
        assert(src@.take(len as int) =~= src@);
        assert(last_piece@ == src@.subrange(start as int, len as int));
    }
    // lines as std would give them: terminated pieces lose a trailing
    // carriage return; an empty final piece is dropped
    let ghost raw = split_all(src@);
    let mut lines: Vec<String> = Vec::new();
    let np = pieces.len();
    let mut k: usize = 0;
    while k < np
        invariant
            k <= np,
            np == pieces@.len(),
            raw == strs_view(pieces@).push(last_piece@),
            strs_view(lines@) == strip_all(strs_view(pieces@).take(k as int)),
        decreases np - k,
    {
        let p = &pieces[k];
        let pl = p.as_str().unicode_len();
        let stripped: String = if pl > 0 && p.as_str().get_char(pl - 1) == '\r' {
            String::from_str(p.as_str().substring_char(0, pl - 1))
        } else {
            p.clone()
        };
        proof {
            assert(stripped@ =~= strip_cr(pieces@[k as int]@));
        }
        let ghost lv0 = lines@;
        let ghost stv = stripped@;
        lines.push(stripped);
        proof {
            let pv = strs_view(pieces@);
            assert(strs_view(lines@) =~~= strs_view(lv0).push(stv));
            assert(strip_all(pv.take(k as int + 1)) =~~= strip_all(pv.take(k as int)).push(
                strip_cr(pv[k as int]),
            ));
            assert(strs_view(lines@) =~~= strip_all(pv.take(k as int + 1)));
        }
        k += 1;
    }
    proof {
        assert(strs_view(pieces@).take(np as int) =~= strs_view(pieces@));
    }
    if last_piece.as_str().unicode_len() > 0 {
        lines.push(last_piece);
    }
    proof {
        assert(raw.drop_last() =~= strs_view(pieces@));
        assert(raw.last() == last_piece@);
        assert(strs_view(lines@) =~= lines_spec(src@));
    }
    // smallest indent over the non-blank lines
    let nl = lines.len();
    let ghost lv = strs_view(lines@);
    let mut have = false;
    let mut min_w: usize = 0;
    let mut q: usize = 0;
    while q < nl
        invariant
            q <= nl,
            nl == lines@.len(),
            lv == strs_view(lines@),
            match min_indent(lv, q as int) {
                None => !have,
                Some(m) => have && min_w as int == m,
            },
        decreases nl - q,
    {
        if !is_blank(lines[q].as_str()) {
            let w = indent_width(lines[q].as_str());
            if !have || w < min_w {
                min_w = w;
                have = true;
            }
        }
        q += 1;
    }
    let cut = if have {
        min_w
    } else {
        0
    };
    reindent(&lines, new_indent, cut)
}

/// Indent manipulation on string slices, in method form.
pub trait Trim {
    fn trim_indent(self) -> String;

    fn replace_indent(self, new_indent: &str) -> String;
}

impl<'a> Trim for &'a str {
    fn trim_indent(self) -> String {
        crate::utils::replace_indent(self, "")
    }

    fn replace_indent(self, new_indent: &str) -> String {
        crate::utils::replace_indent(self, new_indent)
    }
}

} // verus!
