//! Stripping HTML markup from extracted text.
//!
//! A single character scan drops everything between `<` and `>`, and the
//! whole contents of `script` and `style` elements (tag names matched
//! ASCII case-insensitively). The kept text is then cleaned up: split
//! into lines, each trimmed, empty lines dropped, and the remainder
//! joined with single newlines.

use vstd::prelude::*;
use crate::chunker::{trim_chars, trim_spec};
use crate::codec::{chars_to_string, str_to_chars, tag_at, tag_at_exec};

verus! {

/// One step of the markup scan: `in_tag` inside `<...>`, `in_script` and
/// `in_style` inside those elements; visible characters accumulate.
pub open spec fn strip_rec(
    t: Seq<char>,
    i: int,
    in_tag: bool,
    in_script: bool,
    in_style: bool,
    acc: Seq<char>,
) -> Seq<char>
    decreases t.len() - i,
{
    if i < 0 || i >= t.len() {
        acc
    } else {
        let c = t[i];
        if c == '<' {
            let scr = if tag_at(t, i, "<script"@) {
                true
            } else if tag_at(t, i, "</script"@) {
                false
            } else {
                in_script
            };
            let sty = if !tag_at(t, i, "<script"@) && !tag_at(t, i, "</script"@) && tag_at(
                t,
                i,
                "<style"@,
            ) {
                true
            } else if !tag_at(t, i, "<script"@) && !tag_at(t, i, "</script"@) && tag_at(
                t,
                i,
                "</style"@,
            ) {
                false
            } else {
                in_style
            };
            strip_rec(t, i + 1, true, scr, sty, acc)
        } else if c == '>' {
            strip_rec(t, i + 1, false, in_script, in_style, acc)
        } else if !in_tag && !in_script && !in_style {
            strip_rec(t, i + 1, in_tag, in_script, in_style, acc.push(c))
        } else {
            strip_rec(t, i + 1, in_tag, in_script, in_style, acc)
        }
    }
}

/// Split the kept text into lines at newlines, trimming each line and
/// dropping empty ones.
pub open spec fn clean_rec(t: Seq<char>, i: int, cur: Seq<char>, acc: Seq<Seq<char>>) -> Seq<
    Seq<char>,
>
    decreases t.len() - i,
{
    if i < 0 || i >= t.len() {
        if trim_spec(cur).len() > 0 {
            acc.push(trim_spec(cur))
        } else {
            acc
        }
    } else if t[i] == '\n' {
        if trim_spec(cur).len() > 0 {
            clean_rec(t, i + 1, Seq::empty(), acc.push(trim_spec(cur)))
        } else {
            clean_rec(t, i + 1, Seq::empty(), acc)
        }
    } else {
        clean_rec(t, i + 1, cur.push(t[i]), acc)
    }
}

/// The cleaned lines joined with single newlines.
pub open spec fn join_lines(ls: Seq<Seq<char>>) -> Seq<char>
    decreases ls.len(),
{
    if ls.len() == 0 {
        Seq::empty()
    } else if ls.len() == 1 {
        ls[0]
    } else {
        join_lines(ls.drop_last()) + seq!['\n'] + ls.last()
    }
}

/// What `strip_html_tags` returns for a text.
pub open spec fn strip_html_spec(t: Seq<char>) -> Seq<char> {
    join_lines(clean_rec(strip_rec(t, 0, false, false, false, Seq::empty()), 0, Seq::empty(), Seq::empty()))
}

/// Strip HTML markup from `html`: tags, and the contents of `script` and
/// `style` elements, are dropped; the remaining text is returned with
/// each line trimmed, empty lines removed, and lines joined by newlines.
pub fn strip_html_tags(html: &str) -> (r: String)
    ensures
        r@ == strip_html_spec(html@),
{
    let chars = str_to_chars(html);
    let ghost t = html@;
    let mut kept: Vec<char> = Vec::new();
    let mut in_tag = false;
    let mut in_script = false;
    let mut in_style = false;
    let n = chars.len();
    let mut i: usize = 0;
    proof {
        assert(kept@ =~= Seq::<char>::empty());
    }
    while i < n
        invariant
            i <= n,
            n == chars@.len(),
            chars@ == t,
            strip_rec(t, i as int, in_tag, in_script, in_style, kept@) == strip_rec(
                t,
                0,
                false,
                false,
                false,
                Seq::empty(),
            ),
        decreases n - i,
    {
        let c = chars[i];
        if c == '<' {
            in_tag = true;
            if tag_at_exec(&chars, i, "<script") {
                in_script = true;
            } else if tag_at_exec(&chars, i, "</script") {
                in_script = false;
            } else if tag_at_exec(&chars, i, "<style") {
                in_style = true;
            } else if tag_at_exec(&chars, i, "</style") {
                in_style = false;
            }
        } else if c == '>' {
            in_tag = false;
        } else if !in_tag && !in_script && !in_style {
            kept.push(c);
        }
        i = i + 1;
    }
    let ghost stripped = kept@;
    let mut lines: Vec<Vec<char>> = Vec::new();
    let mut cur: Vec<char> = Vec::new();
    let m = kept.len();
    let mut j: usize = 0;
    proof {
        assert(lines.deep_view() =~= Seq::<Seq<char>>::empty());
        assert(cur@ =~= Seq::<char>::empty());
    }
    while j < m
        invariant
            j <= m,
            m == kept@.len(),
            kept@ == stripped,
            clean_rec(stripped, j as int, cur@, lines.deep_view()) == clean_rec(
                stripped,
                0,
                Seq::empty(),
                Seq::empty(),
            ),
        decreases m - j,
    {
        let c = kept[j];
        let ghost prev_lines = lines.deep_view();
        if c == '\n' {
            let trimmed = trim_chars(&cur);
            if trimmed.len() > 0 {
                lines.push(trimmed);
                proof {
                    assert(lines.deep_view() =~~= prev_lines.push(trim_spec(cur@)));
                }
            }
            cur = Vec::new();
            proof {
                assert(cur@ =~= Seq::<char>::empty());
            }
        } else {
            cur.push(c);
        }
        j = j + 1;
    }
    let trimmed = trim_chars(&cur);
    if trimmed.len() > 0 {
        let ghost prev_lines = lines.deep_view();
        lines.push(trimmed);
        proof {
            assert(lines.deep_view() =~~= prev_lines.push(trim_spec(cur@)));
        }
    }
    let ghost cleaned = lines.deep_view();
    let mut out: Vec<char> = Vec::new();
    let k = lines.len();
    let mut x: usize = 0;
    proof {
        assert(out@ =~= Seq::<char>::empty());
        assert(join_lines(cleaned.take(0)) =~= Seq::<char>::empty());
    }
    while x < k
        invariant
            x <= k,
            k == lines@.len(),
            cleaned == lines.deep_view(),
            out@ == join_lines(cleaned.take(x as int)),
        decreases k - x,
    {
        let ghost prev = out@;
        if x > 0 {
            out.push('\n');
        }
        let mut y: usize = 0;
        let line_len = lines[x].len();
        let ghost mid = out@;
        while y < line_len
            invariant
                y <= line_len,
                x < lines@.len(),
                line_len == lines@[x as int]@.len(),
                cleaned == lines.deep_view(),
                out@ == mid + cleaned[x as int].take(y as int),
            decreases line_len - y,
        {
            out.push(lines[x][y]);
            proof {
                assert(cleaned[x as int].take(y + 1) =~= cleaned[x as int].take(y as int).push(
                    lines@[x as int]@[y as int],
                ));
                assert(out@ =~= mid + cleaned[x as int].take(y + 1));
            }
            y = y + 1;
        }
        proof {
            assert(cleaned[x as int].take(line_len as int) =~= cleaned[x as int]);
            assert(cleaned.take(x + 1).drop_last() =~= cleaned.take(x as int));
            assert(cleaned.take(x + 1).last() == cleaned[x as int]);
            if x == 0 {
                assert(out@ =~= cleaned[0]);
                assert(join_lines(cleaned.take(1)) == cleaned.take(1)[0]);
            } else {
                assert(out@ =~= join_lines(cleaned.take(x as int)) + seq!['\n'] + cleaned[x as int]);
            }
        }
        x = x + 1;
    }
    proof {
        assert(cleaned.take(k as int) =~= cleaned);
    }
    chars_to_string(&out)
}

} // verus!
