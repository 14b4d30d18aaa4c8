//! Label text: display math between `$$` markers, line breaks written as
//! `<br/>`, `<br>` or `\n`, and the splitting of a label into trimmed lines.
use vstd::prelude::*;

use crate::math_text::{
    is_space,
    remaining,
    render,
    render_math,
    skip_spaces,
    slice_chars,
    string_from_chars,
    char_is_space,
    lemma_skip_spaces,
};
use crate::names::chars_of;

verus! {

/// First position from `i` on where two `$` follow each other.
pub open spec fn find_pair(s: Seq<char>, i: int) -> Option<int>
    decreases remaining(s, i),
{
    if i < 0 || i + 1 >= s.len() {
        None
    } else if s[i] == '$' && s[i + 1] == '$' {
        Some(i)
    } else {
        find_pair(s, i + 1)
    }
}

pub proof fn lemma_find_pair(s: Seq<char>, i: int)
    ensures
        find_pair(s, i) matches Some(p) ==> i <= p && p + 1 < s.len() && s[p] == '$' && s[p + 1]
            == '$',
    decreases remaining(s, i),
{
    if 0 <= i && i + 1 < s.len() && !(s[i] == '$' && s[i + 1] == '$') {
        lemma_find_pair(s, i + 1);
    }
}

/// `s` from position `i` on, with the math between each pair of `$$`
/// markers rendered as plain text; an opening marker without a closing one
/// stays as it is, with the rest of the text.
pub open spec fn normalize_from(s: Seq<char>, i: int) -> Seq<char>
    decreases s.len() - i,
{
    if i < 0 || i > s.len() {
        Seq::empty()
    } else {
        proof {
            lemma_find_pair(s, i);
        }
        match find_pair(s, i) {
            None => s.subrange(i, s.len() as int),
            Some(a) => {
                proof {
                    lemma_find_pair(s, a + 2);
                }
                match find_pair(s, a + 2) {
                    Some(b) => s.subrange(i, a) + render(s.subrange(a + 2, b)) + normalize_from(
                        s,
                        b + 2,
                    ),
                    None => s.subrange(i, s.len() as int),
                }
            },
        }
    }
}

/// `s` with the math between each pair of `$$` markers rendered.
pub open spec fn normalize(s: Seq<char>) -> Seq<char> {
    normalize_from(s, 0)
}

/// `s` from position `i` on with each occurrence of `pat`, taken from the
/// left and not overlapping, replaced by `to`.
pub open spec fn replace_from(s: Seq<char>, i: int, pat: Seq<char>, to: Seq<char>) -> Seq<char>
    decreases remaining(s, i),
{
    if i < 0 || i >= s.len() {
        Seq::empty()
    } else if pat.len() > 0 && i + pat.len() <= s.len() && s.subrange(i, i + pat.len()) == pat {
        to + replace_from(s, i + pat.len(), pat, to)
    } else {
        seq![s[i]] + replace_from(s, i + 1, pat, to)
    }
}

/// `s` with each occurrence of `pat` replaced by `to`.
pub open spec fn replace(s: Seq<char>, pat: Seq<char>, to: Seq<char>) -> Seq<char> {
    replace_from(s, 0, pat, to)
}

/// First position from `i` on that holds a line feed.
pub open spec fn first_newline(s: Seq<char>, i: int) -> Option<int>
    decreases remaining(s, i),
{
    if i < 0 || i >= s.len() {
        None
    } else if s[i] == '\n' {
        Some(i)
    } else {
        first_newline(s, i + 1)
    }
}

pub proof fn lemma_first_newline(s: Seq<char>, i: int)
    requires
        0 <= i,
    ensures
        match first_newline(s, i) {
            Some(p) => i <= p < s.len() && s[p] == '\n' && forall|k: int|
                i <= k < p ==> s[k] != '\n',
            None => forall|k: int| i <= k < s.len() ==> s[k] != '\n',
        },
    decreases remaining(s, i),
{
    if i < s.len() && s[i] != '\n' {
        lemma_first_newline(s, i + 1);
    }
}

/// The pieces of `s` from position `i` on between line feeds.
pub open spec fn pieces_from(s: Seq<char>, i: int) -> Seq<Seq<char>>
    decreases s.len() - i,
{
    if i < 0 || i > s.len() {
        Seq::empty()
    } else {
        proof {
            lemma_first_newline(s, i);
        }
        match first_newline(s, i) {
            Some(p) => seq![s.subrange(i, p)] + pieces_from(s, p + 1),
            None => seq![s.subrange(i, s.len() as int)],
        }
    }
}

/// The pieces of `s` between line feeds (one piece where there is none).
pub open spec fn pieces(s: Seq<char>) -> Seq<Seq<char>> {
    pieces_from(s, 0)
}

/// One past the last position before `j` that is not white space.
pub open spec fn trim_end(s: Seq<char>, j: int) -> int
    decreases j,
{
    if 0 < j <= s.len() && is_space(s[j - 1]) {
        trim_end(s, j - 1)
    } else {
        j
    }
}

/// `s` without white space at either end.
pub open spec fn trim(s: Seq<char>) -> Seq<char> {
    let a = skip_spaces(s, 0);
    let b = trim_end(s, s.len() as int);
    if a < b {
        s.subrange(a, b)
    } else {
        Seq::empty()
    }
}

/// The line break markup of labels.
pub open spec fn br_slash() -> Seq<char> {
    seq!['<', 'b', 'r', '/', '>']
}

pub open spec fn br() -> Seq<char> {
    seq!['<', 'b', 'r', '>']
}

pub open spec fn escaped_newline() -> Seq<char> {
    seq!['\\', 'n']
}

/// A label's text with its math rendered and each line break made a line
/// feed.
pub open spec fn with_line_feeds(text: Seq<char>) -> Seq<char> {
    replace(
        replace(replace(normalize(text), br_slash(), seq!['\n']), br(), seq!['\n']),
        escaped_newline(),
        seq!['\n'],
    )
}

/// The lines of a label: the pieces between line breaks, each trimmed.
pub open spec fn label_lines(text: Seq<char>) -> Seq<Seq<char>> {
    pieces(with_line_feeds(text)).map_values(|p: Seq<char>| trim(p))
}

/// First position from `i` on where `$$` starts.
fn find_pair_from(s: &Vec<char>, i: usize) -> (res: Option<usize>)
    requires
        i <= s.len(),
    ensures
        match res {
            Some(p) => find_pair(s@, i as int) == Some(p as int),
            None => find_pair(s@, i as int) is None,
        },
{
    let mut k = i;
    while k < s.len() && s.len() - k > 1
        invariant
            i <= k <= s.len(),
            find_pair(s@, i as int) == find_pair(s@, k as int),
        decreases s.len() - k,
    {
        if s[k] == '$' && s[k + 1] == '$' {
            return Some(k);
        }
        k += 1;
    }
    None
}

/// `s` with the math between each pair of `$$` markers rendered.
fn normalize_chars(s: &Vec<char>) -> (out: Vec<char>)
    ensures
        out@ == normalize(s@),
{
    let mut out: Vec<char> = Vec::new();
    let mut i: usize = 0;
    proof {
        assert(out@ + normalize_from(s@, 0) =~= normalize_from(s@, 0));
    }
    loop
        invariant
            i <= s.len(),
            out@ + normalize_from(s@, i as int) == normalize_from(s@, 0),
        decreases s.len() - i,
    {
        let ghost before = out@;
        proof {
            lemma_find_pair(s@, i as int);
        }
        match find_pair_from(s, i) {
            None => {
                let mut tail = slice_chars(s, i, s.len());
                out.append(&mut tail);
                return out;
            },
            Some(a) => {
                proof {
                    lemma_find_pair(s@, a + 2);
                }
                match find_pair_from(s, a + 2) {
                    None => {
                        let mut tail = slice_chars(s, i, s.len());
                        out.append(&mut tail);
                        return out;
                    },
                    Some(b) => {
                        let mut head = slice_chars(s, i, a);
                        let ghost hv = head@;
                        let inner = slice_chars(s, a + 2, b);
                        let mut math = render_math(&inner);
                        let ghost mv = math@;
                        out.append(&mut head);
                        out.append(&mut math);
                        i = b + 2;
                        proof {
                            let rest = normalize_from(s@, i as int);
                            assert(out@ + rest =~= before + (hv + mv + rest));
                        }
                    },
                }
            },
        }
    }
}

/// Whether `pat` occurs in `s` at position `i`.
fn matches_at(s: &Vec<char>, i: usize, pat: &Vec<char>) -> (res: bool)
    requires
        i <= s.len(),
    ensures
        res == (i + pat.len() <= s.len() && s@.subrange(i as int, i + pat.len()) == pat@),
{
    if pat.len() > s.len() - i {
        return false;
    }
    let mut k: usize = 0;
    while k < pat.len()
        invariant
            k <= pat.len(),
            i + pat.len() <= s.len(),
            forall|q: int| 0 <= q < k ==> s@[i + q] == pat@[q],
        decreases pat.len() - k,
    {
        if s[i + k] != pat[k] {
            proof {
                assert(s@.subrange(i as int, i + pat.len())[k as int] == s@[i + k]);
            }
            return false;
        }
        k += 1;
    }
    proof {
        assert(s@.subrange(i as int, i + pat.len()) =~= pat@);
    }
    true
}

/// `s` with each occurrence of `pat` replaced by `to`.
fn replace_chars(s: &Vec<char>, pat: &Vec<char>, to: &Vec<char>) -> (out: Vec<char>)
    requires
        pat.len() > 0,
    ensures
        out@ == replace(s@, pat@, to@),
{
    let mut out: Vec<char> = Vec::new();
    let mut i: usize = 0;
    proof {
        assert(out@ + replace_from(s@, 0, pat@, to@) =~= replace(s@, pat@, to@));
    }
    while i < s.len()
        invariant
            i <= s.len(),
            pat.len() > 0,
            out@ + replace_from(s@, i as int, pat@, to@) == replace(s@, pat@, to@),
        decreases s.len() - i,
    {
        let ghost before = out@;
        if matches_at(s, i, pat) {
            let mut piece = slice_chars(to, 0, to.len());
            out.append(&mut piece);
            i += pat.len();
            proof {
                assert(to@.subrange(0, to@.len() as int) =~= to@);
                let rest = replace_from(s@, i as int, pat@, to@);
                assert(out@ + rest =~= before + (to@ + rest));
            }
        } else {
            out.push(s[i]);
            i += 1;
            proof {
                let rest = replace_from(s@, i as int, pat@, to@);
                assert(out@ + rest =~= before + (seq![s@[i - 1]] + rest));
            }
        }
    }
    proof {
        assert(out@ + replace_from(s@, i as int, pat@, to@) =~= out@);
    }
    out
}

/// The pieces of `s` between line feeds.
fn split_line_feeds(s: &Vec<char>) -> (out: Vec<Vec<char>>)
    ensures
        out.len() == pieces(s@).len(),
        forall|k: int| 0 <= k < out.len() ==> (#[trigger] out[k])@ == pieces(s@)[k],
{
    let mut out: Vec<Vec<char>> = Vec::new();
    let ghost mut got: Seq<Seq<char>> = Seq::empty();
    let mut start: usize = 0;
    let mut i: usize = 0;
    proof {
        assert(got + pieces_from(s@, 0) =~= pieces(s@));
    }
    while i < s.len()
        invariant
            start <= i <= s.len(),
            forall|k: int| start <= k < i ==> s@[k] != '\n',
            out.len() == got.len(),
            forall|k: int| 0 <= k < out.len() ==> (#[trigger] out[k])@ == got[k],
            got + pieces_from(s@, start as int) == pieces(s@),
        decreases s.len() - i,
    {
        if s[i] == '\n' {
            let ghost st = start as int;
            proof {
                lemma_first_newline(s@, st);
                assert(first_newline(s@, st) == Some(i as int));
            }
            let piece = slice_chars(s, start, i);
            out.push(piece);
            start = i + 1;
            proof {
                let rest = pieces_from(s@, start as int);
                let old_got = got;
                got = got.push(s@.subrange(st, i as int));
                assert(got + rest =~= old_got + (seq![s@.subrange(st, i as int)] + rest));
            }
        }
        i += 1;
    }
    proof {
        lemma_first_newline(s@, start as int);
    }
    let last = slice_chars(s, start, s.len());
    out.push(last);
    proof {
        let old_got = got;
        got = got.push(s@.subrange(start as int, s.len() as int));
        assert(got =~= old_got + pieces_from(s@, start as int));
    }
    out
}

/// `s` without white space at either end.
fn trim_chars(s: &Vec<char>) -> (out: Vec<char>)
    ensures
        out@ == trim(s@),
{
    let mut a: usize = 0;
    while a < s.len() && char_is_space(s[a])
        invariant
            a <= s.len(),
            skip_spaces(s@, 0) == skip_spaces(s@, a as int),
        decreases s.len() - a,
    {
        a += 1;
    }
    let mut b: usize = s.len();
    while b > 0 && char_is_space(s[b - 1])
        invariant
            b <= s.len(),
            trim_end(s@, s.len() as int) == trim_end(s@, b as int),
        decreases b,
    {
        b -= 1;
    }
    if a < b {
        slice_chars(s, a, b)
    } else {
        Vec::new()
    }
}

/// `text` with the math between each pair of `$$` markers rendered as plain
/// text; an opening marker without a closing one is kept with what follows.
pub fn normalize_display_math(text: &str) -> (out: String)
    ensures
        out@ == normalize(text@),
{
    let s = chars_of(text);
    let v = normalize_chars(&s);
    string_from_chars(&v)
}

/// The lines of a label: math rendered, `<br/>`, `<br>` and `\n` taken as
/// line breaks like a line feed, and each line trimmed.
pub fn split_lines(text: &str) -> (lines: Vec<String>)
    ensures
        lines.len() == label_lines(text@).len(),
        forall|k: int| 0 <= k < lines.len() ==> (#[trigger] lines[k])@ == label_lines(text@)[k],
{
    let s = chars_of(text);
    let t0 = normalize_chars(&s);
    let nl: Vec<char> = vec!['\n'];
    let br_slash_chars: Vec<char> = vec!['<', 'b', 'r', '/', '>'];
    let br_chars: Vec<char> = vec!['<', 'b', 'r', '>'];
    let escaped: Vec<char> = vec!['\\', 'n'];
    proof {
        assert(nl@ == seq!['\n']);
        assert(br_slash_chars@ == br_slash());
        assert(br_chars@ == br());
        assert(escaped@ == escaped_newline());
    }
    let t1 = replace_chars(&t0, &br_slash_chars, &nl);
    let t2 = replace_chars(&t1, &br_chars, &nl);
    let t3 = replace_chars(&t2, &escaped, &nl);
    let parts = split_line_feeds(&t3);
    let mut lines: Vec<String> = Vec::new();
    let mut k: usize = 0;
    while k < parts.len()
        invariant
            k <= parts.len(),
            t3@ == with_line_feeds(text@),
            parts.len() == pieces(t3@).len(),
            forall|q: int| 0 <= q < parts.len() ==> (#[trigger] parts[q])@ == pieces(t3@)[q],
            lines.len() == k,
            forall|q: int| 0 <= q < k ==> (#[trigger] lines[q])@ == label_lines(text@)[q],
        decreases parts.len() - k,
    {
        let trimmed = trim_chars(&parts[k]);
        proof {
            assert(parts[k as int]@ == pieces(t3@)[k as int]);
        }
        lines.push(string_from_chars(&trimmed));
        k += 1;
    }
    lines
}

/// `s` without the copies of `c` it starts with.
pub open spec fn strip_leading(s: Seq<char>, c: char) -> Seq<char>
    decreases s.len(),
{
    if s.len() > 0 && s[0] == c {
        strip_leading(s.skip(1), c)
    } else {
        s
    }
}

/// `s` without the copies of `c` it ends with.
pub open spec fn strip_trailing(s: Seq<char>, c: char) -> Seq<char>
    decreases s.len(),
{
    if s.len() > 0 && s.last() == c {
        strip_trailing(s.drop_last(), c)
    } else {
        s
    }
}

/// The text of a requirement relation's label: trimmed, without the angle
/// brackets around it, trimmed again.
pub open spec fn relation_text(label: Seq<char>) -> Seq<char> {
    trim(strip_trailing(strip_leading(trim(label), '<'), '>'))
}

/// `s` without the copies of `c` it starts and ends with.
fn strip_both(s: &Vec<char>, lead: char, trail: char) -> (out: Vec<char>)
    ensures
        out@ == strip_trailing(strip_leading(s@, lead), trail),
{
    let mut a: usize = 0;
    proof {
        assert(s@.skip(0) =~= s@);
    }
    while a < s.len() && s[a] == lead
        invariant
            a <= s.len(),
            strip_leading(s@, lead) == strip_leading(s@.skip(a as int), lead),
        decreases s.len() - a,
    {
        proof {
            assert(s@.skip(a as int).skip(1) =~= s@.skip(a + 1));
        }
        a += 1;
    }
    let mut b: usize = s.len();
    proof {
        assert(s@.skip(a as int) =~= s@.subrange(a as int, b as int));
    }
    while b > a && s[b - 1] == trail
        invariant
            a <= b <= s.len(),
            strip_leading(s@, lead) == s@.skip(a as int),
            strip_trailing(strip_leading(s@, lead), trail) == strip_trailing(
                s@.subrange(a as int, b as int),
                trail,
            ),
        decreases b,
    {
        proof {
            assert(s@.subrange(a as int, b as int).drop_last() =~= s@.subrange(a as int, b - 1));
        }
        b -= 1;
    }
    slice_chars(s, a, b)
}

/// The label of a requirement relation as drawn: the label without white
/// space and angle brackets around it, between `<<` and `>>` when
/// `brackets` is set; the empty text where nothing is left.
pub fn requirement_edge_label_text(label: &str, brackets: bool) -> (text: String)
    ensures
        relation_text(label@).len() == 0 ==> text@ == Seq::<char>::empty(),
        relation_text(label@).len() > 0 && brackets ==> text@ == seq!['<', '<'] + relation_text(
            label@,
        ) + seq!['>', '>'],
        relation_text(label@).len() > 0 && !brackets ==> text@ == relation_text(label@),
{
    let s = chars_of(label);
    let t0 = trim_chars(&s);
    let t1 = strip_both(&t0, '<', '>');
    let core = trim_chars(&t1);
    if core.len() == 0 {
        return String::new();
    }
    if brackets {
        let mut out: Vec<char> = Vec::new();
        out.push('<');
        out.push('<');
        let mut mid = slice_chars(&core, 0, core.len());
        out.append(&mut mid);
        out.push('>');
        out.push('>');
        proof {
            assert(core@.subrange(0, core@.len() as int) =~= core@);
            assert(out@ =~= seq!['<', '<'] + core@ + seq!['>', '>']);
        }
        string_from_chars(&out)
    } else {
        string_from_chars(&core)
    }
}

pub proof fn lemma_trim_end(s: Seq<char>, j: int)
    requires
        0 <= j <= s.len(),
    ensures
        0 <= trim_end(s, j) <= j,
        trim_end(s, j) > 0 ==> !is_space(s[trim_end(s, j) - 1]),
        forall|k: int| trim_end(s, j) <= k < j ==> is_space(#[trigger] s[k]),
    decreases j,
{
    if 0 < j && is_space(s[j - 1]) {
        lemma_trim_end(s, j - 1);
    }
}

/// A trimmed text neither starts nor ends with white space, and holds no
/// character that `s` does not.
pub proof fn lemma_trim_clean(s: Seq<char>)
    ensures
        trim(s).len() > 0 ==> !is_space(trim(s)[0]) && !is_space(trim(s).last()),
        forall|k: int| 0 <= k < trim(s).len() ==> exists|p: int| 0 <= p < s.len() && #[trigger] s[p] == #[trigger] trim(s)[k],
{
    lemma_skip_spaces(s, 0);
    lemma_trim_end(s, s.len() as int);
    let a = skip_spaces(s, 0);
    let b = trim_end(s, s.len() as int);
    if a < b {
        assert(trim(s)[0] == s[a]);
        assert(trim(s).last() == s[b - 1]);
        assert forall|k: int| 0 <= k < trim(s).len() implies exists|p: int| 0 <= p < s.len() && #[trigger] s[p] == #[trigger] trim(s)[k] by {
            assert(s[a + k] == trim(s)[k]);
        }
    }
}

/// No piece between line feeds holds a line feed, and there is always at
/// least one piece.
pub proof fn lemma_pieces_clean(s: Seq<char>, i: int)
    requires
        0 <= i <= s.len(),
    ensures
        pieces_from(s, i).len() >= 1,
        forall|k: int, q: int|
            0 <= k < pieces_from(s, i).len() && 0 <= q < pieces_from(s, i)[k].len() ==> #[trigger] pieces_from(s, i)[k][q]
                != '\n',
    decreases s.len() - i,
{
    lemma_first_newline(s, i);
    match first_newline(s, i) {
        Some(p) => {
            lemma_pieces_clean(s, p + 1);
            let rest = pieces_from(s, p + 1);
            let all = pieces_from(s, i);
            assert(all == seq![s.subrange(i, p)] + rest);
            assert forall|k: int, q: int| 0 <= k < all.len() && 0 <= q < all[k].len() implies #[trigger] all[k][q] != '\n' by {
                if k == 0 {
                    assert(all[0][q] == s[i + q]);
                } else {
                    assert(all[k] == rest[k - 1]);
                    assert(rest[k - 1][q] != '\n');
                }
            }
        },
        None => {
            let all = pieces_from(s, i);
            assert forall|k: int, q: int| 0 <= k < all.len() && 0 <= q < all[k].len() implies #[trigger] all[k][q] != '\n' by {
                assert(all[0][q] == s[i + q]);
            }
        },
    }
}

/// A label has at least one line, and each line is free of line feeds and
/// of white space at either end.
pub proof fn lemma_label_lines_clean(text: Seq<char>)
    ensures
        label_lines(text).len() >= 1,
        forall|k: int| 0 <= k < label_lines(text).len() ==> {
            let line = #[trigger] label_lines(text)[k];
            &&& forall|q: int| 0 <= q < line.len() ==> line[q] != '\n'
            &&& line.len() > 0 ==> !is_space(line[0]) && !is_space(line.last())
        },
{
    let t = with_line_feeds(text);
    lemma_pieces_clean(t, 0);
    let ps = pieces(t);
    assert forall|k: int| 0 <= k < label_lines(text).len() implies {
        let line = #[trigger] label_lines(text)[k];
        &&& forall|q: int| 0 <= q < line.len() ==> line[q] != '\n'
        &&& line.len() > 0 ==> !is_space(line[0]) && !is_space(line.last())
    } by {
        let line = label_lines(text)[k];
        assert(line == trim(ps[k]));
        lemma_trim_clean(ps[k]);
        assert forall|q: int| 0 <= q < line.len() implies line[q] != '\n' by {
            let p = choose|p: int| 0 <= p < ps[k].len() && #[trigger] ps[k][p] == #[trigger] trim(ps[k])[q];
            assert(ps[k][p] != '\n');
        }
    }
}

/// Text without a `$$` marker is left as it is.
pub proof fn lemma_normalize_without_math(s: Seq<char>)
    requires
        find_pair(s, 0) is None,
    ensures
        normalize(s) == s,
{
    assert(s.subrange(0, s.len() as int) =~= s);
}

} // verus!
